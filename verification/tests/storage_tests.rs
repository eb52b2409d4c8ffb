use playlist_sync::Album;
use playlist_sync::LibraryDatabase;
use playlist_sync::Track;

fn track(id: &str, title: &str, artist: &str, album: &str) -> Track {
    Track {
        id: Some(id.to_string()),
        title: title.to_string(),
        artists: vec![artist.to_string()],
        album_id: Some("al".to_string()),
        album_name: album.to_string(),
        track_number: 1,
    }
}

fn album(id: &str, genres: &[&str], track_ids: &[&str]) -> Album {
    Album {
        id: id.to_string(),
        name: id.to_string(),
        tracks: track_ids.iter().map(|t| track(t, t, "artist", id)).collect(),
        genres: genres.iter().map(|g| g.to_string()).collect(),
        total_tracks: track_ids.len() as u32,
    }
}

fn snapshot(db: &LibraryDatabase) -> Vec<(Option<String>, String)> {
    db.retrieve_tracks().iter().map(|t| (t.id.clone(), t.title.clone())).collect()
}

#[test]
fn update_all_twice_with_same_data_is_identical() {
    let mut db = LibraryDatabase::new();
    let tracks = || vec![track("t1", "one", "x", "a"), track("t2", "two", "y", "b")];
    let albums = || vec![album("a1", &["rock"], &["t1"])];
    db.update_all(tracks(), albums());
    let first = snapshot(&db);
    let first_albums: Vec<String> = db.retrieve_albums().iter().map(|a| a.id.clone()).collect();
    db.update_all(tracks(), albums());
    assert_eq!(snapshot(&db), first);
    let second_albums: Vec<String> = db.retrieve_albums().iter().map(|a| a.id.clone()).collect();
    assert_eq!(second_albums, first_albums);
}

#[test]
fn update_overwrites_matching_key_and_keeps_others() {
    let mut db = LibraryDatabase::new();
    db.update_tracks(vec![track("t1", "old title", "x", "a"), track("t2", "two", "y", "b")]);
    db.update_tracks(vec![track("t1", "new title", "x", "a")]);
    let snap = snapshot(&db);
    assert_eq!(snap.len(), 2);
    assert_eq!(snap[0], (Some("t1".to_string()), "new title".to_string()));
    assert_eq!(snap[1], (Some("t2".to_string()), "two".to_string()));
}

#[test]
fn update_skips_local_tracks() {
    let mut db = LibraryDatabase::new();
    let mut local = track("x", "local file", "me", "none");
    local.id = None;
    db.update_tracks(vec![local, track("t1", "one", "x", "a")]);
    assert_eq!(db.retrieve_tracks().len(), 1);
}

#[test]
fn search_is_case_insensitive_over_title_artist_and_album() {
    let mut db = LibraryDatabase::new();
    db.update_tracks(vec![
        track("t1", "Paranoid Android", "Radiohead", "OK Computer"),
        track("t2", "Karma Police", "Radiohead", "OK Computer"),
        track("t3", "Helplessness Blues", "Fleet Foxes", "Helplessness Blues"),
    ]);
    // uppercase query against lowercase-stored text: folding must apply
    let hits = db.search_songs("KARMA");
    assert_eq!(hits, vec!["t2".to_string()]);
    // artist name matches too
    let hits = db.search_songs("radiohead");
    assert_eq!(hits, vec!["t1".to_string(), "t2".to_string()]);
    // album name matches
    let hits = db.search_songs("ok comp");
    assert_eq!(hits, vec!["t1".to_string(), "t2".to_string()]);
    // no match
    let hits = db.search_songs("aeroplane");
    assert!(hits.is_empty());
}

#[test]
fn search_empty_query_matches_everything() {
    let mut db = LibraryDatabase::new();
    db.update_tracks(vec![track("t1", "one", "x", "a")]);
    assert_eq!(db.search_songs(""), vec!["t1".to_string()]);
}

#[test]
fn tracks_by_ids_resolves_in_request_order() {
    let mut db = LibraryDatabase::new();
    db.update_tracks(vec![
        track("t1", "one", "x", "a"),
        track("t2", "two", "y", "b"),
        track("t3", "three", "z", "c"),
    ]);
    let found = db.tracks_by_ids(&vec!["t3".to_string(), "missing".to_string(), "t1".to_string()]);
    let titles: Vec<String> = found.iter().map(|t| t.title.clone()).collect();
    assert_eq!(titles, vec!["three".to_string(), "one".to_string()]);
}

#[test]
fn compile_genres_groups_album_tracks_under_each_tag() {
    let albums = vec![
        album("a1", &["rock", "indie"], &["t1", "t2"]),
        album("a2", &["rock"], &["t3"]),
    ];
    let table = LibraryDatabase::compile_genres(&albums);
    assert_eq!(table.len(), 2);
    assert_eq!(table[0].genre, "rock");
    assert_eq!(
        table[0].track_ids,
        vec!["t1".to_string(), "t2".to_string(), "t3".to_string()]
    );
    assert_eq!(table[1].genre, "indie");
    assert_eq!(table[1].track_ids, vec!["t1".to_string(), "t2".to_string()]);
}

#[test]
fn compile_genres_empty_input_is_empty() {
    let table = LibraryDatabase::compile_genres(&Vec::new());
    assert!(table.is_empty());
}
