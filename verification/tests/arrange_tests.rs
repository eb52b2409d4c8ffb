use playlist_sync::Album;
use playlist_sync::LibraryDatabase;
use playlist_sync::SavedAlbum;
use playlist_sync::SavedTrack;
use playlist_sync::Track;
use playlist_sync::arrange_recent_tracks;
use playlist_sync::earliest_added;
use playlist_sync::recently_added_tracks;
use playlist_sync::saved_albums_to_saved_tracks;
use playlist_sync::select_recent_albums;
use playlist_sync::select_recent_liked;

fn track(id: &str, album: &str, number: u32) -> Track {
    Track {
        id: Some(id.to_string()),
        title: id.to_string(),
        artists: vec!["artist".to_string()],
        album_id: Some(album.to_string()),
        album_name: album.to_string(),
        track_number: number,
    }
}

fn saved(id: &str, album: &str, number: u32, added_at: i64) -> SavedTrack {
    SavedTrack { track: track(id, album, number), added_at }
}

fn album(id: &str, track_specs: &[(&str, u32)], total: u32) -> Album {
    Album {
        id: id.to_string(),
        name: id.to_string(),
        tracks: track_specs.iter().map(|(t, n)| track(t, id, *n)).collect(),
        genres: Vec::new(),
        total_tracks: total,
    }
}

fn ids_of(tracks: &[SavedTrack]) -> Vec<String> {
    tracks.iter().map(|t| t.track.id.clone().unwrap()).collect()
}

#[test]
fn arrange_groups_albums_and_orders_by_track_number() {
    // two albums interleaved on input; B touched more recently
    let input = vec![
        saved("a2", "A", 2, 10),
        saved("b1", "B", 1, 20),
        saved("a1", "A", 1, 10),
        saved("b2", "B", 2, 20),
    ];
    let out = arrange_recent_tracks(input);
    assert_eq!(
        ids_of(&out),
        vec!["b1".to_string(), "b2".to_string(), "a1".to_string(), "a2".to_string()]
    );
}

#[test]
fn arrange_album_contiguity_holds_for_many_albums() {
    let mut input: Vec<SavedTrack> = Vec::new();
    for n in (1..4).rev() {
        input.push(saved(&format!("x{}", n), "X", n, 5));
        input.push(saved(&format!("y{}", n), "Y", n, 7));
        input.push(saved(&format!("z{}", n), "Z", n, 3));
    }
    let out = arrange_recent_tracks(input);
    assert_eq!(out.len(), 9);
    // each album's tracks are consecutive and ascending by number
    let albums: Vec<String> = out.iter().map(|t| t.track.album_id.clone().unwrap()).collect();
    let mut seen: Vec<String> = Vec::new();
    for (i, a) in albums.iter().enumerate() {
        if i == 0 || albums[i - 1] != *a {
            assert!(!seen.contains(a), "album {} split apart", a);
            seen.push(a.clone());
        } else {
            assert!(out[i - 1].track.track_number <= out[i].track.track_number);
        }
    }
    // most recently touched album first: Y (7), then X (5), then Z (3)
    assert_eq!(
        seen,
        vec!["Y".to_string(), "X".to_string(), "Z".to_string()]
    );
}

#[test]
fn new_album_is_admitted_even_over_budget() {
    // cache already knows album A; remote (newest first) offers B then
    // A; with a zero budget only the unseen album is admitted, and its
    // tracks come back in track-number order
    let mut library = LibraryDatabase::new();
    library.update_all(Vec::new(), vec![album("A", &[("a1", 1), ("a2", 2)], 2)]);

    let remote = vec![
        SavedAlbum { album: album("B", &[("b1", 1), ("b2", 2), ("b3", 3)], 3), added_at: 50 },
        SavedAlbum { album: album("A", &[("a1", 1), ("a2", 2)], 2), added_at: 10 },
    ];
    let admitted = select_recent_albums(remote, &library, Some(0));
    assert_eq!(admitted.len(), 1);
    assert_eq!(admitted[0].album.id, "B");

    // resolve the admitted albums' tracks and arrange them
    let fetched: Vec<Track> = admitted[0].album.tracks.iter().map(|t| Track {
        id: t.id.clone(),
        title: t.title.clone(),
        artists: t.artists.clone(),
        album_id: t.album_id.clone(),
        album_name: t.album_name.clone(),
        track_number: t.track_number,
    }).collect();
    let stamped = saved_albums_to_saved_tracks(&admitted, fetched);
    assert!(stamped.iter().all(|t| t.added_at == 50));
    let out = recently_added_tracks(stamped, Vec::new());
    assert_eq!(
        ids_of(&out),
        vec!["b1".to_string(), "b2".to_string(), "b3".to_string()]
    );
}

#[test]
fn budget_admits_known_albums_until_spent() {
    let mut library = LibraryDatabase::new();
    library.update_all(
        Vec::new(),
        vec![
            album("A", &[("a1", 1)], 1),
            album("B", &[("b1", 1)], 1),
        ],
    );
    let remote = vec![
        SavedAlbum { album: album("A", &[("a1", 1)], 1), added_at: 30 },
        SavedAlbum { album: album("B", &[("b1", 1)], 1), added_at: 20 },
    ];
    // budget of one song: A is admitted on budget, B stops the scan
    let admitted = select_recent_albums(remote, &library, Some(1));
    assert_eq!(admitted.len(), 1);
    assert_eq!(admitted[0].album.id, "A");
}

#[test]
fn liked_scan_stops_at_first_cached_old_track() {
    let mut library = LibraryDatabase::new();
    library.update_all(vec![track("known", "K", 1)], Vec::new());
    let remote = vec![
        saved("fresh", "F", 1, 100),
        saved("known", "K", 1, 40),
        saved("never_reached", "N", 1, 30),
    ];
    // no album threshold: only uncached tracks are admitted
    let out = select_recent_liked(remote, &library, None);
    assert_eq!(ids_of(&out), vec!["fresh".to_string()]);
}

#[test]
fn liked_scan_keeps_cached_track_newer_than_threshold() {
    let mut library = LibraryDatabase::new();
    library.update_all(vec![track("known", "K", 1)], Vec::new());
    let remote = vec![
        saved("known", "K", 1, 80),
        saved("stopper", "S", 1, 10),
    ];
    library.update_all(vec![track("stopper", "S", 1)], Vec::new());
    // the cached track was liked after the oldest admitted album (50)
    let out = select_recent_liked(remote, &library, Some(50));
    assert_eq!(ids_of(&out), vec!["known".to_string()]);
}

#[test]
fn liked_track_reachable_through_album_keeps_album_entry() {
    let album_tracks = vec![saved("shared", "A", 1, 70)];
    let liked = vec![saved("shared", "A", 1, 99), saved("solo", "B", 1, 60)];
    let out = recently_added_tracks(album_tracks, liked);
    assert_eq!(out.len(), 2);
    let shared = out.iter().find(|t| t.track.id.as_deref() == Some("shared")).unwrap();
    // the album-derived stamp (70) wins over the like stamp (99)
    assert_eq!(shared.added_at, 70);
}

#[test]
fn earliest_added_finds_the_minimum() {
    assert_eq!(earliest_added(&Vec::new()), None);
    let tracks = vec![saved("a", "A", 1, 30), saved("b", "B", 1, 10), saved("c", "C", 1, 20)];
    assert_eq!(earliest_added(&tracks), Some(10));
}
