use playlist_sync::LibraryDatabase;
use playlist_sync::Track;
use playlist_sync::everything_tracks;
use playlist_sync::weekly_sample_tracks;

fn track(id: &str) -> Track {
    Track {
        id: Some(id.to_string()),
        title: id.to_string(),
        artists: vec!["artist".to_string()],
        album_id: Some("al".to_string()),
        album_name: "album".to_string(),
        track_number: 1,
    }
}

fn seeded_db(n: usize) -> LibraryDatabase {
    let mut db = LibraryDatabase::new();
    db.update_tracks((0..n).map(|i| track(&format!("id{}", i))).collect());
    db
}

#[test]
fn weekly_sample_draws_distinct_cached_tracks() {
    let db = seeded_db(10);
    let sample = weekly_sample_tracks(&db, 4);
    assert_eq!(sample.len(), 4);
    let mut seen: Vec<String> = Vec::new();
    for t in &sample {
        let id = t.id.clone().unwrap();
        assert!(id.starts_with("id"));
        assert!(!seen.contains(&id), "cache entry drawn twice");
        seen.push(id);
    }
}

#[test]
fn weekly_sample_caps_at_cache_size() {
    let db = seeded_db(3);
    let sample = weekly_sample_tracks(&db, 10);
    assert_eq!(sample.len(), 3);
}

#[test]
fn everything_keeps_recent_tracks_in_front() {
    let db = seeded_db(5);
    let recent = vec![track("r1"), track("r2")];
    let out = everything_tracks(recent, &db, 3);
    assert_eq!(out.len(), 5);
    assert_eq!(out[0].id.as_deref(), Some("r1"));
    assert_eq!(out[1].id.as_deref(), Some("r2"));
    for t in &out[2..] {
        assert!(t.id.clone().unwrap().starts_with("id"));
    }
}
