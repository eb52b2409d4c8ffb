use playlist_sync::Track;
use playlist_sync::diff_against_playlist;

fn track(id: &str, title: &str) -> Track {
    Track {
        id: Some(id.to_string()),
        title: title.to_string(),
        artists: vec!["artist".to_string()],
        album_id: Some("album".to_string()),
        album_name: "album name".to_string(),
        track_number: 1,
    }
}

fn ids_of(tracks: &[Track]) -> Vec<String> {
    tracks.iter().map(|t| t.id.clone().unwrap()).collect()
}

#[test]
fn diff_splits_around_first_present_track() {
    // current playlist = [t1, t2, t3]; desired = [t4, t1, t5]
    let desired = vec![track("t4", "four"), track("t1", "one"), track("t5", "five")];
    let current = vec!["t1".to_string(), "t2".to_string(), "t3".to_string()];
    let (new_seg, old_seg) = diff_against_playlist(desired, &current);
    assert_eq!(ids_of(&new_seg), vec!["t4".to_string()]);
    assert_eq!(ids_of(&old_seg), vec!["t5".to_string()]);
}

#[test]
fn diff_all_absent_goes_to_new_segment() {
    let desired = vec![track("a", "a"), track("b", "b")];
    let current: Vec<String> = vec![];
    let (new_seg, old_seg) = diff_against_playlist(desired, &current);
    assert_eq!(ids_of(&new_seg), vec!["a".to_string(), "b".to_string()]);
    assert!(old_seg.is_empty());
}

#[test]
fn diff_all_present_changes_nothing() {
    let desired = vec![track("a", "a"), track("b", "b")];
    let current = vec!["a".to_string(), "b".to_string()];
    let (new_seg, old_seg) = diff_against_playlist(desired, &current);
    assert!(new_seg.is_empty());
    assert!(old_seg.is_empty());
}

#[test]
fn diff_empty_desired_is_empty() {
    let current = vec!["a".to_string()];
    let (new_seg, old_seg) = diff_against_playlist(Vec::new(), &current);
    assert!(new_seg.is_empty());
    assert!(old_seg.is_empty());
}

#[test]
fn diff_partition_accounts_for_every_track() {
    // absent tracks land in exactly one segment, present ones in neither
    let desired = vec![
        track("n1", "n1"),
        track("n2", "n2"),
        track("p1", "p1"),
        track("n3", "n3"),
        track("p2", "p2"),
        track("n4", "n4"),
    ];
    let current = vec!["p1".to_string(), "p2".to_string()];
    let (new_seg, old_seg) = diff_against_playlist(desired, &current);
    assert_eq!(ids_of(&new_seg), vec!["n1".to_string(), "n2".to_string()]);
    assert_eq!(ids_of(&old_seg), vec!["n3".to_string(), "n4".to_string()]);
    assert_eq!(new_seg.len() + old_seg.len() + 2, 6);
}
