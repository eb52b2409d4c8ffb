use playlist_sync::Track;
use playlist_sync::dedup_track_ids;
use playlist_sync::paginate_vec;
use playlist_sync::plan_track_additions;

fn track(id: Option<&str>) -> Track {
    Track {
        id: id.map(|s| s.to_string()),
        title: "title".to_string(),
        artists: vec!["artist".to_string()],
        album_id: Some("album".to_string()),
        album_name: "album name".to_string(),
        track_number: 1,
    }
}

fn numbered_tracks(n: usize) -> Vec<Track> {
    (0..n).map(|i| track(Some(&format!("id{}", i)))).collect()
}

#[test]
fn dedup_keeps_first_occurrence_and_drops_locals() {
    let tracks = vec![
        track(Some("a")),
        track(None),
        track(Some("b")),
        track(Some("a")),
        track(Some("c")),
        track(Some("b")),
    ];
    let ids = dedup_track_ids(tracks);
    assert_eq!(ids, vec!["a".to_string(), "b".to_string(), "c".to_string()]);
}

#[test]
fn paginate_splits_into_full_pages_and_remainder() {
    let items: Vec<u32> = (0..250).collect();
    let pages = paginate_vec(items, 99);
    assert_eq!(pages.len(), 3);
    assert_eq!(pages[0].len(), 99);
    assert_eq!(pages[1].len(), 99);
    assert_eq!(pages[2].len(), 52);
    assert_eq!(pages[0][0], 0);
    assert_eq!(pages[1][0], 99);
    assert_eq!(pages[2][51], 249);
}

#[test]
fn paginate_empty_input_gives_no_pages() {
    let items: Vec<u32> = Vec::new();
    let pages = paginate_vec(items, 99);
    assert!(pages.is_empty());
}

#[test]
fn paginate_exact_page_size_gives_one_page() {
    let items: Vec<u32> = (0..99).collect();
    let pages = paginate_vec(items, 99);
    assert_eq!(pages.len(), 1);
    assert_eq!(pages[0].len(), 99);
}

#[test]
fn plan_additions_never_repeats_an_identifier_in_a_batch() {
    // 120 distinct ids, each listed twice: the plan must hold each once
    let mut tracks = numbered_tracks(120);
    tracks.extend(numbered_tracks(120));
    let batches = plan_track_additions(tracks, None);
    let mut seen: Vec<String> = Vec::new();
    for batch in &batches {
        let mut in_this_batch: Vec<String> = Vec::new();
        for id in &batch.ids {
            assert!(!in_this_batch.contains(id));
            in_this_batch.push(id.clone());
            assert!(!seen.contains(id));
            seen.push(id.clone());
        }
        assert!(batch.position.is_none());
    }
    assert_eq!(seen.len(), 120);
}

#[test]
fn plan_additions_advances_each_pages_offset() {
    let tracks = numbered_tracks(250);
    let batches = plan_track_additions(tracks, Some(5));
    assert_eq!(batches.len(), 3);
    assert_eq!(batches[0].ids.len(), 99);
    assert_eq!(batches[0].position, Some(5));
    assert_eq!(batches[1].position, Some(104));
    assert_eq!(batches[2].position, Some(203));
    assert_eq!(batches[2].ids.len(), 52);
}

#[test]
fn plan_additions_small_input_is_one_batch_at_position() {
    let tracks = numbered_tracks(3);
    let batches = plan_track_additions(tracks, Some(0));
    assert_eq!(batches.len(), 1);
    assert_eq!(batches[0].position, Some(0));
    assert_eq!(
        batches[0].ids,
        vec!["id0".to_string(), "id1".to_string(), "id2".to_string()]
    );
}
