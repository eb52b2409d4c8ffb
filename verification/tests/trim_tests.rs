use playlist_sync::Track;
use playlist_sync::plan_playlist_trim;
use playlist_sync::trim_boundary;

fn track(id: &str, album: &str) -> Track {
    Track {
        id: Some(id.to_string()),
        title: id.to_string(),
        artists: vec!["artist".to_string()],
        album_id: Some(album.to_string()),
        album_name: album.to_string(),
        track_number: 1,
    }
}

/// A playlist of 101 tracks where positions 99, 100 (and a would-be
/// 101st) belong to one album.
fn playlist_with_album_straddling_cut() -> Vec<Track> {
    let mut playlist: Vec<Track> = Vec::new();
    for i in 0..99 {
        playlist.push(track(&format!("t{}", i), &format!("al{}", i)));
    }
    playlist.push(track("t99", "shared"));
    playlist.push(track("t100", "shared"));
    playlist
}

#[test]
fn trim_boundary_extends_past_a_straddling_album() {
    // keep 100 of 101, but entries 99 and 100 share an album: the cut
    // moves past both, so the album is never split
    let playlist = playlist_with_album_straddling_cut();
    let b = trim_boundary(&playlist, 100);
    assert_eq!(b, 101);
    let pages = plan_playlist_trim(&playlist, 100);
    assert!(pages.is_empty());
}

#[test]
fn trim_removes_whole_album_when_cut_lands_inside_it() {
    // keep 99 of 101: the cut falls right at the shared album's start,
    // so both of its entries go
    let playlist = playlist_with_album_straddling_cut();
    let b = trim_boundary(&playlist, 99);
    assert_eq!(b, 99);
    let pages = plan_playlist_trim(&playlist, 99);
    assert_eq!(pages.len(), 1);
    assert_eq!(pages[0], vec!["t99".to_string(), "t100".to_string()]);
}

#[test]
fn trim_noop_when_playlist_fits() {
    let playlist = vec![track("a", "al1"), track("b", "al2")];
    let pages = plan_playlist_trim(&playlist, 2);
    assert!(pages.is_empty());
}

#[test]
fn trim_cut_at_album_transition_stays_put() {
    let playlist = vec![
        track("a", "al1"),
        track("b", "al1"),
        track("c", "al2"),
        track("d", "al2"),
    ];
    let b = trim_boundary(&playlist, 2);
    assert_eq!(b, 2);
    let pages = plan_playlist_trim(&playlist, 2);
    assert_eq!(pages.len(), 1);
    assert_eq!(pages[0], vec!["c".to_string(), "d".to_string()]);
}

#[test]
fn trim_never_leaves_a_partial_album_at_the_tail() {
    // five albums of two tracks each; any keep count inside an album
    // pushes the cut to the album's end
    let mut playlist: Vec<Track> = Vec::new();
    for a in 0..5 {
        for t in 0..2 {
            playlist.push(track(&format!("t{}x{}", a, t), &format!("al{}", a)));
        }
    }
    for keep in 1..10 {
        let b = trim_boundary(&playlist, keep);
        // the cut always lands on an album transition
        assert_eq!(b % 2, 0);
        assert!(b >= keep);
    }
}
