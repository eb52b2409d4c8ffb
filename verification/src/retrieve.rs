//! The recency reconciliation engine: selecting newly saved albums and
//! liked tracks against the cache, and arranging the merged result into
//! an album-grouped, recency-ordered sequence.

use vstd::prelude::*;
use vstd::pervasive::VecAdditionalExecFns;
use vstd::seq_lib::lemma_multiset_commutative;

use crate::model::AlbumData;
use crate::model::SavedAlbum;
use crate::model::SavedAlbumData;
use crate::model::SavedTrack;
use crate::model::SavedTrackData;
use crate::model::TrackData;
use crate::playlists::contains_id;
use crate::storage::LibraryDatabase;

verus! {

/// The song budget a caller asked for: none means zero, so that only
/// genuinely new albums are admitted.
pub open spec fn spec_max_songs(max_songs: Option<usize>) -> int {
    match max_songs {
        Some(m) => m as int,
        None => 0,
    }
}

/// The prefix of the remote's newest-first saved-album list that a
/// sync run works on: an album is admitted while the running track
/// count is below the budget or the album is not yet cached; the scan
/// stops at the first album that passes neither test.
pub open spec fn spec_select_albums(
    s: Seq<SavedAlbumData>,
    known: Map<Seq<char>, AlbumData>,
    songs: int,
    max: int,
) -> Seq<SavedAlbumData>
    decreases s.len(),
{
    if s.len() == 0 {
        Seq::empty()
    } else if songs < max || !known.contains_key(s[0].album.id) {
        seq![s[0]] + spec_select_albums(
            s.drop_first(),
            known,
            songs + s[0].album.total_tracks,
            max,
        )
    } else {
        Seq::empty()
    }
}

/// Scans the newest-first saved albums and admits each one while the
/// cumulative admitted track count is below the budget or the album
/// is new to the cache, stopping at the first album that is neither.
/// Relies on the remote returning albums in recency order, which lets
/// the caller stop paging early.
#[verifier::loop_isolation(false)]
pub fn select_recent_albums(
    saved: Vec<SavedAlbum>,
    library: &LibraryDatabase,
    max_songs: Option<usize>,
) -> (r: Vec<SavedAlbum>)
    ensures
        r@.map_values(|a: SavedAlbum| a@) == spec_select_albums(
            saved@.map_values(|a: SavedAlbum| a@),
            library.album_map(),
            0,
            spec_max_songs(max_songs),
        ),
{
    let ghost full = saved@.map_values(|a: SavedAlbum| a@);
    let ghost known = library.album_map();
    let maxv: usize = match max_songs {
        Some(m) => m,
        None => 0,
    };
    let ghost maxi = spec_max_songs(max_songs);
    let mut rest = saved;
    let mut r: Vec<SavedAlbum> = Vec::new();
    let mut songs: u64 = 0;
    let ghost mut songs_int: int = 0;
    let mut stopped = false;
    proof {
        assert(Seq::<SavedAlbumData>::empty() + spec_select_albums(full, known, 0, maxi)
            =~= spec_select_albums(full, known, 0, maxi));
        assert(r@.map_values(|a: SavedAlbum| a@) =~= Seq::<SavedAlbumData>::empty());
    }
    while !stopped && rest.len() > 0
        invariant
            0 <= songs_int,
            songs as int == if songs_int <= u64::MAX as int {
                songs_int
            } else {
                u64::MAX as int
            },
            !stopped ==> spec_select_albums(full, known, 0, maxi) == r@.map_values(
                |a: SavedAlbum| a@,
            ) + spec_select_albums(rest@.map_values(|a: SavedAlbum| a@), known, songs_int, maxi),
            stopped ==> spec_select_albums(full, known, 0, maxi) == r@.map_values(
                |a: SavedAlbum| a@,
            ),
        decreases rest.len() + if stopped {
            0int
        } else {
            1int
        },
    {
        let ghost old_restm = rest@.map_values(|a: SavedAlbum| a@);
        let known_already = library.has_album(&rest[0].album.id);
        assert(known_already == known.contains_key(old_restm[0].album.id));
        if songs < maxv as u64 || !known_already {
            assert(songs_int < maxi || !known.contains_key(old_restm[0].album.id));
            let ghost old_rm = r@.map_values(|a: SavedAlbum| a@);
            let album = rest.remove(0);
            assert(rest@.map_values(|a: SavedAlbum| a@) =~= old_restm.drop_first());
            let add64 = album.album.total_tracks as u64;
            if songs > u64::MAX - add64 {
                songs = u64::MAX;
            } else {
                songs = songs + add64;
            }
            proof {
                songs_int = songs_int + album@.album.total_tracks;
            }
            r.push(album);
            proof {
                assert(r@.map_values(|a: SavedAlbum| a@) =~= old_rm.push(old_restm[0]));
                assert(old_rm + (seq![old_restm[0]] + spec_select_albums(
                    old_restm.drop_first(),
                    known,
                    songs_int,
                    maxi,
                )) =~= old_rm.push(old_restm[0]) + spec_select_albums(
                    old_restm.drop_first(),
                    known,
                    songs_int,
                    maxi,
                ));
            }
        } else {
            assert(!(songs_int < maxi) && known.contains_key(old_restm[0].album.id));
            assert(spec_select_albums(old_restm, known, songs_int, maxi)
                =~= Seq::<SavedAlbumData>::empty());
            proof {
                assert(r@.map_values(|a: SavedAlbum| a@) + Seq::<SavedAlbumData>::empty()
                    =~= r@.map_values(|a: SavedAlbum| a@));
            }
            stopped = true;
        }
    }
    proof {
        if !stopped {
            assert(rest@.map_values(|a: SavedAlbum| a@) =~= Seq::<SavedAlbumData>::empty());
            assert(r@.map_values(|a: SavedAlbum| a@) + Seq::<SavedAlbumData>::empty()
                =~= r@.map_values(|a: SavedAlbum| a@));
        }
    }
    r
}

/// The prefix of the remote's newest-first liked-track list that a
/// sync run works on: local tracks are skipped, a track is admitted
/// when it is not cached or was liked after `latest`, and the scan
/// stops at the first track that fails both tests.
pub open spec fn spec_select_liked(
    s: Seq<SavedTrackData>,
    known: Map<Seq<char>, TrackData>,
    latest: Option<i64>,
) -> Seq<SavedTrackData>
    decreases s.len(),
{
    if s.len() == 0 {
        Seq::empty()
    } else if s[0].track.id is None {
        spec_select_liked(s.drop_first(), known, latest)
    } else if !known.contains_key(s[0].track.id->0) || (latest matches Some(l) && s[0].added_at
        > l) {
        seq![s[0]] + spec_select_liked(s.drop_first(), known, latest)
    } else {
        Seq::empty()
    }
}

/// Scans the newest-first liked tracks and admits each one that is
/// not yet cached, or that was liked after `latest` (the save instant
/// of the oldest admitted album), skipping local tracks, and stopping
/// at the first track that fails both tests.  Relies on the remote
/// returning liked tracks in recency order.
#[verifier::loop_isolation(false)]
pub fn select_recent_liked(
    saved: Vec<SavedTrack>,
    library: &LibraryDatabase,
    latest: Option<i64>,
) -> (r: Vec<SavedTrack>)
    ensures
        r@.map_values(|t: SavedTrack| t@) == spec_select_liked(
            saved@.map_values(|t: SavedTrack| t@),
            library.track_map(),
            latest,
        ),
{
    let ghost full = saved@.map_values(|t: SavedTrack| t@);
    let ghost known = library.track_map();
    let mut rest = saved;
    let mut r: Vec<SavedTrack> = Vec::new();
    let mut stopped = false;
    proof {
        assert(Seq::<SavedTrackData>::empty() + spec_select_liked(full, known, latest)
            =~= spec_select_liked(full, known, latest));
        assert(r@.map_values(|t: SavedTrack| t@) =~= Seq::<SavedTrackData>::empty());
    }
    while !stopped && rest.len() > 0
        invariant
            !stopped ==> spec_select_liked(full, known, latest) == r@.map_values(
                |t: SavedTrack| t@,
            ) + spec_select_liked(rest@.map_values(|t: SavedTrack| t@), known, latest),
            stopped ==> spec_select_liked(full, known, latest) == r@.map_values(
                |t: SavedTrack| t@,
            ),
        decreases rest.len() + if stopped {
            0int
        } else {
            1int
        },
    {
        let ghost old_restm = rest@.map_values(|t: SavedTrack| t@);
        let admitted = match &rest[0].track.id {
            Some(id) => {
                let cached = library.has_track(id);
                let newer = match latest {
                    Some(l) => rest[0].added_at > l,
                    None => false,
                };
                if !cached || newer {
                    true
                } else {
                    false
                }
            },
            None => false,
        };
        let local = rest[0].track.id.is_none();
        if local {
            let ghost old_rm = r@.map_values(|t: SavedTrack| t@);
            let _dropped = rest.remove(0);
            assert(rest@.map_values(|t: SavedTrack| t@) =~= old_restm.drop_first());
        } else if admitted {
            let ghost old_rm = r@.map_values(|t: SavedTrack| t@);
            let track = rest.remove(0);
            assert(rest@.map_values(|t: SavedTrack| t@) =~= old_restm.drop_first());
            r.push(track);
            proof {
                assert(r@.map_values(|t: SavedTrack| t@) =~= old_rm.push(old_restm[0]));
                assert(old_rm + (seq![old_restm[0]] + spec_select_liked(
                    old_restm.drop_first(),
                    known,
                    latest,
                )) =~= old_rm.push(old_restm[0]) + spec_select_liked(
                    old_restm.drop_first(),
                    known,
                    latest,
                ));
            }
        } else {
            assert(spec_select_liked(old_restm, known, latest)
                =~= Seq::<SavedTrackData>::empty());
            proof {
                assert(r@.map_values(|t: SavedTrack| t@) + Seq::<SavedTrackData>::empty()
                    =~= r@.map_values(|t: SavedTrack| t@));
            }
            stopped = true;
        }
    }
    proof {
        if !stopped {
            assert(rest@.map_values(|t: SavedTrack| t@) =~= Seq::<SavedTrackData>::empty());
            assert(r@.map_values(|t: SavedTrack| t@) + Seq::<SavedTrackData>::empty()
                =~= r@.map_values(|t: SavedTrack| t@));
        }
    }
    r
}

/// The earliest save instant among the tracks, if there are any.
pub open spec fn spec_earliest(ts: Seq<SavedTrackData>) -> Option<i64>
    decreases ts.len(),
{
    if ts.len() == 0 {
        None
    } else {
        match spec_earliest(ts.drop_last()) {
            None => Some(ts.last().added_at),
            Some(m) => Some(
                if ts.last().added_at < m {
                    ts.last().added_at
                } else {
                    m
                },
            ),
        }
    }
}

/// The earliest `added_at` among the tracks: the threshold below
/// which an individually liked track no longer counts as recent.
pub fn earliest_added(tracks: &Vec<SavedTrack>) -> (r: Option<i64>)
    ensures
        r == spec_earliest(tracks@.map_values(|t: SavedTrack| t@)),
{
    let ghost tm = tracks@.map_values(|t: SavedTrack| t@);
    let mut r: Option<i64> = None;
    let mut i: usize = 0;
    assert(tm.subrange(0, 0) =~= Seq::<SavedTrackData>::empty());
    while i < tracks.len()
        invariant
            i <= tracks@.len(),
            tm == tracks@.map_values(|t: SavedTrack| t@),
            r == spec_earliest(tm.subrange(0, i as int)),
        decreases tracks@.len() - i,
    {
        proof {
            assert(tm.subrange(0, i as int + 1).drop_last() =~= tm.subrange(0, i as int));
            assert(tm.subrange(0, i as int + 1).last() == tm[i as int]);
        }
        let t = tracks[i].added_at;
        r = match r {
            None => Some(t),
            Some(m) => Some(
                if t < m {
                    t
                } else {
                    m
                },
            ),
        };
        i += 1;
    }
    assert(tm.subrange(0, tracks@.len() as int) =~= tm);
    r
}

/// The distinct album identifiers of `ts` in first-occurrence order.
/// Every track is assumed to carry an album identifier.
pub open spec fn spec_album_list(ts: Seq<SavedTrackData>) -> Seq<Seq<char>>
    decreases ts.len(),
{
    if ts.len() == 0 {
        Seq::empty()
    } else {
        let init = spec_album_list(ts.drop_last());
        let aid = ts.last().track.album_id->0;
        if init.contains(aid) {
            init
        } else {
            init.push(aid)
        }
    }
}

/// The most recent `added_at` among the tracks of `ts` that belong to
/// album `aid`, or the smallest representable instant when the album
/// has no track in `ts`.
pub open spec fn spec_album_max_time(ts: Seq<SavedTrackData>, aid: Seq<char>) -> int
    decreases ts.len(),
{
    if ts.len() == 0 {
        i64::MIN as int
    } else {
        let rest = spec_album_max_time(ts.drop_last(), aid);
        if ts.last().track.album_id == Some(aid) && ts.last().added_at > rest {
            ts.last().added_at as int
        } else {
            rest
        }
    }
}

proof fn lemma_album_list_facts(ts: Seq<SavedTrackData>)
    ensures
        spec_album_list(ts).no_duplicates(),
        forall|i: int|
            0 <= i < ts.len() ==> spec_album_list(ts).contains((#[trigger] ts[i]).track.album_id->0),
    decreases ts.len(),
{
    if ts.len() > 0 {
        lemma_album_list_facts(ts.drop_last());
        let init = spec_album_list(ts.drop_last());
        let aid = ts.last().track.album_id->0;
        if !init.contains(aid) {
            assert(forall|k: int| 0 <= k < init.len() ==> #[trigger] init[k] != aid);
        }
        assert(forall|i: int| 0 <= i < ts.len() - 1 ==> ts.drop_last()[i] == #[trigger] ts[i]);
        assert forall|i: int|
            0 <= i < ts.len() implies spec_album_list(ts).contains(
            (#[trigger] ts[i]).track.album_id->0,
        ) by {
            if i < ts.len() - 1 {
                let v = ts[i].track.album_id->0;
                assert(init.contains(v));
                let w = choose|w: int| 0 <= w < init.len() && init[w] == v;
                assert(spec_album_list(ts)[w] == v);
            } else {
                if init.contains(aid) {
                } else {
                    assert(spec_album_list(ts)[init.len() as int] == aid);
                }
            }
        }
    }
}

proof fn lemma_album_absent_max_time(ts: Seq<SavedTrackData>, aid: Seq<char>)
    requires
        !spec_album_list(ts).contains(aid),
    ensures
        spec_album_max_time(ts, aid) == i64::MIN as int,
    decreases ts.len(),
{
    if ts.len() > 0 {
        let init = spec_album_list(ts.drop_last());
        let lastaid = ts.last().track.album_id->0;
        assert forall|v: Seq<char>| init.contains(v) implies spec_album_list(ts).contains(v) by {
            let w = choose|w: int| 0 <= w < init.len() && init[w] == v;
            if init.contains(lastaid) {
                assert(spec_album_list(ts)[w] == v);
            } else {
                assert(spec_album_list(ts)[w] == v);
            }
        }
        lemma_album_absent_max_time(ts.drop_last(), aid);
        if init.contains(lastaid) {
            assert(spec_album_list(ts).contains(lastaid));
        } else {
            assert(spec_album_list(ts)[init.len() as int] == lastaid);
            assert(spec_album_list(ts).contains(lastaid));
        }
        assert(ts.last().track.album_id != Some(aid));
    }
}

/// One album's ordering data: its identifier and the most recent save
/// instant among its tracks.
struct AlbumOrder {
    id: String,
    key: i64,
}

fn find_album_entry(entries: &Vec<AlbumOrder>, aid: &String) -> (r: Option<usize>)
    ensures
        match r {
            Some(idx) => idx < entries@.len() && entries@[idx as int].id@ == aid@,
            None => forall|k: int| 0 <= k < entries@.len() ==> (#[trigger] entries@[k]).id@ != aid@,
        },
{
    let mut i: usize = 0;
    while i < entries.len()
        invariant
            i <= entries.len(),
            forall|k: int| 0 <= k < i ==> (#[trigger] entries@[k]).id@ != aid@,
        decreases entries.len() - i,
    {
        if entries[i].id.eq(aid) {
            return Some(i);
        }
        i += 1;
    }
    None
}

fn collect_album_order(tracks: &Vec<SavedTrack>) -> (entries: Vec<AlbumOrder>)
    requires
        forall|i: int|
            0 <= i < tracks@.len() ==> (#[trigger] tracks@[i])@.track.album_id is Some,
    ensures
        entries@.map_values(|e: AlbumOrder| e.id@) == spec_album_list(
            tracks@.map_values(|t: SavedTrack| t@),
        ),
        forall|k: int|
            0 <= k < entries@.len() ==> (#[trigger] entries@[k]).key as int == spec_album_max_time(
                tracks@.map_values(|t: SavedTrack| t@),
                entries@[k].id@,
            ),
{
    let ghost tm = tracks@.map_values(|t: SavedTrack| t@);
    let mut entries: Vec<AlbumOrder> = Vec::new();
    let mut i: usize = 0;
    assert(entries@.map_values(|e: AlbumOrder| e.id@) =~= Seq::<Seq<char>>::empty());
    assert(tm.subrange(0, 0) =~= Seq::<SavedTrackData>::empty());
    while i < tracks.len()
        invariant
            i <= tracks@.len(),
            tm == tracks@.map_values(|t: SavedTrack| t@),
            forall|j: int| 0 <= j < tracks@.len() ==> (#[trigger] tracks@[j])@.track.album_id is Some,
            entries@.map_values(|e: AlbumOrder| e.id@) == spec_album_list(tm.subrange(0, i as int)),
            forall|k: int|
                0 <= k < entries@.len() ==> (#[trigger] entries@[k]).key as int
                    == spec_album_max_time(tm.subrange(0, i as int), entries@[k].id@),
        decreases tracks@.len() - i,
    {
        let ghost prefix = tm.subrange(0, i as int);
        let ghost next_prefix = tm.subrange(0, i as int + 1);
        let ghost old_entries = entries@;
        proof {
            assert(next_prefix.drop_last() =~= prefix);
            assert(next_prefix.last() == tm[i as int]);
            lemma_album_list_facts(prefix);
        }
        let t = &tracks[i];
        let added = t.added_at;
        match &t.track.album_id {
            Some(aid) => {
                assert(tm[i as int].track.album_id == Some(aid@));
                match find_album_entry(&entries, aid) {
                    Some(idx) => {
                        proof {
                            assert(old_entries.map_values(|e: AlbumOrder| e.id@)[idx as int]
                                == aid@);
                            assert(spec_album_list(prefix).contains(aid@));
                            assert(spec_album_list(next_prefix) == spec_album_list(prefix));
                        }
                        let old_key = entries[idx].key;
                        let new_key = if added > old_key {
                            added
                        } else {
                            old_key
                        };
                        let replacement = AlbumOrder { id: aid.clone(), key: new_key };
                        entries.set(idx, replacement);
                        proof {
                            assert(entries@.map_values(|e: AlbumOrder| e.id@)
                                =~= old_entries.map_values(|e: AlbumOrder| e.id@));
                            assert forall|k: int|
                                0 <= k < entries@.len() implies (#[trigger] entries@[k]).key as int
                                == spec_album_max_time(next_prefix, entries@[k].id@) by {
                                if k == idx {
                                    assert(spec_album_max_time(next_prefix, aid@)
                                        == if tm[i as int].added_at > spec_album_max_time(
                                        prefix,
                                        aid@,
                                    ) {
                                        tm[i as int].added_at as int
                                    } else {
                                        spec_album_max_time(prefix, aid@)
                                    });
                                } else {
                                    assert(old_entries[k].key as int == spec_album_max_time(
                                        prefix,
                                        old_entries[k].id@,
                                    ));
                                    assert(old_entries.map_values(|e: AlbumOrder| e.id@).no_duplicates());
                                    assert(old_entries.map_values(|e: AlbumOrder| e.id@)[k]
                                        != old_entries.map_values(|e: AlbumOrder| e.id@)[idx as int]);
                                    assert(entries@[k].id@ != aid@);
                                    assert(spec_album_max_time(next_prefix, entries@[k].id@)
                                        == spec_album_max_time(prefix, entries@[k].id@));
                                }
                            }
                        }
                    },
                    None => {
                        proof {
                            assert forall|k: int|
                                0 <= k < spec_album_list(prefix).len() implies #[trigger] spec_album_list(
                                prefix,
                            )[k] != aid@ by {
                                assert(old_entries.map_values(|e: AlbumOrder| e.id@)[k]
                                    == spec_album_list(prefix)[k]);
                                assert(old_entries[k].id@ != aid@);
                            }
                            assert(!spec_album_list(prefix).contains(aid@));
                            lemma_album_absent_max_time(prefix, aid@);
                            assert(spec_album_list(next_prefix) == spec_album_list(prefix).push(
                                aid@,
                            ));
                        }
                        entries.push(AlbumOrder { id: aid.clone(), key: added });
                        proof {
                            assert(entries@.map_values(|e: AlbumOrder| e.id@)
                                =~= old_entries.map_values(|e: AlbumOrder| e.id@).push(aid@));
                            assert forall|k: int|
                                0 <= k < entries@.len() implies (#[trigger] entries@[k]).key as int
                                == spec_album_max_time(next_prefix, entries@[k].id@) by {
                                if k < old_entries.len() {
                                    assert(entries@[k] == old_entries[k]);
                                    assert(old_entries.map_values(|e: AlbumOrder| e.id@)[k]
                                        == old_entries[k].id@);
                                    assert(spec_album_list(prefix).contains(old_entries[k].id@));
                                    assert(old_entries[k].id@ != aid@);
                                    assert(spec_album_max_time(next_prefix, entries@[k].id@)
                                        == spec_album_max_time(prefix, entries@[k].id@));
                                } else {
                                    assert(entries@[k].id@ == aid@);
                                    assert(spec_album_max_time(next_prefix, aid@)
                                        == tm[i as int].added_at as int);
                                }
                            }
                        }
                    },
                }
            },
            None => {
                proof {
                    assert(tracks@[i as int]@.track.album_id is Some);
                    assert(false);
                }
            },
        }
        i += 1;
    }
    assert(tm.subrange(0, tracks@.len() as int) =~= tm);
    entries
}

proof fn lemma_insert_multiset<A>(s: Seq<A>, pos: int, x: A)
    requires
        0 <= pos <= s.len(),
    ensures
        s.insert(pos, x).to_multiset() == s.to_multiset().insert(x),
{
    broadcast use vstd::seq_lib::group_to_multiset_ensures;

    assert(s.insert(pos, x) =~= s.take(pos).push(x) + s.skip(pos));
    lemma_multiset_commutative(s.take(pos).push(x), s.skip(pos));
    assert(s =~= s.take(pos) + s.skip(pos));
    lemma_multiset_commutative(s.take(pos), s.skip(pos));
    assert(s.take(pos).push(x).to_multiset() =~= s.take(pos).to_multiset().insert(x));
    assert(s.take(pos).to_multiset().insert(x).add(s.skip(pos).to_multiset()) =~= s.take(
        pos,
    ).to_multiset().add(s.skip(pos).to_multiset()).insert(x));
    assert(s.insert(pos, x).to_multiset() =~= s.to_multiset().insert(x));
}

spec fn pair_views(es: Seq<AlbumOrder>) -> Seq<(Seq<char>, i64)> {
    es.map_values(|e: AlbumOrder| (e.id@, e.key))
}

spec fn id_views(es: Seq<AlbumOrder>) -> Seq<Seq<char>> {
    es.map_values(|e: AlbumOrder| e.id@)
}

fn sort_album_order(entries: Vec<AlbumOrder>) -> (sorted: Vec<AlbumOrder>)
    ensures
        pair_views(sorted@).to_multiset() == pair_views(entries@).to_multiset(),
        id_views(sorted@).to_multiset() == id_views(entries@).to_multiset(),
        forall|i: int, j: int|
            0 <= i < j < sorted@.len() ==> (#[trigger] sorted@[i]).key >= (#[trigger] sorted@[j]).key,
{
    broadcast use vstd::seq_lib::group_to_multiset_ensures;

    let mut rest = entries;
    let mut out: Vec<AlbumOrder> = Vec::new();
    let ghost full = rest@;
    assert(pair_views(out@) =~= Seq::<(Seq<char>, i64)>::empty());
    assert(id_views(out@) =~= Seq::<Seq<char>>::empty());
    assert(pair_views(out@).to_multiset().add(pair_views(rest@).to_multiset())
        =~= pair_views(full).to_multiset());
    assert(id_views(out@).to_multiset().add(id_views(rest@).to_multiset())
        =~= id_views(full).to_multiset());
    while rest.len() > 0
        invariant
            pair_views(out@).to_multiset().add(pair_views(rest@).to_multiset()) == pair_views(
                full,
            ).to_multiset(),
            id_views(out@).to_multiset().add(id_views(rest@).to_multiset()) == id_views(
                full,
            ).to_multiset(),
            forall|i: int, j: int|
                0 <= i < j < out@.len() ==> (#[trigger] out@[i]).key >= (#[trigger] out@[j]).key,
        decreases rest.len(),
    {
        let ghost old_rest = rest@;
        let ghost old_out = out@;
        let x = rest.remove(0);
        proof {
            assert(old_rest =~= rest@.insert(0, x));
            rest@.insert_ensures(0, x);
            pair_views(rest@).insert_ensures(0, (x.id@, x.key));
            id_views(rest@).insert_ensures(0, x.id@);
            assert(pair_views(old_rest) =~= pair_views(rest@).insert(0, (x.id@, x.key)));
            assert(id_views(old_rest) =~= id_views(rest@).insert(0, x.id@));
            lemma_insert_multiset(pair_views(rest@), 0, (x.id@, x.key));
            lemma_insert_multiset(id_views(rest@), 0, x.id@);
        }
        let mut pos: usize = 0;
        while pos < out.len() && out[pos].key >= x.key
            invariant
                pos <= out@.len(),
                forall|k: int| 0 <= k < pos ==> (#[trigger] out@[k]).key >= x.key,
            decreases out@.len() - pos,
        {
            pos += 1;
        }
        proof {
            out@.insert_ensures(pos as int, x);
            lemma_insert_multiset(out@, pos as int, x);
        }
        out.insert(pos, x);
        proof {
            assert(pair_views(out@) =~= pair_views(old_out).insert(pos as int, (x.id@, x.key)));
            assert(id_views(out@) =~= id_views(old_out).insert(pos as int, x.id@));
            lemma_insert_multiset(pair_views(old_out), pos as int, (x.id@, x.key));
            lemma_insert_multiset(id_views(old_out), pos as int, x.id@);
            assert(pair_views(out@).to_multiset().add(pair_views(rest@).to_multiset())
                =~= pair_views(full).to_multiset());
            assert(id_views(out@).to_multiset().add(id_views(rest@).to_multiset()) =~= id_views(
                full,
            ).to_multiset());
            assert forall|i: int, j: int|
                0 <= i < j < out@.len() implies (#[trigger] out@[i]).key >= (
            #[trigger] out@[j]).key by {
                if i < pos as int && j == pos as int {
                } else if i == pos as int && j > pos as int {
                    assert(out@[j] == old_out[j - 1]);
                    if j - 1 > pos as int {
                        assert(old_out[pos as int].key < x.key);
                        assert(old_out[j - 1].key <= old_out[pos as int].key);
                    }
                } else if i < pos as int && j > pos as int {
                    assert(out@[i] == old_out[i]);
                    assert(out@[j] == old_out[j - 1]);
                }
            }
        }
    }
    proof {
        assert(pair_views(rest@) =~= Seq::<(Seq<char>, i64)>::empty());
        assert(id_views(rest@) =~= Seq::<Seq<char>>::empty());
        assert(pair_views(out@).to_multiset().add(pair_views(rest@).to_multiset())
            =~= pair_views(out@).to_multiset());
        assert(id_views(out@).to_multiset().add(id_views(rest@).to_multiset()) =~= id_views(
            out@,
        ).to_multiset());
    }
    out
}

/// The predicate holding of tracks whose album is among `s`.
pub open spec fn pred_album_in(s: Seq<Seq<char>>) -> spec_fn(SavedTrackData) -> bool {
    |t: SavedTrackData| s.contains(t.track.album_id->0)
}

/// The predicate holding of tracks that belong to album `aid`.
pub open spec fn pred_album_is(aid: Seq<char>) -> spec_fn(SavedTrackData) -> bool {
    |t: SavedTrackData| t.track.album_id == Some(aid)
}

fn collect_album_group(tracks: &Vec<SavedTrack>, aid: &String) -> (g: Vec<SavedTrack>)
    ensures
        g@.map_values(|t: SavedTrack| t@) == tracks@.map_values(|t: SavedTrack| t@).filter(
            pred_album_is(aid@),
        ),
{
    let ghost tm = tracks@.map_values(|t: SavedTrack| t@);
    let mut g: Vec<SavedTrack> = Vec::new();
    let mut i: usize = 0;
    assert(tm.subrange(0, 0) =~= Seq::<SavedTrackData>::empty());
    assert(g@.map_values(|t: SavedTrack| t@) =~= tm.subrange(0, 0).filter(pred_album_is(aid@)));
    while i < tracks.len()
        invariant
            i <= tracks@.len(),
            tm == tracks@.map_values(|t: SavedTrack| t@),
            g@.map_values(|t: SavedTrack| t@) == tm.subrange(0, i as int).filter(
                pred_album_is(aid@),
            ),
        decreases tracks@.len() - i,
    {
        let ghost old_g = g@;
        proof {
            reveal_with_fuel(Seq::filter, 2);
            let pred = pred_album_is(aid@);
            assert(tm.subrange(0, i as int + 1).drop_last() =~= tm.subrange(0, i as int));
            assert(tm.subrange(0, i as int + 1).last() == tm[i as int]);
            assert(tm.subrange(0, i as int + 1).filter(pred) == if pred(tm[i as int]) {
                tm.subrange(0, i as int).filter(pred).push(tm[i as int])
            } else {
                tm.subrange(0, i as int).filter(pred)
            });
        }
        let t = &tracks[i];
        let matches_album = match &t.track.album_id {
            Some(a) => a.eq(aid),
            None => false,
        };
        assert(matches_album == (tm[i as int].track.album_id == Some(aid@)));
        if matches_album {
            g.push(t.clone());
            assert(g@.map_values(|t: SavedTrack| t@) =~= old_g.map_values(|t: SavedTrack| t@).push(
                tm[i as int],
            ));
        }
        i += 1;
    }
    assert(tm.subrange(0, tracks@.len() as int) =~= tm);
    g
}

fn sort_group_by_number(g: Vec<SavedTrack>) -> (s: Vec<SavedTrack>)
    ensures
        s@.map_values(|t: SavedTrack| t@).to_multiset() == g@.map_values(
            |t: SavedTrack| t@,
        ).to_multiset(),
        forall|i: int, j: int|
            0 <= i < j < s@.len() ==> (#[trigger] s@[i])@.track.track_number <= (
            #[trigger] s@[j])@.track.track_number,
{
    broadcast use vstd::seq_lib::group_to_multiset_ensures;

    let mut rest = g;
    let mut out: Vec<SavedTrack> = Vec::new();
    let ghost full = rest@;
    let ghost view_of = |t: SavedTrack| t@;
    assert(out@.map_values(view_of) =~= Seq::<SavedTrackData>::empty());
    assert(out@.map_values(view_of).to_multiset().add(rest@.map_values(view_of).to_multiset())
        =~= full.map_values(view_of).to_multiset());
    while rest.len() > 0
        invariant
            view_of == (|t: SavedTrack| t@),
            out@.map_values(view_of).to_multiset().add(rest@.map_values(view_of).to_multiset())
                == full.map_values(view_of).to_multiset(),
            forall|i: int, j: int|
                0 <= i < j < out@.len() ==> (#[trigger] out@[i])@.track.track_number <= (
                #[trigger] out@[j])@.track.track_number,
        decreases rest.len(),
    {
        let ghost old_rest = rest@;
        let ghost old_out = out@;
        let x = rest.remove(0);
        proof {
            assert(old_rest =~= rest@.insert(0, x));
            rest@.insert_ensures(0, x);
            rest@.map_values(view_of).insert_ensures(0, x@);
            assert(old_rest.map_values(view_of) =~= rest@.map_values(view_of).insert(0, x@));
            lemma_insert_multiset(rest@.map_values(view_of), 0, x@);
        }
        let mut pos: usize = 0;
        while pos < out.len() && out[pos].track.track_number <= x.track.track_number
            invariant
                pos <= out@.len(),
                forall|k: int|
                    0 <= k < pos ==> (#[trigger] out@[k])@.track.track_number
                        <= x@.track.track_number,
            decreases out@.len() - pos,
        {
            pos += 1;
        }
        proof {
            out@.insert_ensures(pos as int, x);
        }
        out.insert(pos, x);
        proof {
            assert(out@.map_values(view_of) =~= old_out.map_values(view_of).insert(
                pos as int,
                x@,
            ));
            lemma_insert_multiset(old_out.map_values(view_of), pos as int, x@);
            assert(out@.map_values(view_of).to_multiset().add(rest@.map_values(
                view_of,
            ).to_multiset()) =~= full.map_values(view_of).to_multiset());
            assert forall|i: int, j: int|
                0 <= i < j < out@.len() implies (#[trigger] out@[i])@.track.track_number <= (
            #[trigger] out@[j])@.track.track_number by {
                if i < pos as int && j == pos as int {
                } else if i == pos as int && j > pos as int {
                    assert(out@[j] == old_out[j - 1]);
                    if j - 1 > pos as int {
                        assert(old_out[pos as int]@.track.track_number > x@.track.track_number);
                        assert(old_out[j - 1]@.track.track_number >= old_out[
                            pos as int
                        ]@.track.track_number);
                    }
                } else if i < pos as int && j > pos as int {
                    assert(out@[i] == old_out[i]);
                    assert(out@[j] == old_out[j - 1]);
                }
            }
        }
    }
    proof {
        assert(rest@.map_values(view_of) =~= Seq::<SavedTrackData>::empty());
        assert(out@.map_values(view_of).to_multiset().add(rest@.map_values(view_of).to_multiset())
            =~= out@.map_values(view_of).to_multiset());
    }
    out
}

proof fn lemma_filter_all<A>(s: Seq<A>, p: spec_fn(A) -> bool)
    requires
        forall|i: int| 0 <= i < s.len() ==> p(#[trigger] s[i]),
    ensures
        s.filter(p) == s,
    decreases s.len(),
{
    reveal_with_fuel(Seq::filter, 2);
    if s.len() > 0 {
        assert(forall|i: int| 0 <= i < s.len() - 1 ==> s.drop_last()[i] == #[trigger] s[i]);
        lemma_filter_all(s.drop_last(), p);
        assert(s.filter(p) =~= s);
    } else {
        assert(s.filter(p) =~= s);
    }
}

proof fn lemma_filter_mem_split(ts: Seq<SavedTrackData>, ids: Seq<Seq<char>>, aid: Seq<char>)
    requires
        !ids.contains(aid),
        forall|i: int| 0 <= i < ts.len() ==> (#[trigger] ts[i]).track.album_id is Some,
    ensures
        ts.filter(pred_album_in(ids.push(aid))).to_multiset() == ts.filter(
            pred_album_in(ids),
        ).to_multiset().add(ts.filter(pred_album_is(aid)).to_multiset()),
    decreases ts.len(),
{
    broadcast use vstd::seq_lib::group_to_multiset_ensures;
    broadcast use vstd::multiset::group_multiset_axioms;

    reveal_with_fuel(Seq::filter, 2);
    let p1 = pred_album_in(ids.push(aid));
    let p2 = pred_album_in(ids);
    let p3 = pred_album_is(aid);
    if ts.len() == 0 {
        assert(ts.filter(p1) =~= Seq::<SavedTrackData>::empty());
        assert(ts.filter(p2) =~= Seq::<SavedTrackData>::empty());
        assert(ts.filter(p3) =~= Seq::<SavedTrackData>::empty());
        assert(ts.filter(p1).to_multiset() =~= ts.filter(p2).to_multiset().add(
            ts.filter(p3).to_multiset(),
        ));
    } else {
        let init = ts.drop_last();
        assert(forall|i: int| 0 <= i < init.len() ==> init[i] == #[trigger] ts[i]);
        lemma_filter_mem_split(init, ids, aid);
        let l = ts.last();
        let v = l.track.album_id->0;
        assert(l.track.album_id == Some(v));
        // membership in ids.push(aid) splits into membership in ids or equality with aid
        if ids.contains(v) {
            let w = choose|w: int| 0 <= w < ids.len() && ids[w] == v;
            assert(ids.push(aid)[w] == v);
            assert(p1(l));
        }
        if v == aid {
            assert(ids.push(aid)[ids.len() as int] == v);
            assert(p1(l));
        }
        if p1(l) {
            let w = choose|w: int| 0 <= w < ids.push(aid).len() && ids.push(aid)[w] == v;
            if w < ids.len() {
                assert(ids[w] == v);
            } else {
                assert(v == aid);
            }
        }
        if v == aid {
            assert(p1(l) && !p2(l) && p3(l));
            assert(ts.filter(p1) =~= init.filter(p1).push(l));
            assert(ts.filter(p2) =~= init.filter(p2));
            assert(ts.filter(p3) =~= init.filter(p3).push(l));
            assert(ts.filter(p1).to_multiset() =~= ts.filter(p2).to_multiset().add(
                ts.filter(p3).to_multiset(),
            ));
        } else if ids.contains(v) {
            assert(p1(l) && p2(l) && !p3(l));
            assert(ts.filter(p1) =~= init.filter(p1).push(l));
            assert(ts.filter(p2) =~= init.filter(p2).push(l));
            assert(ts.filter(p3) =~= init.filter(p3));
            assert(ts.filter(p1).to_multiset() =~= ts.filter(p2).to_multiset().add(
                ts.filter(p3).to_multiset(),
            ));
        } else {
            assert(!p1(l) && !p2(l) && !p3(l));
            assert(ts.filter(p1) =~= init.filter(p1));
            assert(ts.filter(p2) =~= init.filter(p2));
            assert(ts.filter(p3) =~= init.filter(p3));
        }
    }
}

/// Whether every album's tracks sit contiguously in the sequence.
pub open spec fn spec_saved_contiguous(ts: Seq<SavedTrackData>) -> bool {
    forall|a: int, b: int, c: int|
        0 <= a < b < c < ts.len() && (#[trigger] ts[a]).track.album_id == (
        #[trigger] ts[c]).track.album_id ==> (#[trigger] ts[b]).track.album_id
            == ts[a].track.album_id
}

/// Arranges a merged set of recently added tracks for presentation:
/// tracks are grouped by album, each group is ordered by ascending
/// track number, groups follow each other with the most recently
/// touched album first, and no track is gained or lost.  Every track
/// must carry an album identifier; identifier-less tracks are filtered
/// out by the callers before this point.
#[verifier::loop_isolation(false)]
pub fn arrange_recent_tracks(tracks: Vec<SavedTrack>) -> (r: Vec<SavedTrack>)
    requires
        forall|i: int|
            0 <= i < tracks@.len() ==> (#[trigger] tracks@[i])@.track.album_id is Some,
    ensures
        r@.map_values(|t: SavedTrack| t@).to_multiset() == tracks@.map_values(
            |t: SavedTrack| t@,
        ).to_multiset(),
        spec_saved_contiguous(r@.map_values(|t: SavedTrack| t@)),
        forall|a: int, b: int|
            0 <= a < b < r@.len() && (#[trigger] r@[a])@.track.album_id == (
            #[trigger] r@[b])@.track.album_id ==> r@[a]@.track.track_number
                <= r@[b]@.track.track_number,
        forall|a: int, b: int|
            0 <= a < b < r@.len() && (#[trigger] r@[a])@.track.album_id != (
            #[trigger] r@[b])@.track.album_id ==> spec_album_max_time(
                tracks@.map_values(|t: SavedTrack| t@),
                r@[a]@.track.album_id->0,
            ) >= spec_album_max_time(
                tracks@.map_values(|t: SavedTrack| t@),
                r@[b]@.track.album_id->0,
            ),
{
    broadcast use vstd::seq_lib::group_to_multiset_ensures;

    let ghost tm = tracks@.map_values(|t: SavedTrack| t@);
    let entries = collect_album_order(&tracks);
    let sorted = sort_album_order(entries);
    let ghost ids = id_views(sorted@);
    proof {
        lemma_album_list_facts(tm);
        id_views(entries@).lemma_multiset_has_no_duplicates();
        ids.lemma_multiset_has_no_duplicates_conv();
        // every key annotation on the sorted entries is the album's true key
        assert forall|j: int|
            0 <= j < sorted@.len() implies (#[trigger] sorted@[j]).key as int
            == spec_album_max_time(tm, ids[j]) by {
            let p = (sorted@[j].id@, sorted@[j].key);
            assert(pair_views(sorted@)[j] == p);
            assert(pair_views(sorted@).contains(p));
            assert(pair_views(sorted@).to_multiset().contains(p));
            assert(pair_views(entries@).to_multiset().contains(p));
            assert(pair_views(entries@).contains(p));
            let w = choose|w: int|
                0 <= w < pair_views(entries@).len() && pair_views(entries@)[w] == p;
            assert(entries@[w].id@ == p.0 && entries@[w].key == p.1);
            assert(ids[j] == p.0);
        }
        // the sorted identifiers are exactly the distinct albums of the input
        assert forall|v: Seq<char>| ids.contains(v) implies spec_album_list(tm).contains(v) by {
            assert(ids.to_multiset().contains(v));
            assert(id_views(entries@).to_multiset().contains(v));
            assert(id_views(entries@).contains(v));
        }
        assert forall|v: Seq<char>| spec_album_list(tm).contains(v) implies ids.contains(v) by {
            assert(id_views(entries@).contains(v));
            assert(id_views(entries@).to_multiset().contains(v));
            assert(ids.to_multiset().contains(v));
        }
    }
    let mut out: Vec<SavedTrack> = Vec::new();
    let mut k: usize = 0;
    proof {
        assert(ids.take(0) =~= Seq::<Seq<char>>::empty());
        let p0 = pred_album_in(ids.take(0));
        assert(tm.all(|t: SavedTrackData| !p0(t)));
        tm.lemma_all_neg_filter_empty(p0);
        assert(out@.map_values(|t: SavedTrack| t@) =~= Seq::<SavedTrackData>::empty());
        assert(out@.map_values(|t: SavedTrack| t@).to_multiset() =~= tm.filter(p0).to_multiset());
    }
    while k < sorted.len()
        invariant
            k <= sorted@.len(),
            out@.map_values(|t: SavedTrack| t@).to_multiset() == tm.filter(
                pred_album_in(ids.take(k as int)),
            ).to_multiset(),
            forall|a: int|
                0 <= a < out@.len() ==> (#[trigger] out@[a])@.track.album_id is Some,
            forall|a: int|
                0 <= a < out@.len() ==> exists|rk: int|
                    0 <= rk < k && ids[rk] == (#[trigger] out@[a])@.track.album_id->0,
            spec_saved_contiguous(out@.map_values(|t: SavedTrack| t@)),
            forall|a: int, b: int|
                0 <= a < b < out@.len() && (#[trigger] out@[a])@.track.album_id == (
                #[trigger] out@[b])@.track.album_id ==> out@[a]@.track.track_number
                    <= out@[b]@.track.track_number,
            forall|a: int, b: int|
                0 <= a < b < out@.len() && (#[trigger] out@[a])@.track.album_id != (
                #[trigger] out@[b])@.track.album_id ==> spec_album_max_time(
                    tm,
                    out@[a]@.track.album_id->0,
                ) >= spec_album_max_time(tm, out@[b]@.track.album_id->0),
        decreases sorted@.len() - k,
    {
        let ghost old_out = out@;
        let ghost aidv = ids[k as int];
        let g = collect_album_group(&tracks, &sorted[k].id);
        let ghost gm = g@.map_values(|t: SavedTrack| t@);
        assert(sorted@[k as int].id@ == aidv);
        let mut gs = sort_group_by_number(g);
        let ghost gsm = gs@.map_values(|t: SavedTrack| t@);
        proof {
            assert(forall|i: int, j: int|
                0 <= i < j < gsm.len() ==> (#[trigger] gsm[i]).track.track_number <= (
                #[trigger] gsm[j]).track.track_number);
            // every element of the sorted group belongs to the album
            assert forall|a: int|
                0 <= a < gsm.len() implies (#[trigger] gsm[a]).track.album_id == Some(aidv) by {
                assert(gsm.contains(gsm[a]));
                assert(gsm.to_multiset().contains(gsm[a]));
                assert(gm.to_multiset().contains(gsm[a]));
                assert(gm.contains(gsm[a]));
                let w = choose|w: int| 0 <= w < gm.len() && gm[w] == gsm[a];
                tm.lemma_filter_pred(pred_album_is(aidv), w);
            }
            // no previously placed element belongs to it
            assert forall|a: int|
                0 <= a < old_out.len() implies (#[trigger] old_out[a])@.track.album_id != Some(
                aidv,
            ) by {
                if old_out[a]@.track.album_id == Some(aidv) {
                    let rk = choose|rk: int|
                        0 <= rk < k && ids[rk] == old_out[a]@.track.album_id->0;
                    assert(ids[rk] == ids[k as int]);
                    assert(false);
                }
            }
        }
        out.append(&mut gs);
        proof {
            let view_of = |t: SavedTrack| t@;
            let outm = out@.map_values(view_of);
            let old_outm = old_out.map_values(view_of);
            assert(outm =~= old_outm + gsm);
            // the multiset invariant
            lemma_multiset_commutative(old_outm, gsm);
            assert(gm == tm.filter(pred_album_is(aidv)));
            if ids.take(k as int).contains(aidv) {
                let w = choose|w: int|
                    0 <= w < ids.take(k as int).len() && ids.take(k as int)[w] == aidv;
                assert(ids[w] == ids[k as int]);
                assert(false);
            }
            lemma_filter_mem_split(tm, ids.take(k as int), aidv);
            assert(ids.take(k as int + 1) =~= ids.take(k as int).push(aidv));
            assert(outm.to_multiset() == tm.filter(
                pred_album_in(ids.take(k as int + 1)),
            ).to_multiset());
            // every element still has an album, placed under a rank below k + 1
            assert forall|a: int|
                0 <= a < out@.len() implies (#[trigger] out@[a])@.track.album_id is Some by {
                if a < old_out.len() {
                    assert(out@[a] == old_out[a]);
                } else {
                    assert(out@[a]@ == gsm[a - old_out.len()]);
                }
            }
            assert forall|a: int|
                0 <= a < out@.len() implies exists|rk: int|
                    0 <= rk < k + 1 && ids[rk] == (#[trigger] out@[a])@.track.album_id->0 by {
                if a < old_out.len() {
                    assert(out@[a] == old_out[a]);
                    let rk = choose|rk: int|
                        0 <= rk < k && ids[rk] == old_out[a]@.track.album_id->0;
                    assert(0 <= rk < k + 1 && ids[rk] == out@[a]@.track.album_id->0);
                } else {
                    assert(out@[a]@ == gsm[a - old_out.len()]);
                    assert(out@[a]@.track.album_id == Some(aidv));
                    assert(ids[k as int] == out@[a]@.track.album_id->0);
                }
            }
            // contiguity
            assert forall|a: int, b: int, c: int|
                0 <= a < b < c < outm.len() && (#[trigger] outm[a]).track.album_id == (
                #[trigger] outm[c]).track.album_id implies (#[trigger] outm[b]).track.album_id
                == outm[a].track.album_id by {
                let n = old_out.len() as int;
                if c < n {
                    assert(old_outm[a] == outm[a] && old_outm[b] == outm[b] && old_outm[c]
                        == outm[c]);
                } else if a >= n {
                    assert(outm[a].track.album_id == Some(aidv));
                    assert(outm[b].track.album_id == Some(aidv));
                } else {
                    assert(outm[c].track.album_id == Some(aidv));
                    assert(outm[a] == old_out[a]@);
                    assert(outm[a].track.album_id != Some(aidv));
                    assert(false);
                }
            }
            // ascending track numbers within an album
            assert forall|a: int, b: int|
                0 <= a < b < outm.len() && (#[trigger] outm[a]).track.album_id == (
                #[trigger] outm[b]).track.album_id implies outm[a].track.track_number
                <= outm[b].track.track_number by {
                let n = old_out.len() as int;
                if b < n {
                    assert(old_outm[a] == outm[a] && old_outm[b] == outm[b]);
                    assert(out@[a] == old_out[a] && out@[b] == old_out[b]);
                } else if a >= n {
                    assert(outm[a] == gsm[a - n] && outm[b] == gsm[b - n]);
                    assert(gsm[a - n].track.track_number <= gsm[b - n].track.track_number);
                } else {
                    assert(outm[b].track.album_id == Some(aidv));
                    assert(outm[a] == old_out[a]@);
                    assert(outm[a].track.album_id != Some(aidv));
                    assert(false);
                }
            }
            // album groups ordered by descending key
            assert forall|a: int, b: int|
                0 <= a < b < outm.len() && (#[trigger] outm[a]).track.album_id != (
                #[trigger] outm[b]).track.album_id implies spec_album_max_time(
                tm,
                outm[a].track.album_id->0,
            ) >= spec_album_max_time(tm, outm[b].track.album_id->0) by {
                let n = old_out.len() as int;
                if b < n {
                    assert(old_outm[a] == outm[a] && old_outm[b] == outm[b]);
                    assert(out@[a] == old_out[a] && out@[b] == old_out[b]);
                } else if a >= n {
                    assert(outm[a].track.album_id == Some(aidv));
                    assert(outm[b].track.album_id == Some(aidv));
                    assert(false);
                } else {
                    assert(outm[a] == old_out[a]@);
                    assert(outm[b].track.album_id == Some(aidv));
                    let rk = choose|rk: int|
                        0 <= rk < k && ids[rk] == old_out[a]@.track.album_id->0;
                    assert(sorted@[rk].key as int == spec_album_max_time(tm, ids[rk]));
                    assert(sorted@[k as int].key as int == spec_album_max_time(
                        tm,
                        ids[k as int],
                    ));
                    assert(sorted@[rk].key >= sorted@[k as int].key);
                }
            }
            // restate the two orderings in terms of the vector's elements
            assert forall|a: int, b: int|
                0 <= a < b < out@.len() && (#[trigger] out@[a])@.track.album_id == (
                #[trigger] out@[b])@.track.album_id implies out@[a]@.track.track_number
                <= out@[b]@.track.track_number by {
                assert(outm[a] == out@[a]@ && outm[b] == out@[b]@);
            }
            assert forall|a: int, b: int|
                0 <= a < b < out@.len() && (#[trigger] out@[a])@.track.album_id != (
                #[trigger] out@[b])@.track.album_id implies spec_album_max_time(
                tm,
                out@[a]@.track.album_id->0,
            ) >= spec_album_max_time(tm, out@[b]@.track.album_id->0) by {
                assert(outm[a] == out@[a]@ && outm[b] == out@[b]@);
            }
        }
        k += 1;
    }
    proof {
        assert(ids.take(sorted@.len() as int) =~= ids);
        assert forall|i: int|
            0 <= i < tm.len() implies pred_album_in(ids)(#[trigger] tm[i]) by {
            assert(spec_album_list(tm).contains(tm[i].track.album_id->0));
            assert(ids.contains(tm[i].track.album_id->0));
        }
        lemma_filter_all(tm, pred_album_in(ids));
    }
    out
}

/// The predicate holding of saved tracks that can be placed in a
/// playlist: both a track identifier and an album identifier present.
pub open spec fn pred_playable() -> spec_fn(SavedTrackData) -> bool {
    |t: SavedTrackData| t.track.id is Some && t.track.album_id is Some
}

/// The predicate holding of saved tracks whose identifier is not
/// among `ids`.
pub open spec fn pred_id_not_in(ids: Seq<Seq<char>>) -> spec_fn(SavedTrackData) -> bool {
    |t: SavedTrackData| !ids.contains(t.track.id->0)
}

/// The identifiers of the saved tracks that have one, in order.
pub open spec fn spec_saved_ids(ts: Seq<SavedTrackData>) -> Seq<Seq<char>> {
    ts.filter_map(|t: SavedTrackData| t.track.id)
}

/// Album-derived tracks joined with the liked tracks that are not
/// already reachable through an admitted album: the album-derived
/// entry wins on a shared identifier, since it carries the album's
/// save instant.
pub open spec fn spec_merge_recent(
    am: Seq<SavedTrackData>,
    lm: Seq<SavedTrackData>,
) -> Seq<SavedTrackData> {
    am + lm.filter(pred_id_not_in(spec_saved_ids(am)))
}

fn filter_playable(ts: Vec<SavedTrack>) -> (r: Vec<SavedTrack>)
    ensures
        r@.map_values(|t: SavedTrack| t@) == ts@.map_values(|t: SavedTrack| t@).filter(
            pred_playable(),
        ),
{
    let ghost full = ts@.map_values(|t: SavedTrack| t@);
    let mut rest = ts;
    let mut r: Vec<SavedTrack> = Vec::new();
    let ghost mut done: Seq<SavedTrackData> = Seq::empty();
    proof {
        reveal_with_fuel(Seq::filter, 2);
        assert(done + rest@.map_values(|t: SavedTrack| t@) =~= full);
        assert(r@.map_values(|t: SavedTrack| t@) =~= done.filter(pred_playable()));
    }
    while rest.len() > 0
        invariant
            done + rest@.map_values(|t: SavedTrack| t@) == full,
            r@.map_values(|t: SavedTrack| t@) == done.filter(pred_playable()),
        decreases rest.len(),
    {
        let ghost old_restm = rest@.map_values(|t: SavedTrack| t@);
        let ghost old_rm = r@.map_values(|t: SavedTrack| t@);
        let t = rest.remove(0);
        proof {
            reveal_with_fuel(Seq::filter, 2);
            assert(rest@.map_values(|t: SavedTrack| t@) =~= old_restm.drop_first());
            assert(old_restm[0] == t@);
            assert((done.push(t@)) + old_restm.drop_first() =~= done + old_restm);
            assert(done.push(t@).drop_last() =~= done);
            assert(done.push(t@).last() == t@);
        }
        let keep = t.track.id.is_some() && t.track.album_id.is_some();
        assert(keep == pred_playable()(t@));
        if keep {
            r.push(t);
            assert(r@.map_values(|t: SavedTrack| t@) =~= old_rm.push(old_restm[0]));
        }
        proof {
            done = done.push(old_restm[0]);
        }
    }
    proof {
        assert(rest@.map_values(|t: SavedTrack| t@) =~= Seq::<SavedTrackData>::empty());
        assert(done + Seq::<SavedTrackData>::empty() =~= done);
        assert(done =~= full);
    }
    r
}

fn saved_ids(ts: &Vec<SavedTrack>) -> (ids: Vec<String>)
    ensures
        ids@.map_values(|s: String| s@) == spec_saved_ids(ts@.map_values(|t: SavedTrack| t@)),
{
    let ghost tm = ts@.map_values(|t: SavedTrack| t@);
    let mut ids: Vec<String> = Vec::new();
    let mut i: usize = 0;
    assert(tm.subrange(0, 0) =~= Seq::<SavedTrackData>::empty());
    assert(ids@.map_values(|s: String| s@) =~= tm.subrange(0, 0).filter_map(
        |t: SavedTrackData| t.track.id,
    ));
    while i < ts.len()
        invariant
            i <= ts@.len(),
            tm == ts@.map_values(|t: SavedTrack| t@),
            ids@.map_values(|s: String| s@) == tm.subrange(0, i as int).filter_map(
                |t: SavedTrackData| t.track.id,
            ),
        decreases ts@.len() - i,
    {
        let ghost old_idsm = ids@.map_values(|s: String| s@);
        proof {
            assert(tm.subrange(0, i as int + 1).drop_last() =~= tm.subrange(0, i as int));
            assert(tm.subrange(0, i as int + 1).last() == tm[i as int]);
        }
        match &ts[i].track.id {
            Some(id) => {
                ids.push(id.clone());
                assert(ids@.map_values(|s: String| s@) =~= old_idsm + seq![
                    tm[i as int].track.id->0,
                ]);
            },
            None => {},
        }
        i += 1;
    }
    assert(tm.subrange(0, ts@.len() as int) =~= tm);
    ids
}

/// Produces the ordered "recently added" sequence from the tracks of
/// the admitted albums and the admitted liked tracks: tracks without
/// identifiers are dropped, a track reachable both through an album
/// and the liked list keeps the album-derived entry, and the union is
/// arranged album by album, most recently touched album first,
/// ascending track numbers within each album.
#[verifier::loop_isolation(false)]
pub fn recently_added_tracks(album_tracks: Vec<SavedTrack>, liked_tracks: Vec<SavedTrack>) -> (r:
    Vec<SavedTrack>)
    ensures
        ({
            let am = album_tracks@.map_values(|t: SavedTrack| t@).filter(pred_playable());
            let lm = liked_tracks@.map_values(|t: SavedTrack| t@).filter(pred_playable());
            let merged = spec_merge_recent(am, lm);
            &&& r@.map_values(|t: SavedTrack| t@).to_multiset() == merged.to_multiset()
            &&& spec_saved_contiguous(r@.map_values(|t: SavedTrack| t@))
            &&& forall|a: int, b: int|
                0 <= a < b < r@.len() && (#[trigger] r@[a])@.track.album_id == (
                #[trigger] r@[b])@.track.album_id ==> r@[a]@.track.track_number
                    <= r@[b]@.track.track_number
            &&& forall|a: int, b: int|
                0 <= a < b < r@.len() && (#[trigger] r@[a])@.track.album_id != (
                #[trigger] r@[b])@.track.album_id ==> spec_album_max_time(
                    merged,
                    r@[a]@.track.album_id->0,
                ) >= spec_album_max_time(merged, r@[b]@.track.album_id->0)
        }),
{
    let ghost asrc = album_tracks@.map_values(|t: SavedTrack| t@);
    let ghost lsrc = liked_tracks@.map_values(|t: SavedTrack| t@);
    let ghost am = asrc.filter(pred_playable());
    let ghost lm = lsrc.filter(pred_playable());
    let a = filter_playable(album_tracks);
    let l = filter_playable(liked_tracks);
    let ids = saved_ids(&a);
    let ghost idsm = ids@.map_values(|s: String| s@);
    assert(idsm == spec_saved_ids(am));
    let mut merged = a;
    let mut rest = l;
    let ghost mut done: Seq<SavedTrackData> = Seq::empty();
    proof {
        reveal_with_fuel(Seq::filter, 2);
        assert(done + rest@.map_values(|t: SavedTrack| t@) =~= lm);
        assert(done.filter(pred_id_not_in(idsm)) =~= Seq::<SavedTrackData>::empty());
        assert(merged@.map_values(|t: SavedTrack| t@) =~= am + done.filter(
            pred_id_not_in(idsm),
        ));
    }
    while rest.len() > 0
        invariant
            done + rest@.map_values(|t: SavedTrack| t@) == lm,
            merged@.map_values(|t: SavedTrack| t@) == am + done.filter(pred_id_not_in(idsm)),
        decreases rest.len(),
    {
        let ghost old_restm = rest@.map_values(|t: SavedTrack| t@);
        let ghost old_mm = merged@.map_values(|t: SavedTrack| t@);
        let t = rest.remove(0);
        proof {
            reveal_with_fuel(Seq::filter, 2);
            assert(rest@.map_values(|t: SavedTrack| t@) =~= old_restm.drop_first());
            assert(old_restm[0] == t@);
            assert((done.push(t@)) + old_restm.drop_first() =~= done + old_restm);
            assert(done.push(t@).drop_last() =~= done);
            assert(done.push(t@).last() == t@);
        }
        let fresh = match &t.track.id {
            Some(id) => !contains_id(&ids, id),
            None => true,
        };
        proof {
            assert(lm[done.len() as int] == t@);
            lsrc.lemma_filter_pred(pred_playable(), done.len() as int);
            assert(pred_playable()(t@));
            assert(t@.track.id is Some);
        }
        assert(fresh == pred_id_not_in(idsm)(t@));
        if fresh {
            merged.push(t);
            assert(merged@.map_values(|t: SavedTrack| t@) =~= old_mm.push(old_restm[0]));
            assert(old_mm.push(old_restm[0]) =~= am + done.push(old_restm[0]).filter(
                pred_id_not_in(idsm),
            ));
        } else {
            assert(merged@.map_values(|t: SavedTrack| t@) =~= am + done.push(
                old_restm[0],
            ).filter(pred_id_not_in(idsm)));
        }
        proof {
            done = done.push(old_restm[0]);
        }
    }
    proof {
        assert(rest@.map_values(|t: SavedTrack| t@) =~= Seq::<SavedTrackData>::empty());
        assert(done + Seq::<SavedTrackData>::empty() =~= done);
        assert(done =~= lm);
        assert(merged@.map_values(|t: SavedTrack| t@) == spec_merge_recent(am, lm));
        assert forall|i: int|
            0 <= i < merged@.len() implies (#[trigger] merged@[i])@.track.album_id is Some by {
            let mm = merged@.map_values(|t: SavedTrack| t@);
            assert(mm[i] == merged@[i]@);
            if i < am.len() {
                asrc.lemma_filter_pred(pred_playable(), i);
                assert(pred_playable()(am[i]));
            } else {
                let fm = lm.filter(pred_id_not_in(idsm));
                assert(mm[i] == fm[i - am.len()]);
                assert(fm.contains(fm[i - am.len()]));
                lm.lemma_filter_contains_rev(pred_id_not_in(idsm), fm[i - am.len()]);
                assert(lm.contains(fm[i - am.len()]));
                let w = choose|w: int| 0 <= w < lm.len() && lm[w] == fm[i - am.len()];
                lsrc.lemma_filter_pred(pred_playable(), w);
                assert(pred_playable()(lm[w]));
            }
        }
    }
    let r = arrange_recent_tracks(merged);
    r
}

} // verus!
