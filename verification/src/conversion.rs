//! Conversions between saved forms, tracks and identifier lists, and
//! the assignment of album save times to album tracks.

use vstd::prelude::*;

use crate::model::Album;
use crate::model::AlbumData;
use crate::model::SavedAlbum;
use crate::model::SavedAlbumData;
use crate::model::SavedTrack;
use crate::model::SavedTrackData;
use crate::model::Track;
use crate::model::TrackData;

verus! {

/// The identifiers of the tracks that have one, in order.
pub open spec fn spec_track_ids(ts: Seq<TrackData>) -> Seq<Seq<char>> {
    ts.filter_map(|t: TrackData| t.id)
}

/// Collects the identifiers of `tracks`, dropping local-only tracks
/// (those without one).
pub fn tracks_to_ids(tracks: &Vec<Track>) -> (ids: Vec<String>)
    ensures
        ids@.map_values(|s: String| s@) == spec_track_ids(tracks@.map_values(|t: Track| t@)),
{
    let ghost tm = tracks@.map_values(|t: Track| t@);
    let mut ids: Vec<String> = Vec::new();
    let mut i: usize = 0;
    assert(tm.subrange(0, 0) =~= Seq::<TrackData>::empty());
    assert(ids@.map_values(|s: String| s@) =~= tm.subrange(0, 0).filter_map(
        |t: TrackData| t.id,
    ));
    while i < tracks.len()
        invariant
            i <= tracks@.len(),
            tm == tracks@.map_values(|t: Track| t@),
            ids@.map_values(|s: String| s@) == tm.subrange(0, i as int).filter_map(
                |t: TrackData| t.id,
            ),
        decreases tracks@.len() - i,
    {
        let ghost old_idsm = ids@.map_values(|s: String| s@);
        proof {
            assert(tm.subrange(0, i as int + 1).drop_last() =~= tm.subrange(0, i as int));
            assert(tm.subrange(0, i as int + 1).last() == tm[i as int]);
        }
        match &tracks[i].id {
            Some(id) => {
                ids.push(id.clone());
                assert(ids@.map_values(|s: String| s@) =~= old_idsm + seq![tm[i as int].id->0]);
            },
            None => {},
        }
        i += 1;
    }
    assert(tm.subrange(0, tracks@.len() as int) =~= tm);
    ids
}

/// Unwraps saved tracks into their bare tracks.
pub fn saved_tracks_to_tracks(saved: Vec<SavedTrack>) -> (r: Vec<Track>)
    ensures
        r@.map_values(|t: Track| t@) == saved@.map_values(|s: SavedTrack| s@.track),
{
    let ghost sm = saved@.map_values(|s: SavedTrack| s@.track);
    let mut rest = saved;
    let mut r: Vec<Track> = Vec::new();
    assert(r@.map_values(|t: Track| t@) + rest@.map_values(|s: SavedTrack| s@.track) =~= sm);
    while rest.len() > 0
        invariant
            r@.map_values(|t: Track| t@) + rest@.map_values(|s: SavedTrack| s@.track) == sm,
        decreases rest.len(),
    {
        let ghost old_rm = r@.map_values(|t: Track| t@);
        let ghost old_restm = rest@.map_values(|s: SavedTrack| s@.track);
        let s = rest.remove(0);
        assert(rest@.map_values(|s: SavedTrack| s@.track) =~= old_restm.drop_first());
        r.push(s.track);
        assert(r@.map_values(|t: Track| t@) =~= old_rm.push(old_restm[0]));
        assert(old_rm.push(old_restm[0]) + old_restm.drop_first() =~= old_rm + old_restm);
    }
    assert(rest@.map_values(|s: SavedTrack| s@.track) =~= Seq::<TrackData>::empty());
    assert(r@.map_values(|t: Track| t@) + Seq::<TrackData>::empty() =~= r@.map_values(
        |t: Track| t@,
    ));
    r
}

/// Unwraps saved albums into their bare albums.
pub fn saved_albums_to_albums(saved: Vec<SavedAlbum>) -> (r: Vec<Album>)
    ensures
        r@.map_values(|a: Album| a@) == saved@.map_values(|s: SavedAlbum| s@.album),
{
    let ghost sm = saved@.map_values(|s: SavedAlbum| s@.album);
    let mut rest = saved;
    let mut r: Vec<Album> = Vec::new();
    assert(r@.map_values(|a: Album| a@) + rest@.map_values(|s: SavedAlbum| s@.album) =~= sm);
    while rest.len() > 0
        invariant
            r@.map_values(|a: Album| a@) + rest@.map_values(|s: SavedAlbum| s@.album) == sm,
        decreases rest.len(),
    {
        let ghost old_rm = r@.map_values(|a: Album| a@);
        let ghost old_restm = rest@.map_values(|s: SavedAlbum| s@.album);
        let s = rest.remove(0);
        assert(rest@.map_values(|s: SavedAlbum| s@.album) =~= old_restm.drop_first());
        r.push(s.album);
        assert(r@.map_values(|a: Album| a@) =~= old_rm.push(old_restm[0]));
        assert(old_rm.push(old_restm[0]) + old_restm.drop_first() =~= old_rm + old_restm);
    }
    assert(rest@.map_values(|s: SavedAlbum| s@.album) =~= Seq::<AlbumData>::empty());
    assert(r@.map_values(|a: Album| a@) + Seq::<AlbumData>::empty() =~= r@.map_values(
        |a: Album| a@,
    ));
    r
}

/// The identifiers of all tracks of all albums, album by album, each
/// album's tracks in their stored order, identifier-less tracks
/// dropped.
pub open spec fn spec_album_track_ids(albums: Seq<AlbumData>) -> Seq<Seq<char>>
    decreases albums.len(),
{
    if albums.len() == 0 {
        Seq::empty()
    } else {
        spec_album_track_ids(albums.drop_last()) + spec_track_ids(albums.last().tracks)
    }
}

/// Collects the track identifiers of every album, in album order, for
/// the batched track lookup that resolves them to full records.
pub fn album_track_ids(albums: &Vec<Album>) -> (ids: Vec<String>)
    ensures
        ids@.map_values(|s: String| s@) == spec_album_track_ids(
            albums@.map_values(|a: Album| a@),
        ),
{
    let ghost am = albums@.map_values(|a: Album| a@);
    let mut ids: Vec<String> = Vec::new();
    let mut i: usize = 0;
    assert(am.subrange(0, 0) =~= Seq::<AlbumData>::empty());
    assert(ids@.map_values(|s: String| s@) =~= spec_album_track_ids(am.subrange(0, 0)));
    while i < albums.len()
        invariant
            i <= albums@.len(),
            am == albums@.map_values(|a: Album| a@),
            ids@.map_values(|s: String| s@) == spec_album_track_ids(am.subrange(0, i as int)),
        decreases albums@.len() - i,
    {
        proof {
            assert(am.subrange(0, i as int + 1).drop_last() =~= am.subrange(0, i as int));
            assert(am.subrange(0, i as int + 1).last() == am[i as int]);
        }
        let ghost before = ids@.map_values(|s: String| s@);
        let mut album_ids = tracks_to_ids(&albums[i].tracks);
        let ghost addm = album_ids@.map_values(|s: String| s@);
        proof {
            assert(albums@[i as int]@.tracks == am[i as int].tracks);
        }
        ids.append(&mut album_ids);
        proof {
            assert(ids@.map_values(|s: String| s@) =~= before + addm);
        }
        i += 1;
    }
    assert(am.subrange(0, albums@.len() as int) =~= am);
    ids
}

/// The save instant of the album with identifier `aid`, the last
/// occurrence winning when an identifier repeats.
pub open spec fn spec_album_time(albums: Seq<SavedAlbumData>, aid: Seq<char>) -> Option<i64>
    decreases albums.len(),
{
    if albums.len() == 0 {
        None
    } else if albums.last().album.id == aid {
        Some(albums.last().added_at)
    } else {
        spec_album_time(albums.drop_last(), aid)
    }
}

fn find_album_time(albums: &Vec<SavedAlbum>, aid: &String) -> (r: Option<i64>)
    ensures
        r == spec_album_time(albums@.map_values(|a: SavedAlbum| a@), aid@),
{
    let ghost am = albums@.map_values(|a: SavedAlbum| a@);
    let mut i: usize = albums.len();
    assert(am.subrange(0, albums@.len() as int) =~= am);
    while i > 0
        invariant
            i <= albums@.len(),
            am == albums@.map_values(|a: SavedAlbum| a@),
            spec_album_time(am, aid@) == spec_album_time(am.subrange(0, i as int), aid@),
        decreases i,
    {
        proof {
            assert(am.subrange(0, i as int).drop_last() =~= am.subrange(0, i as int - 1));
            assert(am.subrange(0, i as int).last() == am[i as int - 1]);
        }
        if albums[i - 1].album.id.eq(aid) {
            return Some(albums[i - 1].added_at);
        }
        i -= 1;
    }
    assert(am.subrange(0, 0) =~= Seq::<SavedAlbumData>::empty());
    None
}

/// The fetched album tracks as saved tracks, each stamped with its
/// album's save instant; a track whose album cannot be found among
/// the saved albums, or which has no album identifier, is dropped.
pub open spec fn spec_assign_times(
    albums: Seq<SavedAlbumData>,
    ts: Seq<TrackData>,
) -> Seq<SavedTrackData>
    decreases ts.len(),
{
    if ts.len() == 0 {
        Seq::empty()
    } else {
        let init = spec_assign_times(albums, ts.drop_last());
        match ts.last().album_id {
            Some(aid) => match spec_album_time(albums, aid) {
                Some(at) => init.push(SavedTrackData { track: ts.last(), added_at: at }),
                None => init,
            },
            None => init,
        }
    }
}

/// Stamps every fetched album track with the save instant of its
/// album: all tracks of one album share the album's `added_at`, not
/// their own metadata's.
pub fn saved_albums_to_saved_tracks(albums: &Vec<SavedAlbum>, fetched: Vec<Track>) -> (r: Vec<
    SavedTrack,
>)
    ensures
        r@.map_values(|t: SavedTrack| t@) == spec_assign_times(
            albums@.map_values(|a: SavedAlbum| a@),
            fetched@.map_values(|t: Track| t@),
        ),
{
    let ghost am = albums@.map_values(|a: SavedAlbum| a@);
    let ghost fm = fetched@.map_values(|t: Track| t@);
    let mut rest = fetched;
    let mut r: Vec<SavedTrack> = Vec::new();
    let ghost mut done: Seq<TrackData> = Seq::empty();
    proof {
        assert(done + rest@.map_values(|t: Track| t@) =~= fm);
        assert(r@.map_values(|t: SavedTrack| t@) =~= spec_assign_times(am, done));
    }
    while rest.len() > 0
        invariant
            am == albums@.map_values(|a: SavedAlbum| a@),
            done + rest@.map_values(|t: Track| t@) == fm,
            r@.map_values(|t: SavedTrack| t@) == spec_assign_times(am, done),
        decreases rest.len(),
    {
        let ghost old_restm = rest@.map_values(|t: Track| t@);
        let ghost old_rm = r@.map_values(|t: SavedTrack| t@);
        let track = rest.remove(0);
        proof {
            assert(rest@.map_values(|t: Track| t@) =~= old_restm.drop_first());
            assert(old_restm[0] == track@);
            assert((done.push(track@)) + old_restm.drop_first() =~= done + old_restm);
            assert(done.push(track@).drop_last() =~= done);
            assert(done.push(track@).last() == track@);
        }
        match &track.album_id {
            Some(aid) => {
                match find_album_time(albums, aid) {
                    Some(at) => {
                        let ghost tv = track@;
                        r.push(SavedTrack { track, added_at: at });
                        assert(r@.map_values(|t: SavedTrack| t@) =~= old_rm.push(
                            SavedTrackData { track: tv, added_at: at },
                        ));
                    },
                    None => {},
                }
            },
            None => {},
        }
        proof {
            done = done.push(old_restm[0]);
        }
    }
    proof {
        assert(rest@.map_values(|t: Track| t@) =~= Seq::<TrackData>::empty());
        assert(done + Seq::<TrackData>::empty() =~= done);
        assert(done =~= fm);
    }
    r
}

} // verus!
