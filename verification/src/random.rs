//! Random track sampling for the shuffled playlists, built on rand's
//! reservoir sampling.

use rand::seq::IteratorRandom;
use vstd::prelude::*;

use crate::model::SavedTrack;
use crate::model::SavedTrackData;
use crate::model::Track;
use crate::model::TrackData;
use crate::storage::LibraryDatabase;

verus! {

/// Relies on rand's `IteratorRandom::sample` (reservoir sampling over
/// `rand::rng()`): the result holds `min(amount, n)` of the input's
/// elements, each input position used at most once; which elements
/// come back depends on the thread-local generator, so only that much
/// is stated.
#[verifier::external_body]
fn sample_from(tracks: Vec<Track>, amount: usize) -> (r: Vec<Track>)
    ensures
        amount <= tracks@.len() ==> r@.len() == amount,
        amount > tracks@.len() ==> r@.len() == tracks@.len(),
        r@.map_values(|t: Track| t@).to_multiset().subset_of(
            tracks@.map_values(|t: Track| t@).to_multiset(),
        ),
{
    let mut rng = rand::rng();
    tracks.into_iter().sample(&mut rng, amount)
}

/// Clones a list of tracks, keeping every element's value.
fn clone_tracks(tracks: &Vec<Track>) -> (r: Vec<Track>)
    ensures
        r@.map_values(|t: Track| t@) == tracks@.map_values(|t: Track| t@),
{
    let ghost tm = tracks@.map_values(|t: Track| t@);
    let mut r: Vec<Track> = Vec::new();
    let mut i: usize = 0;
    assert(r@.map_values(|t: Track| t@) =~= tm.take(0));
    while i < tracks.len()
        invariant
            i <= tracks@.len(),
            tm == tracks@.map_values(|t: Track| t@),
            r@.map_values(|t: Track| t@) == tm.take(i as int),
        decreases tracks@.len() - i,
    {
        r.push(tracks[i].clone());
        assert(r@.map_values(|t: Track| t@) =~= tm.take(i as int).push(tm[i as int]));
        assert(tm.take(i as int).push(tm[i as int]) =~= tm.take(i as int + 1));
        i += 1;
    }
    assert(tm.take(tracks@.len() as int) =~= tm);
    r
}

/// Draws `amount` tracks at random from the cached library, for the
/// periodically rebuilt sample playlist.  Every returned track is a
/// cached track, no cache entry is used twice, and the count is
/// `amount` unless the cache is smaller.
pub fn weekly_sample_tracks(library: &LibraryDatabase, amount: usize) -> (r: Vec<Track>)
    ensures
        amount <= library.tracks@.len() ==> r@.len() == amount,
        amount > library.tracks@.len() ==> r@.len() == library.tracks@.len(),
        r@.map_values(|t: Track| t@).to_multiset().subset_of(library.track_views().to_multiset()),
{
    let tracks = clone_tracks(library.retrieve_tracks());
    proof {
        assert(tracks@.map_values(|t: Track| t@).len() == tracks@.len());
        assert(library.tracks@.map_values(|t: Track| t@).len() == library.tracks@.len());
        assert(tracks@.len() == library.tracks@.len());
    }
    sample_from(tracks, amount)
}

/// The track list for a full playlist rebuild: the recently added
/// sequence followed by a random sample of the whole cached library.
pub fn everything_tracks(recent: Vec<Track>, library: &LibraryDatabase, amount: usize) -> (r: Vec<
    Track,
>)
    ensures
        r@.len() == recent@.len() + if amount <= library.tracks@.len() {
            amount as int
        } else {
            library.tracks@.len() as int
        },
        r@.map_values(|t: Track| t@).take(recent@.len() as int) == recent@.map_values(
            |t: Track| t@,
        ),
        r@.map_values(|t: Track| t@).skip(recent@.len() as int).to_multiset().subset_of(
            library.track_views().to_multiset(),
        ),
{
    let ghost rm = recent@.map_values(|t: Track| t@);
    let mut out = recent;
    let mut sampled = weekly_sample_tracks(library, amount);
    let ghost sm = sampled@.map_values(|t: Track| t@);
    out.append(&mut sampled);
    proof {
        assert(out@.map_values(|t: Track| t@) =~= rm + sm);
        assert((rm + sm).take(rm.len() as int) =~= rm);
        assert((rm + sm).skip(rm.len() as int) =~= sm);
    }
    out
}

} // verus!
