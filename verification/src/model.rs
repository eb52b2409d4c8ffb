//! Plain data model: tracks, albums, and their saved (timestamped)
//! forms, with ghost views over mathematical sequences.

use vstd::prelude::*;

verus! {

/// A single track.  A `None` identifier marks a local-only track,
/// which is excluded from every identifier-keyed operation.
pub struct Track {
    pub id: Option<String>,
    pub title: String,
    pub artists: Vec<String>,
    pub album_id: Option<String>,
    pub album_name: String,
    pub track_number: u32,
}

/// Ghost view of a [`Track`]: every string becomes a `Seq<char>`.
pub ghost struct TrackData {
    pub id: Option<Seq<char>>,
    pub title: Seq<char>,
    pub artists: Seq<Seq<char>>,
    pub album_id: Option<Seq<char>>,
    pub album_name: Seq<char>,
    pub track_number: u32,
}

impl View for Track {
    type V = TrackData;

    open spec fn view(&self) -> TrackData {
        TrackData {
            id: match self.id {
                Some(s) => Some(s@),
                None => None,
            },
            title: self.title@,
            artists: self.artists@.map_values(|s: String| s@),
            album_id: match self.album_id {
                Some(s) => Some(s@),
                None => None,
            },
            album_name: self.album_name@,
            track_number: self.track_number,
        }
    }
}

/// A track together with the instant it entered the library,
/// as seconds since the Unix epoch.
pub struct SavedTrack {
    pub track: Track,
    pub added_at: i64,
}

/// Ghost view of a [`SavedTrack`].
pub ghost struct SavedTrackData {
    pub track: TrackData,
    pub added_at: i64,
}

impl View for SavedTrack {
    type V = SavedTrackData;

    open spec fn view(&self) -> SavedTrackData {
        SavedTrackData { track: self.track@, added_at: self.added_at }
    }
}

/// An album: its identifier is always present remotely, so it is not
/// optional here.
pub struct Album {
    pub id: String,
    pub name: String,
    pub tracks: Vec<Track>,
    pub genres: Vec<String>,
    pub total_tracks: u32,
}

/// Ghost view of an [`Album`].
pub ghost struct AlbumData {
    pub id: Seq<char>,
    pub name: Seq<char>,
    pub tracks: Seq<TrackData>,
    pub genres: Seq<Seq<char>>,
    pub total_tracks: u32,
}

impl View for Album {
    type V = AlbumData;

    open spec fn view(&self) -> AlbumData {
        AlbumData {
            id: self.id@,
            name: self.name@,
            tracks: self.tracks@.map_values(|t: Track| t@),
            genres: self.genres@.map_values(|s: String| s@),
            total_tracks: self.total_tracks,
        }
    }
}

/// An album together with the instant it was saved.
pub struct SavedAlbum {
    pub album: Album,
    pub added_at: i64,
}

/// Ghost view of a [`SavedAlbum`].
pub ghost struct SavedAlbumData {
    pub album: AlbumData,
    pub added_at: i64,
}

impl View for SavedAlbum {
    type V = SavedAlbumData;

    open spec fn view(&self) -> SavedAlbumData {
        SavedAlbumData { album: self.album@, added_at: self.added_at }
    }
}

/// Why a sync operation stopped.  Remote failures abort the operation
/// that issued them; a corrupt cache file is reported rather than
/// silently discarded; a missing identifier is normally filtered out
/// upstream, and this variant only names the condition for callers
/// that insist on one.
#[derive(Clone, Copy, PartialEq, Eq, Structural, Debug)]
pub enum SyncError {
    RemoteReadError,
    RemoteWriteError,
    CorruptCache,
    MissingIdentifier,
}

/// Clones a vector of strings, keeping every element's value.
pub fn clone_strings(v: &Vec<String>) -> (r: Vec<String>)
    ensures
        r@ == v@,
{
    let mut r: Vec<String> = Vec::new();
    let mut i: usize = 0;
    while i < v.len()
        invariant
            i <= v.len(),
            r@ == v@.take(i as int),
        decreases v.len() - i,
    {
        r.push(v[i].clone());
        assert(v@.take(i as int).push(v@[i as int]) =~= v@.take(i + 1));
        i += 1;
    }
    assert(v@.take(v.len() as int) =~= v@);
    r
}

/// Clones an optional string, keeping its value.
pub fn clone_opt_string(v: &Option<String>) -> (r: Option<String>)
    ensures
        r == v,
{
    match v {
        Some(s) => Some(s.clone()),
        None => None,
    }
}

impl Clone for Track {
    fn clone(&self) -> (res: Track)
        ensures
            res@ == self@,
    {
        Track {
            id: clone_opt_string(&self.id),
            title: self.title.clone(),
            artists: clone_strings(&self.artists),
            album_id: clone_opt_string(&self.album_id),
            album_name: self.album_name.clone(),
            track_number: self.track_number,
        }
    }
}

impl Clone for SavedTrack {
    fn clone(&self) -> (res: SavedTrack)
        ensures
            res@ == self@,
    {
        SavedTrack { track: self.track.clone(), added_at: self.added_at }
    }
}

} // verus!
