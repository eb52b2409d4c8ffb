//! The library cache: an in-memory snapshot of saved tracks and
//! albums keyed by identifier, merged additively on update and
//! searched case-insensitively.  Loading and persisting the snapshot
//! is the business of the surrounding program; the merge and search
//! rules live here.

use vstd::prelude::*;
use vstd::string::StringExecFns;

use crate::model::Album;
use crate::model::AlbumData;
use crate::model::Track;
use crate::model::TrackData;
use crate::textops::is_substring;
use crate::textops::lower_of;
use crate::textops::str_contains;
use crate::textops::to_lowercase;

verus! {

/// Folds `items` into `m` left to right: an item with a key replaces
/// whatever the map held under that key, an item without a key is
/// skipped, and nothing is ever removed.
pub open spec fn spec_merge_keyed<V>(
    m: Map<Seq<char>, V>,
    items: Seq<V>,
    key: spec_fn(V) -> Option<Seq<char>>,
) -> Map<Seq<char>, V>
    decreases items.len(),
{
    if items.len() == 0 {
        m
    } else {
        let prev = spec_merge_keyed(m, items.drop_last(), key);
        match key(items.last()) {
            Some(k) => prev.insert(k, items.last()),
            None => prev,
        }
    }
}

/// The last item of `items` carrying key `k`, if any.
pub open spec fn last_with_key<V>(
    items: Seq<V>,
    key: spec_fn(V) -> Option<Seq<char>>,
    k: Seq<char>,
) -> Option<V>
    decreases items.len(),
{
    if items.len() == 0 {
        None
    } else if key(items.last()) == Some(k) {
        Some(items.last())
    } else {
        last_with_key(items.drop_last(), key, k)
    }
}

/// What the merge holds under each key: the last merged item with
/// that key if one exists, else whatever the base map held.
pub proof fn lemma_merge_char<V>(
    m: Map<Seq<char>, V>,
    items: Seq<V>,
    key: spec_fn(V) -> Option<Seq<char>>,
    k: Seq<char>,
)
    ensures
        match last_with_key(items, key, k) {
            Some(v) => spec_merge_keyed(m, items, key).contains_key(k) && spec_merge_keyed(
                m,
                items,
                key,
            )[k] == v,
            None => spec_merge_keyed(m, items, key).contains_key(k) == m.contains_key(k) && (
            m.contains_key(k) ==> spec_merge_keyed(m, items, key)[k] == m[k]),
        },
    decreases items.len(),
{
    if items.len() > 0 {
        lemma_merge_char(m, items.drop_last(), key, k);
    }
}

/// Cache idempotence law: merging the same batch of items into a map
/// twice leaves exactly the map that one merge produces, so a second
/// update with no new remote data rewrites an identical snapshot.
pub proof fn lemma_merge_idempotent<V>(
    m: Map<Seq<char>, V>,
    items: Seq<V>,
    key: spec_fn(V) -> Option<Seq<char>>,
)
    ensures
        spec_merge_keyed(spec_merge_keyed(m, items, key), items, key) == spec_merge_keyed(
            m,
            items,
            key,
        ),
{
    let m1 = spec_merge_keyed(m, items, key);
    let m2 = spec_merge_keyed(m1, items, key);
    assert forall|k: Seq<char>| true implies #[trigger] m2.contains_key(k) == m1.contains_key(k)
        && (m1.contains_key(k) ==> m2[k] == m1[k]) by {
        lemma_merge_char(m, items, key, k);
        lemma_merge_char(m1, items, key, k);
    }
    assert(m2 =~= m1);
}

proof fn lemma_merge_push<V>(
    m: Map<Seq<char>, V>,
    items: Seq<V>,
    key: spec_fn(V) -> Option<Seq<char>>,
    v: V,
)
    ensures
        spec_merge_keyed(m, items.push(v), key) == match key(v) {
            Some(k) => spec_merge_keyed(m, items, key).insert(k, v),
            None => spec_merge_keyed(m, items, key),
        },
{
    assert(items.push(v).drop_last() =~= items);
    assert(items.push(v).last() == v);
}

proof fn lemma_merge_update<V>(
    m: Map<Seq<char>, V>,
    items: Seq<V>,
    key: spec_fn(V) -> Option<Seq<char>>,
    i: int,
    v: V,
)
    requires
        0 <= i < items.len(),
        key(items[i]) is Some,
        key(v) == key(items[i]),
        forall|a: int, b: int|
            0 <= a < b < items.len() ==> !(key(#[trigger] items[a]) is Some && key(
                #[trigger] items[b],
            ) is Some && key(items[a]) == key(items[b])),
    ensures
        spec_merge_keyed(m, items.update(i, v), key) == spec_merge_keyed(m, items, key).insert(
            key(v)->0,
            v,
        ),
    decreases items.len(),
{
    let k = key(v)->0;
    if i == items.len() - 1 {
        assert(items.update(i, v).drop_last() =~= items.drop_last());
        assert(items.update(i, v).last() == v);
        assert(spec_merge_keyed(m, items.drop_last(), key).insert(k, items[i]).insert(k, v)
            =~= spec_merge_keyed(m, items.drop_last(), key).insert(k, v));
    } else {
        assert(items.update(i, v).drop_last() =~= items.drop_last().update(i, v));
        assert(items.update(i, v).last() == items.last());
        assert(forall|a: int|
            0 <= a < items.len() - 1 ==> items.drop_last()[a] == #[trigger] items[a]);
        lemma_merge_update(m, items.drop_last(), key, i, v);
        match key(items.last()) {
            Some(kl) => {
                assert(key(items[i]) is Some && key(items[items.len() - 1]) is Some && key(
                    items[i],
                ) == key(v));
                assert(kl != k);
                assert(spec_merge_keyed(m, items.drop_last(), key).insert(k, v).insert(kl,
                    items.last()) =~= spec_merge_keyed(m, items.drop_last(), key).insert(kl,
                    items.last()).insert(k, v));
            },
            None => {},
        }
    }
}

proof fn lemma_merge_contains<V>(
    m: Map<Seq<char>, V>,
    items: Seq<V>,
    key: spec_fn(V) -> Option<Seq<char>>,
    k: Seq<char>,
)
    ensures
        spec_merge_keyed(m, items, key).contains_key(k) <==> (m.contains_key(k) || exists|i: int|
            0 <= i < items.len() && key(#[trigger] items[i]) == Some(k)),
    decreases items.len(),
{
    if items.len() > 0 {
        lemma_merge_contains(m, items.drop_last(), key, k);
        assert(forall|i: int|
            0 <= i < items.len() - 1 ==> items.drop_last()[i] == #[trigger] items[i]);
        if spec_merge_keyed(m, items, key).contains_key(k) && !m.contains_key(k) {
            if key(items.last()) == Some(k) {
                assert(key(items[items.len() - 1]) == Some(k));
            } else {
                let w = choose|w: int|
                    0 <= w < items.len() - 1 && key(#[trigger] items.drop_last()[w]) == Some(k);
                assert(key(items[w]) == Some(k));
            }
        }
        if exists|i: int| 0 <= i < items.len() && key(#[trigger] items[i]) == Some(k) {
            let w = choose|w: int| 0 <= w < items.len() && key(#[trigger] items[w]) == Some(k);
            if w < items.len() - 1 {
                assert(key(items.drop_last()[w]) == Some(k));
            }
        }
    }
}

/// The key under which a track is cached: its identifier, absent for
/// local-only tracks, which are never cached.
pub open spec fn track_key() -> spec_fn(TrackData) -> Option<Seq<char>> {
    |t: TrackData| t.id
}

/// The key under which an album is cached: its identifier.
pub open spec fn album_key() -> spec_fn(AlbumData) -> Option<Seq<char>> {
    |a: AlbumData| Some(a.id)
}

/// The in-memory library cache: saved tracks and albums, unique by
/// identifier.
pub struct LibraryDatabase {
    pub tracks: Vec<Track>,
    pub albums: Vec<Album>,
}

impl LibraryDatabase {
    /// Every cached track carries an identifier, and no identifier
    /// occurs twice, among tracks or among albums.
    pub open spec fn wf(&self) -> bool {
        &&& forall|i: int| 0 <= i < self.tracks@.len() ==> (#[trigger] self.tracks@[i])@.id is Some
        &&& forall|a: int, b: int|
            0 <= a < b < self.tracks@.len() ==> (#[trigger] self.tracks@[a])@.id != (
            #[trigger] self.tracks@[b])@.id
        &&& forall|a: int, b: int|
            0 <= a < b < self.albums@.len() ==> (#[trigger] self.albums@[a])@.id != (
            #[trigger] self.albums@[b])@.id
    }

    /// The cached tracks in iteration order.
    pub open spec fn track_views(&self) -> Seq<TrackData> {
        self.tracks@.map_values(|t: Track| t@)
    }

    /// The cached albums in iteration order.
    pub open spec fn album_views(&self) -> Seq<AlbumData> {
        self.albums@.map_values(|a: Album| a@)
    }

    /// The identifier-to-track mapping the cache stands for.
    pub open spec fn track_map(&self) -> Map<Seq<char>, TrackData> {
        spec_merge_keyed(Map::empty(), self.track_views(), track_key())
    }

    /// The identifier-to-album mapping the cache stands for.
    pub open spec fn album_map(&self) -> Map<Seq<char>, AlbumData> {
        spec_merge_keyed(Map::empty(), self.album_views(), album_key())
    }

    /// An empty cache.
    pub fn new() -> (db: LibraryDatabase)
        ensures
            db.wf(),
            db.track_views() == Seq::<TrackData>::empty(),
            db.album_views() == Seq::<AlbumData>::empty(),
            db.track_map() == Map::<Seq<char>, TrackData>::empty(),
            db.album_map() == Map::<Seq<char>, AlbumData>::empty(),
    {
        let db = LibraryDatabase { tracks: Vec::new(), albums: Vec::new() };
        assert(db.track_views() =~= Seq::<TrackData>::empty());
        assert(db.album_views() =~= Seq::<AlbumData>::empty());
        db
    }

    /// The cached tracks.
    pub fn retrieve_tracks(&self) -> (r: &Vec<Track>)
        ensures
            r@ == self.tracks@,
    {
        &self.tracks
    }

    /// The cached albums.
    pub fn retrieve_albums(&self) -> (r: &Vec<Album>)
        ensures
            r@ == self.albums@,
    {
        &self.albums
    }

    /// Whether a track with this identifier is cached.
    #[verifier::loop_isolation(false)]
    pub fn has_track(&self, id: &String) -> (r: bool)
        ensures
            r == self.track_map().contains_key(id@),
    {
        proof {
            lemma_merge_contains(
                Map::<Seq<char>, TrackData>::empty(),
                self.track_views(),
                track_key(),
                id@,
            );
        }
        let mut i: usize = 0;
        while i < self.tracks.len()
            invariant
                i <= self.tracks@.len(),
                forall|j: int| 0 <= j < i ==> (#[trigger] self.tracks@[j])@.id != Some(id@),
            decreases self.tracks@.len() - i,
        {
            let found = match &self.tracks[i].id {
                Some(s) => s.eq(id),
                None => false,
            };
            if found {
                assert(track_key()(self.track_views()[i as int]) == Some(id@));
                return true;
            }
            i += 1;
        }
        assert(forall|j: int|
            0 <= j < self.tracks@.len() ==> track_key()(
                #[trigger] self.track_views()[j],
            ) != Some(id@));
        false
    }

    /// Whether an album with this identifier is cached.
    #[verifier::loop_isolation(false)]
    pub fn has_album(&self, id: &String) -> (r: bool)
        ensures
            r == self.album_map().contains_key(id@),
    {
        proof {
            lemma_merge_contains(
                Map::<Seq<char>, AlbumData>::empty(),
                self.album_views(),
                album_key(),
                id@,
            );
        }
        let mut i: usize = 0;
        while i < self.albums.len()
            invariant
                i <= self.albums@.len(),
                forall|j: int| 0 <= j < i ==> (#[trigger] self.albums@[j])@.id != id@,
            decreases self.albums@.len() - i,
        {
            if self.albums[i].id.eq(id) {
                assert(album_key()(self.album_views()[i as int]) == Some(id@));
                return true;
            }
            i += 1;
        }
        assert(forall|j: int|
            0 <= j < self.albums@.len() ==> album_key()(
                #[trigger] self.album_views()[j],
            ) != Some(id@));
        false
    }
}

impl LibraryDatabase {
    /// Merges freshly fetched tracks into the cache: a track with a
    /// cached identifier replaces the cached entry, a track with a new
    /// identifier is added, and a local-only track (no identifier) is
    /// skipped.  Nothing is ever removed.
    #[verifier::loop_isolation(false)]
    pub fn update_tracks(&mut self, new_tracks: Vec<Track>)
        requires
            old(self).wf(),
        ensures
            final(self).wf(),
            final(self).track_map() == spec_merge_keyed(
                old(self).track_map(),
                new_tracks@.map_values(|t: Track| t@),
                track_key(),
            ),
            final(self).albums@ == old(self).albums@,
    {
        let ghost base = self.track_map();
        let ghost fullm = new_tracks@.map_values(|t: Track| t@);
        let ghost mut done: Seq<TrackData> = Seq::empty();
        let mut rest = new_tracks;
        proof {
            assert(done + rest@.map_values(|t: Track| t@) =~= fullm);
            assert(spec_merge_keyed(base, done, track_key()) == base);
        }
        while rest.len() > 0
            invariant
                self.wf(),
                self.albums@ == old(self).albums@,
                done + rest@.map_values(|t: Track| t@) == fullm,
                self.track_map() == spec_merge_keyed(base, done, track_key()),
            decreases rest.len(),
        {
            let ghost old_restm = rest@.map_values(|t: Track| t@);
            let ghost old_tracksm = self.track_views();
            let track = rest.remove(0);
            proof {
                assert(rest@.map_values(|t: Track| t@) =~= old_restm.drop_first());
                assert(old_restm[0] == track@);
                assert((done.push(track@)) + old_restm.drop_first() =~= done + old_restm);
                lemma_merge_push(base, done, track_key(), track@);
            }
            match &track.id {
                Some(id) => {
                    match find_track_index(&self.tracks, id) {
                        Some(idx) => {
                            proof {
                                assert(old_tracksm[idx as int].id == Some(id@));
                                assert forall|a: int, b: int|
                                    0 <= a < b < old_tracksm.len() implies !(track_key()(
                                    #[trigger] old_tracksm[a],
                                ) is Some && track_key()(#[trigger] old_tracksm[b]) is Some
                                    && track_key()(old_tracksm[a]) == track_key()(
                                    old_tracksm[b],
                                )) by {
                                    assert(self.tracks@[a]@.id != self.tracks@[b]@.id);
                                }
                                lemma_merge_update(
                                    Map::<Seq<char>, TrackData>::empty(),
                                    old_tracksm,
                                    track_key(),
                                    idx as int,
                                    track@,
                                );
                            }
                            self.tracks.set(idx, track);
                            proof {
                                assert(self.track_views() =~= old_tracksm.update(
                                    idx as int,
                                    fullm[done.len() as int],
                                ));
                            }
                        },
                        None => {
                            proof {
                                lemma_merge_push(
                                    Map::<Seq<char>, TrackData>::empty(),
                                    old_tracksm,
                                    track_key(),
                                    track@,
                                );
                            }
                            self.tracks.push(track);
                            proof {
                                assert(self.track_views() =~= old_tracksm.push(
                                    fullm[done.len() as int],
                                ));
                            }
                        },
                    }
                },
                None => {},
            }
            proof {
                done = done.push(old_restm[0]);
            }
        }
        proof {
            assert(rest@.map_values(|t: Track| t@) =~= Seq::<TrackData>::empty());
            assert(done + Seq::<TrackData>::empty() =~= done);
            assert(done =~= fullm);
        }
    }

    /// Merges freshly fetched albums into the cache, newest entry
    /// winning on an identifier collision, never removing anything.
    #[verifier::loop_isolation(false)]
    pub fn update_albums(&mut self, new_albums: Vec<Album>)
        requires
            old(self).wf(),
        ensures
            final(self).wf(),
            final(self).album_map() == spec_merge_keyed(
                old(self).album_map(),
                new_albums@.map_values(|a: Album| a@),
                album_key(),
            ),
            final(self).tracks@ == old(self).tracks@,
    {
        let ghost base = self.album_map();
        let ghost fullm = new_albums@.map_values(|a: Album| a@);
        let ghost mut done: Seq<AlbumData> = Seq::empty();
        let mut rest = new_albums;
        proof {
            assert(done + rest@.map_values(|a: Album| a@) =~= fullm);
            assert(spec_merge_keyed(base, done, album_key()) == base);
        }
        while rest.len() > 0
            invariant
                self.wf(),
                self.tracks@ == old(self).tracks@,
                done + rest@.map_values(|a: Album| a@) == fullm,
                self.album_map() == spec_merge_keyed(base, done, album_key()),
            decreases rest.len(),
        {
            let ghost old_restm = rest@.map_values(|a: Album| a@);
            let ghost old_albumsm = self.album_views();
            let album = rest.remove(0);
            proof {
                assert(rest@.map_values(|a: Album| a@) =~= old_restm.drop_first());
                assert(old_restm[0] == album@);
                assert((done.push(album@)) + old_restm.drop_first() =~= done + old_restm);
                lemma_merge_push(base, done, album_key(), album@);
            }
            match find_album_index(&self.albums, &album.id) {
                Some(idx) => {
                    proof {
                        assert(old_albumsm[idx as int].id == album@.id);
                        assert forall|a: int, b: int|
                            0 <= a < b < old_albumsm.len() implies !(album_key()(
                            #[trigger] old_albumsm[a],
                        ) is Some && album_key()(#[trigger] old_albumsm[b]) is Some && album_key()(
                            old_albumsm[a],
                        ) == album_key()(old_albumsm[b])) by {
                            assert(self.albums@[a]@.id != self.albums@[b]@.id);
                        }
                        lemma_merge_update(
                            Map::<Seq<char>, AlbumData>::empty(),
                            old_albumsm,
                            album_key(),
                            idx as int,
                            album@,
                        );
                    }
                    self.albums.set(idx, album);
                    proof {
                        assert(self.album_views() =~= old_albumsm.update(
                            idx as int,
                            fullm[done.len() as int],
                        ));
                    }
                },
                None => {
                    proof {
                        lemma_merge_push(
                            Map::<Seq<char>, AlbumData>::empty(),
                            old_albumsm,
                            album_key(),
                            album@,
                        );
                    }
                    self.albums.push(album);
                    proof {
                        assert(self.album_views() =~= old_albumsm.push(fullm[done.len() as int]));
                    }
                },
            }
            proof {
                done = done.push(old_restm[0]);
            }
        }
        proof {
            assert(rest@.map_values(|a: Album| a@) =~= Seq::<AlbumData>::empty());
            assert(done + Seq::<AlbumData>::empty() =~= done);
            assert(done =~= fullm);
        }
    }

    /// Merges a full fetch of recently added tracks and albums into
    /// the cache, the only mutating operation.  Running it twice with
    /// the same data leaves the same cache (see
    /// [`lemma_merge_idempotent`]).
    pub fn update_all(&mut self, new_tracks: Vec<Track>, new_albums: Vec<Album>)
        requires
            old(self).wf(),
        ensures
            final(self).wf(),
            final(self).track_map() == spec_merge_keyed(
                old(self).track_map(),
                new_tracks@.map_values(|t: Track| t@),
                track_key(),
            ),
            final(self).album_map() == spec_merge_keyed(
                old(self).album_map(),
                new_albums@.map_values(|a: Album| a@),
                album_key(),
            ),
    {
        self.update_tracks(new_tracks);
        self.update_albums(new_albums);
    }
}

/// The parts joined with a single space between neighbours.
pub open spec fn spec_join_spaced(parts: Seq<Seq<char>>) -> Seq<char>
    decreases parts.len(),
{
    if parts.len() == 0 {
        Seq::empty()
    } else if parts.len() == 1 {
        parts[0]
    } else {
        spec_join_spaced(parts.drop_last()) + " "@ + parts.last()
    }
}

/// The text a track is searched under: title, artist names and album
/// name, space-separated.
pub open spec fn spec_search_text(t: TrackData) -> Seq<char> {
    t.title + " "@ + spec_join_spaced(t.artists) + " "@ + t.album_name
}

/// The predicate holding of tracks whose search text contains the
/// query, both sides folded to lower case.
pub open spec fn pred_matches(q: Seq<char>) -> spec_fn(TrackData) -> bool {
    |t: TrackData| is_substring(lower_of(spec_search_text(t)), lower_of(q))
}

fn join_spaced(parts: &Vec<String>) -> (r: String)
    ensures
        r@ == spec_join_spaced(parts@.map_values(|s: String| s@)),
{
    let ghost pm = parts@.map_values(|s: String| s@);
    let mut r = String::new();
    let mut i: usize = 0;
    assert(pm.take(0) =~= Seq::<Seq<char>>::empty());
    while i < parts.len()
        invariant
            i <= parts@.len(),
            pm == parts@.map_values(|s: String| s@),
            r@ == spec_join_spaced(pm.take(i as int)),
        decreases parts@.len() - i,
    {
        proof {
            assert(pm.take(i as int + 1).drop_last() =~= pm.take(i as int));
            assert(pm.take(i as int + 1).last() == pm[i as int]);
        }
        if i > 0 {
            r.append(" ");
        }
        r.append(parts[i].as_str());
        i += 1;
    }
    assert(pm.take(parts@.len() as int) =~= pm);
    r
}

fn search_text(t: &Track) -> (r: String)
    ensures
        r@ == spec_search_text(t@),
{
    let mut r = t.title.clone();
    r.append(" ");
    let artists = join_spaced(&t.artists);
    r.append(artists.as_str());
    r.append(" ");
    r.append(t.album_name.as_str());
    r
}

impl LibraryDatabase {
    /// Case-insensitive substring search over the cached tracks: the
    /// identifiers of every track whose title, artist names or album
    /// name contain the query, in cache iteration order.
    #[verifier::loop_isolation(false)]
    pub fn search_songs(&self, query: &str) -> (r: Vec<String>)
        requires
            self.wf(),
        ensures
            r@.map_values(|s: String| s@) == self.track_views().filter(
                pred_matches(query@),
            ).map_values(|t: TrackData| t.id->0),
    {
        let ghost tm = self.track_views();
        let lower_q = to_lowercase(query);
        let mut r: Vec<String> = Vec::new();
        let mut i: usize = 0;
        proof {
            reveal_with_fuel(Seq::filter, 2);
            assert(tm.take(0) =~= Seq::<TrackData>::empty());
            assert(r@.map_values(|s: String| s@) =~= tm.take(0).filter(
                pred_matches(query@),
            ).map_values(|t: TrackData| t.id->0));
        }
        while i < self.tracks.len()
            invariant
                i <= self.tracks@.len(),
                r@.map_values(|s: String| s@) == tm.take(i as int).filter(
                    pred_matches(query@),
                ).map_values(|t: TrackData| t.id->0),
            decreases self.tracks@.len() - i,
        {
            let ghost old_rm = r@.map_values(|s: String| s@);
            proof {
                reveal_with_fuel(Seq::filter, 2);
                assert(tm.take(i as int + 1).drop_last() =~= tm.take(i as int));
                assert(tm.take(i as int + 1).last() == tm[i as int]);
                assert(tm.take(i as int + 1).filter(pred_matches(query@)) == if pred_matches(
                    query@,
                )(tm[i as int]) {
                    tm.take(i as int).filter(pred_matches(query@)).push(tm[i as int])
                } else {
                    tm.take(i as int).filter(pred_matches(query@))
                });
            }
            let t = &self.tracks[i];
            let hay = search_text(t);
            let lower_hay = to_lowercase(hay.as_str());
            let matched = str_contains(lower_hay.as_str(), lower_q.as_str());
            assert(matched == pred_matches(query@)(tm[i as int]));
            if matched {
                match &t.id {
                    Some(id) => {
                        r.push(id.clone());
                        proof {
                            assert(r@.map_values(|s: String| s@) =~= old_rm.push(
                                tm[i as int].id->0,
                            ));
                            assert(tm.take(i as int).filter(pred_matches(query@)).push(
                                tm[i as int],
                            ).map_values(|t: TrackData| t.id->0) =~= tm.take(i as int).filter(
                                pred_matches(query@),
                            ).map_values(|t: TrackData| t.id->0).push(tm[i as int].id->0));
                        }
                    },
                    None => {
                        proof {
                            assert(self.tracks@[i as int]@.id is Some);
                            assert(false);
                        }
                    },
                }
            }
            i += 1;
        }
        assert(tm.take(self.tracks@.len() as int) =~= tm);
        r
    }
}

/// The first cached track carrying identifier `id`, if any.
pub open spec fn spec_lookup_track(ts: Seq<TrackData>, id: Seq<char>) -> Option<TrackData>
    decreases ts.len(),
{
    if ts.len() == 0 {
        None
    } else if ts[0].id == Some(id) {
        Some(ts[0])
    } else {
        spec_lookup_track(ts.drop_first(), id)
    }
}

proof fn lemma_lookup_track_of(ts: Seq<TrackData>, id: Seq<char>)
    ensures
        match spec_lookup_track(ts, id) {
            Some(v) => exists|i: int|
                0 <= i < ts.len() && (#[trigger] ts[i]) == v && ts[i].id == Some(id) && forall|
                    k: int,
                |
                    0 <= k < i ==> (#[trigger] ts[k]).id != Some(id),
            None => forall|k: int| 0 <= k < ts.len() ==> (#[trigger] ts[k]).id != Some(id),
        },
    decreases ts.len(),
{
    if ts.len() > 0 && ts[0].id != Some(id) {
        lemma_lookup_track_of(ts.drop_first(), id);
        assert(forall|k: int| 1 <= k < ts.len() ==> #[trigger] ts[k] == ts.drop_first()[k - 1]);
        match spec_lookup_track(ts.drop_first(), id) {
            Some(v) => {
                let i = choose|i: int|
                    0 <= i < ts.drop_first().len() && (#[trigger] ts.drop_first()[i]) == v
                        && ts.drop_first()[i].id == Some(id) && forall|k: int|
                        0 <= k < i ==> (#[trigger] ts.drop_first()[k]).id != Some(id);
                assert(ts[i + 1] == v && ts[i + 1].id == Some(id));
                assert(forall|k: int| 0 <= k < i + 1 ==> (#[trigger] ts[k]).id != Some(id));
            },
            None => {},
        }
    }
}

impl LibraryDatabase {
    /// Resolves search results back to full cached track records:
    /// each identifier in order, mapped to the cached track carrying
    /// it; identifiers with no cached track are dropped.
    #[verifier::loop_isolation(false)]
    pub fn tracks_by_ids(&self, ids: &Vec<String>) -> (r: Vec<Track>)
        requires
            self.wf(),
        ensures
            r@.map_values(|t: Track| t@) == ids@.map_values(|s: String| s@).filter_map(
                |i: Seq<char>| spec_lookup_track(self.track_views(), i),
            ),
    {
        let ghost idsm = ids@.map_values(|s: String| s@);
        let ghost tm = self.track_views();
        let mut r: Vec<Track> = Vec::new();
        let mut i: usize = 0;
        proof {
            assert(idsm.subrange(0, 0) =~= Seq::<Seq<char>>::empty());
            assert(r@.map_values(|t: Track| t@) =~= idsm.subrange(0, 0).filter_map(
                |i: Seq<char>| spec_lookup_track(tm, i),
            ));
        }
        while i < ids.len()
            invariant
                i <= ids@.len(),
                r@.map_values(|t: Track| t@) == idsm.subrange(0, i as int).filter_map(
                    |i: Seq<char>| spec_lookup_track(tm, i),
                ),
            decreases ids@.len() - i,
        {
            let ghost old_rm = r@.map_values(|t: Track| t@);
            proof {
                assert(idsm.subrange(0, i as int + 1).drop_last() =~= idsm.subrange(0, i as int));
                assert(idsm.subrange(0, i as int + 1).last() == idsm[i as int]);
                lemma_lookup_track_of(tm, idsm[i as int]);
            }
            match find_track_index(&self.tracks, &ids[i]) {
                Some(idx) => {
                    proof {
                        assert(tm[idx as int].id == Some(idsm[i as int]));
                        match spec_lookup_track(tm, idsm[i as int]) {
                            Some(v) => {
                                let w = choose|w: int|
                                    0 <= w < tm.len() && (#[trigger] tm[w]) == v && tm[w].id
                                        == Some(idsm[i as int]) && forall|k: int|
                                        0 <= k < w ==> (#[trigger] tm[k]).id != Some(
                                            idsm[i as int],
                                        );
                                if w < idx as int {
                                    assert(tm[w].id == Some(idsm[i as int]));
                                    assert(self.tracks@[w]@.id != self.tracks@[idx as int]@.id);
                                    assert(false);
                                }
                                if w > idx as int {
                                    assert(tm[idx as int].id != Some(idsm[i as int]));
                                    assert(false);
                                }
                                assert(v == tm[idx as int]);
                            },
                            None => {
                                assert(tm[idx as int].id != Some(idsm[i as int]));
                                assert(false);
                            },
                        }
                    }
                    r.push(self.tracks[idx].clone());
                    assert(r@.map_values(|t: Track| t@) =~= old_rm + seq![tm[idx as int]]);
                },
                None => {
                    proof {
                        match spec_lookup_track(tm, idsm[i as int]) {
                            Some(v) => {
                                let w = choose|w: int|
                                    0 <= w < tm.len() && (#[trigger] tm[w]) == v && tm[w].id
                                        == Some(idsm[i as int]) && forall|k: int|
                                        0 <= k < w ==> (#[trigger] tm[k]).id != Some(
                                            idsm[i as int],
                                        );
                                assert(tm[w].id != Some(idsm[i as int]));
                                assert(false);
                            },
                            None => {},
                        }
                    }
                },
            }
            i += 1;
        }
        assert(idsm.subrange(0, ids@.len() as int) =~= idsm);
        r
    }
}

/// One genre and the identifiers of the album tracks filed under it.
pub struct GenreGroup {
    pub genre: String,
    pub track_ids: Vec<String>,
}

/// Ghost view of a [`GenreGroup`].
pub ghost struct GenreGroupData {
    pub genre: Seq<char>,
    pub track_ids: Seq<Seq<char>>,
}

impl View for GenreGroup {
    type V = GenreGroupData;

    open spec fn view(&self) -> GenreGroupData {
        GenreGroupData {
            genre: self.genre@,
            track_ids: self.track_ids@.map_values(|s: String| s@),
        }
    }
}

/// The position of the first group filed under `g`, or -1.
pub open spec fn spec_genre_index(acc: Seq<GenreGroupData>, g: Seq<char>) -> int
    decreases acc.len(),
{
    if acc.len() == 0 {
        -1
    } else if acc[0].genre == g {
        0
    } else {
        let r = spec_genre_index(acc.drop_first(), g);
        if r < 0 {
            -1
        } else {
            1 + r
        }
    }
}

/// Files `ids` under genre `g`: appended to the existing group if one
/// exists, else opening a new group at the end.
pub open spec fn spec_upsert_genre(
    acc: Seq<GenreGroupData>,
    g: Seq<char>,
    ids: Seq<Seq<char>>,
) -> Seq<GenreGroupData> {
    let j = spec_genre_index(acc, g);
    if j < 0 {
        acc.push(GenreGroupData { genre: g, track_ids: ids })
    } else {
        acc.update(j, GenreGroupData { genre: g, track_ids: acc[j].track_ids + ids })
    }
}

/// Files one album's track identifiers under each of its genres in
/// order, once per occurrence of the genre.
pub open spec fn spec_add_album_genres(
    acc: Seq<GenreGroupData>,
    gs: Seq<Seq<char>>,
    ids: Seq<Seq<char>>,
) -> Seq<GenreGroupData>
    decreases gs.len(),
{
    if gs.len() == 0 {
        acc
    } else {
        spec_add_album_genres(spec_upsert_genre(acc, gs[0], ids), gs.drop_first(), ids)
    }
}

/// The genre-to-track-identifiers table of a list of albums: albums
/// processed in order, genres in each album's order.
pub open spec fn spec_compile_genres(albums: Seq<AlbumData>) -> Seq<GenreGroupData>
    decreases albums.len(),
{
    if albums.len() == 0 {
        Seq::empty()
    } else {
        spec_add_album_genres(
            spec_compile_genres(albums.drop_last()),
            albums.last().genres,
            crate::conversion::spec_track_ids(albums.last().tracks),
        )
    }
}

proof fn lemma_genre_index_of(acc: Seq<GenreGroupData>, g: Seq<char>)
    ensures
        spec_genre_index(acc, g) < 0 ==> forall|k: int|
            0 <= k < acc.len() ==> (#[trigger] acc[k]).genre != g,
        spec_genre_index(acc, g) >= 0 ==> {
            let j = spec_genre_index(acc, g);
            &&& 0 <= j < acc.len()
            &&& acc[j].genre == g
            &&& forall|k: int| 0 <= k < j ==> (#[trigger] acc[k]).genre != g
        },
    decreases acc.len(),
{
    if acc.len() > 0 && acc[0].genre != g {
        lemma_genre_index_of(acc.drop_first(), g);
        assert(forall|k: int|
            1 <= k < acc.len() ==> #[trigger] acc[k] == acc.drop_first()[k - 1]);
    }
}

fn find_genre_index(groups: &Vec<GenreGroup>, g: &String) -> (r: Option<usize>)
    ensures
        match r {
            Some(j) => j < groups@.len() && groups@[j as int]@.genre == g@ && forall|k: int|
                0 <= k < j ==> (#[trigger] groups@[k])@.genre != g@,
            None => forall|k: int| 0 <= k < groups@.len() ==> (#[trigger] groups@[k])@.genre != g@,
        },
{
    let mut i: usize = 0;
    while i < groups.len()
        invariant
            i <= groups@.len(),
            forall|k: int| 0 <= k < i ==> (#[trigger] groups@[k])@.genre != g@,
        decreases groups@.len() - i,
    {
        if groups[i].genre.eq(g) {
            return Some(i);
        }
        i += 1;
    }
    None
}

impl LibraryDatabase {
    /// Tabulates, genre by genre, the track identifiers of every
    /// album carrying that genre tag: genres appear in first-use
    /// order, and each genre's identifier list concatenates the
    /// albums' track identifiers in album order, once per occurrence
    /// of the tag.
    #[verifier::loop_isolation(false)]
    pub fn compile_genres(albums: &Vec<Album>) -> (r: Vec<GenreGroup>)
        ensures
            r@.map_values(|x: GenreGroup| x@) == spec_compile_genres(
                albums@.map_values(|a: Album| a@),
            ),
    {
        let ghost am = albums@.map_values(|a: Album| a@);
        let mut r: Vec<GenreGroup> = Vec::new();
        let mut i: usize = 0;
        assert(am.subrange(0, 0) =~= Seq::<AlbumData>::empty());
        assert(r@.map_values(|x: GenreGroup| x@) =~= spec_compile_genres(am.subrange(0, 0)));
        while i < albums.len()
            invariant
                i <= albums@.len(),
                r@.map_values(|x: GenreGroup| x@) == spec_compile_genres(am.subrange(0, i as int)),
            decreases albums@.len() - i,
        {
            proof {
                assert(am.subrange(0, i as int + 1).drop_last() =~= am.subrange(0, i as int));
                assert(am.subrange(0, i as int + 1).last() == am[i as int]);
            }
            let album = &albums[i];
            let album_ids = crate::conversion::tracks_to_ids(&album.tracks);
            let ghost idsm = album_ids@.map_values(|s: String| s@);
            proof {
                assert(albums@[i as int]@.tracks == am[i as int].tracks);
                assert(idsm == crate::conversion::spec_track_ids(am[i as int].tracks));
            }
            let ghost start = r@.map_values(|x: GenreGroup| x@);
            let ghost gsm = am[i as int].genres;
            let mut j: usize = 0;
            proof {
                assert(gsm.skip(0) =~= gsm);
            }
            while j < album.genres.len()
                invariant
                    j <= album.genres@.len(),
                    spec_add_album_genres(start, gsm, idsm) == spec_add_album_genres(
                        r@.map_values(|x: GenreGroup| x@),
                        gsm.skip(j as int),
                        idsm,
                    ),
                decreases album.genres@.len() - j,
            {
                let ghost accm = r@.map_values(|x: GenreGroup| x@);
                let genre = &album.genres[j];
                proof {
                    assert(gsm.skip(j as int)[0] == gsm[j as int]);
                    assert(gsm.skip(j as int).drop_first() =~= gsm.skip(j as int + 1));
                    assert(gsm[j as int] == album.genres@[j as int]@);
                    lemma_genre_index_of(accm, genre@);
                }
                match find_genre_index(&r, genre) {
                    Some(idx) => {
                        proof {
                            assert(accm[idx as int].genre == genre@);
                            if spec_genre_index(accm, genre@) < 0 {
                                assert(false);
                            }
                            let sj = spec_genre_index(accm, genre@);
                            if sj < idx as int {
                                assert(accm[sj].genre != genre@);
                                assert(false);
                            }
                            if sj > idx as int {
                                assert(accm[idx as int].genre != genre@);
                                assert(false);
                            }
                            assert(sj == idx as int);
                        }
                        let mut combined = crate::model::clone_strings(&r[idx].track_ids);
                        let mut more = crate::model::clone_strings(&album_ids);
                        combined.append(&mut more);
                        proof {
                            assert(combined@.map_values(|s: String| s@) =~= accm[
                                idx as int
                            ].track_ids + idsm);
                        }
                        let replacement = GenreGroup { genre: genre.clone(), track_ids: combined };
                        r.set(idx, replacement);
                        proof {
                            assert(r@.map_values(|x: GenreGroup| x@) =~~= accm.update(
                                idx as int,
                                GenreGroupData {
                                    genre: gsm[j as int],
                                    track_ids: accm[idx as int].track_ids + idsm,
                                },
                            ));
                            assert(r@.map_values(|x: GenreGroup| x@) == spec_upsert_genre(
                                accm,
                                gsm[j as int],
                                idsm,
                            ));
                        }
                    },
                    None => {
                        proof {
                            if spec_genre_index(accm, genre@) >= 0 {
                                let sj = spec_genre_index(accm, genre@);
                                assert(accm[sj].genre != genre@);
                                assert(false);
                            }
                        }
                        let fresh_ids = crate::model::clone_strings(&album_ids);
                        r.push(GenreGroup { genre: genre.clone(), track_ids: fresh_ids });
                        proof {
                            assert(r@.map_values(|x: GenreGroup| x@) =~= accm.push(
                                GenreGroupData { genre: gsm[j as int], track_ids: idsm },
                            ));
                            assert(r@.map_values(|x: GenreGroup| x@) == spec_upsert_genre(
                                accm,
                                gsm[j as int],
                                idsm,
                            ));
                        }
                    },
                }
                j += 1;
            }
            proof {
                assert(gsm.skip(album.genres@.len() as int) =~= Seq::<Seq<char>>::empty());
                assert(spec_add_album_genres(
                    r@.map_values(|x: GenreGroup| x@),
                    Seq::<Seq<char>>::empty(),
                    idsm,
                ) == r@.map_values(|x: GenreGroup| x@));
                assert(spec_compile_genres(am.subrange(0, i as int + 1)) == spec_add_album_genres(
                    start,
                    gsm,
                    idsm,
                ));
            }
            i += 1;
        }
        assert(am.subrange(0, albums@.len() as int) =~= am);
        r
    }
}

fn find_track_index(tracks: &Vec<Track>, id: &String) -> (r: Option<usize>)
    ensures
        match r {
            Some(i) => i < tracks@.len() && tracks@[i as int]@.id == Some(id@),
            None => forall|j: int| 0 <= j < tracks@.len() ==> (#[trigger] tracks@[j])@.id != Some(
                id@,
            ),
        },
{
    let mut i: usize = 0;
    while i < tracks.len()
        invariant
            i <= tracks@.len(),
            forall|j: int| 0 <= j < i ==> (#[trigger] tracks@[j])@.id != Some(id@),
        decreases tracks@.len() - i,
    {
        let found = match &tracks[i].id {
            Some(s) => s.eq(id),
            None => false,
        };
        if found {
            return Some(i);
        }
        i += 1;
    }
    None
}

fn find_album_index(albums: &Vec<Album>, id: &String) -> (r: Option<usize>)
    ensures
        match r {
            Some(i) => i < albums@.len() && albums@[i as int]@.id == id@,
            None => forall|j: int| 0 <= j < albums@.len() ==> (#[trigger] albums@[j])@.id != id@,
        },
{
    let mut i: usize = 0;
    while i < albums.len()
        invariant
            i <= albums@.len(),
            forall|j: int| 0 <= j < i ==> (#[trigger] albums@[j])@.id != id@,
        decreases albums@.len() - i,
    {
        if albums[i].id.eq(id) {
            return Some(i);
        }
        i += 1;
    }
    None
}

} // verus!
