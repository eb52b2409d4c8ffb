//! Playlist-side engines: the diff that splits a desired track order
//! against a playlist's current contents, batch planning for additions
//! under the remote page limit, and the album-respecting trimmer.

use vstd::prelude::*;

use crate::model::Track;
use crate::model::TrackData;

verus! {

/// Concatenation of a sequence of pages into one flat sequence.
pub open spec fn pages_flat<T>(pages: Seq<Vec<T>>) -> Seq<T>
    decreases pages.len(),
{
    if pages.len() == 0 {
        Seq::empty()
    } else {
        pages[0]@ + pages_flat(pages.drop_first())
    }
}

proof fn lemma_pages_flat_push<T>(pages: Seq<Vec<T>>, p: Vec<T>)
    ensures
        pages_flat(pages.push(p)) == pages_flat(pages) + p@,
    decreases pages.len(),
{
    if pages.len() == 0 {
        reveal_with_fuel(pages_flat, 2);
        assert(pages.push(p).drop_first() =~= Seq::<Vec<T>>::empty());
        assert(pages_flat(pages.push(p)) =~= pages_flat(pages) + p@);
    } else {
        assert(pages.push(p).drop_first() =~= pages.drop_first().push(p));
        lemma_pages_flat_push(pages.drop_first(), p);
        assert(pages_flat(pages.push(p)) =~= pages_flat(pages) + p@);
    }
}

/// Splits `items` into consecutive pages of exactly `page_size`
/// elements, except that the last page may be shorter.  Used to
/// respect the remote API's hard batch limits.
pub fn paginate_vec<T>(items: Vec<T>, page_size: usize) -> (pages: Vec<Vec<T>>)
    requires
        1 <= page_size,
    ensures
        pages_flat(pages@) == items@,
        forall|k: int| 0 <= k < pages@.len() ==> 1 <= (#[trigger] pages@[k])@.len() <= page_size,
        forall|k: int| 0 <= k < pages@.len() - 1 ==> (#[trigger] pages@[k])@.len() == page_size,
{
    let ghost orig = items@;
    let mut rest = items;
    let mut pages: Vec<Vec<T>> = Vec::new();
    let mut page: Vec<T> = Vec::new();
    while rest.len() > 0
        invariant
            1 <= page_size,
            page@.len() < page_size,
            pages_flat(pages@) + page@ + rest@ == orig,
            forall|k: int| 0 <= k < pages@.len() ==> (#[trigger] pages@[k])@.len() == page_size,
        decreases rest.len(),
    {
        let ghost old_rest = rest@;
        let ghost old_page = page@;
        let ghost old_pages = pages@;
        let x = rest.remove(0);
        page.push(x);
        assert(old_rest.remove(0) =~= old_rest.drop_first());
        assert(pages_flat(old_pages) + old_page.push(old_rest[0]) + old_rest.drop_first() =~= pages_flat(
            old_pages,
        ) + old_page + old_rest);
        if page.len() == page_size {
            let full = page;
            page = Vec::new();
            proof {
                lemma_pages_flat_push(pages@, full);
            }
            pages.push(full);
            assert(pages_flat(pages@) + page@ + rest@ =~= pages_flat(old_pages) + old_page.push(
                old_rest[0],
            ) + old_rest.drop_first());
        }
    }
    if page.len() > 0 {
        proof {
            lemma_pages_flat_push(pages@, page);
        }
        let ghost old_pages = pages@;
        let ghost last = page@;
        pages.push(page);
        assert(pages_flat(pages@) =~= pages_flat(old_pages) + last);
        assert(pages_flat(pages@) =~= orig);
    } else {
        assert(pages_flat(pages@) =~= orig);
    }
    pages
}

/// Whether `ids` holds a string whose characters equal those of `id`.
pub fn contains_id(ids: &Vec<String>, id: &String) -> (r: bool)
    ensures
        r == ids@.map_values(|s: String| s@).contains(id@),
{
    let mut i: usize = 0;
    while i < ids.len()
        invariant
            i <= ids.len(),
            forall|j: int| 0 <= j < i ==> (#[trigger] ids@[j])@ != id@,
        decreases ids.len() - i,
    {
        if ids[i].eq(id) {
            assert(ids@.map_values(|s: String| s@)[i as int] == id@);
            return true;
        }
        i += 1;
    }
    assert(forall|j: int|
        0 <= j < ids@.len() ==> ids@.map_values(|s: String| s@)[j] == (#[trigger] ids@[j])@);
    false
}

/// Whether a track's identifier occurs among the playlist's current
/// identifiers.  A track without an identifier is never present.
pub open spec fn spec_present(t: TrackData, current: Seq<Seq<char>>) -> bool {
    t.id matches Some(i) && current.contains(i)
}

/// The tracks that the single left-to-right scan sends to the new
/// segment, given whether it is still in the new region.
pub open spec fn spec_new_segment(
    d: Seq<TrackData>,
    current: Seq<Seq<char>>,
    in_new: bool,
) -> Seq<TrackData>
    decreases d.len(),
{
    if d.len() == 0 {
        Seq::empty()
    } else if !spec_present(d[0], current) && in_new {
        seq![d[0]] + spec_new_segment(d.drop_first(), current, true)
    } else {
        spec_new_segment(d.drop_first(), current, in_new && !spec_present(d[0], current))
    }
}

/// The tracks that the scan sends to the old segment: those absent
/// from the playlist but found after the first already-present track.
pub open spec fn spec_old_segment(
    d: Seq<TrackData>,
    current: Seq<Seq<char>>,
    in_new: bool,
) -> Seq<TrackData>
    decreases d.len(),
{
    if d.len() == 0 {
        Seq::empty()
    } else if !spec_present(d[0], current) && !in_new {
        seq![d[0]] + spec_old_segment(d.drop_first(), current, false)
    } else {
        spec_old_segment(d.drop_first(), current, in_new && !spec_present(d[0], current))
    }
}

/// Partitions `desired` against the playlist's current identifiers.
/// Tracks absent from the playlist and seen before any already-present
/// track form the new segment (genuinely new content, to be inserted at
/// the head); tracks absent but seen after the first present track form
/// the old segment (gaps to backfill at the tail); present tracks are
/// left alone.  Both segments keep the relative order of `desired`.
pub fn diff_against_playlist(desired: Vec<Track>, current_ids: &Vec<String>) -> (r: (
    Vec<Track>,
    Vec<Track>,
))
    ensures
        r.0@.map_values(|t: Track| t@) == spec_new_segment(
            desired@.map_values(|t: Track| t@),
            current_ids@.map_values(|s: String| s@),
            true,
        ),
        r.1@.map_values(|t: Track| t@) == spec_old_segment(
            desired@.map_values(|t: Track| t@),
            current_ids@.map_values(|s: String| s@),
            true,
        ),
{
    let ghost full = desired@.map_values(|t: Track| t@);
    let ghost cur = current_ids@.map_values(|s: String| s@);
    let mut rest = desired;
    let mut new_seg: Vec<Track> = Vec::new();
    let mut old_seg: Vec<Track> = Vec::new();
    let mut is_new = true;
    while rest.len() > 0
        invariant
            spec_new_segment(full, cur, true) == new_seg@.map_values(|t: Track| t@)
                + spec_new_segment(rest@.map_values(|t: Track| t@), cur, is_new),
            spec_old_segment(full, cur, true) == old_seg@.map_values(|t: Track| t@)
                + spec_old_segment(rest@.map_values(|t: Track| t@), cur, is_new),
            cur == current_ids@.map_values(|s: String| s@),
        decreases rest.len(),
    {
        let ghost old_restm = rest@.map_values(|t: Track| t@);
        let ghost old_newm = new_seg@.map_values(|t: Track| t@);
        let ghost old_oldm = old_seg@.map_values(|t: Track| t@);
        let track = rest.remove(0);
        assert(rest@.map_values(|t: Track| t@) =~= old_restm.drop_first());
        let present = match &track.id {
            Some(id) => contains_id(current_ids, id),
            None => false,
        };
        assert(present == spec_present(track@, cur));
        assert(old_restm[0] == track@);
        if !present && is_new {
            new_seg.push(track);
            assert(new_seg@.map_values(|t: Track| t@) =~= old_newm.push(old_restm[0]));
            assert(old_newm + (seq![old_restm[0]] + spec_new_segment(
                old_restm.drop_first(),
                cur,
                true,
            )) =~= old_newm.push(old_restm[0]) + spec_new_segment(
                old_restm.drop_first(),
                cur,
                true,
            ));
        } else if !present && !is_new {
            old_seg.push(track);
            assert(old_seg@.map_values(|t: Track| t@) =~= old_oldm.push(old_restm[0]));
            assert(old_oldm + (seq![old_restm[0]] + spec_old_segment(
                old_restm.drop_first(),
                cur,
                false,
            )) =~= old_oldm.push(old_restm[0]) + spec_old_segment(
                old_restm.drop_first(),
                cur,
                false,
            ));
        } else if present && is_new {
            is_new = false;
        }
    }
    assert(rest@.map_values(|t: Track| t@) =~= Seq::<TrackData>::empty());
    assert(new_seg@.map_values(|t: Track| t@) + Seq::<TrackData>::empty() =~= new_seg@.map_values(
        |t: Track| t@,
    ));
    assert(old_seg@.map_values(|t: Track| t@) + Seq::<TrackData>::empty() =~= old_seg@.map_values(
        |t: Track| t@,
    ));
    (new_seg, old_seg)
}

/// One page of an add-items call: at most 99 identifiers and the
/// playlist offset at which the page is inserted, if any.
pub struct Batch {
    pub ids: Vec<String>,
    pub position: Option<u32>,
}

/// Ghost view of a [`Batch`].
pub ghost struct BatchData {
    pub ids: Seq<Seq<char>>,
    pub position: Option<u32>,
}

impl View for Batch {
    type V = BatchData;

    open spec fn view(&self) -> BatchData {
        BatchData { ids: self.ids@.map_values(|s: String| s@), position: self.position }
    }
}

/// The identifiers of `ts`, first occurrence kept, later repetitions
/// and identifier-less tracks dropped; `seen` holds identifiers that
/// are already taken.
pub open spec fn spec_dedup_ids(ts: Seq<TrackData>, seen: Seq<Seq<char>>) -> Seq<Seq<char>>
    decreases ts.len(),
{
    if ts.len() == 0 {
        Seq::empty()
    } else {
        match ts[0].id {
            Some(i) => if seen.contains(i) {
                spec_dedup_ids(ts.drop_first(), seen)
            } else {
                seq![i] + spec_dedup_ids(ts.drop_first(), seen.push(i))
            },
            None => spec_dedup_ids(ts.drop_first(), seen),
        }
    }
}

proof fn lemma_dedup_ids_distinct(ts: Seq<TrackData>, seen: Seq<Seq<char>>)
    ensures
        spec_dedup_ids(ts, seen).no_duplicates(),
        forall|k: int|
            0 <= k < spec_dedup_ids(ts, seen).len() ==> !seen.contains(
                #[trigger] spec_dedup_ids(ts, seen)[k],
            ),
        spec_dedup_ids(ts, seen).len() <= ts.len(),
    decreases ts.len(),
{
    if ts.len() > 0 {
        match ts[0].id {
            Some(i) => {
                if seen.contains(i) {
                    lemma_dedup_ids_distinct(ts.drop_first(), seen);
                } else {
                    lemma_dedup_ids_distinct(ts.drop_first(), seen.push(i));
                    let rest = spec_dedup_ids(ts.drop_first(), seen.push(i));
                    assert forall|k: int| 0 <= k < rest.len() implies #[trigger] rest[k] != i by {
                        assert(!seen.push(i).contains(rest[k]));
                        assert(seen.push(i)[seen.len() as int] == i);
                    }
                    vstd::seq_lib::lemma_no_dup_in_concat(seq![i], rest);
                    let r = spec_dedup_ids(ts, seen);
                    assert forall|k: int| 0 <= k < r.len() implies !seen.contains(
                        #[trigger] r[k],
                    ) by {
                        if k > 0 {
                            assert(r[k] == rest[k - 1]);
                            if seen.contains(r[k]) {
                                let w = choose|w: int| 0 <= w < seen.len() && seen[w] == r[k];
                                assert(seen.push(i)[w] == r[k]);
                                assert(seen.push(i).contains(r[k]));
                            }
                        }
                    }
                }
            },
            None => {
                lemma_dedup_ids_distinct(ts.drop_first(), seen);
            },
        }
    }
}

/// Collects the identifiers of `tracks`, keeping the first occurrence
/// of each and dropping identifier-less tracks, in input order.
pub fn dedup_track_ids(tracks: Vec<Track>) -> (ids: Vec<String>)
    ensures
        ids@.map_values(|s: String| s@) == spec_dedup_ids(
            tracks@.map_values(|t: Track| t@),
            Seq::empty(),
        ),
        ids@.map_values(|s: String| s@).no_duplicates(),
        ids@.len() <= tracks@.len(),
{
    let ghost full = tracks@.map_values(|t: Track| t@);
    let mut rest = tracks;
    let mut ids: Vec<String> = Vec::new();
    assert(ids@.map_values(|s: String| s@) =~= Seq::<Seq<char>>::empty());
    assert(Seq::<Seq<char>>::empty() + spec_dedup_ids(full, Seq::empty()) =~= spec_dedup_ids(
        full,
        Seq::empty(),
    ));
    while rest.len() > 0
        invariant
            spec_dedup_ids(full, Seq::empty()) == ids@.map_values(|s: String| s@)
                + spec_dedup_ids(rest@.map_values(|t: Track| t@), ids@.map_values(|s: String| s@)),
            ids@.len() + rest@.len() <= full.len(),
        decreases rest.len(),
    {
        let ghost old_restm = rest@.map_values(|t: Track| t@);
        let ghost old_idsm = ids@.map_values(|s: String| s@);
        let track = rest.remove(0);
        assert(rest@.map_values(|t: Track| t@) =~= old_restm.drop_first());
        assert(old_restm[0] == track@);
        match track.id {
            Some(id) => {
                if !contains_id(&ids, &id) {
                    ids.push(id);
                    assert(ids@.map_values(|s: String| s@) =~= old_idsm.push(old_restm[0].id->0));
                    assert(old_idsm + (seq![old_restm[0].id->0] + spec_dedup_ids(
                        old_restm.drop_first(),
                        old_idsm.push(old_restm[0].id->0),
                    )) =~= old_idsm.push(old_restm[0].id->0) + spec_dedup_ids(
                        old_restm.drop_first(),
                        old_idsm.push(old_restm[0].id->0),
                    ));
                }
            },
            None => {},
        }
    }
    assert(rest@.map_values(|t: Track| t@) =~= Seq::<TrackData>::empty());
    assert(ids@.map_values(|s: String| s@) + Seq::<Seq<char>>::empty() =~= ids@.map_values(
        |s: String| s@,
    ));
    proof {
        lemma_dedup_ids_distinct(full, Seq::empty());
    }
    ids
}

proof fn lemma_pages_no_dup_views(ps: Seq<Vec<String>>)
    requires
        pages_flat(ps).map_values(|s: String| s@).no_duplicates(),
    ensures
        forall|k: int|
            0 <= k < ps.len() ==> (#[trigger] ps[k])@.map_values(|s: String| s@).no_duplicates(),
    decreases ps.len(),
{
    if ps.len() > 0 {
        let head = ps[0]@.map_values(|s: String| s@);
        let tail = pages_flat(ps.drop_first()).map_values(|s: String| s@);
        assert(pages_flat(ps).map_values(|s: String| s@) =~= head + tail);
        assert(head.no_duplicates()) by {
            assert(forall|i: int, j: int|
                0 <= i < j < head.len() ==> (head + tail)[i] == head[i] && (head + tail)[j]
                    == head[j]);
        }
        assert(tail.no_duplicates()) by {
            assert(forall|i: int, j: int|
                0 <= i < j < tail.len() ==> (head + tail)[head.len() + i] == tail[i] && (head
                    + tail)[head.len() + j] == tail[j]);
        }
        lemma_pages_no_dup_views(ps.drop_first());
        assert(forall|k: int|
            1 <= k < ps.len() ==> (#[trigger] ps[k])@ == ps.drop_first()[k - 1]@);
    }
}

/// Concatenation of the identifier pages of a batch plan.
pub open spec fn batches_ids_flat(bs: Seq<Batch>) -> Seq<Seq<char>>
    decreases bs.len(),
{
    if bs.len() == 0 {
        Seq::empty()
    } else {
        bs[0]@.ids + batches_ids_flat(bs.drop_first())
    }
}

proof fn lemma_batches_ids_flat_push(bs: Seq<Batch>, b: Batch)
    ensures
        batches_ids_flat(bs.push(b)) == batches_ids_flat(bs) + b@.ids,
    decreases bs.len(),
{
    if bs.len() == 0 {
        reveal_with_fuel(batches_ids_flat, 2);
        assert(bs.push(b).drop_first() =~= Seq::<Batch>::empty());
        assert(batches_ids_flat(bs.push(b)) =~= batches_ids_flat(bs) + b@.ids);
    } else {
        assert(bs.push(b).drop_first() =~= bs.drop_first().push(b));
        lemma_batches_ids_flat_push(bs.drop_first(), b);
        assert(batches_ids_flat(bs.push(b)) =~= batches_ids_flat(bs) + b@.ids);
    }
}

/// Plans the batched addition of `tracks` to a playlist: identifiers
/// are deduplicated keeping first-occurrence order, split into pages
/// of at most 99, and, when an insert position is given, each page's
/// offset is advanced past the items inserted by the pages before it,
/// so the pages land contiguously.  No batch carries the same
/// identifier twice.
pub fn plan_track_additions(tracks: Vec<Track>, position: Option<u32>) -> (batches: Vec<Batch>)
    requires
        position matches Some(p) ==> p + tracks@.len() <= u32::MAX,
    ensures
        batches_ids_flat(batches@) == spec_dedup_ids(
            tracks@.map_values(|t: Track| t@),
            Seq::empty(),
        ),
        forall|k: int| 0 <= k < batches@.len() ==> 1 <= (#[trigger] batches@[k])@.ids.len() <= 99,
        forall|k: int| 0 <= k < batches@.len() - 1 ==> (#[trigger] batches@[k])@.ids.len() == 99,
        forall|k: int|
            0 <= k < batches@.len() ==> (#[trigger] batches@[k])@.ids.no_duplicates(),
        position is None ==> forall|k: int|
            0 <= k < batches@.len() ==> (#[trigger] batches@[k])@.position is None,
        position matches Some(p) ==> {
            &&& batches@.len() > 0 ==> batches@[0]@.position == Some(p)
            &&& forall|k: int|
                0 <= k < batches@.len() - 1 ==> (#[trigger] batches@[k + 1])@.position == Some(
                    (batches@[k]@.position->0 + batches@[k]@.ids.len()) as u32,
                )
        },
{
    let ghost trackm = tracks@.map_values(|t: Track| t@);
    let ids = dedup_track_ids(tracks);
    let ghost dedup = ids@.map_values(|s: String| s@);
    let pages = paginate_vec(ids, 99);
    proof {
        lemma_pages_no_dup_views(pages@);
    }
    let ghost all_pages = pages@;
    let mut rest = pages;
    let mut batches: Vec<Batch> = Vec::new();
    let mut offset: u32 = match position {
        Some(p) => p,
        None => 0,
    };
    while rest.len() > 0
        invariant
            batches@.len() + rest@.len() == all_pages.len(),
            rest@ == all_pages.skip(batches@.len() as int),
            batches_ids_flat(batches@) + pages_flat(rest@).map_values(|s: String| s@) == dedup,
            forall|k: int|
                0 <= k < batches@.len() ==> (#[trigger] batches@[k])@.ids == all_pages[k]@.map_values(
                    |s: String| s@,
                ),
            position is None ==> forall|k: int|
                0 <= k < batches@.len() ==> (#[trigger] batches@[k])@.position is None,
            position matches Some(p) ==> {
                &&& p + trackm.len() <= u32::MAX
                &&& dedup.len() <= trackm.len()
                &&& offset == p + batches_ids_flat(batches@).len()
                &&& batches@.len() > 0 ==> offset == batches@.last()@.position->0
                    + batches@.last()@.ids.len()
                &&& batches@.len() > 0 ==> batches@[0]@.position == Some(p)
                &&& forall|k: int|
                    0 <= k < batches@.len() - 1 ==> (#[trigger] batches@[k + 1])@.position == Some(
                        (batches@[k]@.position->0 + batches@[k]@.ids.len()) as u32,
                    )
            },
        decreases rest.len(),
    {
        let ghost old_rest = rest@;
        let ghost old_batches = batches@;
        let page = rest.remove(0);
        assert(rest@ =~= old_rest.drop_first());
        assert(old_rest[0] == all_pages[old_batches.len() as int]);
        assert(rest@ =~= all_pages.skip(old_batches.len() as int + 1));
        let pos = match position {
            Some(_) => Some(offset),
            None => None,
        };
        let page_len = page.len();
        let b = Batch { ids: page, position: pos };
        proof {
            lemma_batches_ids_flat_push(old_batches, b);
            assert(pages_flat(old_rest).map_values(|s: String| s@) =~= old_rest[0]@.map_values(
                |s: String| s@,
            ) + pages_flat(old_rest.drop_first()).map_values(|s: String| s@));
            assert(batches_ids_flat(old_batches) + (old_rest[0]@.map_values(|s: String| s@)
                + pages_flat(old_rest.drop_first()).map_values(|s: String| s@)) =~= (batches_ids_flat(
                old_batches,
            ) + old_rest[0]@.map_values(|s: String| s@)) + pages_flat(
                old_rest.drop_first(),
            ).map_values(|s: String| s@));
        }
        batches.push(b);
        if position.is_some() {
            proof {
                assert(batches_ids_flat(batches@).len() + pages_flat(rest@).map_values(
                    |s: String| s@,
                ).len() == dedup.len());
            }
            offset = offset + page_len as u32;
        }
        assert(forall|k: int|
            0 <= k < old_batches.len() ==> (#[trigger] batches@[k]) == old_batches[k]);
    }
    assert(rest@ =~= Seq::<Vec<String>>::empty());
    assert(pages_flat(rest@) =~= Seq::<String>::empty());
    assert(pages_flat(rest@).map_values(|s: String| s@) =~= Seq::<Seq<char>>::empty());
    assert(batches_ids_flat(batches@) + Seq::<Seq<char>>::empty() =~= batches_ids_flat(batches@));
    assert(batches_ids_flat(batches@) =~= dedup);
    batches
}

/// Whether every album's entries sit contiguously in the playlist.
pub open spec fn spec_albums_contiguous(pl: Seq<TrackData>) -> bool {
    forall|i: int, j: int, k: int|
        0 <= i < j < k < pl.len() && (#[trigger] pl[i]).album_id == (#[trigger] pl[k]).album_id
            ==> (#[trigger] pl[j]).album_id == pl[i].album_id
}

/// The index at which the trim cut falls: starting from `b`, the
/// boundary moves right while the entry still belongs to the same
/// album as the entry before it.
pub open spec fn spec_trim_boundary(pl: Seq<TrackData>, b: int) -> int
    decreases pl.len() - b,
    when 1 <= b <= pl.len()
{
    if b < pl.len() && pl[b].album_id == pl[b - 1].album_id {
        spec_trim_boundary(pl, b + 1)
    } else {
        b
    }
}

fn same_album(a: &Track, b: &Track) -> (r: bool)
    ensures
        r == (a@.album_id == b@.album_id),
{
    match (&a.album_id, &b.album_id) {
        (Some(x), Some(y)) => x.eq(y),
        (None, None) => true,
        _ => false,
    }
}

/// Finds the extended trim cut: the first album transition at or after
/// `keep_count`, so that no album is split between the kept prefix and
/// the removed tail.
pub fn trim_boundary(playlist: &Vec<Track>, keep_count: usize) -> (b: usize)
    requires
        1 <= keep_count < playlist@.len(),
    ensures
        b == spec_trim_boundary(playlist@.map_values(|t: Track| t@), keep_count as int),
        keep_count <= b <= playlist@.len(),
        b < playlist@.len() ==> playlist@[b as int]@.album_id != playlist@[b - 1]@.album_id,
        forall|i: int|
            keep_count <= i < b ==> (#[trigger] playlist@[i])@.album_id == playlist@[i
                - 1]@.album_id,
{
    let ghost plm = playlist@.map_values(|t: Track| t@);
    let mut b = keep_count;
    while b < playlist.len() && same_album(&playlist[b - 1], &playlist[b])
        invariant
            keep_count <= b <= playlist@.len(),
            1 <= keep_count,
            plm == playlist@.map_values(|t: Track| t@),
            spec_trim_boundary(plm, keep_count as int) == spec_trim_boundary(plm, b as int),
            forall|i: int|
                keep_count <= i < b ==> (#[trigger] playlist@[i])@.album_id == playlist@[i
                    - 1]@.album_id,
        decreases playlist@.len() - b,
    {
        assert(plm[b as int].album_id == plm[b - 1].album_id);
        b += 1;
    }
    b
}

/// Plans a playlist trim to roughly `keep_count` entries: when the
/// playlist is longer, every entry from the extended trim cut onward
/// is turned into removal pages of at most 99 identifiers each
/// (entries without an identifier are dropped).  The remote removal
/// call matches by identifier and removes all occurrences of each.
pub fn plan_playlist_trim(playlist: &Vec<Track>, keep_count: usize) -> (pages: Vec<Vec<String>>)
    requires
        1 <= keep_count,
    ensures
        playlist@.len() <= keep_count ==> pages@.len() == 0,
        playlist@.len() > keep_count ==> pages_flat(pages@).map_values(|s: String| s@)
            == playlist@.map_values(|t: Track| t@).skip(
            spec_trim_boundary(playlist@.map_values(|t: Track| t@), keep_count as int),
        ).filter_map(|t: TrackData| t.id),
        forall|k: int| 0 <= k < pages@.len() ==> 1 <= (#[trigger] pages@[k])@.len() <= 99,
        forall|k: int| 0 <= k < pages@.len() - 1 ==> (#[trigger] pages@[k])@.len() == 99,
{
    let ghost plm = playlist@.map_values(|t: Track| t@);
    if playlist.len() <= keep_count {
        let pages: Vec<Vec<String>> = Vec::new();
        return pages;
    }
    let b = trim_boundary(playlist, keep_count);
    let ghost cut = b as int;
    let mut ids: Vec<String> = Vec::new();
    let mut i = b;
    assert(plm.subrange(cut, cut) =~= Seq::<TrackData>::empty());
    assert(plm.subrange(cut, cut).filter_map(|t: TrackData| t.id) =~= Seq::<Seq<char>>::empty());
    assert(ids@.map_values(|s: String| s@) =~= Seq::<Seq<char>>::empty());
    while i < playlist.len()
        invariant
            b <= i <= playlist@.len(),
            cut == b as int,
            plm == playlist@.map_values(|t: Track| t@),
            ids@.map_values(|s: String| s@) == plm.subrange(cut, i as int).filter_map(
                |t: TrackData| t.id,
            ),
        decreases playlist@.len() - i,
    {
        let ghost old_idsm = ids@.map_values(|s: String| s@);
        assert(plm.subrange(cut, i as int + 1).drop_last() =~= plm.subrange(cut, i as int));
        assert(plm.subrange(cut, i as int + 1).last() == plm[i as int]);
        match &playlist[i].id {
            Some(id) => {
                ids.push(id.clone());
                assert(ids@.map_values(|s: String| s@) =~= old_idsm + seq![plm[i as int].id->0]);
            },
            None => {},
        }
        i += 1;
    }
    assert(plm.subrange(cut, plm.len() as int) =~= plm.skip(cut));
    paginate_vec(ids, 99)
}

/// Trim law: in an album-contiguous playlist, the trim cut never
/// splits an album — every album lies entirely in the kept prefix or
/// entirely in the removed tail.
pub proof fn lemma_trim_respects_albums(pl: Seq<TrackData>, keep_count: int)
    requires
        spec_albums_contiguous(pl),
        1 <= keep_count < pl.len(),
    ensures
        forall|i: int, j: int|
            0 <= i < spec_trim_boundary(pl, keep_count) <= j < pl.len() ==> (#[trigger] pl[i]).album_id
                != (#[trigger] pl[j]).album_id,
{
    let b = spec_trim_boundary(pl, keep_count);
    lemma_trim_boundary_range(pl, keep_count);
    assert forall|i: int, j: int|
        0 <= i < b <= j < pl.len() implies (#[trigger] pl[i]).album_id != (#[trigger] pl[j]).album_id by {
        if pl[i].album_id == pl[j].album_id {
            if i < b - 1 {
                assert(pl[b - 1].album_id == pl[i].album_id);
            }
            if b < j {
                assert(pl[b].album_id == pl[b - 1].album_id);
            } else {
                assert(pl[b].album_id == pl[j].album_id);
            }
            assert(false);
        }
    }
}

proof fn lemma_trim_boundary_range(pl: Seq<TrackData>, b: int)
    requires
        1 <= b <= pl.len(),
    ensures
        b <= spec_trim_boundary(pl, b) <= pl.len(),
        spec_trim_boundary(pl, b) < pl.len() ==> pl[spec_trim_boundary(pl, b)].album_id
            != pl[spec_trim_boundary(pl, b) - 1].album_id,
        forall|i: int|
            b <= i < spec_trim_boundary(pl, b) ==> (#[trigger] pl[i]).album_id == pl[i
                - 1].album_id,
    decreases pl.len() - b,
{
    if b < pl.len() && pl[b].album_id == pl[b - 1].album_id {
        lemma_trim_boundary_range(pl, b + 1);
    }
}

proof fn lemma_filter_singleton<A>(x: A, p: spec_fn(A) -> bool)
    ensures
        seq![x].filter(p) == if p(x) {
            seq![x]
        } else {
            Seq::<A>::empty()
        },
{
    reveal_with_fuel(Seq::filter, 2);
    assert(seq![x].drop_last() =~= Seq::<A>::empty());
    if p(x) {
        assert(seq![x].filter(p) =~= seq![x]);
    } else {
        assert(seq![x].filter(p) =~= Seq::<A>::empty());
    }
}

proof fn lemma_filter_complement_len<A>(s: Seq<A>, p: spec_fn(A) -> bool, q: spec_fn(A) -> bool)
    requires
        forall|x: A| #[trigger] q(x) <==> !p(x),
    ensures
        s.filter(p).len() + s.filter(q).len() == s.len(),
    decreases s.len(),
{
    reveal_with_fuel(Seq::filter, 2);
    if s.len() > 0 {
        lemma_filter_complement_len(s.drop_last(), p, q);
    }
}

proof fn lemma_new_segment_spent(d: Seq<TrackData>, current: Seq<Seq<char>>)
    ensures
        spec_new_segment(d, current, false) == Seq::<TrackData>::empty(),
    decreases d.len(),
{
    if d.len() > 0 {
        lemma_new_segment_spent(d.drop_first(), current);
    }
}

/// Diff partition law: the new segment followed by the old segment is
/// exactly the subsequence of `desired` whose tracks are absent from
/// the playlist, so together with the already-present tracks the two
/// segments account for every desired track exactly once.
pub proof fn lemma_diff_partition(d: Seq<TrackData>, current: Seq<Seq<char>>, in_new: bool)
    ensures
        spec_new_segment(d, current, in_new) + spec_old_segment(d, current, in_new) == d.filter(
            |t: TrackData| !spec_present(t, current),
        ),
        spec_new_segment(d, current, in_new).len() + spec_old_segment(d, current, in_new).len()
            + d.filter(|t: TrackData| spec_present(t, current)).len() == d.len(),
    decreases d.len(),
{
    let absent = |t: TrackData| !spec_present(t, current);
    let here = |t: TrackData| spec_present(t, current);
    if d.len() == 0 {
        assert(d.filter(absent) =~= Seq::<TrackData>::empty());
        assert(d.filter(here) =~= Seq::<TrackData>::empty());
        assert(spec_new_segment(d, current, in_new) + spec_old_segment(d, current, in_new) =~= d.filter(
            absent,
        ));
    } else {
        let tail = d.drop_first();
        let flag = in_new && !spec_present(d[0], current);
        lemma_diff_partition(tail, current, in_new && !spec_present(d[0], current));
        lemma_diff_partition(tail, current, true);
        lemma_diff_partition(tail, current, false);
        assert(d =~= seq![d[0]] + tail);
        Seq::filter_distributes_over_add(seq![d[0]], tail, absent);
        lemma_filter_singleton(d[0], absent);
        if !spec_present(d[0], current) {
            if in_new {
                assert(spec_new_segment(d, current, in_new) =~= seq![d[0]] + spec_new_segment(
                    tail,
                    current,
                    true,
                ));
                assert(spec_old_segment(d, current, in_new) =~= spec_old_segment(
                    tail,
                    current,
                    true,
                ));
                assert(seq![d[0]] + spec_new_segment(tail, current, true) + spec_old_segment(
                    tail,
                    current,
                    true,
                ) =~= seq![d[0]] + (spec_new_segment(tail, current, true) + spec_old_segment(
                    tail,
                    current,
                    true,
                )));
                assert(d.filter(absent) =~= seq![d[0]] + tail.filter(absent));
            } else {
                assert(spec_new_segment(d, current, in_new) =~= spec_new_segment(
                    tail,
                    current,
                    false,
                ));
                assert(spec_old_segment(d, current, in_new) =~= seq![d[0]] + spec_old_segment(
                    tail,
                    current,
                    false,
                ));
                lemma_new_segment_spent(tail, current);
                assert(d.filter(absent) =~= seq![d[0]] + tail.filter(absent));
                assert(spec_new_segment(d, current, in_new) + spec_old_segment(d, current, in_new)
                    =~= seq![d[0]] + spec_old_segment(tail, current, false));
            }
        } else {
            assert(spec_new_segment(d, current, in_new) =~= spec_new_segment(tail, current, false));
            assert(spec_old_segment(d, current, in_new) =~= spec_old_segment(tail, current, false));
            assert(d.filter(absent) =~= tail.filter(absent));
        }
        Seq::filter_distributes_over_add(seq![d[0]], tail, here);
        lemma_filter_singleton(d[0], here);
        assert(d.filter(here) =~= seq![d[0]].filter(here) + tail.filter(here));
        lemma_filter_complement_len(tail, here, absent);
        lemma_filter_complement_len(d, here, absent);
    }
}

} // verus!
