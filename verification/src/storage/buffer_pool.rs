//! A bounded cache of pages with CLOCK (second-chance) replacement.
//!
//! The pool never performs a transfer itself. A miss is answered with what
//! the caller has to write back and read; the bytes read are handed to
//! `install`.

use vstd::prelude::*;
use super::page::{image_page_id, is_page_image, parse_image, PageView, RowPage};
use super::StorageError;

verus! {

/// How many pages a pool holds unless told otherwise.
pub const DEFAULT_CAPACITY: usize = 10;

/// A page image that must be written to the backing file at the page's offset.
#[derive(Debug)]
pub struct PageWrite {
    pub page_id: u32,
    pub bytes: Vec<u8>,
}

impl View for PageWrite {
    type V = (u32, Seq<u8>);

    open spec fn view(&self) -> (u32, Seq<u8>) {
        (self.page_id, self.bytes@)
    }
}

/// The views of a list of writes, in order.
pub open spec fn writes_view(writes: Seq<PageWrite>) -> Seq<(u32, Seq<u8>)> {
    Seq::new(writes.len(), |i: int| writes[i]@)
}

/// The view of a write that may be absent.
pub open spec fn write_view(write: Option<PageWrite>) -> Option<(u32, Seq<u8>)> {
    match write {
        Some(w) => Some(w@),
        None => None,
    }
}

/// The answer of the pool to a request for a page.
#[derive(Debug)]
pub enum Access {
    /// The page is held by the pool.
    Resident,
    /// The page must be read from the backing file and handed to `install`.
    /// If `write_back` is there, it must reach the file first.
    Load { write_back: Option<PageWrite> },
    /// The pool is full and no page could be evicted.
    Unavailable,
}

/// The position reached after `k` steps from `start` round a ring of `len`.
pub open spec fn ring_at(start: int, k: int, len: int) -> int {
    if start + k < len {
        start + k
    } else {
        start + k - len
    }
}

/// How many steps from `start` it takes to reach position `p` on a ring of `len`.
pub open spec fn ring_distance(start: int, p: int, len: int) -> int {
    if p >= start {
        p - start
    } else {
        p - start + len
    }
}

/// The position after `p` on a ring of `len`.
pub open spec fn ring_next(p: int, len: int) -> int {
    if p + 1 >= len {
        0
    } else {
        p + 1
    }
}

/// How many recently referenced pages lie between the position `k` steps
/// after `start` and the first page that was not recently referenced, plus
/// `k`; the number of pages if the hand finds none before it has gone round.
pub open spec fn lead(frames: Seq<PageView>, start: int, k: int) -> int
    decreases frames.len() - k,
{
    if k >= frames.len() {
        frames.len() as int
    } else if !frames[ring_at(start, k, frames.len() as int)].referenced_recently {
        k
    } else {
        lead(frames, start, k + 1)
    }
}

/// How many of the pages have an identifier below `id`.
pub open spec fn rank(frames: Seq<PageView>, id: u32) -> int
    decreases frames.len(),
{
    if frames.len() == 0 {
        0
    } else {
        rank(frames.drop_last(), id) + if frames.last().page_id < id {
            1int
        } else {
            0int
        }
    }
}

/// The writes that bring the backing file up to date: one for each dirty
/// page, in the order of the pages.
pub open spec fn pending_writes(frames: Seq<PageView>) -> Seq<(u32, Seq<u8>)>
    decreases frames.len(),
{
    if frames.len() == 0 {
        Seq::empty()
    } else if frames.last().is_dirty {
        pending_writes(frames.drop_last()).push((frames.last().page_id, frames.last().image()))
    } else {
        pending_writes(frames.drop_last())
    }
}

/// The mathematical content of a buffer pool: the resident pages in
/// increasing order of their identifiers, the capacity, and the clock hand.
pub struct PoolView {
    pub frames: Seq<PageView>,
    pub capacity: usize,
    pub clock_hand: Option<usize>,
}

impl PoolView {
    /// The pool invariant.
    pub open spec fn valid(self) -> bool {
        &&& self.frames.len() <= self.capacity
        &&& forall|i: int| 0 <= i < self.frames.len() ==> (#[trigger] self.frames[i]).valid()
        &&& forall|i: int, j: int|
            0 <= i < j < self.frames.len() ==> (#[trigger] self.frames[i]).page_id < (
            #[trigger] self.frames[j]).page_id
        &&& self.clock_hand matches Some(h) ==> h < self.capacity
    }

    /// Whether the page is resident.
    pub open spec fn holds(self, id: u32) -> bool {
        exists|i: int| 0 <= i < self.frames.len() && (#[trigger] self.frames[i]).page_id == id
    }

    /// Where the resident page stands among the frames.
    pub open spec fn position(self, id: u32) -> int {
        choose|i: int| 0 <= i < self.frames.len() && (#[trigger] self.frames[i]).page_id == id
    }

    /// The resident page with this identifier.
    pub open spec fn page(self, id: u32) -> PageView {
        self.frames[self.position(id)]
    }

    /// Whether a victim can be chosen: the pool is full and not of capacity zero.
    pub open spec fn can_evict(self) -> bool {
        self.frames.len() == self.capacity && self.capacity > 0
    }

    /// Where the clock hand stands when a sweep begins.
    pub open spec fn sweep_start(self) -> int {
        match self.clock_hand {
            Some(h) => h as int,
            None => 0,
        }
    }

    /// How many pages the hand passes, and gives a second chance, before it
    /// stops at the victim.
    pub open spec fn sweep_length(self) -> int {
        lead(self.frames, self.sweep_start(), 0)
    }

    /// Where the victim stands: the first page from the hand on that was not
    /// recently referenced, or, if all were, the page the hand started at.
    pub open spec fn victim_position(self) -> int {
        ring_at(self.sweep_start(), self.sweep_length(), self.frames.len() as int)
    }

    /// The victim of the next eviction.
    pub open spec fn victim(self) -> PageView {
        self.swept().frames[self.victim_position()]
    }

    /// The pool after the sweep: every page the hand passed has lost its
    /// recently-referenced flag, and the hand stands behind the victim.
    pub open spec fn swept(self) -> PoolView {
        PoolView {
            frames: Seq::new(
                self.frames.len(),
                |p: int|
                    if ring_distance(self.sweep_start(), p, self.frames.len() as int)
                        < self.sweep_length() {
                        PageView { referenced_recently: false, ..self.frames[p] }
                    } else {
                        self.frames[p]
                    },
            ),
            capacity: self.capacity,
            clock_hand: Some(
                ring_next(self.victim_position(), self.frames.len() as int) as usize,
            ),
        }
    }

    /// The pool without the page at position `i`.
    pub open spec fn without(self, i: int) -> PoolView {
        PoolView { frames: self.frames.remove(i), ..self }
    }

    /// The pool with `page` added in its place among the frames.
    pub open spec fn with_page(self, page: PageView) -> PoolView {
        PoolView { frames: self.frames.insert(rank(self.frames, page.page_id), page), ..self }
    }

    /// The pool with the page at position `i` replaced.
    pub open spec fn with_frame(self, i: int, page: PageView) -> PoolView {
        PoolView { frames: self.frames.update(i, page), ..self }
    }

    /// The pool with every page marked clean.
    pub open spec fn flushed(self) -> PoolView {
        PoolView {
            frames: Seq::new(
                self.frames.len(),
                |i: int| PageView { is_dirty: false, ..self.frames[i] },
            ),
            ..self
        }
    }

    /// Whether page `id` of this pool is page `id` of `before`, marked clean.
    pub open spec fn flushed_page_of(self, before: PoolView, id: u32) -> bool {
        self.page(id) == (PageView { is_dirty: false, ..before.page(id) })
    }

    /// The pool after it made room for one more page.
    pub open spec fn after_eviction(self) -> PoolView {
        self.swept().without(self.victim_position())
    }

    /// What has to be written back when the pool makes room.
    pub open spec fn eviction_write(self) -> Option<(u32, Seq<u8>)> {
        if self.victim().is_dirty {
            Some((self.victim().page_id, self.victim().image()))
        } else {
            None
        }
    }
}

/// The sweep ends within one round, and every page it passed had been
/// recently referenced.
pub proof fn lemma_lead(frames: Seq<PageView>, start: int, k: int)
    requires
        0 <= k <= frames.len(),
        0 <= start < frames.len(),
    ensures
        k <= lead(frames, start, k) <= frames.len(),
        forall|j: int|
            k <= j < lead(frames, start, k) ==> frames[ring_at(
                start,
                j,
                frames.len() as int,
            )].referenced_recently,
        lead(frames, start, k) < frames.len() ==> !frames[ring_at(
            start,
            lead(frames, start, k),
            frames.len() as int,
        )].referenced_recently,
    decreases frames.len() - k,
{
    if k < frames.len() && frames[ring_at(start, k, frames.len() as int)].referenced_recently {
        lemma_lead(frames, start, k + 1);
    }
}

/// A valid pool never holds more pages than its capacity. Every operation
/// on a pool leaves it valid.
pub proof fn theorem_within_capacity(v: PoolView)
    requires
        v.valid(),
    ensures
        v.frames.len() <= v.capacity,
{
}

/// In a valid pool a page identifier names one position.
pub proof fn lemma_position(v: PoolView, i: int)
    requires
        v.valid(),
        0 <= i < v.frames.len(),
    ensures
        v.holds(v.frames[i].page_id),
        v.position(v.frames[i].page_id) == i,
        v.page(v.frames[i].page_id) == v.frames[i],
{
    let id = v.frames[i].page_id;
    let j = v.position(id);
    assert(0 <= j < v.frames.len() && v.frames[j].page_id == id);
    if j < i {
        assert(v.frames[j].page_id < v.frames[i].page_id);
    }
    if i < j {
        assert(v.frames[i].page_id < v.frames[j].page_id);
    }
}

/// If the first `k` pages lie below `id` and the others do not, `id` has rank `k`.
pub proof fn lemma_rank(frames: Seq<PageView>, id: u32, k: int)
    requires
        0 <= k <= frames.len(),
        forall|j: int| 0 <= j < k ==> (#[trigger] frames[j]).page_id < id,
        forall|j: int| k <= j < frames.len() ==> (#[trigger] frames[j]).page_id >= id,
    ensures
        rank(frames, id) == k,
    decreases frames.len(),
{
    if frames.len() > 0 {
        let init = frames.drop_last();
        assert forall|j: int| 0 <= j < init.len() implies (#[trigger] init[j]) == frames[j] by {}
        if k == frames.len() {
            lemma_rank(init, id, k - 1);
        } else {
            lemma_rank(init, id, k);
        }
    }
}

/// The rank of an identifier is a position among the frames, or just behind them.
pub proof fn lemma_rank_bounds(frames: Seq<PageView>, id: u32)
    ensures
        0 <= rank(frames, id) <= frames.len(),
    decreases frames.len(),
{
    if frames.len() > 0 {
        lemma_rank_bounds(frames.drop_last(), id);
    }
}

/// Sweeping changes nothing but recently-referenced flags.
pub proof fn lemma_swept(v: PoolView)
    requires
        v.valid(),
        v.can_evict(),
    ensures
        v.swept().valid(),
        v.swept().frames.len() == v.frames.len(),
        0 <= v.victim_position() < v.frames.len(),
        0 <= v.sweep_length() <= v.frames.len(),
        forall|i: int|
            0 <= i < v.frames.len() ==> (#[trigger] v.swept().frames[i]).stored()
                == v.frames[i].stored() && v.swept().frames[i].is_dirty == v.frames[i].is_dirty,
        !v.victim().referenced_recently,
{
    lemma_lead(v.frames, v.sweep_start(), 0);
    let w = v.swept();
    assert forall|i: int| 0 <= i < w.frames.len() implies (#[trigger] w.frames[i]).valid() by {
        assert(v.frames[i].valid());
    }
    assert forall|i: int, j: int| 0 <= i < j < w.frames.len() implies (
    #[trigger] w.frames[i]).page_id < (#[trigger] w.frames[j]).page_id by {
        assert(v.frames[i].page_id < v.frames[j].page_id);
    }
}

/// Taking a page out of a valid pool leaves a valid pool that holds the
/// other pages as they were.
pub proof fn lemma_without(v: PoolView, i: int)
    requires
        v.valid(),
        0 <= i < v.frames.len(),
    ensures
        v.without(i).valid(),
        v.without(i).frames.len() == v.frames.len() - 1,
        !v.without(i).holds(v.frames[i].page_id),
        forall|id: u32|
            id != v.frames[i].page_id ==> (#[trigger] v.without(i).holds(id)) == v.holds(id),
        forall|id: u32|
            id != v.frames[i].page_id && v.holds(id) ==> (#[trigger] v.without(i).page(id))
                == v.page(id),
{
    let w = v.without(i);
    assert forall|a: int| 0 <= a < w.frames.len() implies (#[trigger] w.frames[a]).valid() by {
        if a < i {
            assert(v.frames[a].valid());
        } else {
            assert(v.frames[a + 1].valid());
        }
    }
    assert forall|a: int, b: int| 0 <= a < b < w.frames.len() implies (
    #[trigger] w.frames[a]).page_id < (#[trigger] w.frames[b]).page_id by {
        let a0 = if a < i { a } else { a + 1 };
        let b0 = if b < i { b } else { b + 1 };
        assert(v.frames[a0].page_id < v.frames[b0].page_id);
    }
    assert(!w.holds(v.frames[i].page_id)) by {
        if w.holds(v.frames[i].page_id) {
            let a = w.position(v.frames[i].page_id);
            let a0 = if a < i { a } else { a + 1 };
            assert(w.frames[a] == v.frames[a0]);
            if a0 < i {
                assert(v.frames[a0].page_id < v.frames[i].page_id);
            } else {
                assert(v.frames[i].page_id < v.frames[a0].page_id);
            }
        }
    }
    assert forall|id: u32| id != v.frames[i].page_id implies (#[trigger] w.holds(id)) == v.holds(
        id,
    ) by {
        if v.holds(id) {
            let a0 = v.position(id);
            let a = if a0 < i { a0 } else { a0 - 1 };
            assert(w.frames[a] == v.frames[a0]);
        }
        if w.holds(id) {
            let a = w.position(id);
            let a0 = if a < i { a } else { a + 1 };
            assert(w.frames[a] == v.frames[a0]);
        }
    }
    assert forall|id: u32| id != v.frames[i].page_id && v.holds(id) implies (#[trigger] w.page(
        id,
    )) == v.page(id) by {
        assert(w.holds(id));
        let a = w.position(id);
        let a0 = if a < i { a } else { a + 1 };
        assert(w.frames[a] == v.frames[a0]);
        lemma_position(v, a0);
    }
}

/// How the frames lie after a page was added: the pages below it keep their
/// positions, the new page stands at its rank, the others move up by one.
pub proof fn lemma_with_page_frames(v: PoolView, page: PageView)
    requires
        v.valid(),
        !v.holds(page.page_id),
    ensures
        0 <= rank(v.frames, page.page_id) <= v.frames.len(),
        v.with_page(page).frames.len() == v.frames.len() + 1,
        v.with_page(page).frames[rank(v.frames, page.page_id)] == page,
        forall|a: int|
            0 <= a < rank(v.frames, page.page_id) ==> (#[trigger] v.with_page(page).frames[a])
                == v.frames[a] && v.frames[a].page_id < page.page_id,
        forall|a: int|
            rank(v.frames, page.page_id) < a <= v.frames.len() ==> (#[trigger] v.with_page(
                page,
            ).frames[a]) == v.frames[a - 1] && v.frames[a - 1].page_id > page.page_id,
{
    let at = rank(v.frames, page.page_id);
    lemma_rank_bounds(v.frames, page.page_id);
    lemma_rank_splits(v.frames, page.page_id);
    let w = v.with_page(page);
    assert forall|a: int| at < a <= v.frames.len() implies (#[trigger] w.frames[a]) == v.frames[a
        - 1] && v.frames[a - 1].page_id > page.page_id by {
        assert(v.frames[a - 1].page_id >= page.page_id);
        assert(v.frames[a - 1].page_id != page.page_id);
    }
}

/// Adding a page that is not resident to a valid pool with a free frame
/// leaves a valid pool.
pub proof fn lemma_with_page_valid(v: PoolView, page: PageView)
    requires
        v.valid(),
        page.valid(),
        !v.holds(page.page_id),
        v.frames.len() < v.capacity,
    ensures
        v.with_page(page).valid(),
{
    let w = v.with_page(page);
    let at = rank(v.frames, page.page_id);
    lemma_with_page_frames(v, page);
    assert forall|a: int| 0 <= a < w.frames.len() implies (#[trigger] w.frames[a]).valid() by {
        if a < at {
            assert(v.frames[a].valid());
        } else if a > at {
            assert(v.frames[a - 1].valid());
        }
    }
    assert forall|a: int, b: int| 0 <= a < b < w.frames.len() implies (
    #[trigger] w.frames[a]).page_id < (#[trigger] w.frames[b]).page_id by {
        let a0 = if a < at { a } else { a - 1 };
        let b0 = if b < at { b } else { b - 1 };
        if a != at && b != at {
            assert(w.frames[a] == v.frames[a0]);
            assert(w.frames[b] == v.frames[b0]);
            assert(v.frames[a0].page_id < v.frames[b0].page_id);
        }
    }
}

/// Adding a page that is not resident to a valid pool with a free frame
/// leaves a valid pool that holds the new page and the others as they were.
pub proof fn lemma_with_page(v: PoolView, page: PageView)
    requires
        v.valid(),
        page.valid(),
        !v.holds(page.page_id),
        v.frames.len() < v.capacity,
    ensures
        v.with_page(page).valid(),
        v.with_page(page).frames.len() == v.frames.len() + 1,
        v.with_page(page).holds(page.page_id),
        v.with_page(page).page(page.page_id) == page,
        forall|id: u32|
            id != page.page_id ==> (#[trigger] v.with_page(page).holds(id)) == v.holds(id),
        forall|id: u32|
            id != page.page_id && v.holds(id) ==> (#[trigger] v.with_page(page).page(id))
                == v.page(id),
{
    let w = v.with_page(page);
    let at = rank(v.frames, page.page_id);
    lemma_with_page_frames(v, page);
    lemma_with_page_valid(v, page);
    lemma_position(w, at);
    assert forall|id: u32| id != page.page_id implies (#[trigger] w.holds(id)) == v.holds(id) by {
        if v.holds(id) {
            let a0 = v.position(id);
            let a = if a0 < at { a0 } else { a0 + 1 };
            assert(w.frames[a] == v.frames[a0]);
        }
        if w.holds(id) {
            let a = w.position(id);
            let a0 = if a < at { a } else { a - 1 };
            assert(w.frames[a] == v.frames[a0]);
        }
    }
    assert forall|id: u32| id != page.page_id && v.holds(id) implies (#[trigger] w.page(id))
        == v.page(id) by {
        assert(w.holds(id));
        let a = w.position(id);
        let a0 = if a < at { a } else { a - 1 };
        assert(w.frames[a] == v.frames[a0]);
        lemma_position(v, a0);
    }
}

/// In a pool without the identifier, the pages below its rank lie below it
/// and the others above.
pub proof fn lemma_rank_splits(frames: Seq<PageView>, id: u32)
    requires
        forall|i: int, j: int|
            0 <= i < j < frames.len() ==> (#[trigger] frames[i]).page_id < (
            #[trigger] frames[j]).page_id,
    ensures
        forall|j: int| 0 <= j < rank(frames, id) ==> (#[trigger] frames[j]).page_id < id,
        forall|j: int| rank(frames, id) <= j < frames.len() ==> (#[trigger] frames[j]).page_id >= id,
    decreases frames.len(),
{
    lemma_rank_bounds(frames, id);
    if frames.len() > 0 {
        let init = frames.drop_last();
        let n = init.len() as int;
        assert forall|i: int, j: int| 0 <= i < j < init.len() implies (
        #[trigger] init[i]).page_id < (#[trigger] init[j]).page_id by {
            assert(frames[i].page_id < frames[j].page_id);
        }
        lemma_rank_splits(init, id);
        lemma_rank_bounds(init, id);
        assert forall|j: int| 0 <= j < rank(frames, id) implies (#[trigger] frames[j]).page_id
            < id by {
            if j < n {
                if j < rank(init, id) {
                    assert(init[j].page_id < id);
                } else {
                    // the last page lies below `id`, and so do all before it
                    assert(frames[j].page_id < frames[n].page_id);
                }
            }
        }
        assert forall|j: int| rank(frames, id) <= j < frames.len() implies (
        #[trigger] frames[j]).page_id >= id by {
            if j < n {
                if frames.last().page_id < id {
                    // then every page lies below `id` and the rank is the length
                    assert forall|a: int| 0 <= a < n implies (#[trigger] init[a]).page_id
                        < id by {
                        assert(frames[a].page_id < frames[n].page_id);
                    }
                    lemma_rank(init, id, n);
                } else {
                    assert(init[j].page_id >= id);
                }
            }
        }
    }
}

/// Replacing a page by one with the same identifier leaves a valid pool
/// that holds the same pages, the replaced one in its new state.
pub proof fn lemma_with_frame(v: PoolView, id: u32, page: PageView)
    requires
        v.valid(),
        v.holds(id),
        page.valid(),
        page.page_id == id,
    ensures
        v.with_frame(v.position(id), page).valid(),
        v.with_frame(v.position(id), page).frames.len() == v.frames.len(),
        forall|other: u32| (#[trigger] v.with_frame(v.position(id), page).holds(other)) == v.holds(other),
        v.with_frame(v.position(id), page).page(id) == page,
        forall|other: u32|
            other != id && v.holds(other) ==> (#[trigger] v.with_frame(v.position(id), page).page(
                other,
            )) == v.page(other),
{
    let at = v.position(id);
    let w = v.with_frame(at, page);
    assert forall|a: int| 0 <= a < w.frames.len() implies (#[trigger] w.frames[a]).valid() by {
        if a != at {
            assert(v.frames[a].valid());
        }
    }
    assert forall|a: int, b: int| 0 <= a < b < w.frames.len() implies (
    #[trigger] w.frames[a]).page_id < (#[trigger] w.frames[b]).page_id by {
        assert(v.frames[a].page_id < v.frames[b].page_id);
    }
    lemma_position(w, at);
    assert forall|other: u32| (#[trigger] w.holds(other)) == v.holds(other) by {
        if v.holds(other) {
            let a = v.position(other);
            assert(w.frames[a].page_id == other);
        }
        if w.holds(other) {
            let a = w.position(other);
            assert(v.frames[a].page_id == other);
        }
    }
    assert forall|other: u32| other != id && v.holds(other) implies (#[trigger] w.page(other))
        == v.page(other) by {
        assert(w.holds(other));
        let a = w.position(other);
        assert(w.frames[a] == v.frames[a]);
        lemma_position(v, a);
    }
}

/// Flushing leaves a valid pool that holds the same pages, all clean.
pub proof fn lemma_flushed(v: PoolView)
    requires
        v.valid(),
    ensures
        v.flushed().valid(),
        forall|id: u32| (#[trigger] v.flushed().holds(id)) == v.holds(id),
        forall|id: u32| v.holds(id) ==> #[trigger] v.flushed().flushed_page_of(v, id),
{
    let w = v.flushed();
    assert forall|a: int| 0 <= a < w.frames.len() implies (#[trigger] w.frames[a]).valid() by {
        assert(v.frames[a].valid());
    }
    assert forall|a: int, b: int| 0 <= a < b < w.frames.len() implies (
    #[trigger] w.frames[a]).page_id < (#[trigger] w.frames[b]).page_id by {
        assert(v.frames[a].page_id < v.frames[b].page_id);
    }
    assert forall|id: u32| (#[trigger] w.holds(id)) == v.holds(id) by {
        if v.holds(id) {
            let a = v.position(id);
            assert(w.frames[a].page_id == id);
        }
        if w.holds(id) {
            let a = w.position(id);
            assert(v.frames[a].page_id == id);
        }
    }
    assert forall|id: u32| v.holds(id) implies (#[trigger] w.flushed_page_of(v, id)) by {
        assert(w.holds(id));
        let a = w.position(id);
        assert(w.frames[a] == (PageView { is_dirty: false, ..v.frames[a] }));
        lemma_position(v, a);
    }
}

/// Making room removes the victim and nothing else: the other pages stay,
/// with their content and their dirty flags.
pub proof fn lemma_after_eviction(v: PoolView)
    requires
        v.valid(),
        v.can_evict(),
    ensures
        v.victim().valid(),
        v.holds(v.victim().page_id),
        v.page(v.victim().page_id).stored() == v.victim().stored(),
        v.page(v.victim().page_id).is_dirty == v.victim().is_dirty,
        v.after_eviction().valid(),
        v.after_eviction().frames.len() == v.frames.len() - 1,
        v.after_eviction().capacity == v.capacity,
        !v.after_eviction().holds(v.victim().page_id),
        forall|id: u32|
            id != v.victim().page_id ==> (#[trigger] v.after_eviction().holds(id)) == v.holds(id),
        forall|id: u32|
            id != v.victim().page_id && v.holds(id) ==> (#[trigger] v.after_eviction().page(
                id,
            )).stored() == v.page(id).stored() && v.after_eviction().page(id).is_dirty == v.page(
                id,
            ).is_dirty,
{
    let w = v.swept();
    let at = v.victim_position();
    let vid = v.victim().page_id;
    lemma_swept(v);
    assert(w.frames[at].stored() == v.frames[at].stored());
    assert(w.frames[at].valid());
    lemma_position(v, at);
    lemma_without(w, at);
    assert forall|id: u32| (#[trigger] w.holds(id)) == v.holds(id) by {
        if v.holds(id) {
            let a = v.position(id);
            assert(w.frames[a].stored() == v.frames[a].stored());
        }
        if w.holds(id) {
            let a = w.position(id);
            assert(w.frames[a].stored() == v.frames[a].stored());
        }
    }
    assert forall|id: u32| id != vid && v.holds(id) implies (#[trigger] v.after_eviction().page(
        id,
    )).stored() == v.page(id).stored() && v.after_eviction().page(id).is_dirty == v.page(
        id,
    ).is_dirty by {
        assert(w.holds(id));
        assert(w.without(at).holds(id));
        assert(w.without(at).page(id) == w.page(id));
        let a = w.position(id);
        assert(w.frames[a].stored() == v.frames[a].stored());
        lemma_position(v, a);
    }
}

/// The writes pending for one page more.
pub proof fn lemma_pending_writes_push(frames: Seq<PageView>, page: PageView)
    ensures
        pending_writes(frames.push(page)) == (if page.is_dirty {
            pending_writes(frames).push((page.page_id, page.image()))
        } else {
            pending_writes(frames)
        }),
{
    assert(frames.push(page).drop_last() =~= frames);
}

/// A bounded set of resident pages.
#[derive(Debug)]
pub struct BufferPool {
    cache: Vec<RowPage>,
    capacity: usize,
    clock_hand: Option<usize>,
}

impl View for BufferPool {
    type V = PoolView;

    closed spec fn view(&self) -> PoolView {
        PoolView {
            frames: Seq::new(self.cache@.len(), |i: int| self.cache@[i]@),
            capacity: self.capacity,
            clock_hand: self.clock_hand,
        }
    }
}

impl BufferPool {
    /// Well-formedness of a pool.
    pub open spec fn wf(&self) -> bool {
        self@.valid()
    }

    /// An empty pool that will hold at most `capacity` pages.
    pub fn new(capacity: usize) -> (pool: Self)
        ensures
            pool.wf(),
            pool@ == (PoolView { frames: Seq::empty(), capacity, clock_hand: None }),
    {
        let pool = Self { cache: Vec::new(), capacity, clock_hand: None };
        assert(pool@.frames =~= Seq::empty());
        pool
    }

    /// How many pages are resident.
    pub fn len(&self) -> (n: usize)
        ensures
            n == self@.frames.len(),
    {
        self.cache.len()
    }

    /// The most pages the pool will hold.
    pub fn capacity(&self) -> (n: usize)
        ensures
            n == self@.capacity,
    {
        self.capacity
    }

    /// Where the page stands among the frames, if it is resident.
    fn find(&self, page_id: u32) -> (result: Option<usize>)
        ensures
            match result {
                Some(i) => i < self@.frames.len() && self@.frames[i as int].page_id == page_id,
                None => !self@.holds(page_id),
            },
    {
        let mut i: usize = 0;
        while i < self.cache.len()
            invariant
                i <= self.cache.len(),
                forall|j: int| 0 <= j < i ==> (#[trigger] self@.frames[j]).page_id != page_id,
            decreases self.cache.len() - i,
        {
            if self.cache[i].get_id() == page_id {
                return Some(i);
            }
            i += 1;
        }
        None
    }

    /// Whether the page is resident.
    pub fn contains(&self, page_id: u32) -> (held: bool)
        ensures
            held == self@.holds(page_id),
    {
        self.find(page_id).is_some()
    }

    /// Chooses the page to evict by the CLOCK rule, giving every recently
    /// referenced page the hand passes a second chance. A full pool always
    /// yields a victim, after fewer steps than twice its capacity.
    pub fn find_victim(&mut self) -> (result: Option<u32>)
        requires
            old(self).wf(),
        ensures
            final(self).wf(),
            old(self)@.can_evict() ==> result == Some(old(self)@.victim().page_id) && final(self)@
                == old(self)@.swept() && old(self)@.sweep_length() + 1 <= 2 * old(self)@.capacity,
            !old(self)@.can_evict() ==> result is None && final(self)@ == old(self)@,
    {
        let len = self.cache.len();
        if len < self.capacity || len == 0 {
            return None;
        }
        let start: usize = match self.clock_hand {
            Some(h) => h,
            None => 0,
        };
        let ghost before = self@;
        proof {
            lemma_lead(before.frames, start as int, 0);
        }
        let mut hand: usize = start;
        let mut steps: usize = 0;
        while steps <= len
            invariant
                len == self.cache@.len(),
                len == before.frames.len(),
                len == self.capacity,
                len > 0,
                before.valid(),
                before == old(self)@,
                start == before.sweep_start(),
                start < len,
                steps <= before.sweep_length() <= len,
                hand == ring_at(start as int, steps as int, len as int),
                lead(before.frames, start as int, steps as int) == before.sweep_length(),
                self.capacity == before.capacity,
                self.clock_hand == before.clock_hand,
                forall|p: int|
                    0 <= p < len ==> (#[trigger] self.cache@[p])@ == (if ring_distance(
                        start as int,
                        p,
                        len as int,
                    ) < steps {
                        PageView { referenced_recently: false, ..before.frames[p] }
                    } else {
                        before.frames[p]
                    }),
            decreases len - steps,
        {
            if self.cache[hand].is_referenced_recently() {
                self.cache[hand].set_referenced_recently(false);
                proof {
                    lemma_lead(before.frames, start as int, steps as int);
                }
                hand = if hand + 1 == len {
                    0
                } else {
                    hand + 1
                };
                steps += 1;
            } else {
                let victim = self.cache[hand].get_id();
                self.clock_hand = Some(
                    if hand + 1 == len {
                        0
                    } else {
                        hand + 1
                    },
                );
                proof {
                    lemma_lead(before.frames, start as int, steps as int);
                    assert(steps == before.sweep_length());
                    assert(self@.frames =~= before.swept().frames);
                }
                return Some(victim);
            }
        }
        proof {
            lemma_lead(before.frames, start as int, steps as int);
        }
        None
    }
    /// The resident page with this identifier, if there is one.
    pub fn page(&self, page_id: u32) -> (result: Option<&RowPage>)
        requires
            self.wf(),
        ensures
            self@.holds(page_id) ==> result is Some && result.unwrap()@ == self@.page(page_id)
                && result.unwrap().wf(),
            !self@.holds(page_id) ==> result is None,
    {
        match self.find(page_id) {
            Some(i) => {
                proof {
                    lemma_position(self@, i as int);
                }
                Some(&self.cache[i])
            },
            None => None,
        }
    }

    /// Removes the page from the pool. If it was dirty, its image is handed
    /// back and must be written to the backing file.
    pub fn evict(&mut self, page_id: u32) -> (result: Option<PageWrite>)
        requires
            old(self).wf(),
        ensures
            final(self).wf(),
            old(self)@.holds(page_id) ==> final(self)@ == old(self)@.without(
                old(self)@.position(page_id),
            ) && write_view(result) == (if old(self)@.page(page_id).is_dirty {
                Some((page_id, old(self)@.page(page_id).image()))
            } else {
                None
            }),
            !old(self)@.holds(page_id) ==> final(self)@ == old(self)@ && result is None,
    {
        match self.find(page_id) {
            Some(i) => {
                proof {
                    lemma_position(self@, i as int);
                }
                let page = self.cache.remove(i);
                assert(self@.frames =~= old(self)@.frames.remove(i as int));
                if page.is_dirty() {
                    Some(PageWrite { page_id, bytes: page.serialize() })
                } else {
                    None
                }
            },
            None => None,
        }
    }

    /// Hands back the image of every dirty page, in the order of the page
    /// identifiers, and marks the pages clean. The images must be written to
    /// the backing file. No page leaves the pool.
    pub fn flush(&mut self) -> (writes: Vec<PageWrite>)
        requires
            old(self).wf(),
        ensures
            final(self).wf(),
            final(self)@ == old(self)@.flushed(),
            writes_view(writes@) == pending_writes(old(self)@.frames),
    {
        let ghost before = self@;
        let mut writes: Vec<PageWrite> = Vec::new();
        let mut i: usize = 0;
        assert(before.frames.take(0) =~= Seq::empty());
        assert(writes_view(writes@) =~= pending_writes(before.frames.take(0)));
        while i < self.cache.len()
            invariant
                i <= self.cache@.len(),
                before == old(self)@,
                before.valid(),
                self.cache@.len() == before.frames.len(),
                self.capacity == before.capacity,
                self.clock_hand == before.clock_hand,
                writes_view(writes@) == pending_writes(before.frames.take(i as int)),
                forall|j: int|
                    0 <= j < self.cache@.len() ==> (#[trigger] self.cache@[j])@ == (if j < i {
                        PageView { is_dirty: false, ..before.frames[j] }
                    } else {
                        before.frames[j]
                    }),
            decreases self.cache.len() - i,
        {
            let ghost earlier = writes_view(writes@);
            proof {
                lemma_pending_writes_push(before.frames.take(i as int), before.frames[i as int]);
                assert(before.frames.take(i + 1) =~= before.frames.take(i as int).push(
                    before.frames[i as int],
                ));
            }
            if self.cache[i].is_dirty() {
                let write = PageWrite {
                    page_id: self.cache[i].get_id(),
                    bytes: self.cache[i].serialize(),
                };
                writes.push(write);
                self.cache[i].mark_clean();
                assert(writes_view(writes@) =~= earlier.push(
                    (before.frames[i as int].page_id, before.frames[i as int].image()),
                ));
            }
            i += 1;
        }
        assert(before.frames.take(i as int) =~= before.frames);
        assert(self@.frames =~= before.flushed().frames);
        writes
    }

    /// Asks for a page. A resident page is simply there. For any other page
    /// the pool makes room, by evicting the CLOCK victim if it is full, and
    /// tells the caller to load the page.
    pub fn read_page(&mut self, page_id: u32) -> (result: Access)
        requires
            old(self).wf(),
        ensures
            final(self).wf(),
            old(self)@.holds(page_id) ==> result is Resident && final(self)@ == old(self)@,
            !old(self)@.holds(page_id) && old(self)@.frames.len() < old(self)@.capacity ==> (
            result matches Access::Load { write_back } && write_back is None) && final(self)@
                == old(self)@,
            !old(self)@.holds(page_id) && old(self)@.can_evict() ==> (
            result matches Access::Load { write_back } && write_view(write_back) == old(self)@.eviction_write()) && final(self)@ == old(self)@.after_eviction(),
            !old(self)@.holds(page_id) && old(self)@.capacity == 0 ==> result is Unavailable
                && final(self)@ == old(self)@,
    {
        if self.contains(page_id) {
            return Access::Resident;
        }
        if self.cache.len() < self.capacity {
            return Access::Load { write_back: None };
        }
        match self.find_victim() {
            Some(victim) => {
                proof {
                    let swept = old(self)@.swept();
                    let at = old(self)@.victim_position();
                    lemma_lead(old(self)@.frames, old(self)@.sweep_start(), 0);
                    lemma_position(swept, at);
                }
                let write_back = self.evict(victim);
                Access::Load { write_back }
            },
            None => Access::Unavailable,
        }
    }

    /// Takes in the page whose image was read from the backing file.
    pub fn install(&mut self, page_id: u32, bytes: &[u8]) -> (result: Result<(), StorageError>)
        requires
            old(self).wf(),
        ensures
            final(self).wf(),
            match result {
                Ok(_) => final(self)@ == old(self)@.with_page(parse_image(bytes@)),
                Err(_) => final(self)@ == old(self)@,
            },
            result == (if old(self)@.holds(page_id) {
                Err::<(), StorageError>(StorageError::AlreadyResident)
            } else if old(self)@.frames.len() >= old(self)@.capacity {
                Err::<(), StorageError>(StorageError::PoolFull)
            } else if !is_page_image(bytes@) || image_page_id(bytes@) != page_id {
                Err::<(), StorageError>(StorageError::CorruptPage)
            } else {
                Ok::<(), StorageError>(())
            }),
    {
        if self.contains(page_id) {
            return Err(StorageError::AlreadyResident);
        }
        if self.cache.len() >= self.capacity {
            return Err(StorageError::PoolFull);
        }
        let page = match RowPage::try_deserialize(bytes) {
            Some(page) => page,
            None => {
                return Err(StorageError::CorruptPage);
            },
        };
        if page.get_id() != page_id {
            return Err(StorageError::CorruptPage);
        }
        let mut at: usize = 0;
        while at < self.cache.len() && self.cache[at].get_id() < page_id
            invariant
                at <= self.cache@.len(),
                forall|j: int| 0 <= j < at ==> (#[trigger] self@.frames[j]).page_id < page_id,
            decreases self.cache.len() - at,
        {
            at += 1;
        }
        proof {
            let v = self@;
            assert forall|j: int| at <= j < v.frames.len() implies (#[trigger] v.frames[j]).page_id
                >= page_id by {
                if j > at {
                    assert(v.frames[at as int].page_id < v.frames[j].page_id);
                }
            }
            lemma_rank(v.frames, page_id, at as int);
        }
        self.cache.insert(at, page);
        proof {
            let v = old(self)@;
            let w = v.with_page(parse_image(bytes@));
            assert(self@.frames =~= w.frames);
            assert forall|i: int, j: int| 0 <= i < j < w.frames.len() implies (
            #[trigger] w.frames[i]).page_id < (#[trigger] w.frames[j]).page_id by {
                if i < at && j > at {
                    assert(v.frames[i].page_id < page_id);
                    assert(v.frames[j - 1].page_id >= page_id);
                    assert(!(v.frames[j - 1].page_id == page_id));
                } else if i < at && j == at {
                } else if i == at {
                    assert(v.frames[j - 1].page_id >= page_id);
                    assert(!(v.frames[j - 1].page_id == page_id));
                } else if j < at {
                    assert(v.frames[i].page_id < v.frames[j].page_id);
                } else {
                    assert(v.frames[i - 1].page_id < v.frames[j - 1].page_id);
                }
            }
        }
        Ok(())
    }

    /// Appends a record to a resident page and returns its slot index.
    pub fn insert_record(&mut self, page_id: u32, record_bytes: &[u8]) -> (result: Result<
        usize,
        StorageError,
    >)
        requires
            old(self).wf(),
        ensures
            final(self).wf(),
            !old(self)@.holds(page_id) ==> result == Err::<usize, StorageError>(
                StorageError::NotResident,
            ) && final(self)@ == old(self)@,
            old(self)@.holds(page_id) && !old(self)@.page(page_id).has_space_for(
                record_bytes@.len() as int,
            ) ==> result == Err::<usize, StorageError>(StorageError::NotEnoughSpace) && final(self)@ == old(self)@,
            old(self)@.holds(page_id) && old(self)@.page(page_id).has_space_for(
                record_bytes@.len() as int,
            ) ==> result == Ok::<usize, StorageError>(
                old(self)@.page(page_id).slots.len() as usize,
            ) && final(self)@ == old(self)@.with_frame(
                old(self)@.position(page_id),
                old(self)@.page(page_id).with_record(record_bytes@),
            ),
    {
        match self.find(page_id) {
            Some(i) => {
                proof {
                    lemma_position(self@, i as int);
                }
                let result = self.cache[i].insert(record_bytes);
                proof {
                    if result is Ok {
                        assert(self@.frames =~= old(self)@.frames.update(
                            i as int,
                            old(self)@.page(page_id).with_record(record_bytes@),
                        ));
                    } else {
                        assert(self@.frames =~= old(self)@.frames);
                    }
                }
                result
            },
            None => Err(StorageError::NotResident),
        }
    }

    /// Reads the record in a slot of a resident page. The page counts as
    /// recently referenced afterwards.
    pub fn read_record(&mut self, page_id: u32, slot_index: usize) -> (result: Result<
        Option<Vec<u8>>,
        StorageError,
    >)
        requires
            old(self).wf(),
        ensures
            final(self).wf(),
            !old(self)@.holds(page_id) ==> result == Err::<Option<Vec<u8>>, StorageError>(
                StorageError::NotResident,
            ) && final(self)@ == old(self)@,
            old(self)@.holds(page_id) ==> final(self)@ == old(self)@.with_frame(
                old(self)@.position(page_id),
                old(self)@.page(page_id).touched(),
            ) && (result matches Ok(found) && (if slot_index < old(self)@.page(
                page_id,
            ).slots.len() {
                found matches Some(bytes) && bytes@ == old(self)@.page(page_id).record(
                    slot_index as int,
                )
            } else {
                found is None
            })),
    {
        match self.find(page_id) {
            Some(i) => {
                proof {
                    lemma_position(self@, i as int);
                }
                let found = self.cache[i].read(slot_index);
                assert(self@.frames =~= old(self)@.frames.update(
                    i as int,
                    old(self)@.page(page_id).touched(),
                ));
                Ok(found)
            },
            None => Err(StorageError::NotResident),
        }
    }
}

} // verus!
