//! A model of the backing file, and what the engine guarantees to a caller
//! who makes every transfer it is asked for.
//!
//! The file is a sequence of page images; page `i` is the image at index
//! `i`. The engine and the file together stand for a sequence of records:
//! those of page 0, then those of page 1, and so on, each page taken from
//! the pool if it is resident and from the file if it is not.

use vstd::prelude::*;
use super::buffer_pool::{
    lemma_after_eviction, lemma_flushed, lemma_position, lemma_with_frame, lemma_with_page,
    pending_writes, PoolView,
};
use super::page::{
    image_page_id, is_page_image, lemma_image_round_trip, lemma_with_record, parse_image,
    PageView,
};
use super::pager::{PagerView, RequestView};
use super::PAGE_SIZE;

verus! {

/// A page of zero bytes, as a file holds where nothing was written.
pub open spec fn zero_page() -> Seq<u8> {
    Seq::new(PAGE_SIZE as nat, |i: int| 0u8)
}

/// The file after one page image was written at its page's offset.
pub open spec fn file_after_write(file: Seq<Seq<u8>>, write: (u32, Seq<u8>)) -> Seq<Seq<u8>> {
    if write.0 < file.len() {
        file.update(write.0 as int, write.1)
    } else {
        Seq::new(
            (write.0 + 1) as nat,
            |i: int|
                if i < file.len() {
                    file[i]
                } else if i == write.0 {
                    write.1
                } else {
                    zero_page()
                },
        )
    }
}

/// The file after a write that may be absent.
pub open spec fn file_after(file: Seq<Seq<u8>>, write: Option<(u32, Seq<u8>)>) -> Seq<Seq<u8>> {
    match write {
        Some(w) => file_after_write(file, w),
        None => file,
    }
}

/// The file after a list of writes, made in order.
pub open spec fn file_after_all(file: Seq<Seq<u8>>, writes: Seq<(u32, Seq<u8>)>) -> Seq<Seq<u8>>
    decreases writes.len(),
{
    if writes.len() == 0 {
        file
    } else {
        file_after_write(file_after_all(file, writes.drop_last()), writes.last())
    }
}

/// What a caller does with a request: it makes the write, reads the page
/// asked for, and hands the bytes to `install`.
pub open spec fn serve(pager: PagerView, file: Seq<Seq<u8>>, request: RequestView) -> (
    PagerView,
    Seq<Seq<u8>>,
) {
    let written = file_after(file, request.write);
    match request.read {
        Some(id) => if id < written.len() {
            (pager.installed(id, written[id as int]), written)
        } else {
            (pager, written)
        },
        None => (pager, written),
    }
}

/// Page `id` as it stands: the resident page, or else what the file holds.
pub open spec fn current(pager: PagerView, file: Seq<Seq<u8>>, id: int) -> PageView {
    if pager.pool.holds(id as u32) {
        pager.pool.page(id as u32)
    } else {
        parse_image(file[id])
    }
}

/// The records of the pages from `lo` up to, not including, `hi`.
pub open spec fn contents_range(pager: PagerView, file: Seq<Seq<u8>>, lo: int, hi: int) -> Seq<
    Seq<u8>,
>
    decreases hi - lo,
{
    if lo >= hi {
        Seq::empty()
    } else {
        current(pager, file, lo).records() + contents_range(pager, file, lo + 1, hi)
    }
}

/// The records that the engine and the file stand for.
pub open spec fn contents(pager: PagerView, file: Seq<Seq<u8>>) -> Seq<Seq<u8>> {
    contents_range(pager, file, 0, pager.page_count as int)
}

/// The engine and the file agree: the file holds an image for every
/// allocated page and no more, each image is a valid image of its page, and
/// every resident page that is not dirty has the content of its image.
pub open spec fn coherent(pager: PagerView, file: Seq<Seq<u8>>) -> bool {
    &&& pager.valid()
    &&& file.len() == pager.page_count
    &&& forall|id: int|
        0 <= id < file.len() ==> is_page_image(#[trigger] file[id]) && image_page_id(file[id])
            == id
    &&& forall|i: int|
        0 <= i < pager.pool.frames.len() && !(#[trigger] pager.pool.frames[i]).is_dirty
            ==> parse_image(file[pager.pool.frames[i].page_id as int]).stored()
            == pager.pool.frames[i].stored()
}

/// Pages that agree but for their flags hold the same records.
pub proof fn lemma_records_of_stored(p: PageView, q: PageView)
    requires
        p.stored() == q.stored(),
    ensures
        p.records() == q.records(),
{
    assert(p.slots == p.stored().slots);
    assert(q.slots == q.stored().slots);
    assert(p.data == p.stored().data);
    assert(q.data == q.stored().data);
    assert(p.records() =~= q.records());
}

/// The records of a range of pages depend only on the records of each page.
pub proof fn lemma_contents_range_same(
    one: PagerView,
    one_file: Seq<Seq<u8>>,
    other: PagerView,
    other_file: Seq<Seq<u8>>,
    lo: int,
    hi: int,
)
    requires
        forall|id: int|
            lo <= id < hi ==> (#[trigger] current(one, one_file, id)).records() == current(
                other,
                other_file,
                id,
            ).records(),
    ensures
        contents_range(one, one_file, lo, hi) == contents_range(other, other_file, lo, hi),
    decreases hi - lo,
{
    if lo < hi {
        lemma_contents_range_same(one, one_file, other, other_file, lo + 1, hi);
        assert(current(one, one_file, lo).records() == current(other, other_file, lo).records());
    }
}

/// The records of a range that is one page longer.
pub proof fn lemma_contents_range_extend(pager: PagerView, file: Seq<Seq<u8>>, lo: int, hi: int)
    requires
        lo <= hi,
    ensures
        contents_range(pager, file, lo, hi + 1) == contents_range(pager, file, lo, hi) + current(
            pager,
            file,
            hi,
        ).records(),
    decreases hi - lo,
{
    if lo < hi {
        lemma_contents_range_extend(pager, file, lo + 1, hi);
        assert(contents_range(pager, file, lo, hi + 1) =~= contents_range(pager, file, lo, hi)
            + current(pager, file, hi).records());
    } else {
        assert(contents_range(pager, file, lo + 1, hi + 1) =~= Seq::<Seq<u8>>::empty());
        assert(contents_range(pager, file, lo, hi + 1) =~= contents_range(pager, file, lo, hi)
            + current(pager, file, hi).records());
    }
}

/// A resident page that is not dirty holds the records of its image.
pub proof fn lemma_clean_page_matches_file(pager: PagerView, file: Seq<Seq<u8>>, id: u32)
    requires
        coherent(pager, file),
        pager.pool.holds(id),
        !pager.pool.page(id).is_dirty,
    ensures
        parse_image(file[id as int]).stored() == pager.pool.page(id).stored(),
        parse_image(file[id as int]).records() == pager.pool.page(id).records(),
        id < pager.page_count,
{
    let i = pager.pool.position(id);
    assert(pager.pool.frames[i].page_id == id);
    lemma_records_of_stored(parse_image(file[id as int]), pager.pool.page(id));
}

/// Placing a record in the last page, which is resident and has room,
/// appends the record to the contents and changes nothing else.
pub proof fn lemma_place_appends(pager: PagerView, file: Seq<Seq<u8>>, bytes: Seq<u8>)
    requires
        coherent(pager, file),
        pager.page_count > 0,
        pager.pool.holds((pager.page_count - 1) as u32),
        pager.pool.page((pager.page_count - 1) as u32).has_space_for(bytes.len() as int),
    ensures
        coherent(pager.placed((pager.page_count - 1) as u32, bytes), file),
        contents(pager.placed((pager.page_count - 1) as u32, bytes), file) == contents(
            pager,
            file,
        ).push(bytes),
{
    let last = (pager.page_count - 1) as u32;
    let page = pager.pool.page(last);
    let at = pager.pool.position(last);
    let after = pager.placed(last, bytes);
    assert(pager.pool.frames[at].valid());
    lemma_with_record(page, bytes);
    lemma_with_frame(pager.pool, last, page.with_record(bytes));
    assert forall|i: int| 0 <= i < after.pool.frames.len() implies (
    #[trigger] after.pool.frames[i]).page_id < after.page_count by {
        assert(pager.pool.frames[i].page_id < pager.page_count);
    }
    assert forall|i: int|
        0 <= i < after.pool.frames.len() && !(#[trigger] after.pool.frames[i]).is_dirty implies parse_image(
        file[after.pool.frames[i].page_id as int],
    ).stored() == after.pool.frames[i].stored() by {
        assert(i != at);
        assert(after.pool.frames[i] == pager.pool.frames[i]);
    }
    assert forall|id: int| 0 <= id < last implies (#[trigger] current(after, file, id)).records()
        == current(pager, file, id).records() by {
        assert(after.pool.holds(id as u32) == pager.pool.holds(id as u32));
        if pager.pool.holds(id as u32) {
            assert(after.pool.page(id as u32) == pager.pool.page(id as u32));
        }
    }
    lemma_contents_range_same(after, file, pager, file, 0, last as int);
    lemma_contents_range_extend(after, file, 0, last as int);
    lemma_contents_range_extend(pager, file, 0, last as int);
    assert(current(after, file, last as int) == page.with_record(bytes));
    assert(current(pager, file, last as int) == page);
    assert(contents(after, file) =~= contents(pager, file).push(bytes));
}

/// Allocating a page, and writing its image, leaves the contents as they
/// were; the new page is empty and not yet resident.
pub proof fn lemma_allocate(pager: PagerView, file: Seq<Seq<u8>>)
    requires
        coherent(pager, file),
        pager.page_count < u32::MAX,
    ensures
        coherent(pager.allocated(), file_after_write(file, pager.allocation_write())),
        contents(pager.allocated(), file_after_write(file, pager.allocation_write())) == contents(
            pager,
            file,
        ),
        !pager.allocated().pool.holds(pager.page_count as u32),
        parse_image(file_after_write(file, pager.allocation_write())[pager.page_count as int])
            == PageView::empty(pager.page_count as u32),
{
    let n = pager.page_count as int;
    let after = pager.allocated();
    let fresh = PageView::empty(n as u32);
    let written = file_after_write(file, pager.allocation_write());
    lemma_image_round_trip(fresh);
    assert(written.len() == n + 1);
    assert(written[n] == fresh.image());
    assert forall|id: int| 0 <= id < written.len() implies is_page_image(#[trigger] written[id])
        && image_page_id(written[id]) == id by {
        if id < n {
            assert(written[id] == file[id]);
        }
    }
    assert forall|i: int| 0 <= i < after.pool.frames.len() implies (
    #[trigger] after.pool.frames[i]).page_id < after.page_count by {
        assert(pager.pool.frames[i].page_id < pager.page_count);
    }
    assert forall|i: int|
        0 <= i < after.pool.frames.len() && !(#[trigger] after.pool.frames[i]).is_dirty implies parse_image(
        written[after.pool.frames[i].page_id as int],
    ).stored() == after.pool.frames[i].stored() by {
        assert(pager.pool.frames[i].page_id < pager.page_count);
        assert(written[pager.pool.frames[i].page_id as int]
            == file[pager.pool.frames[i].page_id as int]);
    }
    assert(!after.pool.holds(n as u32)) by {
        if after.pool.holds(n as u32) {
            let i = after.pool.position(n as u32);
            assert(pager.pool.frames[i].page_id < pager.page_count);
        }
    }
    assert forall|id: int| 0 <= id < n implies (#[trigger] current(after, written, id)).records()
        == current(pager, file, id).records() by {
        assert(written[id] == file[id]);
    }
    lemma_contents_range_same(after, written, pager, file, 0, n);
    lemma_contents_range_extend(after, written, 0, n);
    assert(current(after, written, n).records() =~= Seq::<Seq<u8>>::empty());
    assert(contents(after, written) =~= contents(pager, file));
}

/// Fetching a page that is not resident, and making the transfer, leaves
/// every page with its records; the page is resident afterwards.
pub proof fn lemma_fetch(pager: PagerView, file: Seq<Seq<u8>>, id: u32)
    requires
        coherent(pager, file),
        id < pager.page_count,
        !pager.pool.holds(id),
        pager.can_load(),
    ensures
        ({
            let request = RequestView { write: pager.request_write(id), read: Some(id) };
            let (after, written) = serve(pager.after_request(id), file, request);
            &&& coherent(after, written)
            &&& after.page_count == pager.page_count
            &&& after.pool.capacity == pager.pool.capacity
            &&& after.pool.holds(id)
            &&& after.pool.page(id) == parse_image(file[id as int])
            &&& forall|other: int|
                0 <= other < pager.page_count ==> (#[trigger] current(
                    after,
                    written,
                    other,
                )).records() == current(pager, file, other).records()
            &&& contents(after, written) == contents(pager, file)
        }),
{
    let request = RequestView { write: pager.request_write(id), read: Some(id) };
    let asked = pager.after_request(id);
    let (after, written) = serve(asked, file, request);
    let page = parse_image(file[id as int]);
    assert(is_page_image(file[id as int]) && image_page_id(file[id as int]) == id);
    if pager.pool.can_evict() {
        let victim = pager.pool.victim();
        let vid = victim.page_id;
        lemma_after_eviction(pager.pool);
        lemma_image_round_trip(victim);
        assert(vid != id);
        assert(vid < pager.page_count) by {
            let a = pager.pool.position(vid);
            assert(pager.pool.frames[a].page_id < pager.page_count);
        }
        assert(written.len() == file.len());
        assert(written[id as int] == file[id as int]);
        assert(asked.admits(id, written[id as int]));
        lemma_with_page(asked.pool, page);
        assert forall|other: int| 0 <= other < written.len() implies is_page_image(
            #[trigger] written[other],
        ) && image_page_id(written[other]) == other by {
            if other != vid {
                assert(written[other] == file[other]);
            }
        }
        assert forall|i: int| 0 <= i < after.pool.frames.len() implies (
        #[trigger] after.pool.frames[i]).page_id < after.page_count by {
            lemma_position(after.pool, i);
            let other = after.pool.frames[i].page_id;
            if other != id {
                assert(asked.pool.holds(other));
                assert(pager.pool.holds(other));
                let a = pager.pool.position(other);
                assert(pager.pool.frames[a].page_id < pager.page_count);
            }
        }
        assert forall|i: int|
            0 <= i < after.pool.frames.len() && !(#[trigger] after.pool.frames[i]).is_dirty implies parse_image(
            written[after.pool.frames[i].page_id as int],
        ).stored() == after.pool.frames[i].stored() by {
            lemma_position(after.pool, i);
            let other = after.pool.frames[i].page_id;
            if other != id {
                assert(asked.pool.holds(other));
                assert(pager.pool.holds(other));
                assert(after.pool.page(other) == asked.pool.page(other));
                assert(asked.pool.page(other).stored() == pager.pool.page(other).stored());
                lemma_clean_page_matches_file(pager, file, other);
                assert(written[other as int] == file[other as int]);
            }
        }
        assert forall|other: int| 0 <= other < pager.page_count implies (#[trigger] current(
            after,
            written,
            other,
        )).records() == current(pager, file, other).records() by {
            let o = other as u32;
            if o == id {
            } else if o == vid {
                assert(!after.pool.holds(o));
                if victim.is_dirty {
                    lemma_records_of_stored(parse_image(written[other]), pager.pool.page(o));
                } else {
                    lemma_clean_page_matches_file(pager, file, o);
                }
            } else {
                assert(after.pool.holds(o) == asked.pool.holds(o));
                assert(asked.pool.holds(o) == pager.pool.holds(o));
                assert(written[other] == file[other]);
                if pager.pool.holds(o) {
                    assert(after.pool.page(o) == asked.pool.page(o));
                    lemma_records_of_stored(asked.pool.page(o), pager.pool.page(o));
                }
            }
        }
    } else {
        assert(written == file);
        assert(asked == pager);
        assert(asked.admits(id, written[id as int]));
        lemma_with_page(pager.pool, page);
        assert forall|i: int| 0 <= i < after.pool.frames.len() implies (
        #[trigger] after.pool.frames[i]).page_id < after.page_count by {
            lemma_position(after.pool, i);
            let other = after.pool.frames[i].page_id;
            if other != id {
                assert(pager.pool.holds(other));
                let a = pager.pool.position(other);
                assert(pager.pool.frames[a].page_id < pager.page_count);
            }
        }
        assert forall|i: int|
            0 <= i < after.pool.frames.len() && !(#[trigger] after.pool.frames[i]).is_dirty implies parse_image(
            written[after.pool.frames[i].page_id as int],
        ).stored() == after.pool.frames[i].stored() by {
            lemma_position(after.pool, i);
            let other = after.pool.frames[i].page_id;
            if other != id {
                assert(pager.pool.holds(other));
                assert(after.pool.page(other) == pager.pool.page(other));
                lemma_clean_page_matches_file(pager, file, other);
            }
        }
        assert forall|other: int| 0 <= other < pager.page_count implies (#[trigger] current(
            after,
            written,
            other,
        )).records() == current(pager, file, other).records() by {
            let o = other as u32;
            if o != id {
                assert(after.pool.holds(o) == pager.pool.holds(o));
                if pager.pool.holds(o) {
                    assert(after.pool.page(o) == pager.pool.page(o));
                }
            }
        }
    }
    lemma_contents_range_same(after, written, pager, file, 0, pager.page_count as int);
}

/// Reading a resident page marks it and changes nothing else.
pub proof fn lemma_touch(pager: PagerView, file: Seq<Seq<u8>>, id: u32)
    requires
        coherent(pager, file),
        pager.pool.holds(id),
    ensures
        coherent(pager.touched(id), file),
        pager.touched(id).pool.holds(id),
        forall|other: int|
            0 <= other < pager.page_count ==> (#[trigger] current(
                pager.touched(id),
                file,
                other,
            )).records() == current(pager, file, other).records(),
        contents(pager.touched(id), file) == contents(pager, file),
{
    let page = pager.pool.page(id);
    let at = pager.pool.position(id);
    let after = pager.touched(id);
    assert(pager.pool.frames[at].valid());
    lemma_with_frame(pager.pool, id, page.touched());
    assert forall|i: int| 0 <= i < after.pool.frames.len() implies (
    #[trigger] after.pool.frames[i]).page_id < after.page_count by {
        assert(pager.pool.frames[i].page_id < pager.page_count);
    }
    assert forall|i: int|
        0 <= i < after.pool.frames.len() && !(#[trigger] after.pool.frames[i]).is_dirty implies parse_image(
        file[after.pool.frames[i].page_id as int],
    ).stored() == after.pool.frames[i].stored() by {
        assert(!pager.pool.frames[i].is_dirty);
        assert(after.pool.frames[i].stored() == pager.pool.frames[i].stored());
    }
    assert forall|other: int| 0 <= other < pager.page_count implies (#[trigger] current(
        after,
        file,
        other,
    )).records() == current(pager, file, other).records() by {
        let o = other as u32;
        assert(after.pool.holds(o) == pager.pool.holds(o));
        if pager.pool.holds(o) {
            if o == id {
                lemma_records_of_stored(page.touched(), page);
            } else {
                assert(after.pool.page(o) == pager.pool.page(o));
            }
        }
    }
    lemma_contents_range_same(after, file, pager, file, 0, pager.page_count as int);
}

/// What the file holds after the pending writes of a pool were made: the
/// image of each dirty page in the page's place, and all else as before.
pub proof fn lemma_flush_file(pool: PoolView, file: Seq<Seq<u8>>)
    requires
        pool.valid(),
        file.len() <= u32::MAX,
        forall|i: int| 0 <= i < pool.frames.len() ==> (#[trigger] pool.frames[i]).page_id < file.len(),
    ensures
        file_after_all(file, pending_writes(pool.frames)).len() == file.len(),
        forall|id: int|
            0 <= id < file.len() ==> (#[trigger] file_after_all(
                file,
                pending_writes(pool.frames),
            )[id]) == (if pool.holds(id as u32) && pool.page(id as u32).is_dirty {
                pool.page(id as u32).image()
            } else {
                file[id]
            }),
    decreases pool.frames.len(),
{
    let written = file_after_all(file, pending_writes(pool.frames));
    if pool.frames.len() == 0 {
        assert(written == file);
    } else {
        let n = pool.frames.len() - 1;
        let last = pool.frames[n];
        let init = PoolView { frames: pool.frames.drop_last(), ..pool };
        assert forall|i: int| 0 <= i < init.frames.len() implies (#[trigger] init.frames[i])
            == pool.frames[i] by {}
        assert(init.valid()) by {
            assert forall|i: int| 0 <= i < init.frames.len() implies (
            #[trigger] init.frames[i]).valid() by {
                assert(pool.frames[i].valid());
            }
            assert forall|i: int, j: int| 0 <= i < j < init.frames.len() implies (
            #[trigger] init.frames[i]).page_id < (#[trigger] init.frames[j]).page_id by {
                assert(pool.frames[i].page_id < pool.frames[j].page_id);
            }
        }
        assert forall|i: int| 0 <= i < init.frames.len() implies (
        #[trigger] init.frames[i]).page_id < file.len() by {
            assert(pool.frames[i].page_id < file.len());
        }
        lemma_flush_file(init, file);
        let earlier = file_after_all(file, pending_writes(init.frames));
        lemma_position(pool, n);
        if last.is_dirty {
            let writes = pending_writes(init.frames).push((last.page_id, last.image()));
            assert(writes.drop_last() =~= pending_writes(init.frames));
            assert(written == file_after_write(earlier, (last.page_id, last.image())));
        } else {
            assert(written == earlier);
        }
        assert forall|id: int| 0 <= id < file.len() implies (#[trigger] written[id]) == (
        if pool.holds(id as u32) && pool.page(id as u32).is_dirty {
            pool.page(id as u32).image()
        } else {
            file[id]
        }) by {
            let o = id as u32;
            if o == last.page_id {
                assert(!init.holds(o)) by {
                    if init.holds(o) {
                        let a = init.position(o);
                        assert(pool.frames[a].page_id < pool.frames[n].page_id);
                    }
                }
            } else {
                if pool.holds(o) {
                    let a = pool.position(o);
                    assert(a != n);
                    assert(init.frames[a].page_id == o);
                    lemma_position(init, a);
                    lemma_position(pool, a);
                }
                if init.holds(o) {
                    let a = init.position(o);
                    assert(pool.frames[a].page_id == o);
                    lemma_position(init, a);
                    lemma_position(pool, a);
                }
            }
        }
    }
}

/// After a flush, with its writes made, the engine and the file agree and
/// stand for the same records as before; and the file alone stands for them
/// too, so that an engine opened on it anew finds them all.
pub proof fn lemma_flush(pager: PagerView, file: Seq<Seq<u8>>)
    requires
        coherent(pager, file),
    ensures
        ({
            let written = file_after_all(file, pending_writes(pager.pool.frames));
            &&& coherent(pager.flushed(), written)
            &&& contents(pager.flushed(), written) == contents(pager, file)
            &&& written.len() == file.len()
            &&& forall|id: int|
                0 <= id < file.len() ==> parse_image(#[trigger] written[id]).records() == current(
                    pager,
                    file,
                    id,
                ).records()
        }),
{
    let written = file_after_all(file, pending_writes(pager.pool.frames));
    let after = pager.flushed();
    assert forall|i: int| 0 <= i < pager.pool.frames.len() implies (
    #[trigger] pager.pool.frames[i]).page_id < file.len() by {}
    lemma_flush_file(pager.pool, file);
    lemma_flushed(pager.pool);
    assert forall|id: int| 0 <= id < file.len() implies is_page_image(#[trigger] written[id])
        && image_page_id(written[id]) == id && parse_image(written[id]).records() == current(
        pager,
        file,
        id,
    ).records() && (pager.pool.holds(id as u32) ==> parse_image(written[id]).stored()
        == pager.pool.page(id as u32).stored()) by {
        let o = id as u32;
        assert(is_page_image(file[id]));
        if pager.pool.holds(o) {
            let a = pager.pool.position(o);
            assert(pager.pool.frames[a].valid());
            if pager.pool.page(o).is_dirty {
                lemma_image_round_trip(pager.pool.page(o));
            } else {
                lemma_clean_page_matches_file(pager, file, o);
            }
            lemma_records_of_stored(parse_image(written[id]), pager.pool.page(o));
        }
    }
    assert forall|i: int| 0 <= i < after.pool.frames.len() implies (
    #[trigger] after.pool.frames[i]).page_id < after.page_count by {
        assert(pager.pool.frames[i].page_id < pager.page_count);
    }
    assert forall|i: int|
        0 <= i < after.pool.frames.len() && !(#[trigger] after.pool.frames[i]).is_dirty implies parse_image(
        written[after.pool.frames[i].page_id as int],
    ).stored() == after.pool.frames[i].stored() by {
        lemma_position(pager.pool, i);
        let o = pager.pool.frames[i].page_id;
        assert(pager.pool.frames[i].page_id < pager.page_count);
        assert(is_page_image(written[o as int]));
        assert(after.pool.frames[i].stored() == pager.pool.frames[i].stored());
    }
    assert forall|id: int| 0 <= id < pager.page_count implies (#[trigger] current(
        after,
        written,
        id,
    )).records() == current(pager, file, id).records() by {
        let o = id as u32;
        assert(is_page_image(written[id]));
        assert(after.pool.holds(o) == pager.pool.holds(o));
        if pager.pool.holds(o) {
            assert(after.pool.flushed_page_of(pager.pool, o));
            lemma_records_of_stored(after.pool.page(o), pager.pool.page(o));
        }
    }
    lemma_contents_range_same(after, written, pager, file, 0, pager.page_count as int);
}

} // verus!
