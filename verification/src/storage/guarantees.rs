//! What holds of whole operations when the caller makes every transfer it
//! is asked for: insertions append, scans give the contents back in order,
//! and a flush carries the contents over to a new engine on the same file.

use vstd::prelude::*;
use vstd::utf8::encode_utf8;
use super::buffer_pool::pending_writes;
use super::encoding::{lemma_record_round_trip, record_decoding, record_encoding};
use super::file_model::{
    coherent, contents, contents_range, current, file_after_all, lemma_allocate,
    lemma_contents_range_same, lemma_fetch, lemma_flush, lemma_place_appends, lemma_touch, serve,
};
use super::page::PageView;
use super::pager::{Pager, PagerView, StepView};
use super::record_manager::{Cursor, Placement, MAX_RECORD_SIZE};
use super::StorageError;
use crate::record::RecordView;

verus! {

/// An insertion carried through: the engine steps, the caller serves each
/// request, until the record is placed or refused, for at most `fuel` steps.
pub open spec fn run_insert(pager: PagerView, file: Seq<Seq<u8>>, bytes: Seq<u8>, fuel: nat) -> (
    PagerView,
    Seq<Seq<u8>>,
    Option<Result<Placement, StorageError>>,
)
    decreases fuel,
{
    if fuel == 0 {
        (pager, file, None)
    } else {
        let (stepped, outcome) = pager.insert_step(bytes);
        match outcome {
            Err(e) => (stepped, file, Some(Err(e))),
            Ok(StepView::Ready(placement)) => (stepped, file, Some(Ok(placement))),
            Ok(StepView::Pending(request)) => {
                let (served, written) = serve(stepped, file, request);
                run_insert(served, written, bytes, (fuel - 1) as nat)
            },
        }
    }
}

/// The insertion ends with the record at `placement`, appended to the
/// contents, with `pages` pages allocated, and the engine and the file agree.
pub open spec fn inserted(
    pager: PagerView,
    file: Seq<Seq<u8>>,
    bytes: Seq<u8>,
    fuel: nat,
    placement: Placement,
    pages: int,
) -> bool {
    let (after, written, result) = run_insert(pager, file, bytes, fuel);
    &&& result == Some(Ok::<Placement, StorageError>(placement))
    &&& coherent(after, written)
    &&& contents(after, written) == contents(pager, file).push(bytes)
    &&& after.page_count == pages
    &&& after.pool.capacity == pager.pool.capacity
}

/// With the last page resident and roomy, the record goes into it at once.
pub proof fn lemma_insert_resident(pager: PagerView, file: Seq<Seq<u8>>, bytes: Seq<u8>, fuel: nat)
    requires
        coherent(pager, file),
        bytes.len() <= MAX_RECORD_SIZE,
        pager.page_count > 0,
        pager.pool.holds((pager.page_count - 1) as u32),
        pager.pool.page((pager.page_count - 1) as u32).has_space_for(bytes.len() as int),
        fuel >= 1,
    ensures
        inserted(
            pager,
            file,
            bytes,
            fuel,
            Placement {
                page_id: (pager.page_count - 1) as u32,
                slot_index: pager.pool.page((pager.page_count - 1) as u32).slots.len() as usize,
            },
            pager.page_count as int,
        ),
{
    lemma_place_appends(pager, file, bytes);
}

/// With the last page roomy but not resident, the page is fetched and the
/// record goes into it.
pub proof fn lemma_insert_absent(pager: PagerView, file: Seq<Seq<u8>>, bytes: Seq<u8>, fuel: nat)
    requires
        coherent(pager, file),
        pager.can_load(),
        bytes.len() <= MAX_RECORD_SIZE,
        pager.page_count > 0,
        !pager.pool.holds((pager.page_count - 1) as u32),
        current(pager, file, pager.page_count - 1).has_space_for(bytes.len() as int),
        fuel >= 2,
    ensures
        inserted(
            pager,
            file,
            bytes,
            fuel,
            Placement {
                page_id: (pager.page_count - 1) as u32,
                slot_index: current(pager, file, pager.page_count - 1).slots.len() as usize,
            },
            pager.page_count as int,
        ),
{
    let last = (pager.page_count - 1) as u32;
    lemma_fetch(pager, file, last);
    let (stepped, outcome) = pager.insert_step(bytes);
    let request = outcome->Ok_0->Pending_0;
    let (served, written) = serve(stepped, file, request);
    lemma_insert_resident(served, written, bytes, (fuel - 1) as nat);
}

/// With the last page resident and full, exactly one page is allocated and
/// the record becomes its first.
pub proof fn lemma_insert_full_resident(
    pager: PagerView,
    file: Seq<Seq<u8>>,
    bytes: Seq<u8>,
    fuel: nat,
)
    requires
        coherent(pager, file),
        pager.can_load(),
        bytes.len() <= MAX_RECORD_SIZE,
        0 < pager.page_count < u32::MAX,
        pager.pool.holds((pager.page_count - 1) as u32),
        !pager.pool.page((pager.page_count - 1) as u32).has_space_for(bytes.len() as int),
        fuel >= 3,
    ensures
        inserted(
            pager,
            file,
            bytes,
            fuel,
            Placement { page_id: pager.page_count as u32, slot_index: 0 },
            pager.page_count + 1,
        ),
{
    lemma_allocate(pager, file);
    let (stepped, outcome) = pager.insert_step(bytes);
    let request = outcome->Ok_0->Pending_0;
    let (served, written) = serve(stepped, file, request);
    assert(current(served, written, pager.page_count as int) == PageView::empty(
        pager.page_count as u32,
    ));
    lemma_insert_absent(served, written, bytes, (fuel - 1) as nat);
}

/// With the last page full and not resident, the page is fetched, found
/// full, and exactly one page is allocated for the record.
pub proof fn lemma_insert_full_absent(
    pager: PagerView,
    file: Seq<Seq<u8>>,
    bytes: Seq<u8>,
    fuel: nat,
)
    requires
        coherent(pager, file),
        pager.can_load(),
        bytes.len() <= MAX_RECORD_SIZE,
        0 < pager.page_count < u32::MAX,
        !pager.pool.holds((pager.page_count - 1) as u32),
        !current(pager, file, pager.page_count - 1).has_space_for(bytes.len() as int),
        fuel >= 4,
    ensures
        inserted(
            pager,
            file,
            bytes,
            fuel,
            Placement { page_id: pager.page_count as u32, slot_index: 0 },
            pager.page_count + 1,
        ),
{
    let last = (pager.page_count - 1) as u32;
    lemma_fetch(pager, file, last);
    let (stepped, outcome) = pager.insert_step(bytes);
    let request = outcome->Ok_0->Pending_0;
    let (served, written) = serve(stepped, file, request);
    lemma_insert_full_resident(served, written, bytes, (fuel - 1) as nat);
}

/// Without any page, the first page is allocated for the record.
pub proof fn lemma_insert_first(pager: PagerView, file: Seq<Seq<u8>>, bytes: Seq<u8>, fuel: nat)
    requires
        coherent(pager, file),
        pager.can_load(),
        bytes.len() <= MAX_RECORD_SIZE,
        pager.page_count == 0,
        fuel >= 3,
    ensures
        inserted(pager, file, bytes, fuel, Placement { page_id: 0, slot_index: 0 }, 1),
{
    lemma_allocate(pager, file);
    let (stepped, outcome) = pager.insert_step(bytes);
    let request = outcome->Ok_0->Pending_0;
    let (served, written) = serve(stepped, file, request);
    assert(current(served, written, 0) == PageView::empty(0));
    lemma_insert_absent(served, written, bytes, (fuel - 1) as nat);
}

/// At a full last page, resident or not, an insertion allocates exactly one
/// page, and the record becomes the first of the new page.
pub proof fn theorem_full_page_allocates_once(
    pager: PagerView,
    file: Seq<Seq<u8>>,
    bytes: Seq<u8>,
)
    requires
        coherent(pager, file),
        pager.can_load(),
        bytes.len() <= MAX_RECORD_SIZE,
        0 < pager.page_count < u32::MAX,
        !current(pager, file, pager.page_count - 1).has_space_for(bytes.len() as int),
    ensures
        inserted(
            pager,
            file,
            bytes,
            4,
            Placement { page_id: pager.page_count as u32, slot_index: 0 },
            pager.page_count + 1,
        ),
{
    if pager.pool.holds((pager.page_count - 1) as u32) {
        lemma_insert_full_resident(pager, file, bytes, 4);
    } else {
        lemma_insert_full_absent(pager, file, bytes, 4);
    }
}

/// Every record that an empty page can take is inserted within four steps,
/// and is then the last of the contents; all other records stay as they
/// were, in their order.
pub proof fn theorem_insert_appends(pager: PagerView, file: Seq<Seq<u8>>, bytes: Seq<u8>)
    requires
        coherent(pager, file),
        pager.can_load(),
        bytes.len() <= MAX_RECORD_SIZE,
        pager.page_count < u32::MAX,
    ensures
        ({
            let (after, written, result) = run_insert(pager, file, bytes, 4);
            &&& result matches Some(Ok(_))
            &&& coherent(after, written)
            &&& contents(after, written) == contents(pager, file).push(bytes)
            &&& pager.page_count <= after.page_count <= pager.page_count + 1
            &&& after.pool.capacity == pager.pool.capacity
        }),
{
    if pager.page_count == 0 {
        lemma_insert_first(pager, file, bytes, 4);
    } else {
        let last = (pager.page_count - 1) as u32;
        let roomy = current(pager, file, last as int).has_space_for(bytes.len() as int);
        if pager.pool.holds(last) {
            if roomy {
                lemma_insert_resident(pager, file, bytes, 4);
            } else {
                lemma_insert_full_resident(pager, file, bytes, 4);
            }
        } else {
            if roomy {
                lemma_insert_absent(pager, file, bytes, 4);
            } else {
                lemma_insert_full_absent(pager, file, bytes, 4);
            }
        }
    }
}

/// A record that no empty page can take is refused at once, and nothing
/// changes: no page is allocated and no transfer is asked for.
pub proof fn theorem_oversized_record_refused(pager: PagerView, bytes: Seq<u8>)
    requires
        bytes.len() > MAX_RECORD_SIZE,
    ensures
        pager.insert_step(bytes) == (
            pager,
            Err::<StepView<Placement>, StorageError>(StorageError::RecordTooLarge),
        ),
{
}

/// A scan carried through from `cursor`: the engine steps, the caller
/// serves each request, and the records are collected until the scan is at
/// its end, for at most `fuel` steps.
pub open spec fn run_scan(pager: PagerView, file: Seq<Seq<u8>>, cursor: Cursor, fuel: nat) -> (
    PagerView,
    Seq<Seq<u8>>,
    Option<Result<Seq<Seq<u8>>, StorageError>>,
)
    decreases fuel,
{
    if fuel == 0 {
        (pager, file, None)
    } else {
        let (stepped, moved, outcome) = pager.scan_step(cursor);
        match outcome {
            Err(e) => (stepped, file, Some(Err(e))),
            Ok(StepView::Ready(None)) => (stepped, file, Some(Ok(Seq::empty()))),
            Ok(StepView::Ready(Some(record))) => {
                let (after, written, rest) = run_scan(stepped, file, moved, (fuel - 1) as nat);
                (
                    after,
                    written,
                    match rest {
                        Some(Ok(records)) => Some(Ok(seq![record] + records)),
                        other => other,
                    },
                )
            },
            Ok(StepView::Pending(request)) => {
                let (served, written) = serve(stepped, file, request);
                run_scan(served, written, moved, (fuel - 1) as nat)
            },
        }
    }
}

/// The records from position `from` on.
pub open spec fn tail(records: Seq<Seq<u8>>, from: int) -> Seq<Seq<u8>> {
    if 0 <= from < records.len() {
        records.subrange(from, records.len() as int)
    } else {
        Seq::empty()
    }
}

/// The records that lie at or behind the cursor.
pub open spec fn remaining(pager: PagerView, file: Seq<Seq<u8>>, cursor: Cursor) -> Seq<Seq<u8>> {
    if cursor.current_page >= pager.page_count {
        Seq::empty()
    } else {
        tail(
            current(pager, file, cursor.current_page as int).records(),
            cursor.current_slot as int,
        ) + contents_range(pager, file, cursor.current_page + 1, pager.page_count as int)
    }
}

/// How many steps a scan from `cursor` takes at most.
pub open spec fn scan_steps(pager: PagerView, file: Seq<Seq<u8>>, cursor: Cursor) -> int {
    if cursor.current_page >= pager.page_count {
        1
    } else {
        remaining(pager, file, cursor).len() + 2 * (pager.page_count - cursor.current_page) + (
        if pager.pool.holds(cursor.current_page) {
            0int
        } else {
            1int
        })
    }
}

/// A scan step at a page that is not resident: once the request is
/// served, the page is resident, and the same records lie ahead.
pub proof fn lemma_scan_fetches(pager: PagerView, file: Seq<Seq<u8>>, cursor: Cursor)
    requires
        coherent(pager, file),
        pager.can_load(),
        cursor.current_page < pager.page_count,
        !pager.pool.holds(cursor.current_page),
    ensures
        ({
            let (stepped, moved, outcome) = pager.scan_step(cursor);
            &&& moved == cursor
            &&& outcome matches Ok(StepView::Pending(request)) && ({
                let (served, written) = serve(stepped, file, request);
                &&& coherent(served, written)
                &&& served.can_load()
                &&& served.page_count == pager.page_count
                &&& served.pool.capacity == pager.pool.capacity
                &&& contents(served, written) == contents(pager, file)
                &&& remaining(served, written, cursor) == remaining(pager, file, cursor)
                &&& scan_steps(served, written, cursor) == scan_steps(pager, file, cursor) - 1
            })
        }),
{
    let id = cursor.current_page;
    lemma_fetch(pager, file, id);
    let (stepped, moved, outcome) = pager.scan_step(cursor);
    let request = outcome->Ok_0->Pending_0;
    let (served, written) = serve(stepped, file, request);
    lemma_contents_range_same(served, written, pager, file, id + 1, pager.page_count as int);
    assert(current(served, written, id as int).records() == current(
        pager,
        file,
        id as int,
    ).records());
}

/// A scan step at a resident page with a record left: the step gives the
/// record, and the others lie ahead.
pub proof fn lemma_scan_reads(pager: PagerView, file: Seq<Seq<u8>>, cursor: Cursor)
    requires
        coherent(pager, file),
        cursor.current_page < pager.page_count,
        pager.pool.holds(cursor.current_page),
        cursor.current_slot < pager.pool.page(cursor.current_page).slots.len(),
    ensures
        ({
            let (stepped, moved, outcome) = pager.scan_step(cursor);
            &&& outcome matches Ok(StepView::Ready(Some(record)))
            &&& coherent(stepped, file)
            &&& stepped.page_count == pager.page_count
            &&& stepped.pool.capacity == pager.pool.capacity
            &&& contents(stepped, file) == contents(pager, file)
            &&& remaining(pager, file, cursor) == seq![outcome->Ok_0->Ready_0->Some_0] + remaining(
                stepped,
                file,
                moved,
            )
            &&& scan_steps(stepped, file, moved) == scan_steps(pager, file, cursor) - 1
        }),
{
    let id = cursor.current_page;
    let page = pager.pool.page(id);
    let records = page.records();
    lemma_touch(pager, file, id);
    let (stepped, moved, outcome) = pager.scan_step(cursor);
    assert(stepped == pager.touched(id));
    assert(page.slots.len() <= u16::MAX) by {
        let at = pager.pool.position(id);
        assert(pager.pool.frames[at].valid());
    }
    assert(moved == Cursor { current_page: id, current_slot: (cursor.current_slot + 1) as usize });
    lemma_contents_range_same(stepped, file, pager, file, id + 1, pager.page_count as int);
    assert(current(stepped, file, id as int).records() == records);
    assert(tail(records, cursor.current_slot as int) =~= seq![
        page.record(cursor.current_slot as int),
    ] + tail(records, cursor.current_slot + 1));
    assert(remaining(pager, file, cursor) =~= seq![page.record(cursor.current_slot as int)]
        + remaining(stepped, file, moved));
}

/// A scan step at a resident page without a record left is the step at
/// the start of the next page.
pub proof fn lemma_scan_moves_on(pager: PagerView, file: Seq<Seq<u8>>, cursor: Cursor)
    requires
        coherent(pager, file),
        cursor.current_page < pager.page_count,
        pager.pool.holds(cursor.current_page),
        cursor.current_slot >= pager.pool.page(cursor.current_page).slots.len(),
    ensures
        ({
            let next = Cursor {
                current_page: (cursor.current_page + 1) as u32,
                current_slot: 0,
            };
            &&& pager.scan_step(cursor) == pager.scan_step(next)
            &&& remaining(pager, file, cursor) == remaining(pager, file, next)
            &&& scan_steps(pager, file, next) <= scan_steps(pager, file, cursor)
            &&& next.current_page == cursor.current_page + 1
        }),
{
    let id = cursor.current_page;
    let records = pager.pool.page(id).records();
    let next = Cursor { current_page: (id + 1) as u32, current_slot: 0 };
    assert(tail(records, cursor.current_slot as int) =~= Seq::<Seq<u8>>::empty());
    if id + 1 < pager.page_count {
        let following = current(pager, file, id + 1).records();
        assert(tail(following, 0) =~= following);
    }
    assert(remaining(pager, file, cursor) =~= remaining(pager, file, next));
}

/// A scan from `cursor` gives the records at and behind the cursor, in
/// order, and leaves the contents as they were.
pub proof fn lemma_scan(pager: PagerView, file: Seq<Seq<u8>>, cursor: Cursor, fuel: nat)
    requires
        coherent(pager, file),
        pager.can_load(),
        fuel >= scan_steps(pager, file, cursor),
    ensures
        ({
            let (after, written, result) = run_scan(pager, file, cursor, fuel);
            &&& result == Some(
                Ok::<Seq<Seq<u8>>, StorageError>(remaining(pager, file, cursor)),
            )
            &&& coherent(after, written)
            &&& contents(after, written) == contents(pager, file)
            &&& after.page_count == pager.page_count
            &&& after.pool.capacity == pager.pool.capacity
        }),
    decreases fuel, pager.page_count - cursor.current_page,
{
    let id = cursor.current_page;
    if id >= pager.page_count {
    } else if !pager.pool.holds(id) {
        lemma_scan_fetches(pager, file, cursor);
        let (stepped, moved, outcome) = pager.scan_step(cursor);
        let (served, written) = serve(stepped, file, outcome->Ok_0->Pending_0);
        lemma_scan(served, written, cursor, (fuel - 1) as nat);
    } else if cursor.current_slot < pager.pool.page(id).slots.len() {
        lemma_scan_reads(pager, file, cursor);
        let (stepped, moved, outcome) = pager.scan_step(cursor);
        lemma_scan(stepped, file, moved, (fuel - 1) as nat);
    } else {
        lemma_scan_moves_on(pager, file, cursor);
        let next = Cursor { current_page: (id + 1) as u32, current_slot: 0 };
        assert(run_scan(pager, file, cursor, fuel) == run_scan(pager, file, next, fuel));
        lemma_scan(pager, file, next, fuel);
    }
}

/// A scan from the start gives exactly the contents, in their order, and
/// leaves them as they were, so that the next scan gives the same.
pub proof fn theorem_scan_yields_contents(pager: PagerView, file: Seq<Seq<u8>>, fuel: nat)
    requires
        coherent(pager, file),
        pager.can_load(),
        fuel >= contents(pager, file).len() + 2 * pager.page_count + 1,
    ensures
        ({
            let start = Cursor { current_page: 0, current_slot: 0 };
            let (after, written, result) = run_scan(pager, file, start, fuel);
            &&& result == Some(Ok::<Seq<Seq<u8>>, StorageError>(contents(pager, file)))
            &&& coherent(after, written)
            &&& contents(after, written) == contents(pager, file)
        }),
{
    let start = Cursor { current_page: 0, current_slot: 0 };
    if pager.page_count > 0 {
        let first = current(pager, file, 0).records();
        assert(tail(first, 0) =~= first);
    }
    assert(remaining(pager, file, start) =~= contents(pager, file));
    lemma_scan(pager, file, start, fuel);
}

/// A new engine on an empty file stands for no records.
pub proof fn theorem_new_engine_is_empty(buffer_pool_capacity: Option<usize>)
    ensures
        coherent(Pager::new_view(0, buffer_pool_capacity), Seq::empty()),
        contents(Pager::new_view(0, buffer_pool_capacity), Seq::empty()) == Seq::<
            Seq<u8>,
        >::empty(),
{
}

/// Records survive the engine: once the writes of a flush are made, an
/// engine opened anew on the file, with a pool of any capacity, stands for
/// exactly the records that the old engine stood for, in the same order.
pub proof fn theorem_contents_survive_reopen(
    pager: PagerView,
    file: Seq<Seq<u8>>,
    buffer_pool_capacity: Option<usize>,
)
    requires
        coherent(pager, file),
    ensures
        ({
            let written = file_after_all(file, pending_writes(pager.pool.frames));
            let reopened = Pager::new_view(written.len() as usize, buffer_pool_capacity);
            &&& coherent(pager.flushed(), written)
            &&& contents(pager.flushed(), written) == contents(pager, file)
            &&& coherent(reopened, written)
            &&& contents(reopened, written) == contents(pager, file)
        }),
{
    let written = file_after_all(file, pending_writes(pager.pool.frames));
    let after = pager.flushed();
    let reopened = Pager::new_view(written.len() as usize, buffer_pool_capacity);
    lemma_flush(pager, file);
    assert forall|id: int| 0 <= id < pager.page_count implies (#[trigger] current(
        reopened,
        written,
        id,
    )).records() == current(pager, file, id).records() by {
        assert(!reopened.pool.holds(id as u32));
        assert(parse_image_records(written, id) == current(pager, file, id).records());
    }
    lemma_contents_range_same(reopened, written, pager, file, 0, pager.page_count as int);
}

/// The records of the page image at `id`.
pub open spec fn parse_image_records(file: Seq<Seq<u8>>, id: int) -> Seq<Seq<u8>> {
    super::page::parse_image(file[id]).records()
}

/// A list of insertions carried through, one after the other.
pub open spec fn run_inserts(pager: PagerView, file: Seq<Seq<u8>>, records: Seq<Seq<u8>>) -> (
    PagerView,
    Seq<Seq<u8>>,
)
    decreases records.len(),
{
    if records.len() == 0 {
        (pager, file)
    } else {
        let (before, earlier) = run_inserts(pager, file, records.drop_last());
        let (after, written, _) = run_insert(before, earlier, records.last(), 4);
        (after, written)
    }
}

/// Inserting a list of records appends them to the contents in their order.
pub proof fn lemma_inserts_append(pager: PagerView, file: Seq<Seq<u8>>, records: Seq<Seq<u8>>)
    requires
        coherent(pager, file),
        pager.can_load(),
        forall|i: int| 0 <= i < records.len() ==> (#[trigger] records[i]).len() <= MAX_RECORD_SIZE,
        pager.page_count + records.len() <= u32::MAX,
    ensures
        ({
            let (after, written) = run_inserts(pager, file, records);
            &&& coherent(after, written)
            &&& after.can_load()
            &&& contents(after, written) == contents(pager, file) + records
            &&& after.page_count <= pager.page_count + records.len()
        }),
    decreases records.len(),
{
    if records.len() == 0 {
        assert(contents(pager, file) + records =~= contents(pager, file));
    } else {
        let init = records.drop_last();
        assert forall|i: int| 0 <= i < init.len() implies (#[trigger] init[i]).len()
            <= MAX_RECORD_SIZE by {
            assert(init[i] == records[i]);
        }
        lemma_inserts_append(pager, file, init);
        let (before, earlier) = run_inserts(pager, file, init);
        theorem_insert_appends(before, earlier, records.last());
        assert((contents(pager, file) + init).push(records.last()) =~= contents(pager, file)
            + records);
    }
}

/// The round trip: starting with a new engine on an empty file, insert any
/// list of records that fit a page, then scan. The scan gives exactly the
/// records inserted, in the order of their insertion.
pub proof fn theorem_round_trip(
    buffer_pool_capacity: Option<usize>,
    records: Seq<Seq<u8>>,
    fuel: nat,
)
    requires
        Pager::new_view(0, buffer_pool_capacity).can_load(),
        forall|i: int| 0 <= i < records.len() ==> (#[trigger] records[i]).len() <= MAX_RECORD_SIZE,
        records.len() <= u32::MAX,
        fuel >= 3 * records.len() + 1,
    ensures
        ({
            let (filled, written) = run_inserts(
                Pager::new_view(0, buffer_pool_capacity),
                Seq::empty(),
                records,
            );
            let start = Cursor { current_page: 0, current_slot: 0 };
            run_scan(filled, written, start, fuel).2 == Some(
                Ok::<Seq<Seq<u8>>, StorageError>(records),
            )
        }),
{
    let fresh = Pager::new_view(0, buffer_pool_capacity);
    theorem_new_engine_is_empty(buffer_pool_capacity);
    lemma_inserts_append(fresh, Seq::empty(), records);
    let (filled, written) = run_inserts(fresh, Seq::empty(), records);
    assert(contents(filled, written) =~= records);
    theorem_scan_yields_contents(filled, written, fuel);
}

/// The encodings of the records, in order.
pub open spec fn encodings(records: Seq<RecordView>) -> Seq<Seq<u8>> {
    Seq::new(records.len(), |i: int| record_encoding(records[i]))
}

/// The round trip for records: starting with a new engine on an empty
/// file, insert any list of records whose encodings fit a page, then scan.
/// The scan gives the encodings of the records in the order of their
/// insertion, and each decodes to the record it came from.
pub proof fn theorem_records_round_trip(
    buffer_pool_capacity: Option<usize>,
    records: Seq<RecordView>,
    fuel: nat,
)
    requires
        Pager::new_view(0, buffer_pool_capacity).can_load(),
        forall|i: int|
            0 <= i < records.len() ==> record_encoding(#[trigger] records[i]).len()
                <= MAX_RECORD_SIZE,
        records.len() <= u32::MAX,
        fuel >= 3 * records.len() + 1,
    ensures
        ({
            let (filled, written) = run_inserts(
                Pager::new_view(0, buffer_pool_capacity),
                Seq::empty(),
                encodings(records),
            );
            let start = Cursor { current_page: 0, current_slot: 0 };
            run_scan(filled, written, start, fuel).2 == Some(
                Ok::<Seq<Seq<u8>>, StorageError>(encodings(records)),
            )
        }),
        forall|i: int|
            0 <= i < records.len() ==> record_decoding(#[trigger] encodings(records)[i]) == Some(
                records[i],
            ),
{
    assert forall|i: int| 0 <= i < records.len() implies record_decoding(
        #[trigger] encodings(records)[i],
    ) == Some(records[i]) by {
        vstd::bytes::lemma_auto_spec_u32_to_from_le_bytes();
        vstd::bytes::lemma_auto_spec_u64_to_from_le_bytes();
        assert(record_encoding(records[i]).len() <= MAX_RECORD_SIZE);
        assert(encode_utf8(records[i].name).len() <= record_encoding(records[i]).len());
        lemma_record_round_trip(records[i]);
    }
    theorem_round_trip(buffer_pool_capacity, encodings(records), fuel);
}

} // verus!
