//! The record manager: append-only insertion of records and full scans, in
//! page order and, within a page, in slot order.
//!
//! Every call either finishes or names a transfer on the backing file. The
//! caller makes the transfer, hands the bytes it read to `install`, and
//! makes the same call again.

use vstd::prelude::*;
use super::buffer_pool::{Access, PageWrite};
use super::encoding::{decode_record, encode_record, record_decoding, record_encoding};
use super::page::{image_page_id, is_page_image, HEADER_SIZE, SLOT_SIZE};
use super::pager::{DiskRequest, Pager, PagerView, RequestView, Step, StepView};
use super::StorageError;
use super::PAGE_SIZE;
use crate::record::{Record, RecordView};

verus! {

/// The longest record that an empty page can take.
pub const MAX_RECORD_SIZE: usize = PAGE_SIZE - HEADER_SIZE - SLOT_SIZE;

/// Where a record was stored.
#[derive(Debug, Clone, Copy, PartialEq, Eq, Structural)]
pub struct Placement {
    pub page_id: u32,
    pub slot_index: usize,
}

/// A position in a scan: the page and the slot that come next.
#[derive(Debug, Clone, Copy, PartialEq, Eq, Structural)]
pub struct Cursor {
    pub current_page: u32,
    pub current_slot: usize,
}

/// What a step of an insertion came to.
pub type InsertOutcome = Result<StepView<Placement>, StorageError>;

/// What a step of a scan came to: the next record, or `None` at the end.
pub type ScanOutcome = Result<StepView<Option<Seq<u8>>>, StorageError>;

impl PagerView {
    /// A step that needs page `id`, which is not resident: the pool makes
    /// room and the caller is asked to load the page.
    pub open spec fn fetch_step<T>(self, id: u32) -> (PagerView, Result<StepView<T>, StorageError>) {
        if self.can_load() {
            (
                self.after_request(id),
                Ok(
                    StepView::Pending(
                        RequestView { write: self.request_write(id), read: Some(id) },
                    ),
                ),
            )
        } else {
            (self, Err(StorageError::NoVictim))
        }
    }

    /// A step that needs one more page: the page is allocated and the caller
    /// is asked to write its image.
    pub open spec fn allocate_step<T>(self) -> (PagerView, Result<StepView<T>, StorageError>) {
        if self.page_count < u32::MAX {
            (
                self.allocated(),
                Ok(
                    StepView::Pending(
                        RequestView { write: Some(self.allocation_write()), read: None },
                    ),
                ),
            )
        } else {
            (self, Err(StorageError::PageLimit))
        }
    }

    /// One step of the insertion of a record. A record that no empty page
    /// can take is refused. Without any page, or with a last page that is
    /// resident and full, a page is allocated. A last page that is not
    /// resident is fetched. Otherwise the record goes into the last page.
    pub open spec fn insert_step(self, bytes: Seq<u8>) -> (PagerView, InsertOutcome) {
        if bytes.len() > MAX_RECORD_SIZE {
            (self, Err(StorageError::RecordTooLarge))
        } else if self.page_count == 0 {
            self.allocate_step()
        } else {
            let last = (self.page_count - 1) as u32;
            if !self.pool.holds(last) {
                self.fetch_step(last)
            } else if !self.pool.page(last).has_space_for(bytes.len() as int) {
                self.allocate_step()
            } else {
                (
                    self.placed(last, bytes),
                    Ok(
                        StepView::Ready(
                            Placement {
                                page_id: last,
                                slot_index: self.pool.page(last).slots.len() as usize,
                            },
                        ),
                    ),
                )
            }
        }
    }

    /// One step of a scan. Behind the last page the scan is at its end. A
    /// page that is not resident is fetched. A resident page gives its next
    /// record; when it has none left, the scan goes on with the next page.
    pub open spec fn scan_step(self, cursor: Cursor) -> (PagerView, Cursor, ScanOutcome)
        decreases self.page_count - cursor.current_page,
        when self.page_count <= u32::MAX
    {
        let id = cursor.current_page;
        if id >= self.page_count {
            (self, cursor, Ok(StepView::Ready(None)))
        } else if !self.pool.holds(id) {
            let (pager, outcome) = self.fetch_step::<Option<Seq<u8>>>(id);
            (pager, cursor, outcome)
        } else if cursor.current_slot < self.pool.page(id).slots.len() {
            (
                self.touched(id),
                Cursor { current_page: id, current_slot: (cursor.current_slot + 1) as usize },
                Ok(StepView::Ready(Some(self.pool.page(id).record(cursor.current_slot as int)))),
            )
        } else {
            self.scan_step(Cursor { current_page: (id + 1) as u32, current_slot: 0 })
        }
    }
}

/// The outcome of an insertion step, with the request by its view.
pub open spec fn insert_outcome(result: Result<Step<Placement>, StorageError>) -> InsertOutcome {
    match result {
        Ok(Step::Ready(placement)) => Ok(StepView::Ready(placement)),
        Ok(Step::Pending(request)) => Ok(StepView::Pending(request@)),
        Err(e) => Err(e),
    }
}

/// The outcome of a scan step, with the record and the request by their views.
pub open spec fn scan_outcome(result: Result<Step<Option<Vec<u8>>>, StorageError>) -> ScanOutcome {
    match result {
        Ok(Step::Ready(Some(bytes))) => Ok(StepView::Ready(Some(bytes@))),
        Ok(Step::Ready(None)) => Ok(StepView::Ready(None)),
        Ok(Step::Pending(request)) => Ok(StepView::Pending(request@)),
        Err(e) => Err(e),
    }
}

/// What a step of a scan came to, with the record decoded: a record whose
/// bytes do not decode makes the step fail.
pub open spec fn decoded(outcome: ScanOutcome) -> Result<
    StepView<Option<RecordView>>,
    StorageError,
> {
    match outcome {
        Ok(StepView::Ready(Some(bytes))) => match record_decoding(bytes) {
            Some(record) => Ok(StepView::Ready(Some(record))),
            None => Err(StorageError::CorruptRecord),
        },
        Ok(StepView::Ready(None)) => Ok(StepView::Ready(None)),
        Ok(StepView::Pending(request)) => Ok(StepView::Pending(request)),
        Err(e) => Err(e),
    }
}

/// The outcome of a typed scan step, with the record and the request by their views.
pub open spec fn record_outcome(result: Result<Step<Option<Record>>, StorageError>) -> Result<
    StepView<Option<RecordView>>,
    StorageError,
> {
    match result {
        Ok(Step::Ready(Some(record))) => Ok(StepView::Ready(Some(record@))),
        Ok(Step::Ready(None)) => Ok(StepView::Ready(None)),
        Ok(Step::Pending(request)) => Ok(StepView::Pending(request@)),
        Err(e) => Err(e),
    }
}

/// Logical insertion and scanning of records over a pager.
#[derive(Debug)]
pub struct RecordManager {
    pager: Pager,
    page_count: u32,
}

impl View for RecordManager {
    type V = PagerView;

    closed spec fn view(&self) -> PagerView {
        self.pager@
    }
}

impl RecordManager {
    /// Well-formedness: the pager is well-formed, and the manager's own page
    /// count agrees with the pager's.
    pub closed spec fn wf(&self) -> bool {
        &&& self.pager.wf()
        &&& self.page_count == self.pager@.page_count
    }

    /// What well-formedness says of the view.
    pub proof fn lemma_wf(&self)
        requires
            self.wf(),
        ensures
            self@.valid(),
    {
    }

    /// A record manager for a backing file that holds `page_count` pages,
    /// with an empty pool of the default capacity.
    pub fn new(page_count: usize) -> (manager: Self)
        requires
            page_count <= u32::MAX,
        ensures
            manager.wf(),
            manager@ == Pager::new_view(page_count, None),
    {
        Self::with_capacity(page_count, None)
    }

    /// A record manager for a backing file that holds `page_count` pages,
    /// with an empty pool of the given capacity, or of the default capacity.
    pub fn with_capacity(page_count: usize, buffer_pool_capacity: Option<usize>) -> (manager: Self)
        requires
            page_count <= u32::MAX,
        ensures
            manager.wf(),
            manager@ == Pager::new_view(page_count, buffer_pool_capacity),
    {
        let pager = Pager::new(page_count, buffer_pool_capacity);
        Self { page_count: pager.get_page_count() as u32, pager }
    }

    /// How many pages are allocated.
    pub fn get_page_count(&self) -> (count: usize)
        requires
            self.wf(),
        ensures
            count == self@.page_count,
    {
        self.page_count as usize
    }

    /// Allocates a page and asks the caller to write its image.
    fn allocate<T>(&mut self) -> (result: Result<Step<T>, StorageError>)
        requires
            old(self).wf(),
        ensures
            final(self).wf(),
            final(self)@ == old(self)@.allocate_step::<T>().0,
            old(self)@.page_count < u32::MAX ==> (result matches Ok(Step::Pending(request))
                && request@ == (RequestView {
                write: Some(old(self)@.allocation_write()),
                read: None,
            })),
            old(self)@.page_count >= u32::MAX ==> (result matches Err(e) && e
                == StorageError::PageLimit),
    {
        match self.pager.allocate_page() {
            Ok(write) => {
                self.page_count += 1;
                Ok(Step::Pending(DiskRequest { write: Some(write), read: None }))
            },
            Err(e) => Err(e),
        }
    }

    /// Makes room for a page that is not resident and asks the caller to load it.
    fn fetch<T>(&mut self, page_id: u32) -> (result: Result<Option<Step<T>>, StorageError>)
        requires
            old(self).wf(),
        ensures
            final(self).wf(),
            old(self)@.pool.holds(page_id) ==> result == Ok::<Option<Step<T>>, StorageError>(None)
                && final(self)@ == old(self)@,
            !old(self)@.pool.holds(page_id) ==> final(self)@ == old(self)@.fetch_step::<T>(
                page_id,
            ).0,
            !old(self)@.pool.holds(page_id) && old(self)@.can_load() ==> (
            result matches Ok(Some(Step::Pending(request))) && request@ == (RequestView {
                write: old(self)@.request_write(page_id),
                read: Some(page_id),
            })),
            !old(self)@.pool.holds(page_id) && !old(self)@.can_load() ==> (result matches Err(e)
                && e == StorageError::NoVictim),
    {
        match self.pager.read_page(page_id) {
            Access::Resident => Ok(None),
            Access::Load { write_back } => Ok(
                Some(Step::Pending(DiskRequest { write: write_back, read: Some(page_id) })),
            ),
            Access::Unavailable => Err(StorageError::NoVictim),
        }
    }

    /// Takes in the page whose image the caller read from the backing file.
    pub fn install(&mut self, page_id: u32, bytes: &[u8]) -> (result: Result<(), StorageError>)
        requires
            old(self).wf(),
        ensures
            final(self).wf(),
            final(self)@ == old(self)@.installed(page_id, bytes@),
            result is Ok <==> old(self)@.admits(page_id, bytes@),
            result == (if page_id >= old(self)@.page_count {
                Err::<(), StorageError>(StorageError::NoSuchPage)
            } else if old(self)@.pool.holds(page_id) {
                Err::<(), StorageError>(StorageError::AlreadyResident)
            } else if old(self)@.pool.frames.len() >= old(self)@.pool.capacity {
                Err::<(), StorageError>(StorageError::PoolFull)
            } else if !is_page_image(bytes@) || image_page_id(bytes@) != page_id {
                Err::<(), StorageError>(StorageError::CorruptPage)
            } else {
                Ok::<(), StorageError>(())
            }),
    {
        self.pager.install(page_id, bytes)
    }

    /// One step of the insertion of a record given by its bytes.
    pub fn insert(&mut self, record_bytes: &[u8]) -> (result: Result<Step<Placement>, StorageError>)
        requires
            old(self).wf(),
        ensures
            final(self).wf(),
            final(self)@ == old(self)@.insert_step(record_bytes@).0,
            insert_outcome(result) == old(self)@.insert_step(record_bytes@).1,
    {
        if record_bytes.len() > MAX_RECORD_SIZE {
            return Err(StorageError::RecordTooLarge);
        }
        if self.page_count == 0 {
            return self.allocate();
        }
        let last = self.page_count - 1;
        match self.fetch(last) {
            Ok(Some(step)) => {
                return Ok(step);
            },
            Ok(None) => {},
            Err(e) => {
                return Err(e);
            },
        }
        match self.pager.insert_record(last, record_bytes) {
            Ok(slot_index) => Ok(Step::Ready(Placement { page_id: last, slot_index })),
            Err(_) => self.allocate(),
        }
    }

    /// One step of the insertion of a record: the record is encoded, and its
    /// bytes are inserted as `insert` does.
    pub fn insert_record(&mut self, record: &Record) -> (result: Result<
        Step<Placement>,
        StorageError,
    >)
        requires
            old(self).wf(),
        ensures
            final(self).wf(),
            final(self)@ == old(self)@.insert_step(record_encoding(record@)).0,
            insert_outcome(result) == old(self)@.insert_step(record_encoding(record@)).1,
    {
        let bytes = encode_record(record);
        self.insert(bytes.as_slice())
    }

    /// Hands back the image of every dirty page for writing, and marks the
    /// pages clean. This has to happen before the manager is given up.
    pub fn flush(&mut self) -> (writes: Vec<PageWrite>)
        requires
            old(self).wf(),
        ensures
            final(self).wf(),
            final(self)@ == old(self)@.flushed(),
            super::buffer_pool::writes_view(writes@) == super::buffer_pool::pending_writes(
                old(self)@.pool.frames,
            ),
    {
        self.pager.flush()
    }

    /// A scan from the first record of the first page.
    pub fn scan_records(&self) -> (iterator: RecordIterator)
        ensures
            iterator@ == (Cursor { current_page: 0, current_slot: 0 }),
    {
        RecordIterator { current_page: 0, current_slot: 0 }
    }
}

/// A scan in progress. It holds no page: every step names the manager anew.
#[derive(Debug)]
pub struct RecordIterator {
    current_page: u32,
    current_slot: usize,
}

impl View for RecordIterator {
    type V = Cursor;

    closed spec fn view(&self) -> Cursor {
        Cursor { current_page: self.current_page, current_slot: self.current_slot }
    }
}

impl RecordIterator {
    /// One step of the scan: the bytes of the next record, `None` at the
    /// end, or a transfer to make before the same call.
    pub fn next_bytes(&mut self, manager: &mut RecordManager) -> (result: Result<
        Step<Option<Vec<u8>>>,
        StorageError,
    >)
        requires
            old(manager).wf(),
        ensures
            final(manager).wf(),
            final(manager)@ == old(manager)@.scan_step(old(self)@).0,
            final(self)@ == old(manager)@.scan_step(old(self)@).1,
            scan_outcome(result) == old(manager)@.scan_step(old(self)@).2,
    {
        while self.current_page < manager.page_count
            invariant
                manager.wf(),
                manager@ == old(manager)@,
                old(manager)@.scan_step(self@) == old(manager)@.scan_step(old(self)@),
            decreases manager.page_count - self.current_page,
        {
            match manager.fetch(self.current_page) {
                Ok(Some(step)) => {
                    return Ok(step);
                },
                Ok(None) => {},
                Err(e) => {
                    return Err(e);
                },
            }
            let record_count = match manager.pager.page(self.current_page) {
                Some(page) => page.get_record_count(),
                None => 0,
            };
            if self.current_slot < record_count {
                match manager.pager.read_record(self.current_page, self.current_slot) {
                    Ok(Some(bytes)) => {
                        self.current_slot += 1;
                        return Ok(Step::Ready(Some(bytes)));
                    },
                    Ok(None) => {
                        return Ok(Step::Ready(None));
                    },
                    Err(e) => {
                        return Err(e);
                    },
                }
            }
            self.current_page += 1;
            self.current_slot = 0;
        }
        Ok(Step::Ready(None))
    }
    /// One step of the scan: the next record, `None` at the end, or a
    /// transfer to make before the same call. Bytes that do not decode to a
    /// record make the step fail; the scan has then passed them.
    pub fn next(&mut self, manager: &mut RecordManager) -> (result: Result<
        Step<Option<Record>>,
        StorageError,
    >)
        requires
            old(manager).wf(),
        ensures
            final(manager).wf(),
            final(manager)@ == old(manager)@.scan_step(old(self)@).0,
            final(self)@ == old(manager)@.scan_step(old(self)@).1,
            record_outcome(result) == decoded(old(manager)@.scan_step(old(self)@).2),
    {
        match self.next_bytes(manager) {
            Ok(Step::Ready(Some(bytes))) => match decode_record(bytes.as_slice()) {
                Some(record) => Ok(Step::Ready(Some(record))),
                None => Err(StorageError::CorruptRecord),
            },
            Ok(Step::Ready(None)) => Ok(Step::Ready(None)),
            Ok(Step::Pending(request)) => Ok(Step::Pending(request)),
            Err(e) => Err(e),
        }
    }
}

} // verus!
