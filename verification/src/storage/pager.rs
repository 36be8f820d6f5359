//! The pager: a buffer pool together with the count of allocated pages.
//!
//! The pager owns the page count. It allocates pages in sequence and admits
//! to the pool only pages that were allocated.

use vstd::prelude::*;
use super::buffer_pool::{
    lemma_swept, write_view, Access, BufferPool, PageWrite, PoolView, DEFAULT_CAPACITY,
};
use super::page::{image_page_id, is_page_image, parse_image, PageView, RowPage};
use super::StorageError;

verus! {

/// The mathematical content of a pager.
pub struct PagerView {
    pub page_count: usize,
    pub pool: PoolView,
}

/// What the caller has to do with the backing file: first write, then read.
pub struct RequestView {
    pub write: Option<(u32, Seq<u8>)>,
    pub read: Option<u32>,
}

/// What a step of an operation came to: its result, or a request to the caller.
pub enum StepView<T> {
    Ready(T),
    Pending(RequestView),
}

impl PagerView {
    /// The pager invariant: the pool is valid, page identifiers fit in 32
    /// bits, and only allocated pages are resident.
    pub open spec fn valid(self) -> bool {
        &&& self.pool.valid()
        &&& self.page_count <= u32::MAX
        &&& forall|i: int|
            0 <= i < self.pool.frames.len() ==> (#[trigger] self.pool.frames[i]).page_id
                < self.page_count
    }

    /// The pager after one more page was allocated.
    pub open spec fn allocated(self) -> PagerView {
        PagerView { page_count: (self.page_count + 1) as usize, ..self }
    }

    /// The write that materializes the page allocated next.
    pub open spec fn allocation_write(self) -> (u32, Seq<u8>) {
        (self.page_count as u32, PageView::empty(self.page_count as u32).image())
    }

    /// Whether a request for a page that is not resident can be served.
    pub open spec fn can_load(self) -> bool {
        self.pool.capacity > 0
    }

    /// The pager after a page was requested: if the page is not resident and
    /// the pool is full, the CLOCK victim has left.
    pub open spec fn after_request(self, id: u32) -> PagerView {
        if !self.pool.holds(id) && self.pool.can_evict() {
            PagerView { pool: self.pool.after_eviction(), ..self }
        } else {
            self
        }
    }

    /// What has to be written back when a page is requested.
    pub open spec fn request_write(self, id: u32) -> Option<(u32, Seq<u8>)> {
        if !self.pool.holds(id) && self.pool.can_evict() {
            self.pool.eviction_write()
        } else {
            None
        }
    }

    /// Whether the bytes are admitted as the image of page `id`.
    pub open spec fn admits(self, id: u32, bytes: Seq<u8>) -> bool {
        &&& id < self.page_count
        &&& !self.pool.holds(id)
        &&& self.pool.frames.len() < self.pool.capacity
        &&& is_page_image(bytes)
        &&& image_page_id(bytes) == id
    }

    /// The pager after the bytes read for page `id` were handed in.
    pub open spec fn installed(self, id: u32, bytes: Seq<u8>) -> PagerView {
        if self.admits(id, bytes) {
            PagerView { pool: self.pool.with_page(parse_image(bytes)), ..self }
        } else {
            self
        }
    }

    /// The pager after a record was appended to a resident page with room.
    pub open spec fn placed(self, id: u32, bytes: Seq<u8>) -> PagerView {
        PagerView {
            pool: self.pool.with_frame(
                self.pool.position(id),
                self.pool.page(id).with_record(bytes),
            ),
            ..self
        }
    }

    /// The pager after a resident page was read.
    pub open spec fn touched(self, id: u32) -> PagerView {
        PagerView {
            pool: self.pool.with_frame(self.pool.position(id), self.pool.page(id).touched()),
            ..self
        }
    }

    /// The pager after every dirty page was handed out for writing.
    pub open spec fn flushed(self) -> PagerView {
        PagerView { pool: self.pool.flushed(), ..self }
    }
}

/// A transfer that the caller has to make on the backing file: first the
/// write, if there is one, then the read, whose bytes go to `install`.
#[derive(Debug)]
pub struct DiskRequest {
    pub write: Option<PageWrite>,
    pub read: Option<u32>,
}

impl View for DiskRequest {
    type V = RequestView;

    open spec fn view(&self) -> RequestView {
        RequestView { write: write_view(self.write), read: self.read }
    }
}

/// What a call came to: its result, or a transfer after which the caller
/// makes the same call again.
#[derive(Debug)]
pub enum Step<T> {
    Ready(T),
    Pending(DiskRequest),
}

/// A buffer pool and the count of pages allocated in the backing file.
#[derive(Debug)]
pub struct Pager {
    page_count: usize,
    buffer_pool: BufferPool,
}

impl View for Pager {
    type V = PagerView;

    closed spec fn view(&self) -> PagerView {
        PagerView { page_count: self.page_count, pool: self.buffer_pool@ }
    }
}

impl Pager {
    /// Well-formedness of a pager.
    pub open spec fn wf(&self) -> bool {
        self@.valid()
    }

    /// The view of a pager that was just made.
    pub open spec fn new_view(page_count: usize, buffer_pool_capacity: Option<usize>) -> PagerView {
        PagerView {
            page_count,
            pool: PoolView {
                frames: Seq::empty(),
                capacity: match buffer_pool_capacity {
                    Some(capacity) => capacity,
                    None => DEFAULT_CAPACITY,
                },
                clock_hand: None,
            },
        }
    }

    /// A pager for a backing file that holds `page_count` pages, with an
    /// empty pool of the given capacity, or of the default capacity.
    pub fn new(page_count: usize, buffer_pool_capacity: Option<usize>) -> (pager: Self)
        requires
            page_count <= u32::MAX,
        ensures
            pager.wf(),
            pager@ == Self::new_view(page_count, buffer_pool_capacity),
    {
        let capacity = match buffer_pool_capacity {
            Some(capacity) => capacity,
            None => DEFAULT_CAPACITY,
        };
        Self { page_count, buffer_pool: BufferPool::new(capacity) }
    }

    /// Allocates the next page. The image of the new, empty page is handed
    /// back and must be written to the backing file.
    pub fn allocate_page(&mut self) -> (result: Result<PageWrite, StorageError>)
        requires
            old(self).wf(),
        ensures
            final(self).wf(),
            old(self)@.page_count < u32::MAX ==> (result matches Ok(write) && write@ == old(self)@.allocation_write()) && final(self)@ == old(self)@.allocated(),
            old(self)@.page_count >= u32::MAX ==> result == Err::<PageWrite, StorageError>(
                StorageError::PageLimit,
            ) && final(self)@ == old(self)@,
    {
        if self.page_count >= u32::MAX as usize {
            return Err(StorageError::PageLimit);
        }
        let page_id = self.page_count as u32;
        self.page_count += 1;
        let page = RowPage::new(page_id);
        Ok(PageWrite { page_id, bytes: page.serialize() })
    }

    /// Asks for a page: see `BufferPool::read_page`.
    pub fn read_page(&mut self, page_id: u32) -> (result: Access)
        requires
            old(self).wf(),
        ensures
            final(self).wf(),
            final(self)@ == old(self)@.after_request(page_id),
            old(self)@.pool.holds(page_id) ==> result is Resident,
            !old(self)@.pool.holds(page_id) && old(self)@.can_load() ==> (
            result matches Access::Load { write_back } && write_view(write_back) == old(self)@.request_write(page_id)),
            !old(self)@.pool.holds(page_id) && !old(self)@.can_load() ==> result is Unavailable,
    {
        let result = self.buffer_pool.read_page(page_id);
        proof {
            let pool = old(self)@.pool;
            if !pool.holds(page_id) && pool.can_evict() {
                lemma_swept(pool);
                let at = pool.victim_position();
                assert forall|i: int| 0 <= i < pool.after_eviction().frames.len() implies (
                #[trigger] pool.after_eviction().frames[i]).page_id < self.page_count by {
                    let i0 = if i < at { i } else { i + 1 };
                    assert(pool.swept().frames[i0].stored() == pool.frames[i0].stored());
                    assert(pool.frames[i0].page_id < self.page_count);
                }
            }
        }
        result
    }

    /// Takes in the page whose image was read from the backing file.
    pub fn install(&mut self, page_id: u32, bytes: &[u8]) -> (result: Result<(), StorageError>)
        requires
            old(self).wf(),
        ensures
            final(self).wf(),
            final(self)@ == old(self)@.installed(page_id, bytes@),
            result is Ok <==> old(self)@.admits(page_id, bytes@),
            result == (if page_id >= old(self)@.page_count {
                Err::<(), StorageError>(StorageError::NoSuchPage)
            } else if old(self)@.pool.holds(page_id) {
                Err::<(), StorageError>(StorageError::AlreadyResident)
            } else if old(self)@.pool.frames.len() >= old(self)@.pool.capacity {
                Err::<(), StorageError>(StorageError::PoolFull)
            } else if !is_page_image(bytes@) || image_page_id(bytes@) != page_id {
                Err::<(), StorageError>(StorageError::CorruptPage)
            } else {
                Ok::<(), StorageError>(())
            }),
    {
        if page_id as usize >= self.page_count {
            return Err(StorageError::NoSuchPage);
        }
        let result = self.buffer_pool.install(page_id, bytes);
        proof {
            if result is Ok {
                let pool = old(self)@.pool;
                let page = parse_image(bytes@);
                let at = super::buffer_pool::rank(pool.frames, page_id);
                super::buffer_pool::lemma_rank_bounds(pool.frames, page_id);
                assert forall|i: int| 0 <= i < self@.pool.frames.len() implies (
                #[trigger] self@.pool.frames[i]).page_id < self.page_count by {
                    if i < at {
                        assert(pool.frames[i].page_id < self.page_count);
                    } else if i > at {
                        assert(pool.frames[i - 1].page_id < self.page_count);
                    }
                }
            }
        }
        result
    }

    /// How many pages are allocated.
    pub fn get_page_count(&self) -> (count: usize)
        ensures
            count == self@.page_count,
    {
        self.page_count
    }

    /// The resident page with this identifier, if there is one.
    pub fn page(&self, page_id: u32) -> (result: Option<&RowPage>)
        requires
            self.wf(),
        ensures
            self@.pool.holds(page_id) ==> result is Some && result.unwrap()@ == self@.pool.page(
                page_id,
            ) && result.unwrap().wf(),
            !self@.pool.holds(page_id) ==> result is None,
    {
        self.buffer_pool.page(page_id)
    }

    /// Appends a record to a resident page and returns its slot index.
    pub fn insert_record(&mut self, page_id: u32, record_bytes: &[u8]) -> (result: Result<
        usize,
        StorageError,
    >)
        requires
            old(self).wf(),
        ensures
            final(self).wf(),
            !old(self)@.pool.holds(page_id) ==> result == Err::<usize, StorageError>(
                StorageError::NotResident,
            ) && final(self)@ == old(self)@,
            old(self)@.pool.holds(page_id) && !old(self)@.pool.page(page_id).has_space_for(
                record_bytes@.len() as int,
            ) ==> result == Err::<usize, StorageError>(StorageError::NotEnoughSpace) && final(self)@ == old(self)@,
            old(self)@.pool.holds(page_id) && old(self)@.pool.page(page_id).has_space_for(
                record_bytes@.len() as int,
            ) ==> result == Ok::<usize, StorageError>(
                old(self)@.pool.page(page_id).slots.len() as usize,
            ) && final(self)@ == old(self)@.placed(page_id, record_bytes@),
    {
        let result = self.buffer_pool.insert_record(page_id, record_bytes);
        proof {
            if result is Ok {
                let pool = old(self)@.pool;
                let at = pool.position(page_id);
                assert forall|i: int| 0 <= i < self@.pool.frames.len() implies (
                #[trigger] self@.pool.frames[i]).page_id < self.page_count by {
                    assert(pool.frames[i].page_id < self.page_count);
                }
            }
        }
        result
    }

    /// Reads the record in a slot of a resident page.
    pub fn read_record(&mut self, page_id: u32, slot_index: usize) -> (result: Result<
        Option<Vec<u8>>,
        StorageError,
    >)
        requires
            old(self).wf(),
        ensures
            final(self).wf(),
            !old(self)@.pool.holds(page_id) ==> result == Err::<Option<Vec<u8>>, StorageError>(
                StorageError::NotResident,
            ) && final(self)@ == old(self)@,
            old(self)@.pool.holds(page_id) ==> final(self)@ == old(self)@.touched(page_id) && (
            result matches Ok(found) && (if slot_index < old(self)@.pool.page(
                page_id,
            ).slots.len() {
                found matches Some(bytes) && bytes@ == old(self)@.pool.page(page_id).record(
                    slot_index as int,
                )
            } else {
                found is None
            })),
    {
        let result = self.buffer_pool.read_record(page_id, slot_index);
        proof {
            if result is Ok {
                let pool = old(self)@.pool;
                assert forall|i: int| 0 <= i < self@.pool.frames.len() implies (
                #[trigger] self@.pool.frames[i]).page_id < self.page_count by {
                    assert(pool.frames[i].page_id < self.page_count);
                }
            }
        }
        result
    }

    /// Hands back the image of every dirty page for writing, and marks the
    /// pages clean. This is what has to happen before a pager is given up.
    pub fn flush(&mut self) -> (writes: Vec<PageWrite>)
        requires
            old(self).wf(),
        ensures
            final(self).wf(),
            final(self)@ == old(self)@.flushed(),
            super::buffer_pool::writes_view(writes@) == super::buffer_pool::pending_writes(
                old(self)@.pool.frames,
            ),
    {
        self.buffer_pool.flush()
    }
}

} // verus!
