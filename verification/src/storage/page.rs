//! The slotted page: an 8-byte header, a slot directory, and an append-only
//! data region, packed into `PAGE_SIZE` bytes.

use vstd::prelude::*;
use vstd::bytes::*;
use vstd::slice::*;
use super::encoding::{decode_row, encode_row, row_decoding, row_encoding, row_view};
use super::PAGE_SIZE;
use super::StorageError;
use crate::table::Row;

verus! {

/// Bytes taken by the page header.
pub const HEADER_SIZE: usize = 8;

/// Bytes taken by one entry of the slot directory.
pub const SLOT_SIZE: usize = 4;

/// Locates one record inside a page's data region.
#[derive(Debug, Clone, Copy, PartialEq, Eq, Structural)]
pub struct Slot {
    pub offset: u16,
    pub size: u16,
}

/// The mathematical content of a page.
pub struct PageView {
    pub page_id: u32,
    pub record_count: u16,
    pub free_space_offset: u16,
    pub slots: Seq<Slot>,
    pub data: Seq<u8>,
    pub is_dirty: bool,
    pub referenced_recently: bool,
}

impl PageView {
    /// Bytes of the page image that are in use.
    pub open spec fn used(self) -> int {
        HEADER_SIZE + SLOT_SIZE * self.slots.len() + self.data.len()
    }

    /// Where slot `i` ends in the data region.
    pub open spec fn slot_end(self, i: int) -> int {
        self.slots[i].offset + self.slots[i].size
    }

    /// The page invariant: the counters agree with the directory and the data
    /// region, the slots tile the data region in order, and everything fits.
    pub open spec fn valid(self) -> bool {
        &&& self.slots.len() == self.record_count
        &&& self.data.len() == self.free_space_offset
        &&& self.used() <= PAGE_SIZE
        &&& forall|i: int|
            0 <= i < self.slots.len() ==> (#[trigger] self.slots[i]).offset == (if i == 0 {
                0
            } else {
                self.slot_end(i - 1)
            })
        &&& self.slots.len() > 0 ==> self.slot_end(self.slots.len() - 1) == self.data.len()
        &&& self.slots.len() == 0 ==> self.data.len() == 0
    }

    /// The bytes of record `i`.
    pub open spec fn record(self, i: int) -> Seq<u8> {
        self.data.subrange(self.slots[i].offset as int, self.slot_end(i))
    }

    /// The stored records, in insertion order.
    pub open spec fn records(self) -> Seq<Seq<u8>> {
        Seq::new(self.slots.len(), |i: int| self.record(i))
    }

    /// Whether a record of `n` bytes and its slot still fit.
    pub open spec fn has_space_for(self, n: int) -> bool {
        HEADER_SIZE + SLOT_SIZE * (self.slots.len() + 1) + self.data.len() + n <= PAGE_SIZE
    }

    /// The page after `bytes` was appended as a new record.
    pub open spec fn with_record(self, bytes: Seq<u8>) -> PageView {
        PageView {
            page_id: self.page_id,
            record_count: (self.record_count + 1) as u16,
            free_space_offset: (self.free_space_offset + bytes.len()) as u16,
            slots: self.slots.push(
                Slot { offset: self.free_space_offset, size: bytes.len() as u16 },
            ),
            data: self.data + bytes,
            is_dirty: true,
            referenced_recently: true,
        }
    }

    /// The page with its recently-referenced flag set.
    pub open spec fn touched(self) -> PageView {
        PageView { referenced_recently: true, ..self }
    }

    /// The empty page with identifier `id`.
    pub open spec fn empty(id: u32) -> PageView {
        PageView {
            page_id: id,
            record_count: 0,
            free_space_offset: 0,
            slots: Seq::empty(),
            data: Seq::empty(),
            is_dirty: false,
            referenced_recently: false,
        }
    }
}

/// The four bytes of one directory entry: offset, then size, little-endian.
pub open spec fn slot_bytes(slot: Slot) -> Seq<u8> {
    spec_u16_to_le_bytes(slot.offset) + spec_u16_to_le_bytes(slot.size)
}

/// The bytes of a slot directory.
pub open spec fn directory(slots: Seq<Slot>) -> Seq<u8>
    decreases slots.len(),
{
    if slots.len() == 0 {
        Seq::empty()
    } else {
        directory(slots.drop_last()) + slot_bytes(slots.last())
    }
}

impl PageView {
    /// The eight header bytes: identifier, record count, free-space offset.
    pub open spec fn header(self) -> Seq<u8> {
        spec_u32_to_le_bytes(self.page_id) + spec_u16_to_le_bytes(self.record_count)
            + spec_u16_to_le_bytes(self.free_space_offset)
    }

    /// The `PAGE_SIZE` bytes that stand for the page in the backing file.
    pub open spec fn image(self) -> Seq<u8> {
        self.header() + directory(self.slots) + self.data + Seq::new(
            (PAGE_SIZE - self.used()) as nat,
            |i: int| 0u8,
        )
    }

    /// The page as it comes back from the backing file: both flags cleared.
    pub open spec fn stored(self) -> PageView {
        PageView { is_dirty: false, referenced_recently: false, ..self }
    }
}

/// The page identifier that a page image carries.
pub open spec fn image_page_id(bytes: Seq<u8>) -> u32 {
    spec_u32_from_le_bytes(bytes.subrange(0, 4))
}

/// The record count that a page image carries.
pub open spec fn image_record_count(bytes: Seq<u8>) -> u16 {
    spec_u16_from_le_bytes(bytes.subrange(4, 6))
}

/// The free-space offset that a page image carries.
pub open spec fn image_free_space_offset(bytes: Seq<u8>) -> u16 {
    spec_u16_from_le_bytes(bytes.subrange(6, 8))
}

/// Entry `i` of the slot directory of a page image.
pub open spec fn image_slot(bytes: Seq<u8>, i: int) -> Slot {
    Slot {
        offset: spec_u16_from_le_bytes(bytes.subrange(8 + 4 * i, 10 + 4 * i)),
        size: spec_u16_from_le_bytes(bytes.subrange(10 + 4 * i, 12 + 4 * i)),
    }
}

/// Where the data region of a page image starts.
pub open spec fn image_data_start(bytes: Seq<u8>) -> int {
    HEADER_SIZE + SLOT_SIZE * image_record_count(bytes)
}

/// The page that a page image describes.
pub open spec fn parse_image(bytes: Seq<u8>) -> PageView {
    PageView {
        page_id: image_page_id(bytes),
        record_count: image_record_count(bytes),
        free_space_offset: image_free_space_offset(bytes),
        slots: Seq::new(image_record_count(bytes) as nat, |i: int| image_slot(bytes, i)),
        data: bytes.subrange(
            image_data_start(bytes),
            image_data_start(bytes) + image_free_space_offset(bytes),
        ),
        is_dirty: false,
        referenced_recently: false,
    }
}

/// Whether the bytes describe a valid page: header, directory and data
/// region lie inside the buffer, and the page they describe is valid.
pub open spec fn is_page_image(bytes: Seq<u8>) -> bool {
    &&& bytes.len() >= HEADER_SIZE
    &&& image_data_start(bytes) + image_free_space_offset(bytes) <= bytes.len()
    &&& parse_image(bytes).valid()
}

/// A directory holds four bytes per slot, and entry `i` stands at `4 * i`.
pub proof fn lemma_directory(slots: Seq<Slot>, i: int)
    requires
        0 <= i < slots.len(),
    ensures
        directory(slots).len() == 4 * slots.len(),
        directory(slots).subrange(4 * i, 4 * i + 2) == spec_u16_to_le_bytes(slots[i].offset),
        directory(slots).subrange(4 * i + 2, 4 * i + 4) == spec_u16_to_le_bytes(slots[i].size),
    decreases slots.len(),
{
    lemma_auto_spec_u16_to_from_le_bytes();
    let init = slots.drop_last();
    lemma_directory_len(init);
    let d = directory(slots);
    assert(d == directory(init) + slot_bytes(slots.last()));
    if i < init.len() {
        lemma_directory(init, i);
        assert(init[i] == slots[i]);
        assert(d.subrange(4 * i, 4 * i + 2) =~= directory(init).subrange(4 * i, 4 * i + 2));
        assert(d.subrange(4 * i + 2, 4 * i + 4) =~= directory(init).subrange(
            4 * i + 2,
            4 * i + 4,
        ));
    } else {
        assert(d.subrange(4 * i, 4 * i + 2) =~= spec_u16_to_le_bytes(slots[i].offset));
        assert(d.subrange(4 * i + 2, 4 * i + 4) =~= spec_u16_to_le_bytes(slots[i].size));
    }
}

/// A directory holds four bytes per slot.
pub proof fn lemma_directory_len(slots: Seq<Slot>)
    ensures
        directory(slots).len() == 4 * slots.len(),
    decreases slots.len(),
{
    lemma_auto_spec_u16_to_from_le_bytes();
    if slots.len() > 0 {
        lemma_directory_len(slots.drop_last());
    }
}

/// Adding a slot to the directory appends its four bytes.
pub proof fn lemma_directory_push(slots: Seq<Slot>, slot: Slot)
    ensures
        directory(slots.push(slot)) == directory(slots) + slot_bytes(slot),
{
    assert(slots.push(slot).drop_last() =~= slots);
}

/// The image of a valid page is exactly `PAGE_SIZE` bytes long.
pub proof fn lemma_image_len(v: PageView)
    requires
        v.valid(),
    ensures
        v.header().len() == HEADER_SIZE,
        v.image().len() == PAGE_SIZE,
{
    lemma_auto_spec_u16_to_from_le_bytes();
    lemma_auto_spec_u32_to_from_le_bytes();
    lemma_directory_len(v.slots);
}

/// Where each byte of the image of a valid page comes from.
pub proof fn lemma_image_index(v: PageView, k: int)
    requires
        v.valid(),
        0 <= k < PAGE_SIZE,
    ensures
        v.header().len() == 8,
        directory(v.slots).len() == 4 * v.slots.len(),
        v.image().len() == PAGE_SIZE,
        v.image()[k] == (if k < 8 {
            v.header()[k]
        } else if k < 8 + 4 * v.slots.len() {
            directory(v.slots)[k - 8]
        } else if k < v.used() {
            v.data[k - 8 - 4 * v.slots.len()]
        } else {
            0u8
        }),
{
    lemma_image_len(v);
    lemma_directory_len(v.slots);
}

/// The header of the image of a valid page carries the page's identifier
/// and counters.
pub proof fn lemma_image_header(v: PageView)
    requires
        v.valid(),
    ensures
        image_page_id(v.image()) == v.page_id,
        image_record_count(v.image()) == v.record_count,
        image_free_space_offset(v.image()) == v.free_space_offset,
{
    lemma_auto_spec_u16_to_from_le_bytes();
    lemma_auto_spec_u32_to_from_le_bytes();
    let b = v.image();
    let id = spec_u32_to_le_bytes(v.page_id);
    let count = spec_u16_to_le_bytes(v.record_count);
    let offset = spec_u16_to_le_bytes(v.free_space_offset);
    assert(v.header() == id + count + offset);
    assert forall|k: int| 0 <= k < 8 implies b[k] == v.header()[k] by {
        lemma_image_index(v, k);
    }
    lemma_image_index(v, 0);
    assert(b.subrange(0, 4) =~= id);
    assert(b.subrange(4, 6) =~= count);
    assert(b.subrange(6, 8) =~= offset);
}

/// The directory of the image of a valid page carries the page's slots.
pub proof fn lemma_image_slot(v: PageView, i: int)
    requires
        v.valid(),
        0 <= i < v.slots.len(),
    ensures
        image_slot(v.image(), i) == v.slots[i],
{
    lemma_auto_spec_u16_to_from_le_bytes();
    let b = v.image();
    let d = directory(v.slots);
    lemma_directory(v.slots, i);
    assert forall|k: int| 8 <= k < 8 + 4 * v.slots.len() implies b[k] == d[k - 8] by {
        lemma_image_index(v, k);
    }
    lemma_image_index(v, 8);
    assert(b.subrange(8 + 4 * i, 10 + 4 * i) =~= d.subrange(4 * i, 4 * i + 2));
    assert(b.subrange(10 + 4 * i, 12 + 4 * i) =~= d.subrange(4 * i + 2, 4 * i + 4));
}

/// Serialization loses nothing but the two transient flags: the image of a
/// valid page is a page image, and parsing it gives back the identifier, the
/// counters, the slots and the data.
pub proof fn lemma_image_round_trip(v: PageView)
    requires
        v.valid(),
    ensures
        is_page_image(v.image()),
        parse_image(v.image()) == v.stored(),
        v.image().len() == PAGE_SIZE,
{
    let b = v.image();
    let n = v.slots.len() as int;
    lemma_image_header(v);
    lemma_image_index(v, 0);
    let p = parse_image(b);
    assert(p.slots =~= v.slots) by {
        assert forall|i: int| 0 <= i < n implies #[trigger] p.slots[i] == v.slots[i] by {
            lemma_image_slot(v, i);
        }
    }
    assert(p.data =~= v.data) by {
        assert forall|k: int| 0 <= k < v.data.len() implies #[trigger] p.data[k] == v.data[k] by {
            lemma_image_index(v, 8 + 4 * n + k);
        }
    }
}

/// Appending a record that fits keeps the page valid, keeps the earlier
/// records, and adds the new one at the end.
pub proof fn lemma_with_record(v: PageView, bytes: Seq<u8>)
    requires
        v.valid(),
        v.has_space_for(bytes.len() as int),
    ensures
        v.with_record(bytes).valid(),
        v.with_record(bytes).records() == v.records().push(bytes),
{
    let w = v.with_record(bytes);
    let n = v.slots.len() as int;
    assert(w.slots.len() == n + 1);
    assert forall|i: int| 0 <= i < w.slots.len() implies (#[trigger] w.slots[i]).offset == (if i
        == 0 {
        0
    } else {
        w.slot_end(i - 1)
    }) by {
        if i < n {
            assert(w.slots[i] == v.slots[i]);
            if i > 0 {
                assert(w.slots[i - 1] == v.slots[i - 1]);
            }
        } else {
            if n > 0 {
                assert(w.slots[n - 1] == v.slots[n - 1]);
            }
        }
    }
    assert forall|i: int| 0 <= i < n implies 0 <= (#[trigger] v.slots[i]).offset && v.slot_end(i)
        <= v.data.len() by {
        lemma_slot_bounds(v, i);
    }
    assert(w.records() =~= v.records().push(bytes)) by {
        assert forall|i: int| 0 <= i < n + 1 implies #[trigger] w.records()[i]
            == v.records().push(bytes)[i] by {
            if i < n {
                lemma_slot_bounds(v, i);
                assert(w.slots[i] == v.slots[i]);
                assert(w.record(i) =~= v.record(i));
            } else {
                assert(w.record(n) =~= bytes);
            }
        }
    }
}

/// In a valid page every slot lies inside the data region.
pub proof fn lemma_slot_bounds(v: PageView, i: int)
    requires
        v.valid(),
        0 <= i < v.slots.len(),
    ensures
        v.slot_end(i) <= v.data.len(),
    decreases v.slots.len() - i,
{
    if i + 1 < v.slots.len() {
        lemma_slot_bounds(v, i + 1);
        assert(v.slots[i + 1].offset == v.slot_end(i));
    }
}

/// The mathematical content of a raw page.
pub struct RawPageView {
    pub id: usize,
    pub data: Seq<u8>,
}

/// A page as a plain run of bytes.
#[derive(Debug, PartialEq, Eq)]
pub struct RawPage {
    id: usize,
    data: Vec<u8>,
}

impl View for RawPage {
    type V = RawPageView;

    closed spec fn view(&self) -> RawPageView {
        RawPageView { id: self.id, data: self.data@ }
    }
}

/// The bytes with those from `offset` on replaced by `patch`.
pub open spec fn patched(data: Seq<u8>, offset: int, patch: Seq<u8>) -> Seq<u8> {
    data.subrange(0, offset) + patch + data.subrange(offset + patch.len(), data.len() as int)
}

/// Whether `length` bytes from `offset` on lie inside a page that holds `held` bytes.
pub open spec fn in_bounds(offset: int, length: int, held: int) -> bool {
    offset + length <= PAGE_SIZE && offset + length <= held
}

impl RawPage {
    /// A page of `PAGE_SIZE` zero bytes.
    pub fn new(id: usize) -> (page: Self)
        ensures
            page@.id == id,
            page@.data == Seq::new(PAGE_SIZE as nat, |i: int| 0u8),
    {
        let data: Vec<u8> = vec![0u8; PAGE_SIZE];
        assert(data@ =~= Seq::new(PAGE_SIZE as nat, |i: int| 0u8));
        Self { id, data }
    }

    /// A page that holds the given bytes.
    pub fn from_bytes(id: usize, data: Vec<u8>) -> (page: Self)
        ensures
            page@ == (RawPageView { id, data: data@ }),
    {
        Self { id, data }
    }

    /// The page identifier.
    pub fn get_id(&self) -> (id: &usize)
        ensures
            *id == self@.id,
    {
        &self.id
    }

    /// The bytes of the page.
    pub fn get_data(&self) -> (data: &[u8])
        ensures
            data@ == self@.data,
    {
        self.data.as_slice()
    }

    /// The `length` bytes from `offset` on, or `None` if they do not lie
    /// inside the page.
    pub fn read(&self, offset: usize, length: usize) -> (result: Option<&[u8]>)
        ensures
            in_bounds(offset as int, length as int, self@.data.len() as int) ==> result is Some
                && result.unwrap()@ == self@.data.subrange(offset as int, offset + length),
            !in_bounds(offset as int, length as int, self@.data.len() as int) ==> result is None,
    {
        if offset <= PAGE_SIZE && length <= PAGE_SIZE - offset && offset <= self.data.len()
            && length <= self.data.len() - offset {
            Some(slice_subrange(self.data.as_slice(), offset, offset + length))
        } else {
            None
        }
    }

    /// Copies `buf` into the page from `offset` on, or refuses if the bytes
    /// would not lie inside the page.
    pub fn write(&mut self, offset: usize, buf: &[u8]) -> (result: Result<(), StorageError>)
        ensures
            final(self)@.id == old(self)@.id,
            in_bounds(offset as int, buf@.len() as int, old(self)@.data.len() as int) ==> result
                is Ok && final(self)@.data == patched(old(self)@.data, offset as int, buf@),
            !in_bounds(offset as int, buf@.len() as int, old(self)@.data.len() as int) ==> result
                == Err::<(), StorageError>(StorageError::OutOfBounds) && final(self)@ == old(self)@,
    {
        let len = buf.len();
        if !(offset <= PAGE_SIZE && len <= PAGE_SIZE - offset && offset <= self.data.len() && len
            <= self.data.len() - offset) {
            return Err(StorageError::OutOfBounds);
        }
        let mut i: usize = 0;
        while i < len
            invariant
                i <= len,
                len == buf@.len(),
                offset + len <= PAGE_SIZE,
                offset + len <= self.data@.len(),
                self.id == old(self).id,
                self.data@.len() == old(self).data@.len(),
                forall|k: int|
                    0 <= k < self.data@.len() ==> self.data@[k] == (if offset <= k < offset + i {
                        buf@[k - offset]
                    } else {
                        old(self).data@[k]
                    }),
            decreases len - i,
        {
            self.data[offset + i] = buf[i];
            i += 1;
        }
        assert(self.data@ =~= patched(old(self).data@, offset as int, buf@));
        Ok(())
    }
}

/// A page as held in memory.
#[derive(Debug)]
pub struct RowPage {
    page_id: u32,
    tuple_count: u16,
    free_space_offset: u16,
    slots: Vec<Slot>,
    data: Vec<u8>,
    is_dirty: bool,
    referenced_recently: bool,
}

impl View for RowPage {
    type V = PageView;

    closed spec fn view(&self) -> PageView {
        PageView {
            page_id: self.page_id,
            record_count: self.tuple_count,
            free_space_offset: self.free_space_offset,
            slots: self.slots@,
            data: self.data@,
            is_dirty: self.is_dirty,
            referenced_recently: self.referenced_recently,
        }
    }
}

impl RowPage {
    /// Well-formedness of a page held in memory.
    pub open spec fn wf(&self) -> bool {
        self@.valid()
    }

    /// An empty page.
    pub fn new(id: u32) -> (page: Self)
        ensures
            page.wf(),
            page@ == PageView::empty(id),
    {
        Self {
            page_id: id,
            free_space_offset: 0,
            tuple_count: 0,
            slots: Vec::new(),
            data: Vec::new(),
            is_dirty: false,
            referenced_recently: false,
        }
    }

    /// Whether a record of `len` bytes can still be inserted.
    pub fn has_space_for(&self, len: usize) -> (fits: bool)
        requires
            self.wf(),
        ensures
            fits == self@.has_space_for(len as int),
    {
        len <= PAGE_SIZE && HEADER_SIZE + SLOT_SIZE * (self.slots.len() + 1) + self.data.len()
            + len <= PAGE_SIZE
    }

    /// Appends a record and returns its slot index.
    pub fn insert(&mut self, record_bytes: &[u8]) -> (result: Result<usize, StorageError>)
        requires
            old(self).wf(),
        ensures
            final(self).wf(),
            old(self)@.has_space_for(record_bytes@.len() as int) ==> result == Ok::<
                usize,
                StorageError,
            >(old(self)@.slots.len() as usize) && final(self)@ == old(self)@.with_record(
                record_bytes@,
            ),
            !old(self)@.has_space_for(record_bytes@.len() as int) ==> result == Err::<
                usize,
                StorageError,
            >(StorageError::NotEnoughSpace) && final(self)@ == old(self)@,
    {
        if !self.has_space_for(record_bytes.len()) {
            return Err(StorageError::NotEnoughSpace);
        }
        proof {
            lemma_with_record(self@, record_bytes@);
        }
        let slot_index = self.slots.len();
        let slot = Slot { offset: self.free_space_offset, size: record_bytes.len() as u16 };
        self.slots.push(slot);
        self.tuple_count += 1;
        self.data.extend_from_slice(record_bytes);
        self.free_space_offset += record_bytes.len() as u16;
        self.is_dirty = true;
        self.referenced_recently = true;
        proof {
            let w = old(self)@.with_record(record_bytes@);
            assert(self@.slots =~= w.slots);
            assert(self@.data =~= w.data);
        }
        Ok(slot_index)
    }
    /// The bytes of the record in slot `slot_index`, if there is one.
    /// Reading counts as an access: the page is marked recently referenced.
    pub fn read(&mut self, slot_index: usize) -> (result: Option<Vec<u8>>)
        requires
            old(self).wf(),
        ensures
            final(self).wf(),
            final(self)@ == old(self)@.touched(),
            slot_index < old(self)@.slots.len() ==> result is Some && result.unwrap()@
                == old(self)@.record(slot_index as int),
            slot_index >= old(self)@.slots.len() ==> result is None,
    {
        self.referenced_recently = true;
        self.peek(slot_index)
    }

    /// The bytes of the record in slot `slot_index`, if there is one, without
    /// marking the page.
    pub fn peek(&self, slot_index: usize) -> (result: Option<Vec<u8>>)
        requires
            self.wf(),
        ensures
            slot_index < self@.slots.len() ==> result is Some && result.unwrap()@
                == self@.record(slot_index as int),
            slot_index >= self@.slots.len() ==> result is None,
    {
        if slot_index >= self.slots.len() {
            return None;
        }
        let slot = self.slots[slot_index];
        proof {
            lemma_slot_bounds(self@, slot_index as int);
        }
        let start = slot.offset as usize;
        let end = start + slot.size as usize;
        Some(slice_to_vec(slice_subrange(self.data.as_slice(), start, end)))
    }

    /// The page identifier.
    pub fn get_id(&self) -> (id: u32)
        ensures
            id == self@.page_id,
    {
        self.page_id
    }

    /// How many records the page holds.
    pub fn get_record_count(&self) -> (count: usize)
        ensures
            count == self@.record_count,
    {
        self.tuple_count as usize
    }

    /// The cursor into the data region: how many bytes the records take.
    pub fn get_free_space_offset(&self) -> (offset: u16)
        ensures
            offset == self@.free_space_offset,
    {
        self.free_space_offset
    }

    /// The slot directory.
    pub fn get_slots(&self) -> (slots: &[Slot])
        ensures
            slots@ == self@.slots,
    {
        self.slots.as_slice()
    }

    /// The data region: the bytes of the records, one after the other.
    pub fn get_data(&self) -> (data: &[u8])
        ensures
            data@ == self@.data,
    {
        self.data.as_slice()
    }

    /// Whether the page was changed since it was last written out.
    pub fn is_dirty(&self) -> (dirty: bool)
        ensures
            dirty == self@.is_dirty,
    {
        self.is_dirty
    }

    /// Whether the page was accessed since the clock hand last passed it.
    pub fn is_referenced_recently(&self) -> (referenced: bool)
        ensures
            referenced == self@.referenced_recently,
    {
        self.referenced_recently
    }

    /// Records that the page was written out: it is no longer dirty.
    pub fn mark_clean(&mut self)
        ensures
            final(self)@ == (PageView { is_dirty: false, ..old(self)@ }),
    {
        self.is_dirty = false;
    }

    /// Sets or clears the recently-referenced flag.
    pub fn set_referenced_recently(&mut self, referenced: bool)
        ensures
            final(self)@ == (PageView { referenced_recently: referenced, ..old(self)@ }),
    {
        self.referenced_recently = referenced;
    }

    /// The `PAGE_SIZE` bytes that stand for the page in the backing file.
    pub fn serialize(&self) -> (bytes: Vec<u8>)
        requires
            self.wf(),
        ensures
            bytes@ == self@.image(),
            bytes@.len() == PAGE_SIZE,
    {
        let mut bytes: Vec<u8> = Vec::new();
        let id = u32_to_le_bytes(self.page_id);
        bytes.extend_from_slice(id.as_slice());
        let count = u16_to_le_bytes(self.tuple_count);
        bytes.extend_from_slice(count.as_slice());
        let offset = u16_to_le_bytes(self.free_space_offset);
        bytes.extend_from_slice(offset.as_slice());
        assert(bytes@ =~= self@.header());
        let mut i: usize = 0;
        while i < self.slots.len()
            invariant
                i <= self.slots.len(),
                bytes@ == self@.header() + directory(self.slots@.take(i as int)),
            decreases self.slots.len() - i,
        {
            let slot = self.slots[i];
            let slot_offset = u16_to_le_bytes(slot.offset);
            bytes.extend_from_slice(slot_offset.as_slice());
            let slot_size = u16_to_le_bytes(slot.size);
            bytes.extend_from_slice(slot_size.as_slice());
            proof {
                let done = self.slots@.take(i as int);
                lemma_directory_push(done, slot);
                assert(self.slots@.take(i + 1) =~= done.push(slot));
                assert(bytes@ =~= self@.header() + directory(self.slots@.take(i + 1)));
            }
            i += 1;
        }
        assert(self.slots@.take(i as int) =~= self.slots@);
        bytes.extend_from_slice(self.data.as_slice());
        proof {
            lemma_image_len(self@);
            lemma_directory_len(self.slots@);
        }
        let ghost filled = bytes@;
        assert(filled =~= self@.header() + directory(self.slots@) + self.data@);
        bytes.resize(PAGE_SIZE, 0u8);
        assert(bytes@ =~= self@.image()) by {
            assert(bytes@.len() == PAGE_SIZE);
            assert forall|k: int| 0 <= k < PAGE_SIZE implies bytes@[k] == self@.image()[k] by {
                if k < filled.len() {
                    assert(bytes@.subrange(0, filled.len() as int)[k] == filled[k]);
                }
            }
        }
        bytes
    }

    /// Rebuilds a page from its image, or reports that the bytes are no image.
    pub fn try_deserialize(bytes: &[u8]) -> (result: Option<Self>)
        ensures
            is_page_image(bytes@) ==> result is Some && result.unwrap().wf() && result.unwrap()@
                == parse_image(bytes@),
            !is_page_image(bytes@) ==> result is None,
    {
        if bytes.len() < HEADER_SIZE {
            return None;
        }
        let page_id = u32_from_le_bytes(slice_subrange(bytes, 0, 4));
        let tuple_count = u16_from_le_bytes(slice_subrange(bytes, 4, 6));
        let free_space_offset = u16_from_le_bytes(slice_subrange(bytes, 6, 8));
        let data_start: usize = HEADER_SIZE + SLOT_SIZE * (tuple_count as usize);
        let data_end: usize = data_start + free_space_offset as usize;
        if data_end > bytes.len() || data_end > PAGE_SIZE {
            return None;
        }
        let ghost parsed = parse_image(bytes@);
        let mut slots: Vec<Slot> = Vec::new();
        let mut expected: usize = 0;
        let mut i: usize = 0;
        while i < tuple_count as usize
            invariant
                i <= tuple_count,
                tuple_count == image_record_count(bytes@),
                parsed == parse_image(bytes@),
                data_start == HEADER_SIZE + SLOT_SIZE * (tuple_count as usize),
                data_start <= bytes@.len(),
                data_start <= PAGE_SIZE,
                slots@ == parsed.slots.take(i as int),
                expected <= i * 65535,
                forall|j: int|
                    0 <= j < i ==> (#[trigger] parsed.slots[j]).offset == (if j == 0 {
                        0
                    } else {
                        parsed.slot_end(j - 1)
                    }),
                expected == (if i == 0 {
                    0
                } else {
                    parsed.slot_end(i - 1)
                }),
            decreases tuple_count - i,
        {
            let at: usize = HEADER_SIZE + SLOT_SIZE * i;
            let slot_offset = u16_from_le_bytes(slice_subrange(bytes, at, at + 2));
            let slot_size = u16_from_le_bytes(slice_subrange(bytes, at + 2, at + 4));
            let slot = Slot { offset: slot_offset, size: slot_size };
            assert(slot == parsed.slots[i as int]);
            if slot_offset as usize != expected {
                return None;
            }
            slots.push(slot);
            expected = slot_offset as usize + slot_size as usize;
            assert(slots@ =~= parsed.slots.take(i + 1));
            i += 1;
        }
        assert(slots@ =~= parsed.slots);
        if expected != free_space_offset as usize {
            return None;
        }
        let data = slice_to_vec(slice_subrange(bytes, data_start, data_end));
        let page = Self {
            page_id,
            tuple_count,
            free_space_offset,
            slots,
            data,
            is_dirty: false,
            referenced_recently: false,
        };
        assert(page@ == parsed);
        Some(page)
    }

    /// Rebuilds a page from its image: the inverse of `serialize`.
    pub fn deserialize(bytes: &[u8]) -> (page: Self)
        requires
            is_page_image(bytes@),
        ensures
            page.wf(),
            page@ == parse_image(bytes@),
    {
        Self::try_deserialize(bytes).unwrap()
    }
    /// Encodes the row and appends it as a record. Returns the slot index,
    /// or `None` if the page has no room for it.
    pub fn insert_row(&mut self, tuple: &Row) -> (result: Option<usize>)
        requires
            old(self).wf(),
        ensures
            final(self).wf(),
            old(self)@.has_space_for(row_encoding(tuple@).len() as int) ==> result == Some(
                old(self)@.slots.len() as usize,
            ) && final(self)@ == old(self)@.with_record(row_encoding(tuple@)),
            !old(self)@.has_space_for(row_encoding(tuple@).len() as int) ==> result is None
                && final(self)@ == old(self)@,
    {
        let tuple_bytes = encode_row(tuple);
        match self.insert(tuple_bytes.as_slice()) {
            Ok(slot_index) => Some(slot_index),
            Err(_) => None,
        }
    }

    /// Decodes the row in slot `slot_index`. Gives `None` if there is no
    /// such slot, or if its bytes do not begin with an encoded row. The page
    /// is not marked.
    pub fn get_tuple(&self, slot_index: usize) -> (result: Option<Row>)
        requires
            self.wf(),
        ensures
            slot_index < self@.slots.len() ==> row_view(result) == row_decoding(
                self@.record(slot_index as int),
            ),
            slot_index >= self@.slots.len() ==> result is None,
    {
        match self.peek(slot_index) {
            Some(bytes) => decode_row(bytes.as_slice()),
            None => None,
        }
    }
}

} // verus!
