//! The byte encoding of records and rows.
//!
//! Values are encoded by `bincode` with its default configuration for the
//! top-level functions: integers in fixed width, little-endian; a string as
//! the length of its UTF-8 encoding in eight bytes, then the encoding; the
//! fields of a value one after the other. Decoding accepts trailing bytes.

use vstd::prelude::*;
use vstd::bytes::*;
use vstd::utf8::*;
use crate::record::{Record, RecordView};
use crate::table::{Row, RowView};

verus! {

/// The encoding of a string: the length of its UTF-8 encoding, then the encoding.
pub open spec fn string_encoding(chars: Seq<char>) -> Seq<u8> {
    spec_u64_to_le_bytes(encode_utf8(chars).len() as u64) + encode_utf8(chars)
}

/// The length that an encoded string announces in its first eight bytes.
pub open spec fn announced_length(bytes: Seq<u8>) -> int {
    spec_u64_from_le_bytes(bytes.subrange(0, 8)) as int
}

/// Whether the bytes begin with an encoded string.
pub open spec fn begins_with_string(bytes: Seq<u8>) -> bool {
    &&& bytes.len() >= 8
    &&& 8 + announced_length(bytes) <= bytes.len()
    &&& valid_utf8(bytes.subrange(8, 8 + announced_length(bytes)))
}

/// The string that the bytes begin with.
pub open spec fn leading_string(bytes: Seq<u8>) -> Seq<char> {
    decode_utf8(bytes.subrange(8, 8 + announced_length(bytes)))
}

/// The encoding of a record: identifier, name, age.
pub open spec fn record_encoding(record: RecordView) -> Seq<u8> {
    spec_u32_to_le_bytes(record.id) + string_encoding(record.name) + seq![record.age]
}

/// The record that the bytes begin with, if they begin with one.
pub open spec fn record_decoding(bytes: Seq<u8>) -> Option<RecordView> {
    if bytes.len() >= 4 && begins_with_string(bytes.skip(4)) && 4 + 8 + announced_length(
        bytes.skip(4),
    ) < bytes.len() {
        Some(
            RecordView {
                id: spec_u32_from_le_bytes(bytes.subrange(0, 4)),
                name: leading_string(bytes.skip(4)),
                age: bytes[4 + 8 + announced_length(bytes.skip(4))],
            },
        )
    } else {
        None
    }
}

/// The encoding of a row: name, age.
pub open spec fn row_encoding(row: RowView) -> Seq<u8> {
    string_encoding(row.name) + seq![row.age]
}

/// The row that the bytes begin with, if they begin with one.
pub open spec fn row_decoding(bytes: Seq<u8>) -> Option<RowView> {
    if begins_with_string(bytes) && 8 + announced_length(bytes) < bytes.len() {
        Some(RowView { name: leading_string(bytes), age: bytes[8 + announced_length(bytes)] })
    } else {
        None
    }
}

/// The view of a record that may be absent.
pub open spec fn record_view(record: Option<Record>) -> Option<RecordView> {
    match record {
        Some(r) => Some(r@),
        None => None,
    }
}

/// The view of a row that may be absent.
pub open spec fn row_view(row: Option<Row>) -> Option<RowView> {
    match row {
        Some(r) => Some(r@),
        None => None,
    }
}

/// An encoded string, followed by anything, begins with that string.
pub proof fn lemma_string_round_trip(chars: Seq<char>, rest: Seq<u8>)
    requires
        encode_utf8(chars).len() <= u64::MAX,
    ensures
        string_encoding(chars).len() == 8 + encode_utf8(chars).len(),
        begins_with_string(string_encoding(chars) + rest),
        announced_length(string_encoding(chars) + rest) == encode_utf8(chars).len(),
        leading_string(string_encoding(chars) + rest) == chars,
{
    lemma_auto_spec_u64_to_from_le_bytes();
    encode_utf8_valid_utf8(chars);
    encode_utf8_decode_utf8(chars);
    let text = encode_utf8(chars);
    let length = spec_u64_to_le_bytes(text.len() as u64);
    let bytes = string_encoding(chars) + rest;
    assert(length.len() == 8);
    assert(bytes.subrange(0, 8) =~= length);
    assert(announced_length(bytes) == text.len());
    assert(bytes.subrange(8, 8 + text.len() as int) =~= text);
}

/// Decoding gives back every record that was encoded.
pub proof fn lemma_record_round_trip(record: RecordView)
    requires
        encode_utf8(record.name).len() <= u64::MAX,
    ensures
        record_decoding(record_encoding(record)) == Some(record),
        record_encoding(record).len() == 13 + encode_utf8(record.name).len(),
{
    lemma_auto_spec_u32_to_from_le_bytes();
    let id = spec_u32_to_le_bytes(record.id);
    let bytes = record_encoding(record);
    let rest = seq![record.age];
    lemma_string_round_trip(record.name, rest);
    assert(id.len() == 4);
    assert(bytes.subrange(0, 4) =~= id);
    assert(bytes.skip(4) =~= string_encoding(record.name) + rest);
}

/// Decoding gives back every row that was encoded.
pub proof fn lemma_row_round_trip(row: RowView)
    requires
        encode_utf8(row.name).len() <= u64::MAX,
    ensures
        row_decoding(row_encoding(row)) == Some(row),
        row_encoding(row).len() == 9 + encode_utf8(row.name).len(),
{
    lemma_string_round_trip(row.name, seq![row.age]);
}

/// Calls `bincode::serialize` on the fields of the record, as a tuple. The
/// result is the encoding described at the head of this file.
#[verifier::external_body]
pub(crate) fn encode_record(record: &Record) -> (bytes: Vec<u8>)
    ensures
        bytes@ == record_encoding(record@),
{
    bincode::serialize(&(record.id, &record.name, record.age)).unwrap()
}

/// Calls `bincode::deserialize` for a tuple of the fields of a record. It
/// succeeds exactly on bytes that begin with an encoded record, and gives
/// that record.
#[verifier::external_body]
pub(crate) fn decode_record(bytes: &[u8]) -> (record: Option<Record>)
    ensures
        record_view(record) == record_decoding(bytes@),
{
    match bincode::deserialize::<(u32, String, u8)>(bytes) {
        Ok((id, name, age)) => Some(Record { id, name, age }),
        Err(_) => None,
    }
}

/// Calls `bincode::serialize` on the fields of the row, as a tuple. The
/// result is the encoding described at the head of this file.
#[verifier::external_body]
pub(crate) fn encode_row(row: &Row) -> (bytes: Vec<u8>)
    ensures
        bytes@ == row_encoding(row@),
{
    bincode::serialize(&(&row.name, row.age)).unwrap()
}

/// Calls `bincode::deserialize` for a tuple of the fields of a row. It
/// succeeds exactly on bytes that begin with an encoded row, and gives that
/// row.
#[verifier::external_body]
pub(crate) fn decode_row(bytes: &[u8]) -> (row: Option<Row>)
    ensures
        row_view(row) == row_decoding(bytes@),
{
    match bincode::deserialize::<(String, u8)>(bytes) {
        Ok((name, age)) => Some(Row { name, age }),
        Err(_) => None,
    }
}

} // verus!
