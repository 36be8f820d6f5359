//! Tuples in a fixed-width encoding laid down by a column descriptor: an
//! integer takes four bytes, little-endian; a text takes the width of its
//! column, its UTF-8 encoding first and zero bytes after it.

use vstd::prelude::*;
use vstd::bytes::*;
use vstd::slice::*;
use vstd::utf8::*;

verus! {

/// The type of a column.
#[derive(Clone)]
pub enum FieldType {
    Integer,
    Text(usize),
}

/// The value of a field.
#[derive(Debug, Clone, PartialEq, Eq)]
pub enum FieldValue {
    Integer(i32),
    Text(String),
}

/// The mathematical content of a field value.
pub enum FieldValueView {
    Integer(i32),
    Text(Seq<char>),
}

impl View for FieldValue {
    type V = FieldValueView;

    open spec fn view(&self) -> FieldValueView {
        match self {
            FieldValue::Integer(i) => FieldValueView::Integer(*i),
            FieldValue::Text(s) => FieldValueView::Text(s@),
        }
    }
}

/// How many bytes a field of this type takes.
pub open spec fn field_size(t: FieldType) -> nat {
    match t {
        FieldType::Integer => 4,
        FieldType::Text(width) => width as nat,
    }
}

/// How many bytes the fields of these types take together.
pub open spec fn total_size(types: Seq<FieldType>) -> nat
    decreases types.len(),
{
    if types.len() == 0 {
        0
    } else {
        total_size(types.drop_last()) + field_size(types.last())
    }
}

/// `n` zero bytes.
pub open spec fn zeros(n: int) -> Seq<u8> {
    Seq::new(n as nat, |i: int| 0u8)
}

/// The bytes of one field. An integer takes four bytes whatever its column
/// says; a text is padded to the width of its column.
pub open spec fn field_bytes(value: FieldValueView, t: FieldType) -> Seq<u8> {
    match value {
        FieldValueView::Integer(i) => spec_u32_to_le_bytes(i as u32),
        FieldValueView::Text(s) => encode_utf8(s) + zeros(field_size(t) - encode_utf8(s).len()),
    }
}

/// The bytes of the values, one field after the other.
pub open spec fn tuple_bytes(values: Seq<FieldValueView>, types: Seq<FieldType>) -> Seq<u8>
    decreases values.len(),
{
    if values.len() == 0 {
        Seq::empty()
    } else {
        tuple_bytes(values.drop_last(), types) + field_bytes(
            values.last(),
            types[values.len() - 1],
        )
    }
}

/// Whether the values can be encoded under these types: each value has a
/// column, and each text fits the width of its column.
pub open spec fn encodable(values: Seq<FieldValueView>, types: Seq<FieldType>) -> bool {
    &&& values.len() <= types.len()
    &&& forall|i: int|
        0 <= i < values.len() ==> ((#[trigger] values[i]) matches FieldValueView::Text(s)
            ==> encode_utf8(s).len() <= field_size(types[i]))
}

/// The index of the first zero byte, or the length if there is none.
pub open spec fn first_zero(bytes: Seq<u8>) -> int
    decreases bytes.len(),
{
    if bytes.len() == 0 || bytes[0] == 0 {
        0
    } else {
        1 + first_zero(bytes.drop_first())
    }
}

/// The bytes of a text field that stand for the text: those before the
/// first zero byte.
pub open spec fn text_bytes(field: Seq<u8>) -> Seq<u8> {
    field.subrange(0, first_zero(field))
}

/// The bytes of field `i` in an encoded tuple.
pub open spec fn field_slice(types: Seq<FieldType>, bytes: Seq<u8>, i: int) -> Seq<u8> {
    bytes.subrange(
        total_size(types.take(i)) as int,
        (total_size(types.take(i)) + field_size(types[i])) as int,
    )
}

/// The value that the bytes of a field stand for.
pub open spec fn field_value(t: FieldType, field: Seq<u8>) -> FieldValueView {
    match t {
        FieldType::Integer => FieldValueView::Integer(spec_u32_from_le_bytes(field) as i32),
        FieldType::Text(_) => FieldValueView::Text(decode_utf8(text_bytes(field))),
    }
}

/// Whether the bytes are an encoded tuple of these types: they have the
/// length of the tuple, and each text is valid UTF-8.
pub open spec fn decodable(types: Seq<FieldType>, bytes: Seq<u8>) -> bool {
    &&& bytes.len() == total_size(types)
    &&& forall|i: int|
        0 <= i < types.len() && (#[trigger] types[i]) is Text ==> valid_utf8(
            text_bytes(field_slice(types, bytes, i)),
        )
}

/// The values that an encoded tuple of these types stands for.
pub open spec fn parsed_values(types: Seq<FieldType>, bytes: Seq<u8>) -> Seq<FieldValueView> {
    Seq::new(types.len(), |i: int| field_value(types[i], field_slice(types, bytes, i)))
}

/// The views of the values, in order.
pub open spec fn values_view(data: Seq<FieldValue>) -> Seq<FieldValueView> {
    Seq::new(data.len(), |i: int| data[i]@)
}

/// The first `i + 1` fields take what the first `i` take and field `i`
/// takes, and no more than all fields take.
pub proof fn lemma_total_size_take(types: Seq<FieldType>, i: int)
    requires
        0 <= i < types.len(),
    ensures
        total_size(types.take(i + 1)) == total_size(types.take(i)) + field_size(types[i]),
        total_size(types.take(i + 1)) <= total_size(types),
    decreases types.len() - i,
{
    assert(types.take(i + 1).drop_last() =~= types.take(i));
    if i + 1 < types.len() {
        lemma_total_size_take(types, i + 1);
    } else {
        assert(types.take(i + 1) =~= types);
    }
}

/// Where the first zero byte lies, if the bytes before `end` are not zero
/// and the byte at `end`, if there is one, is.
pub proof fn lemma_first_zero(bytes: Seq<u8>, end: int)
    requires
        0 <= end <= bytes.len(),
        forall|j: int| 0 <= j < end ==> bytes[j] != 0,
        end < bytes.len() ==> bytes[end] == 0,
    ensures
        first_zero(bytes) == end,
    decreases bytes.len(),
{
    if end > 0 {
        let rest = bytes.drop_first();
        assert forall|j: int| 0 <= j < end - 1 implies rest[j] != 0 by {
            assert(rest[j] == bytes[j + 1]);
        }
        lemma_first_zero(rest, end - 1);
    }
}

/// Calls `String::from_utf8`. It succeeds exactly on valid UTF-8, and then
/// gives the string that the bytes encode.
#[verifier::external_body]
fn string_from_utf8(bytes: Vec<u8>) -> (result: Option<String>)
    ensures
        valid_utf8(bytes@) ==> result is Some && result.unwrap()@ == decode_utf8(bytes@),
        !valid_utf8(bytes@) ==> result is None,
{
    match String::from_utf8(bytes) {
        Ok(text) => Some(text),
        Err(_) => None,
    }
}

impl FieldType {
    /// How many bytes a field of this type takes.
    pub fn size(&self) -> (size: usize)
        ensures
            size == field_size(*self),
    {
        match self {
            FieldType::Integer => 4,
            FieldType::Text(width) => *width,
        }
    }
}

/// The names and the types of the columns of a table.
#[derive(Clone)]
pub struct TupleMetadata {
    pub columns: Vec<String>,
    pub types: Vec<FieldType>,
}

impl TupleMetadata {
    /// How many bytes an encoded tuple takes.
    pub fn size(&self) -> (size: usize)
        requires
            total_size(self.types@) <= usize::MAX,
        ensures
            size == total_size(self.types@),
    {
        let mut size: usize = 0;
        let mut i: usize = 0;
        while i < self.types.len()
            invariant
                i <= self.types@.len(),
                size == total_size(self.types@.take(i as int)),
                total_size(self.types@) <= usize::MAX,
            decreases self.types.len() - i,
        {
            proof {
                lemma_total_size_take(self.types@, i as int);
            }
            size += self.types[i].size();
            i += 1;
        }
        assert(self.types@.take(i as int) =~= self.types@);
        size
    }
}

/// A tuple: a column descriptor and one value for each column.
pub struct Tuple {
    pub metadata: TupleMetadata,
    pub data: Vec<FieldValue>,
}

impl Tuple {
    /// The values of the tuple.
    pub open spec fn values(&self) -> Seq<FieldValueView> {
        values_view(self.data@)
    }

    /// Decodes a tuple of the given columns.
    pub fn from_bytes(metadata: TupleMetadata, bytes: &[u8]) -> (tuple: Self)
        requires
            total_size(metadata.types@) <= usize::MAX,
            decodable(metadata.types@, bytes@),
        ensures
            tuple.metadata == metadata,
            tuple.values() == parsed_values(metadata.types@, bytes@),
    {
        let mut data: Vec<FieldValue> = Vec::new();
        let mut offset: usize = 0;
        let mut i: usize = 0;
        while i < metadata.types.len()
            invariant
                i <= metadata.types@.len(),
                offset == total_size(metadata.types@.take(i as int)),
                total_size(metadata.types@) <= usize::MAX,
                decodable(metadata.types@, bytes@),
                data@.len() == i,
                forall|j: int|
                    0 <= j < i ==> (#[trigger] data@[j])@ == field_value(
                        metadata.types@[j],
                        field_slice(metadata.types@, bytes@, j),
                    ),
            decreases metadata.types.len() - i,
        {
            proof {
                lemma_total_size_take(metadata.types@, i as int);
            }
            let value_size = metadata.types[i].size();
            let field = slice_subrange(bytes, offset, offset + value_size);
            assert(field@ == field_slice(metadata.types@, bytes@, i as int));
            let value = match &metadata.types[i] {
                FieldType::Integer => {
                    let val = u32_from_le_bytes(field);
                    FieldValue::Integer(
                        #[verifier::truncate]
                        (val as i32),
                    )
                },
                FieldType::Text(_) => {
                    let mut end_index: usize = 0;
                    while end_index < field.len() && field[end_index] != 0
                        invariant
                            end_index <= field@.len(),
                            forall|j: int| 0 <= j < end_index ==> field@[j] != 0,
                        decreases field.len() - end_index,
                    {
                        end_index += 1;
                    }
                    proof {
                        lemma_first_zero(field@, end_index as int);
                    }
                    let text = slice_to_vec(slice_subrange(field, 0, end_index));
                    assert(valid_utf8(text@)) by {
                        assert(metadata.types@[i as int] is Text);
                    }
                    let val = string_from_utf8(text).unwrap();
                    FieldValue::Text(val)
                },
            };
            offset += value_size;
            data.push(value);
            i += 1;
        }
        let tuple = Self { metadata, data };
        assert(tuple.values() =~= parsed_values(metadata.types@, bytes@));
        tuple
    }

    /// Encodes the tuple, one field after the other.
    pub fn to_bytes(&self) -> (bytes: Vec<u8>)
        requires
            encodable(self.values(), self.metadata.types@),
        ensures
            bytes@ == tuple_bytes(self.values(), self.metadata.types@),
    {
        let mut bytes: Vec<u8> = Vec::new();
        let mut i: usize = 0;
        assert(self.values().take(0) =~= Seq::empty());
        while i < self.data.len()
            invariant
                i <= self.data@.len(),
                encodable(self.values(), self.metadata.types@),
                bytes@ == tuple_bytes(self.values().take(i as int), self.metadata.types@),
            decreases self.data.len() - i,
        {
            let ghost done = self.values().take(i as int);
            let ghost value = self.values()[i as int];
            let ghost earlier = bytes@;
            proof {
                assert(self.values().take(i + 1).drop_last() =~= done);
                assert(self.values().take(i + 1).last() == value);
                assert(value == self.data@[i as int]@);
            }
            let t = &self.metadata.types[i];
            match &self.data[i] {
                FieldValue::Integer(v) => {
                    let word = u32_to_le_bytes(
                        #[verifier::truncate]
                        (*v as u32),
                    );
                    bytes.extend_from_slice(word.as_slice());
                    assert(bytes@ =~= earlier + field_bytes(value, *t));
                },
                FieldValue::Text(s) => {
                    let width = t.size();
                    let utf8_bytes = s.as_str().as_bytes();
                    bytes.extend_from_slice(utf8_bytes);
                    let mut k: usize = utf8_bytes.len();
                    while k < width
                        invariant
                            utf8_bytes@.len() <= k <= width,
                            bytes@ == earlier + utf8_bytes@ + zeros(k - utf8_bytes@.len()),
                        decreases width - k,
                    {
                        bytes.push(0u8);
                        assert(bytes@ =~= earlier + utf8_bytes@ + zeros(k + 1 - utf8_bytes@.len()));
                        k += 1;
                    }
                    assert(bytes@ =~= earlier + field_bytes(value, *t));
                },
            }
            i += 1;
        }
        assert(self.values().take(i as int) =~= self.values());
        bytes
    }
}

} // verus!
