//! The Thrift `PageHeader` in front of every page body.

use crate::compact::{
    field_header, forward, int32, lemma_field_header_forward, lemma_int32_forward,
    lemma_skip_value_forward, skip_value, CompactReader, HeaderError, Step, I32,
};
use crate::locality::{
    agree, lemma_field_header_local, lemma_int32_local, lemma_skip_value_local,
};
use vstd::prelude::*;

verus! {

/// The kinds of page that Parquet defines.
#[derive(Clone, Copy, Debug, PartialEq, Eq, Structural)]
pub enum PageType {
    /// A version 1 data page, whose whole body is compressed.
    Data,
    /// An index page, which holds no column data.
    Index,
    /// A dictionary page.
    Dictionary,
    /// A version 2 data page, whose body starts with uncompressed levels.
    DataV2,
}

/// What a page header says of the page behind it.
#[derive(Clone, Copy, Debug, PartialEq, Eq, Structural)]
pub struct PageHeaderInfo {
    /// The bytes that the header itself takes.
    pub header_len: usize,
    /// The kind of page.
    pub page_type: PageType,
    /// The bytes of the body as stored.
    pub compressed_len: usize,
    /// The bytes of the body once decompressed.
    pub uncompressed_len: usize,
}

/// The field that holds the page type.
pub const PAGE_TYPE_FIELD: i16 = 1;

/// The field that holds the uncompressed size.
pub const UNCOMPRESSED_SIZE_FIELD: i16 = 2;

/// The field that holds the compressed size.
pub const COMPRESSED_SIZE_FIELD: i16 = 3;

/// A field of a page header, with its value where it is one of those that are looked at.
pub struct HeaderField {
    /// The field's id.
    pub id: i16,
    /// The value of a 32-bit page type or size field.
    pub value: Option<i32>,
}

/// Whether a field is one of those that are looked at. A field that has the right id and
/// another type is passed over like any other.
pub open spec fn is_wanted(field_id: i16, field_type: u8) -> bool {
    &&& field_type == I32
    &&& field_id == PAGE_TYPE_FIELD || field_id == UNCOMPRESSED_SIZE_FIELD || field_id
        == COMPRESSED_SIZE_FIELD
}

/// The value of a header field: read where the field is wanted, passed over where not.
pub open spec fn field_value(buf: Seq<u8>, pos: nat, field_id: i16, field_type: u8) -> Step<
    Option<i32>,
> {
    if is_wanted(field_id, field_type) {
        let step = int32(buf, pos);
        match step.outcome {
            Ok(value) => Step { pos: step.pos, outcome: Ok(Some(value)) },
            Err(error) => Step { pos: step.pos, outcome: Err(error) },
        }
    } else {
        let step = skip_value(buf, pos, field_type, 0);
        match step.outcome {
            Ok(_) => Step { pos: step.pos, outcome: Ok(None) },
            Err(error) => Step { pos: step.pos, outcome: Err(error) },
        }
    }
}

/// The fields from `pos` up to the end of the header, after the field `last_field_id`.
pub open spec fn header_fields(buf: Seq<u8>, pos: nat, last_field_id: i16) -> Step<
    Seq<HeaderField>,
>
    decreases buf.len() - pos,
{
    let header = field_header(buf, pos, last_field_id);
    match header.outcome {
        Err(error) => Step { pos: header.pos, outcome: Err(error) },
        Ok(None) => Step { pos: header.pos, outcome: Ok(Seq::empty()) },
        Ok(Some((id, field_type))) => {
            let value = field_value(buf, header.pos, id, field_type);
            match value.outcome {
                Err(error) => Step { pos: value.pos, outcome: Err(error) },
                Ok(read) => if forward(buf, header.pos, value.pos) {
                    after(
                        seq![HeaderField { id, value: read }],
                        header_fields(buf, value.pos, id),
                    )
                } else {
                    Step { pos: value.pos, outcome: Err(HeaderError::EndsMidField) }
                },
            }
        },
    }
}

/// The step that yields `seen` in front of what `rest` yields.
pub open spec fn after(seen: Seq<HeaderField>, rest: Step<Seq<HeaderField>>) -> Step<
    Seq<HeaderField>,
> {
    match rest.outcome {
        Ok(fields) => Step { pos: rest.pos, outcome: Ok(seen + fields) },
        Err(error) => Step { pos: rest.pos, outcome: Err(error) },
    }
}

/// The value that the last wanted field with the given id holds.
pub open spec fn last_value(fields: Seq<HeaderField>, id: i16) -> Option<i32>
    decreases fields.len(),
{
    if fields.len() == 0 {
        None
    } else if fields.last().id == id && fields.last().value is Some {
        fields.last().value
    } else {
        last_value(fields.drop_last(), id)
    }
}

/// The page kind with the given number.
pub open spec fn page_type_of(number: i32) -> Option<PageType> {
    if number == 0 {
        Some(PageType::Data)
    } else if number == 1 {
        Some(PageType::Index)
    } else if number == 2 {
        Some(PageType::Dictionary)
    } else if number == 3 {
        Some(PageType::DataV2)
    } else {
        None
    }
}

/// What a header of `header_len` bytes with the given field values says.
pub open spec fn header_info(
    header_len: nat,
    page_type: Option<i32>,
    uncompressed: Option<i32>,
    compressed: Option<i32>,
) -> Result<PageHeaderInfo, HeaderError> {
    match page_type {
        None => Err(HeaderError::MissingPageType),
        Some(number) => match page_type_of(number) {
            None => Err(HeaderError::UnknownPageType(number)),
            Some(kind) => match (uncompressed, compressed) {
                (None, _) => Err(HeaderError::MissingSize),
                (Some(_), None) => Err(HeaderError::MissingCompressedSize),
                (Some(uncompressed_len), Some(compressed_len)) => if compressed_len < 0 {
                    Err(HeaderError::NegativeCompressedSize)
                } else if uncompressed_len < 0 {
                    Err(HeaderError::NegativeSize)
                } else {
                    Ok(
                        PageHeaderInfo {
                            header_len: header_len as usize,
                            page_type: kind,
                            compressed_len: compressed_len as usize,
                            uncompressed_len: uncompressed_len as usize,
                        },
                    )
                },
            },
        },
    }
}

/// The page header at the start of `buf`.
#[verifier::opaque]
pub open spec fn page_header(buf: Seq<u8>) -> Result<PageHeaderInfo, HeaderError> {
    let step = header_fields(buf, 0, 0);
    match step.outcome {
        Err(error) => Err(error),
        Ok(fields) => header_info(
            step.pos,
            last_value(fields, PAGE_TYPE_FIELD),
            last_value(fields, UNCOMPRESSED_SIZE_FIELD),
            last_value(fields, COMPRESSED_SIZE_FIELD),
        ),
    }
}

/// The value of a header field ends in the bytes, at or after where it began.
proof fn lemma_field_value_forward(buf: Seq<u8>, pos: nat, field_id: i16, field_type: u8)
    requires
        pos <= buf.len(),
    ensures
        forward(buf, pos, field_value(buf, pos, field_id, field_type).pos),
{
    lemma_int32_forward(buf, pos);
    lemma_skip_value_forward(buf, pos, field_type, 0);
}

/// A header that can be read takes at least one byte and lies in the bytes.
proof fn lemma_header_fields_forward(buf: Seq<u8>, pos: nat, last_field_id: i16)
    requires
        pos <= buf.len(),
    ensures
        header_fields(buf, pos, last_field_id).outcome is Ok ==> pos < header_fields(
            buf,
            pos,
            last_field_id,
        ).pos <= buf.len(),
    decreases buf.len() - pos,
{
    lemma_field_header_forward(buf, pos, last_field_id);
    let header = field_header(buf, pos, last_field_id);
    if let Ok(Some((id, field_type))) = header.outcome {
        lemma_field_value_forward(buf, header.pos, id, field_type);
        let value = field_value(buf, header.pos, id, field_type);
        lemma_header_fields_forward(buf, value.pos, id);
    }
}

/// Every header that can be read takes at least one byte and lies in the bytes it is read
/// from, and the sizes it gives are below two to the thirty-first.
pub(crate) proof fn lemma_page_header_in_bytes(buf: Seq<u8>)
    requires
        buf.len() <= usize::MAX,
    ensures
        page_header(buf) matches Ok(info) ==> {
            &&& 0 < info.header_len <= buf.len()
            &&& info.compressed_len <= i32::MAX
            &&& info.uncompressed_len <= i32::MAX
        },
{
    reveal(page_header);
    lemma_header_fields_forward(buf, 0, 0);
}

/// The value of a header field depends on its own bytes alone.
proof fn lemma_field_value_local(
    a: Seq<u8>,
    b: Seq<u8>,
    pos: nat,
    field_id: i16,
    field_type: u8,
)
    requires
        pos <= a.len(),
        field_value(a, pos, field_id, field_type).outcome is Ok,
        agree(a, b, field_value(a, pos, field_id, field_type).pos),
    ensures
        field_value(b, pos, field_id, field_type) == field_value(a, pos, field_id, field_type),
{
    if is_wanted(field_id, field_type) {
        lemma_int32_local(a, b, pos);
    } else {
        lemma_skip_value_local(a, b, pos, field_type, 0);
    }
}

/// The fields of a header depend on their own bytes alone.
proof fn lemma_header_fields_local(a: Seq<u8>, b: Seq<u8>, pos: nat, last_field_id: i16)
    requires
        pos <= a.len(),
        header_fields(a, pos, last_field_id).outcome is Ok,
        agree(a, b, header_fields(a, pos, last_field_id).pos),
    ensures
        header_fields(b, pos, last_field_id) == header_fields(a, pos, last_field_id),
    decreases a.len() - pos,
{
    lemma_field_header_forward(a, pos, last_field_id);
    let header = field_header(a, pos, last_field_id);
    if let Ok(Some((id, field_type))) = header.outcome {
        let value = field_value(a, header.pos, id, field_type);
        lemma_field_value_forward(a, header.pos, id, field_type);
        lemma_header_fields_forward(a, value.pos, id);
        lemma_field_header_local(a, b, pos, last_field_id);
        lemma_field_value_local(a, b, header.pos, id, field_type);
        lemma_header_fields_local(a, b, value.pos, id);
    } else {
        lemma_field_header_local(a, b, pos, last_field_id);
    }
}

/// A page header depends on its own bytes alone: whatever follows it, it is read the same.
pub proof fn law_header_depends_on_its_own_bytes(buf: Seq<u8>, other: Seq<u8>)
    requires
        buf.len() <= usize::MAX,
        page_header(buf) is Ok,
        agree(buf, other, page_header(buf)->Ok_0.header_len as nat),
    ensures
        page_header(other) == page_header(buf),
{
    reveal(page_header);
    lemma_header_fields_forward(buf, 0, 0);
    lemma_header_fields_local(buf, other, 0, 0);
}

/// The wanted fields of a page header and where the header ends.
struct WantedFields {
    header_len: usize,
    page_type: Option<i32>,
    uncompressed_len: Option<i32>,
    compressed_len: Option<i32>,
}

/// Reads the wanted fields of the page header at the start of `buf`.
fn read_wanted_fields(buf: &[u8]) -> (read: Result<WantedFields, HeaderError>)
    ensures
        match (read, header_fields(buf@, 0, 0).outcome) {
            (Ok(wanted), Ok(fields)) => {
                &&& wanted.header_len == header_fields(buf@, 0, 0).pos
                &&& 0 < wanted.header_len <= buf@.len()
                &&& wanted.page_type == last_value(fields, PAGE_TYPE_FIELD)
                &&& wanted.uncompressed_len == last_value(fields, UNCOMPRESSED_SIZE_FIELD)
                &&& wanted.compressed_len == last_value(fields, COMPRESSED_SIZE_FIELD)
            },
            (Err(error), Err(expected)) => error == expected,
            _ => false,
        },
{
    let mut reader = CompactReader::new(buf);
    let mut page_type: Option<i32> = None;
    let mut uncompressed_len: Option<i32> = None;
    let mut compressed_len: Option<i32> = None;
    let mut last_field_id: i16 = 0;
    let ghost bytes = buf@;
    let ghost mut seen: Seq<HeaderField> = Seq::empty();
    proof {
        lemma_header_fields_forward(bytes, 0, 0);
        if let Ok(fields) = header_fields(bytes, 0, 0).outcome {
            assert(seen + fields =~= fields);
        }
    }
    loop
        invariant_except_break
            header_fields(bytes, 0, 0) == after(
                seen,
                header_fields(bytes, reader.pos as nat, last_field_id),
            ),
        invariant
            reader.wf(),
            reader.buf@ == bytes,
            bytes == buf@,
            page_type == last_value(seen, PAGE_TYPE_FIELD),
            uncompressed_len == last_value(seen, UNCOMPRESSED_SIZE_FIELD),
            compressed_len == last_value(seen, COMPRESSED_SIZE_FIELD),
        ensures
            header_fields(bytes, 0, 0) == (Step { pos: reader.pos as nat, outcome: Ok(seen) }),
        decreases bytes.len() - reader.pos,
    {
        let ghost pos = reader.pos as nat;
        proof {
            lemma_field_header_forward(bytes, pos, last_field_id);
            assert(seen + Seq::<HeaderField>::empty() =~= seen);
        }
        let (field_id, field_type): (i16, u8) = match reader.read_field_header(&mut last_field_id) {
            Err(error) => return Err(error),
            Ok(None) => break ,
            Ok(Some(field)) => field,
        };
        let ghost from = reader.pos as nat;
        let ghost step = field_value(bytes, from, field_id, field_type);
        proof {
            lemma_field_value_forward(bytes, from, field_id, field_type);
        }
        let wanted: bool = field_type == I32 && (field_id == PAGE_TYPE_FIELD || field_id
            == UNCOMPRESSED_SIZE_FIELD || field_id == COMPRESSED_SIZE_FIELD);
        if wanted {
            let value: i32 = match reader.read_i32() {
                Ok(value) => value,
                Err(error) => return Err(error),
            };
            if field_id == PAGE_TYPE_FIELD {
                page_type = Some(value);
            } else if field_id == UNCOMPRESSED_SIZE_FIELD {
                uncompressed_len = Some(value);
            } else {
                compressed_len = Some(value);
            }
        } else {
            match reader.skip_value(field_type, 0) {
                Ok(()) => {},
                Err(error) => return Err(error),
            }
        }
        proof {
            let field = HeaderField { id: field_id, value: step.outcome->Ok_0 };
            assert(seen.push(field).drop_last() =~= seen);
            let rest = header_fields(bytes, step.pos, field_id);
            if let Ok(fields) = rest.outcome {
                assert(seen + (seq![field] + fields) =~= seen.push(field) + fields);
            }
            seen = seen.push(field);
        }
    }
    Ok(
        WantedFields { header_len: reader.pos, page_type, uncompressed_len, compressed_len },
    )
}

/// Reads the page header at the start of `buf`.
pub fn read_page_header(buf: &[u8]) -> (read: Result<PageHeaderInfo, HeaderError>)
    ensures
        read == page_header(buf@),
        read matches Ok(info) ==> 0 < info.header_len <= buf@.len(),
{
    proof {
        reveal(page_header);
    }
    let wanted: WantedFields = match read_wanted_fields(buf) {
        Ok(wanted) => wanted,
        Err(error) => return Err(error),
    };
    let kind: PageType = match wanted.page_type {
        Some(0) => PageType::Data,
        Some(1) => PageType::Index,
        Some(2) => PageType::Dictionary,
        Some(3) => PageType::DataV2,
        Some(other) => return Err(HeaderError::UnknownPageType(other)),
        None => return Err(HeaderError::MissingPageType),
    };
    let uncompressed: i32 = match wanted.uncompressed_len {
        Some(len) => len,
        None => return Err(HeaderError::MissingSize),
    };
    let compressed: i32 = match wanted.compressed_len {
        Some(len) => len,
        None => return Err(HeaderError::MissingCompressedSize),
    };
    if compressed < 0 {
        return Err(HeaderError::NegativeCompressedSize);
    }
    if uncompressed < 0 {
        return Err(HeaderError::NegativeSize);
    }
    Ok(
        PageHeaderInfo {
            header_len: wanted.header_len,
            page_type: kind,
            compressed_len: compressed as usize,
            uncompressed_len: uncompressed as usize,
        },
    )
}

/// Of fields with one id the last that has a value counts, and none where none has one.
pub proof fn law_last_field_counts(fields: Seq<HeaderField>, id: i16)
    ensures
        match last_value(fields, id) {
            None => forall|i: int|
                0 <= i < fields.len() ==> !((#[trigger] fields[i]).id == id && fields[i].value
                    is Some),
            Some(value) => exists|i: int|
                0 <= i < fields.len() && (#[trigger] fields[i]).id == id && fields[i].value == Some(
                    value,
                ) && forall|j: int|
                    i < j < fields.len() ==> !((#[trigger] fields[j]).id == id && fields[j].value
                        is Some),
        },
    decreases fields.len(),
{
    if fields.len() > 0 {
        let last = fields.len() - 1;
        assert(fields[last] == fields.last());
        if !(fields.last().id == id && fields.last().value is Some) {
            let before = fields.drop_last();
            law_last_field_counts(before, id);
            match last_value(before, id) {
                None => {
                    assert forall|i: int| 0 <= i < fields.len() implies !((#[trigger] fields[i]).id
                        == id && fields[i].value is Some) by {
                        if i < last {
                            assert(before[i] == fields[i]);
                        }
                    }
                },
                Some(value) => {
                    let i = choose|i: int|
                        0 <= i < before.len() && (#[trigger] before[i]).id == id && before[i].value
                            == Some(value) && forall|j: int|
                            i < j < before.len() ==> !((#[trigger] before[j]).id == id
                                && before[j].value is Some);
                    assert(fields[i] == before[i]);
                    assert forall|j: int| i < j < fields.len() implies !((#[trigger] fields[j]).id
                        == id && fields[j].value is Some) by {
                        if j < last {
                            assert(before[j] == fields[j]);
                        }
                    }
                },
            }
        }
    }
}

/// A header whose fields can be read says what they say, and is refused for the first of these
/// that holds: it has no page type, or one that there is not; it has no size; it has no
/// compressed size; the one is negative, or the other.
pub proof fn law_header_is_refused_for_what_it_lacks(buf: Seq<u8>)
    requires
        buf.len() <= usize::MAX,
    ensures
        match header_fields(buf, 0, 0).outcome {
            Err(error) => page_header(buf) == Err::<PageHeaderInfo, HeaderError>(error),
            Ok(fields) => {
                let kind = last_value(fields, 1);
                let size = last_value(fields, 2);
                let stored = last_value(fields, 3);
                match page_header(buf) {
                    Err(HeaderError::MissingPageType) => kind is None,
                    Err(HeaderError::UnknownPageType(number)) => kind == Some(number) && (number < 0
                        || number > 3),
                    Err(HeaderError::MissingSize) => kind is Some && size is None,
                    Err(HeaderError::MissingCompressedSize) => kind is Some && size is Some && stored
                        is None,
                    Err(HeaderError::NegativeCompressedSize) => kind is Some && size is Some && (
                    stored matches Some(len) && len < 0),
                    Err(HeaderError::NegativeSize) => kind is Some && (size matches Some(len) && len
                        < 0) && (stored matches Some(len) && len >= 0),
                    Err(_) => false,
                    Ok(info) => {
                        &&& kind == Some(
                            match info.page_type {
                                PageType::Data => 0i32,
                                PageType::Index => 1i32,
                                PageType::Dictionary => 2i32,
                                PageType::DataV2 => 3i32,
                            },
                        )
                        &&& size matches Some(len) && info.uncompressed_len == len
                        &&& stored matches Some(len) && info.compressed_len == len
                        &&& info.header_len == header_fields(buf, 0, 0).pos
                    },
                }
            },
        },
{
    reveal(page_header);
    lemma_header_fields_forward(buf, 0, 0);
}

} // verus!
