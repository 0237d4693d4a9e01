//! A reader for the subset of the Thrift compact protocol that page headers use.
//!
//! The grammar is given by the free spec functions of this module. Each describes one
//! construct as a [`Step`]: where reading it from a position ends, and what it yields. The
//! methods of [`CompactReader`] are proved to take exactly those steps.

use vstd::arithmetic::power::{lemma_pow0, pow};
use vstd::prelude::*;

verus! {

/// Why a page header could not be read.
#[derive(Clone, Copy, Debug, PartialEq, Eq, Structural)]
pub enum HeaderError {
    /// The bytes end where a field or an integer goes on.
    EndsMidField,
    /// The bytes end inside a value of known length.
    EndsMidValue,
    /// No byte of a varint within the 64-bit range ends it.
    VarintNotTerminated,
    /// A 32-bit field holds a number outside the 32-bit range.
    I32OutOfRange,
    /// An explicit field id is outside the 16-bit range.
    FieldIdOutOfRange,
    /// A relative field id passes the largest 16-bit id.
    FieldIdOverflow,
    /// A length does not fit the address space.
    LengthOutOfRange,
    /// Structs are nested deeper than [`MAX_STRUCT_DEPTH`].
    StructTooDeep,
    /// A field has a type outside the supported subset.
    UnsupportedType(u8),
    /// The page type is none of those that Parquet defines.
    UnknownPageType(i32),
    /// The header has no page type.
    MissingPageType,
    /// The header has no uncompressed size.
    MissingSize,
    /// The header has no compressed size.
    MissingCompressedSize,
    /// The compressed size is negative.
    NegativeCompressedSize,
    /// The uncompressed size is negative.
    NegativeSize,
}

/// Marks the end of a struct.
pub const STOP: u8 = 0x00;

/// A boolean field holding true.
pub const BOOL_TRUE: u8 = 0x01;

/// A boolean field holding false.
pub const BOOL_FALSE: u8 = 0x02;

/// A single byte.
pub const I8: u8 = 0x03;

/// A zigzag varint of 16 bits.
pub const I16: u8 = 0x04;

/// A zigzag varint of 32 bits.
pub const I32: u8 = 0x05;

/// A zigzag varint of 64 bits.
pub const I64: u8 = 0x06;

/// Eight bytes.
pub const DOUBLE: u8 = 0x07;

/// A varint length and that many bytes.
pub const BINARY: u8 = 0x08;

/// A list of elements of one type.
pub const LIST: u8 = 0x09;

/// A set of elements of one type, laid out as a list.
pub const SET: u8 = 0x0a;

/// A map from keys of one type to values of one type.
pub const MAP: u8 = 0x0b;

/// A sequence of fields that ends with [`STOP`].
pub const STRUCT: u8 = 0x0c;

/// Sixteen bytes.
pub const UUID: u8 = 0x0d;

/// How deep structs may nest before a header is taken to be malformed.
pub const MAX_STRUCT_DEPTH: u32 = 32;

/// The bytes that a 64-bit varint takes at most.
pub const MAX_VARINT_BYTES: u32 = 10;

/// What reading one construct does: the position it leaves the reader at, and its yield.
pub struct Step<T> {
    /// The position after the step.
    pub pos: nat,
    /// What was read, or why nothing was.
    pub outcome: Result<T, HeaderError>,
}

/// A byte.
pub open spec fn byte(buf: Seq<u8>, pos: nat) -> Step<u8> {
    if pos < buf.len() {
        Step { pos: pos + 1, outcome: Ok(buf[pos as int]) }
    } else {
        Step { pos, outcome: Err(HeaderError::EndsMidField) }
    }
}

/// A run of `len` bytes that are passed over.
pub open spec fn skip_bytes(buf: Seq<u8>, pos: nat, len: nat) -> Step<()> {
    if pos + len <= buf.len() {
        Step { pos: pos + len, outcome: Ok(()) }
    } else {
        Step { pos, outcome: Err(HeaderError::EndsMidValue) }
    }
}

/// How many bytes from `pos` on, but at most `limit`, have their high bit set.
pub open spec fn continuation_run(buf: Seq<u8>, pos: nat, limit: nat) -> nat
    decreases limit,
{
    if limit > 0 && pos < buf.len() && buf[pos as int] >= 0x80 {
        1 + continuation_run(buf, pos + 1, (limit - 1) as nat)
    } else {
        0
    }
}

/// The number whose base-128 digits, least significant first, are the low seven bits of
/// each byte.
pub open spec fn base128(bytes: Seq<u8>) -> nat
    decreases bytes.len(),
{
    if bytes.len() == 0 {
        0
    } else {
        (bytes[0] as nat % 128) + 128 * base128(bytes.drop_first())
    }
}

/// A varint: bytes up to the first whose high bit is clear, of which the low 64 bits count.
pub open spec fn varint(buf: Seq<u8>, pos: nat) -> Step<u64> {
    let run = continuation_run(buf, pos, MAX_VARINT_BYTES as nat);
    if run == MAX_VARINT_BYTES {
        Step { pos: pos + run, outcome: Err(HeaderError::VarintNotTerminated) }
    } else if pos + run < buf.len() {
        let value = base128(buf.subrange(pos as int, (pos + run + 1) as int)) % 0x1_0000_0000_0000_0000;
        Step { pos: pos + run + 1, outcome: Ok(value as u64) }
    } else {
        Step { pos: pos + run, outcome: Err(HeaderError::EndsMidField) }
    }
}

/// The signed number that zigzag encoding maps to `encoded`.
pub open spec fn unzigzag(encoded: u64) -> i64 {
    if encoded % 2 == 0 {
        (encoded / 2) as i64
    } else {
        (-(encoded / 2) - 1) as i64
    }
}

/// A signed integer, zigzag encoded as a varint.
pub open spec fn zigzag(buf: Seq<u8>, pos: nat) -> Step<i64> {
    let step = varint(buf, pos);
    match step.outcome {
        Ok(encoded) => Step { pos: step.pos, outcome: Ok(unzigzag(encoded)) },
        Err(error) => Step { pos: step.pos, outcome: Err(error) },
    }
}

/// A signed integer that must fit 32 bits.
pub open spec fn int32(buf: Seq<u8>, pos: nat) -> Step<i32> {
    let step = zigzag(buf, pos);
    match step.outcome {
        Ok(value) => if i32::MIN <= value <= i32::MAX {
            Step { pos: step.pos, outcome: Ok(value as i32) }
        } else {
            Step { pos: step.pos, outcome: Err(HeaderError::I32OutOfRange) }
        },
        Err(error) => Step { pos: step.pos, outcome: Err(error) },
    }
}

/// A varint that counts bytes or elements.
pub open spec fn length(buf: Seq<u8>, pos: nat) -> Step<usize> {
    let step = varint(buf, pos);
    match step.outcome {
        Ok(value) => if value <= usize::MAX {
            Step { pos: step.pos, outcome: Ok(value as usize) }
        } else {
            Step { pos: step.pos, outcome: Err(HeaderError::LengthOutOfRange) }
        },
        Err(error) => Step { pos: step.pos, outcome: Err(error) },
    }
}

/// A field header: the id and type of the next field, or `None` at the struct's end.
///
/// The high four bits of the first byte hold the distance from the previous id; where they
/// are zero the id follows in full.
pub open spec fn field_header(buf: Seq<u8>, pos: nat, last_field_id: i16) -> Step<
    Option<(i16, u8)>,
> {
    let first = byte(buf, pos);
    match first.outcome {
        Err(error) => Step { pos: first.pos, outcome: Err(error) },
        Ok(header) => {
            let field_type = header % 16;
            let delta = header / 16;
            if header == STOP {
                Step { pos: first.pos, outcome: Ok(None) }
            } else if delta == 0 {
                let id = zigzag(buf, first.pos);
                match id.outcome {
                    Err(error) => Step { pos: id.pos, outcome: Err(error) },
                    Ok(value) => if i16::MIN <= value <= i16::MAX {
                        Step { pos: id.pos, outcome: Ok(Some((value as i16, field_type))) }
                    } else {
                        Step { pos: id.pos, outcome: Err(HeaderError::FieldIdOutOfRange) }
                    },
                }
            } else if last_field_id + delta <= i16::MAX {
                Step {
                    pos: first.pos,
                    outcome: Ok(Some(((last_field_id + delta) as i16, field_type))),
                }
            } else {
                Step { pos: first.pos, outcome: Err(HeaderError::FieldIdOverflow) }
            }
        },
    }
}

/// A list or set header: the element count and the element type.
///
/// Counts below fifteen share a byte with the type; longer ones follow as a varint.
pub open spec fn collection_header(buf: Seq<u8>, pos: nat) -> Step<(usize, u8)> {
    let first = byte(buf, pos);
    match first.outcome {
        Err(error) => Step { pos: first.pos, outcome: Err(error) },
        Ok(header) => {
            let element_type = header % 16;
            if header / 16 == 0x0f {
                let len = length(buf, first.pos);
                match len.outcome {
                    Err(error) => Step { pos: len.pos, outcome: Err(error) },
                    Ok(len_value) => Step { pos: len.pos, outcome: Ok((len_value, element_type)) },
                }
            } else {
                Step { pos: first.pos, outcome: Ok(((header / 16) as usize, element_type)) }
            }
        },
    }
}

/// One level below `depth`.
pub open spec fn deeper(depth: u32) -> u32 {
    if depth < u32::MAX {
        (depth + 1) as u32
    } else {
        depth
    }
}

/// The step forgets what it read.
pub open spec fn ignoring<T>(step: Step<T>) -> Step<()> {
    match step.outcome {
        Ok(_) => Step { pos: step.pos, outcome: Ok(()) },
        Err(error) => Step { pos: step.pos, outcome: Err(error) },
    }
}

/// Whether a step from `from` to `to` stays in the bytes and does not go back. Every step
/// does so; saying it makes the recursion below well founded.
pub open spec fn forward(buf: Seq<u8>, from: nat, to: nat) -> bool {
    from <= to <= buf.len()
}

/// The value of a field, passed over. A boolean is held by its type and takes no bytes.
pub open spec fn skip_value(buf: Seq<u8>, pos: nat, field_type: u8, depth: u32) -> Step<()>
    decreases buf.len() - pos, 2nat,
{
    if field_type == BOOL_TRUE || field_type == BOOL_FALSE {
        Step { pos, outcome: Ok(()) }
    } else if field_type == I8 {
        skip_bytes(buf, pos, 1)
    } else if field_type == I16 || field_type == I32 || field_type == I64 {
        ignoring(varint(buf, pos))
    } else if field_type == DOUBLE {
        skip_bytes(buf, pos, 8)
    } else if field_type == UUID {
        skip_bytes(buf, pos, 16)
    } else if field_type == BINARY {
        let len = length(buf, pos);
        match len.outcome {
            Err(error) => Step { pos: len.pos, outcome: Err(error) },
            Ok(bytes) => skip_bytes(buf, len.pos, bytes as nat),
        }
    } else if field_type == LIST || field_type == SET {
        let header = collection_header(buf, pos);
        match header.outcome {
            Err(error) => Step { pos: header.pos, outcome: Err(error) },
            Ok((len, element_type)) => skip_elements(
                buf,
                header.pos,
                len as nat,
                element_type,
                deeper(depth),
            ),
        }
    } else if field_type == MAP {
        let len = length(buf, pos);
        match len.outcome {
            Err(error) => Step { pos: len.pos, outcome: Err(error) },
            Ok(entries) => if entries == 0 {
                Step { pos: len.pos, outcome: Ok(()) }
            } else {
                let types = byte(buf, len.pos);
                match types.outcome {
                    Err(error) => Step { pos: types.pos, outcome: Err(error) },
                    Ok(pair) => skip_entries(
                        buf,
                        types.pos,
                        entries as nat,
                        pair / 16,
                        pair % 16,
                        deeper(depth),
                    ),
                }
            },
        }
    } else if field_type == STRUCT {
        skip_struct(buf, pos, depth)
    } else {
        Step { pos, outcome: Err(HeaderError::UnsupportedType(field_type)) }
    }
}

/// One element of a collection, passed over. Unlike in a field, a boolean takes a byte here.
pub open spec fn skip_element(buf: Seq<u8>, pos: nat, element_type: u8, depth: u32) -> Step<()>
    decreases buf.len() - pos, 3nat,
{
    if element_type == BOOL_TRUE || element_type == BOOL_FALSE {
        skip_bytes(buf, pos, 1)
    } else {
        skip_value(buf, pos, element_type, depth)
    }
}

/// `count` elements of one type, passed over.
pub open spec fn skip_elements(
    buf: Seq<u8>,
    pos: nat,
    count: nat,
    element_type: u8,
    depth: u32,
) -> Step<()>
    decreases buf.len() - pos, 4 + count,
{
    if count == 0 {
        Step { pos, outcome: Ok(()) }
    } else {
        let element = skip_element(buf, pos, element_type, depth);
        if element.outcome is Ok && forward(buf, pos, element.pos) {
            skip_elements(buf, element.pos, (count - 1) as nat, element_type, depth)
        } else {
            element
        }
    }
}

/// `count` key-value pairs, passed over.
pub open spec fn skip_entries(
    buf: Seq<u8>,
    pos: nat,
    count: nat,
    key_type: u8,
    value_type: u8,
    depth: u32,
) -> Step<()>
    decreases buf.len() - pos, 4 + count,
{
    if count == 0 {
        Step { pos, outcome: Ok(()) }
    } else {
        let key = skip_element(buf, pos, key_type, depth);
        if key.outcome is Ok && forward(buf, pos, key.pos) {
            let value = skip_element(buf, key.pos, value_type, depth);
            if value.outcome is Ok && forward(buf, key.pos, value.pos) {
                skip_entries(buf, value.pos, (count - 1) as nat, key_type, value_type, depth)
            } else {
                value
            }
        } else {
            key
        }
    }
}

/// The fields of a struct at nesting level `depth` up to its end, passed over.
pub open spec fn skip_fields(buf: Seq<u8>, pos: nat, last_field_id: i16, depth: u32) -> Step<()>
    decreases buf.len() - pos, 0nat,
{
    let header = field_header(buf, pos, last_field_id);
    match header.outcome {
        Err(error) => Step { pos: header.pos, outcome: Err(error) },
        Ok(None) => Step { pos: header.pos, outcome: Ok(()) },
        Ok(Some((field_id, field_type))) => {
            let value = skip_value(buf, header.pos, field_type, deeper(depth));
            if value.outcome is Ok && forward(buf, header.pos, value.pos) {
                skip_fields(buf, value.pos, field_id, depth)
            } else {
                value
            }
        },
    }
}

/// A whole struct, passed over.
pub open spec fn skip_struct(buf: Seq<u8>, pos: nat, depth: u32) -> Step<()>
    decreases buf.len() - pos, 1nat,
{
    if depth < MAX_STRUCT_DEPTH {
        skip_fields(buf, pos, 0, depth)
    } else {
        Step { pos, outcome: Err(HeaderError::StructTooDeep) }
    }
}

/// The bit operations on header bytes, as arithmetic.
proof fn lemma_byte_bits(b: u8)
    ensures
        b & 0x0f == b % 16,
        b >> 4 == b / 16,
        b & 0x7f == b % 128,
        b & 0x80 == 0 <==> b < 0x80,
{
    assert(b & 0x0f == b % 16 && b >> 4 == b / 16 && b & 0x7f == b % 128) by (bit_vector);
    assert(b & 0x80 == 0 <==> b < 0x80) by (bit_vector);
}

/// Placing a base-128 digit above a number that fits below it adds the digit at its weight,
/// less what leaves the 64-bit range.
proof fn lemma_place_digit(value: u64, digit: u64, index: u32)
    requires
        index < MAX_VARINT_BYTES,
        digit < 128,
        value < pow(128, index as nat),
    ensures
        value | (digit << (7 * index) as u32) == (value + digit * pow(128, index as nat))
            % 0x1_0000_0000_0000_0000,
{
    let shift: u32 = (7 * index) as u32;
    let weight: u64 = if index == 0 {
        1
    } else if index == 1 {
        0x80
    } else if index == 2 {
        0x4000
    } else if index == 3 {
        0x20_0000
    } else if index == 4 {
        0x1000_0000
    } else if index == 5 {
        0x8_0000_0000
    } else if index == 6 {
        0x400_0000_0000
    } else if index == 7 {
        0x2_0000_0000_0000
    } else if index == 8 {
        0x100_0000_0000_0000
    } else {
        0x8000_0000_0000_0000
    };
    assert(pow(128, index as nat) == weight) by {
        lemma_pow0(128);
        reveal_with_fuel(pow, 11);
    }
    assert(1u64 << shift == weight) by (bit_vector)
        requires
            shift == 7 * index,
            index < 10,
            weight == if index == 0 { 1u64 } else if index == 1 { 0x80u64 } else if index == 2 {
                0x4000u64
            } else if index == 3 { 0x20_0000u64 } else if index == 4 {
                0x1000_0000u64
            } else if index == 5 { 0x8_0000_0000u64 } else if index == 6 {
                0x400_0000_0000u64
            } else if index == 7 { 0x2_0000_0000_0000u64 } else if index == 8 {
                0x100_0000_0000_0000u64
            } else { 0x8000_0000_0000_0000u64 },
    ;
    assert(value | (digit << shift) == (value + digit * weight) % 0x1_0000_0000_0000_0000)
        by (bit_vector)
        requires
            shift == 7 * index,
            index < 10,
            digit < 128,
            value < weight,
            1u64 << shift == weight,
    ;
}

/// One more digit at the top of a base-128 number.
proof fn lemma_base128_push(bytes: Seq<u8>, b: u8)
    ensures
        base128(bytes.push(b)) == base128(bytes) + (b as nat % 128) * pow(128, bytes.len()),
        base128(bytes) < pow(128, bytes.len()),
    decreases bytes.len(),
{
    lemma_pow0(128);
    reveal(pow);
    if bytes.len() == 0 {
        assert(bytes.push(b).drop_first() =~= bytes);
        assert(base128(bytes.push(b).drop_first()) == 0);
    } else {
        let rest = bytes.drop_first();
        lemma_base128_push(rest, b);
        assert(bytes.push(b).drop_first() =~= rest.push(b));
        let d = b as nat % 128;
        let p = pow(128, rest.len());
        assert(pow(128, bytes.len()) == 128 * p);
        assert(128 * (base128(rest) + d * p) == 128 * base128(rest) + d * (128 * p))
            by (nonlinear_arith);
    }
}

/// A varint leaves the reader in the bytes, at or after where it began.
pub(crate) proof fn lemma_varint_forward(buf: Seq<u8>, pos: nat)
    requires
        pos <= buf.len(),
    ensures
        forward(buf, pos, varint(buf, pos).pos),
{
    lemma_run_in_bytes(buf, pos, MAX_VARINT_BYTES as nat);
}

/// A run of continuation bytes lies in the bytes.
pub(crate) proof fn lemma_run_in_bytes(buf: Seq<u8>, pos: nat, limit: nat)
    requires
        pos <= buf.len(),
    ensures
        pos + continuation_run(buf, pos, limit) <= buf.len(),
        continuation_run(buf, pos, limit) <= limit,
    decreases limit,
{
    if limit > 0 && pos < buf.len() && buf[pos as int] >= 0x80 {
        lemma_run_in_bytes(buf, pos + 1, (limit - 1) as nat);
    }
}

/// A field header leaves the reader in the bytes, and past where it began if one was read.
pub(crate) proof fn lemma_field_header_forward(buf: Seq<u8>, pos: nat, last_field_id: i16)
    requires
        pos <= buf.len(),
    ensures
        forward(buf, pos, field_header(buf, pos, last_field_id).pos),
        field_header(buf, pos, last_field_id).outcome is Ok ==> pos < field_header(
            buf,
            pos,
            last_field_id,
        ).pos,
{
    if pos < buf.len() {
        lemma_varint_forward(buf, pos + 1);
    }
}

/// A 32-bit integer leaves the reader in the bytes, at or after where it began.
pub(crate) proof fn lemma_int32_forward(buf: Seq<u8>, pos: nat)
    requires
        pos <= buf.len(),
    ensures
        forward(buf, pos, int32(buf, pos).pos),
{
    lemma_varint_forward(buf, pos);
}

/// Passing over a value never goes back and never leaves the bytes.
pub(crate) proof fn lemma_skip_value_forward(buf: Seq<u8>, pos: nat, field_type: u8, depth: u32)
    requires
        pos <= buf.len(),
    ensures
        forward(buf, pos, skip_value(buf, pos, field_type, depth).pos),
    decreases buf.len() - pos, 2nat,
{
    lemma_varint_forward(buf, pos);
    if field_type == LIST || field_type == SET {
        if pos < buf.len() {
            lemma_varint_forward(buf, pos + 1);
        }
        let header = collection_header(buf, pos);
        if let Ok((len, element_type)) = header.outcome {
            lemma_skip_elements_forward(buf, header.pos, len as nat, element_type, deeper(depth));
        }
    } else if field_type == MAP {
        let len = length(buf, pos);
        if let Ok(entries) = len.outcome {
            let types = byte(buf, len.pos);
            if let Ok(pair) = types.outcome {
                lemma_skip_entries_forward(
                    buf,
                    types.pos,
                    entries as nat,
                    pair / 16,
                    pair % 16,
                    deeper(depth),
                );
            }
        }
    } else if field_type == STRUCT {
        if depth < MAX_STRUCT_DEPTH {
            lemma_skip_fields_forward(buf, pos, 0, depth);
        }
    }
}

/// Passing over elements never goes back and never leaves the bytes.
pub(crate) proof fn lemma_skip_elements_forward(
    buf: Seq<u8>,
    pos: nat,
    count: nat,
    element_type: u8,
    depth: u32,
)
    requires
        pos <= buf.len(),
    ensures
        forward(buf, pos, skip_elements(buf, pos, count, element_type, depth).pos),
    decreases buf.len() - pos, 4 + count,
{
    if count > 0 {
        lemma_skip_element_forward(buf, pos, element_type, depth);
        let element = skip_element(buf, pos, element_type, depth);
        lemma_skip_elements_forward(
            buf,
            element.pos,
            (count - 1) as nat,
            element_type,
            depth,
        );
    }
}

/// Passing over an element never goes back and never leaves the bytes.
pub(crate) proof fn lemma_skip_element_forward(buf: Seq<u8>, pos: nat, element_type: u8, depth: u32)
    requires
        pos <= buf.len(),
    ensures
        forward(buf, pos, skip_element(buf, pos, element_type, depth).pos),
    decreases buf.len() - pos, 3nat,
{
    lemma_skip_value_forward(buf, pos, element_type, depth);
}

/// Passing over map entries never goes back and never leaves the bytes.
pub(crate) proof fn lemma_skip_entries_forward(
    buf: Seq<u8>,
    pos: nat,
    count: nat,
    key_type: u8,
    value_type: u8,
    depth: u32,
)
    requires
        pos <= buf.len(),
    ensures
        forward(buf, pos, skip_entries(buf, pos, count, key_type, value_type, depth).pos),
    decreases buf.len() - pos, 4 + count,
{
    if count > 0 {
        lemma_skip_element_forward(buf, pos, key_type, depth);
        let key = skip_element(buf, pos, key_type, depth);
        lemma_skip_element_forward(buf, key.pos, value_type, depth);
        let value = skip_element(buf, key.pos, value_type, depth);
        lemma_skip_entries_forward(
            buf,
            value.pos,
            (count - 1) as nat,
            key_type,
            value_type,
            depth,
        );
    }
}

/// Passing over fields never goes back and never leaves the bytes.
pub(crate) proof fn lemma_skip_fields_forward(buf: Seq<u8>, pos: nat, last_field_id: i16, depth: u32)
    requires
        pos <= buf.len(),
    ensures
        forward(buf, pos, skip_fields(buf, pos, last_field_id, depth).pos),
    decreases buf.len() - pos, 0nat,
{
    lemma_field_header_forward(buf, pos, last_field_id);
    let header = field_header(buf, pos, last_field_id);
    if let Ok(Some((field_id, field_type))) = header.outcome {
        lemma_skip_value_forward(buf, header.pos, field_type, deeper(depth));
        let value = skip_value(buf, header.pos, field_type, deeper(depth));
        lemma_skip_fields_forward(buf, value.pos, field_id, depth);
    }
}

/// Something that is still to be passed over.
#[derive(Clone, Copy)]
enum Task {
    /// The value of a field.
    Value(u8, u32),
    /// One element of a collection.
    Element(u8, u32),
    /// The elements of a collection that are left.
    Elements(usize, u8, u32),
    /// The entries of a map that are left.
    Entries(usize, u8, u8, u32),
    /// The fields of a struct from here on, after the field with the given id.
    Fields(i16, u32),
}

/// What one task does.
#[verifier::opaque]
spec fn task_step(buf: Seq<u8>, pos: nat, task: Task) -> Step<()> {
    match task {
        Task::Value(field_type, depth) => skip_value(buf, pos, field_type, depth),
        Task::Element(element_type, depth) => skip_element(buf, pos, element_type, depth),
        Task::Elements(left, element_type, depth) => skip_elements(
            buf,
            pos,
            left as nat,
            element_type,
            depth,
        ),
        Task::Entries(left, key_type, value_type, depth) => skip_entries(
            buf,
            pos,
            left as nat,
            key_type,
            value_type,
            depth,
        ),
        Task::Fields(last_field_id, depth) => skip_fields(buf, pos, last_field_id, depth),
    }
}

/// What a stack of tasks does, the last one first.
spec fn stack_step(buf: Seq<u8>, pos: nat, tasks: Seq<Task>) -> Step<()>
    decreases tasks.len(),
{
    if tasks.len() == 0 {
        Step { pos, outcome: Ok(()) }
    } else {
        let first = task_step(buf, pos, tasks.last());
        match first.outcome {
            Ok(_) => stack_step(buf, first.pos, tasks.drop_last()),
            Err(_) => first,
        }
    }
}

/// A bound on the tasks that a task turns into without reading a byte.
spec fn task_weight(task: Task) -> nat {
    match task {
        Task::Value(_, _) => 1,
        Task::Element(_, _) => 2,
        Task::Elements(left, _, _) => 1 + 3 * left as nat,
        Task::Entries(left, _, _, _) => 1 + 5 * left as nat,
        Task::Fields(_, _) => 1,
    }
}

/// The weight of a stack.
spec fn stack_weight(tasks: Seq<Task>) -> nat
    decreases tasks.len(),
{
    if tasks.len() == 0 {
        0
    } else {
        task_weight(tasks.last()) + stack_weight(tasks.drop_last())
    }
}

/// Pushing a task onto a stack puts its step before those of the rest.
proof fn lemma_push_task(buf: Seq<u8>, pos: nat, tasks: Seq<Task>, task: Task)
    ensures
        stack_step(buf, pos, tasks.push(task)) == match task_step(buf, pos, task).outcome {
            Ok(_) => stack_step(buf, task_step(buf, pos, task).pos, tasks),
            Err(_) => task_step(buf, pos, task),
        },
        stack_weight(tasks.push(task)) == task_weight(task) + stack_weight(tasks),
{
    assert(tasks.push(task).drop_last() =~= tasks);
}

/// Reads Thrift compact constructs from a byte slice.
pub struct CompactReader<'a> {
    /// The bytes to read.
    pub buf: &'a [u8],
    /// The position of the next byte.
    pub pos: usize,
}

impl<'a> CompactReader<'a> {
    /// The position is in the bytes, or just past them.
    pub open spec fn wf(&self) -> bool {
        self.pos <= self.buf@.len()
    }

    /// A reader at the start of `buf`.
    pub fn new(buf: &'a [u8]) -> (reader: Self)
        ensures
            reader.wf(),
            reader.buf == buf,
            reader.pos == 0,
    {
        CompactReader { buf, pos: 0 }
    }

    /// Reads a byte.
    pub fn read_u8(&mut self) -> (read: Result<u8, HeaderError>)
        requires
            old(self).wf(),
        ensures
            final(self).wf(),
            final(self).buf == old(self).buf,
            read == byte(old(self).buf@, old(self).pos as nat).outcome,
            final(self).pos == byte(old(self).buf@, old(self).pos as nat).pos,
    {
        if self.pos < self.buf.len() {
            let byte: u8 = self.buf[self.pos];
            self.pos = self.pos + 1;
            Ok(byte)
        } else {
            Err(HeaderError::EndsMidField)
        }
    }

    /// Passes over `len` bytes.
    pub fn advance(&mut self, len: usize) -> (done: Result<(), HeaderError>)
        requires
            old(self).wf(),
        ensures
            final(self).wf(),
            final(self).buf == old(self).buf,
            done == skip_bytes(old(self).buf@, old(self).pos as nat, len as nat).outcome,
            final(self).pos == skip_bytes(old(self).buf@, old(self).pos as nat, len as nat).pos,
    {
        if len <= self.buf.len() - self.pos {
            self.pos = self.pos + len;
            Ok(())
        } else {
            Err(HeaderError::EndsMidValue)
        }
    }

    /// Reads a varint.
    pub fn read_varint(&mut self) -> (read: Result<u64, HeaderError>)
        requires
            old(self).wf(),
        ensures
            final(self).wf(),
            final(self).buf == old(self).buf,
            read == varint(old(self).buf@, old(self).pos as nat).outcome,
            final(self).pos == varint(old(self).buf@, old(self).pos as nat).pos,
    {
        let ghost buf = self.buf@;
        let ghost start = self.pos as nat;
        let mut value: u64 = 0;
        let mut index: u32 = 0;
        assert(buf.subrange(start as int, start as int) =~= Seq::<u8>::empty());
        while index < MAX_VARINT_BYTES
            invariant
                self.wf(),
                self.buf@ == buf,
                self.buf == old(self).buf,
                start == old(self).pos,
                index <= MAX_VARINT_BYTES,
                self.pos == start + index,
                continuation_run(buf, start, MAX_VARINT_BYTES as nat) == index + continuation_run(
                    buf,
                    (start + index) as nat,
                    (MAX_VARINT_BYTES - index) as nat,
                ),
                value == base128(buf.subrange(start as int, start + index))
                    % 0x1_0000_0000_0000_0000,
            decreases MAX_VARINT_BYTES - index,
        {
            let byte: u8 = match self.read_u8() {
                Ok(byte) => byte,
                Err(error) => return Err(error),
            };
            let ghost seen = buf.subrange(start as int, start + index);
            proof {
                lemma_byte_bits(byte);
                lemma_base128_push(seen, byte);
                assert(seen.push(byte) =~= buf.subrange(start as int, start + index + 1));
                reveal_with_fuel(pow, 11);
                assert(pow(128, index as nat) <= 0x8000_0000_0000_0000);
                lemma_place_digit(value, (byte & 0x7f) as u64, index);
            }
            value = value | (((byte & 0x7f) as u64) << (7 * index));
            if byte & 0x80 == 0 {
                return Ok(value);
            }
            index = index + 1;
        }
        Err(HeaderError::VarintNotTerminated)
    }

    /// Reads a zigzag varint.
    pub fn read_zigzag(&mut self) -> (read: Result<i64, HeaderError>)
        requires
            old(self).wf(),
        ensures
            final(self).wf(),
            final(self).buf == old(self).buf,
            read == zigzag(old(self).buf@, old(self).pos as nat).outcome,
            final(self).pos == zigzag(old(self).buf@, old(self).pos as nat).pos,
    {
        match self.read_varint() {
            Ok(encoded) => {
                let half: i64 = (encoded >> 1) as i64;
                let sign: i64 = (encoded & 1) as i64;
                assert(half == encoded / 2 && 0 <= sign <= 1 && sign == encoded % 2) by (bit_vector)
                    requires
                        half == (encoded >> 1) as i64,
                        sign == (encoded & 1) as i64,
                ;
                let mask: i64 = -sign;
                assert(half ^ mask == if sign == 0 { half as int } else { -half - 1 }) by (bit_vector)
                    requires
                        mask == -sign,
                        0 <= sign <= 1,
                ;
                Ok(half ^ mask)
            },
            Err(error) => Err(error),
        }
    }

    /// Reads a 32-bit integer.
    pub fn read_i32(&mut self) -> (read: Result<i32, HeaderError>)
        requires
            old(self).wf(),
        ensures
            final(self).wf(),
            final(self).buf == old(self).buf,
            read == int32(old(self).buf@, old(self).pos as nat).outcome,
            final(self).pos == int32(old(self).buf@, old(self).pos as nat).pos,
    {
        match self.read_zigzag() {
            Ok(value) => if i32::MIN as i64 <= value && value <= i32::MAX as i64 {
                Ok(value as i32)
            } else {
                Err(HeaderError::I32OutOfRange)
            },
            Err(error) => Err(error),
        }
    }

    /// Reads a varint that counts bytes or elements.
    fn read_length(&mut self) -> (read: Result<usize, HeaderError>)
        requires
            old(self).wf(),
        ensures
            final(self).wf(),
            final(self).buf == old(self).buf,
            read == length(old(self).buf@, old(self).pos as nat).outcome,
            final(self).pos == length(old(self).buf@, old(self).pos as nat).pos,
    {
        match self.read_varint() {
            Ok(value) => if value <= usize::MAX as u64 {
                Ok(value as usize)
            } else {
                Err(HeaderError::LengthOutOfRange)
            },
            Err(error) => Err(error),
        }
    }

    /// Reads the next field header, or `None` at the struct's end. The id that was read
    /// becomes the one that the next header counts from.
    pub fn read_field_header(&mut self, last_field_id: &mut i16) -> (read: Result<
        Option<(i16, u8)>,
        HeaderError,
    >)
        requires
            old(self).wf(),
        ensures
            final(self).wf(),
            final(self).buf == old(self).buf,
            read == field_header(old(self).buf@, old(self).pos as nat, *old(last_field_id)).outcome,
            final(self).pos == field_header(
                old(self).buf@,
                old(self).pos as nat,
                *old(last_field_id),
            ).pos,
            *final(last_field_id) == match read {
                Ok(Some((field_id, _))) => field_id,
                _ => *old(last_field_id),
            },
    {
        let header: u8 = match self.read_u8() {
            Ok(header) => header,
            Err(error) => return Err(error),
        };
        if header == STOP {
            return Ok(None);
        }
        proof {
            lemma_byte_bits(header);
        }
        let field_type: u8 = header & 0x0f;
        let delta: u8 = header >> 4;
        let field_id: i16 = if delta == 0 {
            match self.read_zigzag() {
                Ok(value) => if i16::MIN as i64 <= value && value <= i16::MAX as i64 {
                    value as i16
                } else {
                    return Err(HeaderError::FieldIdOutOfRange);
                },
                Err(error) => return Err(error),
            }
        } else {
            match last_field_id.checked_add(delta as i16) {
                Some(field_id) => field_id,
                None => return Err(HeaderError::FieldIdOverflow),
            }
        };
        *last_field_id = field_id;
        Ok(Some((field_id, field_type)))
    }

    /// Reads a list or set header: the element count and type.
    pub fn read_collection_header(&mut self) -> (read: Result<(usize, u8), HeaderError>)
        requires
            old(self).wf(),
        ensures
            final(self).wf(),
            final(self).buf == old(self).buf,
            read == collection_header(old(self).buf@, old(self).pos as nat).outcome,
            final(self).pos == collection_header(old(self).buf@, old(self).pos as nat).pos,
    {
        let header: u8 = match self.read_u8() {
            Ok(header) => header,
            Err(error) => return Err(error),
        };
        proof {
            lemma_byte_bits(header);
        }
        let element_type: u8 = header & 0x0f;
        let short_len: u8 = header >> 4;
        if short_len == 0x0f {
            match self.read_length() {
                Ok(len) => Ok((len, element_type)),
                Err(error) => Err(error),
            }
        } else {
            Ok((short_len as usize, element_type))
        }
    }

    /// Passes over what `first` describes.
    ///
    /// Nested constructs are kept on a stack of their own, so however deep the bytes nest
    /// collections the call stack does not grow.
    fn skip(&mut self, first: Task) -> (done: Result<(), HeaderError>)
        requires
            old(self).wf(),
        ensures
            final(self).wf(),
            final(self).buf == old(self).buf,
            done == task_step(old(self).buf@, old(self).pos as nat, first).outcome,
            final(self).pos == task_step(old(self).buf@, old(self).pos as nat, first).pos,
    {
        let ghost buf = self.buf@;
        let ghost whole = task_step(buf, self.pos as nat, first);
        let mut stack: Vec<Task> = Vec::new();
        proof {
            lemma_push_task(buf, self.pos as nat, stack@, first);
            assert(stack_step(buf, whole.pos, stack@).pos == whole.pos);
            if let Ok(unit) = whole.outcome {
                let nothing: () = unit;
                assert(nothing == ());
            }
        }
        stack.push(first);
        while stack.len() > 0
            invariant
                self.wf(),
                self.buf == old(self).buf,
                buf == self.buf@,
                whole == task_step(buf, old(self).pos as nat, first),
                stack_step(buf, self.pos as nat, stack@) == whole,
            decreases buf.len() - self.pos, stack_weight(stack@),
        {
            let ghost before = stack@;
            let ghost pos = self.pos as nat;
            let task = match stack.pop() {
                Some(task) => task,
                None => return Ok(()),
            };
            let ghost rest = stack@;
            assert(before =~= rest.push(task));
            proof {
                lemma_push_task(buf, pos, rest, task);
            }
            match self.skip_one(task, &mut stack) {
                Ok(()) => {},
                Err(error) => return Err(error),
            }
        }
        Ok(())
    }

    /// Reads what `task` holds itself and leaves what is nested in it on the stack.
    #[verifier::rlimit(60)]
    fn skip_one(&mut self, task: Task, stack: &mut Vec<Task>) -> (done: Result<(), HeaderError>)
        requires
            old(self).wf(),
        ensures
            final(self).wf(),
            final(self).buf == old(self).buf,
            done matches Err(error) ==> {
                &&& task_step(old(self).buf@, old(self).pos as nat, task).outcome == Err::<
                    (),
                    HeaderError,
                >(error)
                &&& task_step(old(self).buf@, old(self).pos as nat, task).pos == final(self).pos
            },
            done is Ok ==> {
                &&& stack_step(old(self).buf@, final(self).pos as nat, final(stack)@)
                    == stack_step(old(self).buf@, old(self).pos as nat, old(stack)@.push(task))
                &&& final(self).pos >= old(self).pos
                &&& final(self).pos == old(self).pos ==> stack_weight(final(stack)@)
                    < stack_weight(old(stack)@.push(task))
            },
    {
        let ghost buf = self.buf@;
        let ghost pos = self.pos as nat;
        let ghost rest = stack@;
        proof {
            reveal(task_step);
            lemma_push_task(buf, pos, rest, task);
        }
        match task {
            Task::Value(field_type, depth) => self.skip_value_head(field_type, depth, stack),
            Task::Element(element_type, depth) => {
                if element_type == BOOL_TRUE || element_type == BOOL_FALSE {
                    self.advance(1)
                } else {
                    proof {
                        lemma_push_task(buf, pos, rest, Task::Value(element_type, depth));
                    }
                    stack.push(Task::Value(element_type, depth));
                    Ok(())
                }
            },
            Task::Elements(left, element_type, depth) => {
                if left > 0 {
                    let remaining = Task::Elements(left - 1, element_type, depth);
                    let element = Task::Element(element_type, depth);
                    proof {
                        lemma_skip_element_forward(buf, pos, element_type, depth);
                        let next = skip_element(buf, pos, element_type, depth).pos;
                        lemma_push_task(buf, next, rest, remaining);
                        lemma_push_task(buf, pos, rest.push(remaining), element);
                    }
                    stack.push(remaining);
                    stack.push(element);
                }
                Ok(())
            },
            Task::Entries(left, key_type, value_type, depth) => {
                if left > 0 {
                    let remaining = Task::Entries(left - 1, key_type, value_type, depth);
                    let value = Task::Element(value_type, depth);
                    let key = Task::Element(key_type, depth);
                    proof {
                        lemma_skip_element_forward(buf, pos, key_type, depth);
                        let after_key = skip_element(buf, pos, key_type, depth).pos;
                        lemma_skip_element_forward(buf, after_key, value_type, depth);
                        let after_value = skip_element(buf, after_key, value_type, depth).pos;
                        lemma_push_task(buf, after_value, rest, remaining);
                        lemma_push_task(buf, after_key, rest.push(remaining), value);
                        lemma_push_task(buf, pos, rest.push(remaining).push(value), key);
                    }
                    stack.push(remaining);
                    stack.push(value);
                    stack.push(key);
                }
                Ok(())
            },
            Task::Fields(last_field_id, depth) => {
                let mut field_id: i16 = last_field_id;
                proof {
                    lemma_field_header_forward(buf, pos, last_field_id);
                }
                match self.read_field_header(&mut field_id) {
                    Err(error) => Err(error),
                    Ok(None) => Ok(()),
                    Ok(Some((_, field_type))) => {
                        let below: u32 = depth.saturating_add(1);
                        let remaining = Task::Fields(field_id, depth);
                        let value = Task::Value(field_type, below);
                        proof {
                            let from = self.pos as nat;
                            lemma_skip_value_forward(buf, from, field_type, below);
                            let next = skip_value(buf, from, field_type, below).pos;
                            lemma_push_task(buf, next, rest, remaining);
                            lemma_push_task(buf, from, rest.push(remaining), value);
                        }
                        stack.push(remaining);
                        stack.push(value);
                        Ok(())
                    },
                }
            },
        }
    }

    /// Passes over a field value, except for what is nested in it, which goes on the stack.
    #[verifier::rlimit(60)]
    fn skip_value_head(&mut self, field_type: u8, depth: u32, stack: &mut Vec<Task>) -> (done: Result<
        (),
        HeaderError,
    >)
        requires
            old(self).wf(),
        ensures
            final(self).wf(),
            final(self).buf == old(self).buf,
            done matches Err(error) ==> {
                &&& skip_value(old(self).buf@, old(self).pos as nat, field_type, depth).outcome
                    == Err::<(), HeaderError>(error)
                &&& skip_value(old(self).buf@, old(self).pos as nat, field_type, depth).pos
                    == final(self).pos
            },
            done is Ok ==> {
                &&& stack_step(old(self).buf@, final(self).pos as nat, final(stack)@)
                    == stack_step(
                    old(self).buf@,
                    old(self).pos as nat,
                    old(stack)@.push(Task::Value(field_type, depth)),
                )
                &&& final(self).pos >= old(self).pos
                &&& final(self).pos == old(self).pos ==> stack_weight(final(stack)@)
                    < stack_weight(old(stack)@.push(Task::Value(field_type, depth)))
            },
    {
        let ghost buf = self.buf@;
        let ghost pos = self.pos as nat;
        let ghost rest = stack@;
        proof {
            reveal(task_step);
            lemma_push_task(buf, pos, rest, Task::Value(field_type, depth));
            lemma_varint_forward(buf, pos);
        }
        let below: u32 = depth.saturating_add(1);
        match field_type {
            BOOL_TRUE | BOOL_FALSE => Ok(()),
            I8 => self.advance(1),
            I16 | I32 | I64 => match self.read_varint() {
                Ok(_) => Ok(()),
                Err(error) => Err(error),
            },
            DOUBLE => self.advance(8),
            UUID => self.advance(16),
            BINARY => match self.read_length() {
                Ok(len) => self.advance(len),
                Err(error) => Err(error),
            },
            LIST | SET => match self.read_collection_header() {
                Ok((len, element_type)) => {
                    proof {
                        lemma_push_task(
                            buf,
                            self.pos as nat,
                            rest,
                            Task::Elements(len, element_type, below),
                        );
                    }
                    stack.push(Task::Elements(len, element_type, below));
                    Ok(())
                },
                Err(error) => Err(error),
            },
            MAP => match self.read_length() {
                Ok(len) => {
                    if len == 0 {
                        return Ok(());
                    }
                    match self.read_u8() {
                        Ok(types) => {
                            proof {
                                lemma_byte_bits(types);
                                lemma_push_task(
                                    buf,
                                    self.pos as nat,
                                    rest,
                                    Task::Entries(len, types / 16, types % 16, below),
                                );
                            }
                            stack.push(Task::Entries(len, types >> 4, types & 0x0f, below));
                            Ok(())
                        },
                        Err(error) => Err(error),
                    }
                },
                Err(error) => Err(error),
            },
            STRUCT => {
                if depth >= MAX_STRUCT_DEPTH {
                    return Err(HeaderError::StructTooDeep);
                }
                let mut field_id: i16 = 0;
                proof {
                    lemma_field_header_forward(buf, pos, 0);
                }
                match self.read_field_header(&mut field_id) {
                    Err(error) => Err(error),
                    Ok(None) => Ok(()),
                    Ok(Some((_, first_type))) => {
                        let remaining = Task::Fields(field_id, depth);
                        let value = Task::Value(first_type, below);
                        proof {
                            let from = self.pos as nat;
                            lemma_skip_value_forward(buf, from, first_type, below);
                            let next = skip_value(buf, from, first_type, below).pos;
                            lemma_push_task(buf, next, rest, remaining);
                            lemma_push_task(buf, from, rest.push(remaining), value);
                        }
                        stack.push(remaining);
                        stack.push(value);
                        Ok(())
                    },
                }
            },
            other => Err(HeaderError::UnsupportedType(other)),
        }
    }

    /// Passes over a struct at nesting level `depth`.
    pub fn skip_struct(&mut self, depth: u32) -> (done: Result<(), HeaderError>)
        requires
            old(self).wf(),
        ensures
            final(self).wf(),
            final(self).buf == old(self).buf,
            done == skip_struct(old(self).buf@, old(self).pos as nat, depth).outcome,
            final(self).pos == skip_struct(old(self).buf@, old(self).pos as nat, depth).pos,
    {
        proof {
            reveal(task_step);
        }
        self.skip(Task::Value(STRUCT, depth))
    }

    /// Passes over a field value. A boolean is held by its type and takes no bytes.
    pub fn skip_value(&mut self, field_type: u8, depth: u32) -> (done: Result<(), HeaderError>)
        requires
            old(self).wf(),
        ensures
            final(self).wf(),
            final(self).buf == old(self).buf,
            done == skip_value(old(self).buf@, old(self).pos as nat, field_type, depth).outcome,
            final(self).pos == skip_value(
                old(self).buf@,
                old(self).pos as nat,
                field_type,
                depth,
            ).pos,
    {
        proof {
            reveal(task_step);
        }
        self.skip(Task::Value(field_type, depth))
    }

    /// Passes over one element of a collection. A boolean takes a byte of its own here.
    pub fn skip_element(&mut self, element_type: u8, depth: u32) -> (done: Result<
        (),
        HeaderError,
    >)
        requires
            old(self).wf(),
        ensures
            final(self).wf(),
            final(self).buf == old(self).buf,
            done == skip_element(old(self).buf@, old(self).pos as nat, element_type, depth).outcome,
            final(self).pos == skip_element(
                old(self).buf@,
                old(self).pos as nat,
                element_type,
                depth,
            ).pos,
    {
        proof {
            reveal(task_step);
        }
        self.skip(Task::Element(element_type, depth))
    }
}

} // verus!
