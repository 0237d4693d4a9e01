//! What writing a page header puts into a file, for reading it to be held against.

use crate::compact::{
    base128, collection_header, continuation_run, field_header, int32, skip_element, skip_elements,
    skip_entries, skip_fields, skip_value, varint, zigzag, HeaderError, Step,
};
use crate::page_header::{header_fields, last_value, page_header, HeaderField, PageType};
use vstd::arithmetic::power::{lemma_pow0, pow};
use vstd::prelude::*;

verus! {

/// Whether `bytes` stand at `pos`.
pub open spec fn stand_at(buf: Seq<u8>, pos: nat, bytes: Seq<u8>) -> bool {
    pos + bytes.len() <= buf.len() && buf.subrange(pos as int, (pos + bytes.len()) as int) == bytes
}

/// A number as a varint: seven bits to a byte, the least significant first, and the high bit
/// set on every byte but the last.
pub open spec fn varint_bytes(n: nat) -> Seq<u8>
    decreases n,
{
    if n < 128 {
        seq![n as u8]
    } else {
        seq![(n % 128 + 128) as u8] + varint_bytes(n / 128)
    }
}

/// A signed number as a zigzag varint: 0, -1, 1, -2, 2 and so on count up from zero.
pub open spec fn zigzag_bytes(value: int) -> Seq<u8> {
    if value >= 0 {
        varint_bytes((2 * value) as nat)
    } else {
        varint_bytes((-2 * value - 1) as nat)
    }
}

/// What stands at a place stands there in pieces.
pub(crate) proof fn lemma_stand_at_pieces(buf: Seq<u8>, pos: nat, first: Seq<u8>, rest: Seq<u8>)
    requires
        stand_at(buf, pos, first + rest),
    ensures
        stand_at(buf, pos, first),
        stand_at(buf, pos + first.len(), rest),
{
    let whole = first + rest;
    assert(buf.subrange(pos as int, (pos + first.len()) as int) =~= whole.subrange(
        0,
        first.len() as int,
    ));
    assert(whole.subrange(0, first.len() as int) =~= first);
    assert(buf.subrange((pos + first.len()) as int, (pos + first.len() + rest.len()) as int)
        =~= whole.subrange(first.len() as int, whole.len() as int));
    assert(whole.subrange(first.len() as int, whole.len() as int) =~= rest);
}

/// The first byte of what stands at a place.
proof fn lemma_stand_at_first(buf: Seq<u8>, pos: nat, bytes: Seq<u8>)
    requires
        stand_at(buf, pos, bytes),
        bytes.len() > 0,
    ensures
        pos < buf.len(),
        buf[pos as int] == bytes[0],
{
    assert(buf.subrange(pos as int, (pos + bytes.len()) as int)[0] == buf[pos as int]);
}

/// The run of continuation bytes of a written varint is all of it but the last byte.
proof fn lemma_run_of_written(buf: Seq<u8>, pos: nat, n: nat, limit: nat)
    requires
        stand_at(buf, pos, varint_bytes(n)),
        n < pow(128, limit),
        limit > 0,
    ensures
        continuation_run(buf, pos, limit) == varint_bytes(n).len() - 1,
        continuation_run(buf, pos, limit) < limit,
        varint_bytes(n).len() > 0,
        base128(varint_bytes(n)) == n,
    decreases limit,
{
    lemma_pow0(128);
    reveal(pow);
    let bytes = varint_bytes(n);
    lemma_stand_at_first(buf, pos, bytes);
    if n < 128 {
        assert(bytes.drop_first() =~= Seq::empty());
        assert(base128(bytes.drop_first()) == 0);
    } else {
        let first = seq![(n % 128 + 128) as u8];
        lemma_stand_at_pieces(buf, pos, first, varint_bytes(n / 128));
        assert(n / 128 < pow(128, (limit - 1) as nat));
        lemma_run_of_written(buf, pos + 1, n / 128, (limit - 1) as nat);
        assert(bytes.drop_first() =~= varint_bytes(n / 128));
    }
}

/// A varint reads as the number that was written.
pub proof fn law_varint_reads_what_was_written(buf: Seq<u8>, pos: nat, n: u64)
    requires
        stand_at(buf, pos, varint_bytes(n as nat)),
    ensures
        varint(buf, pos) == (Step {
            pos: pos + varint_bytes(n as nat).len(),
            outcome: Ok::<u64, HeaderError>(n),
        }),
{
    lemma_pow0(128);
    assert(pow(128, 10) > u64::MAX) by {
        reveal_with_fuel(pow, 11);
    }
    lemma_run_of_written(buf, pos, n as nat, 10);
}

/// A zigzag varint reads as the signed number that was written.
pub proof fn law_zigzag_reads_what_was_written(buf: Seq<u8>, pos: nat, value: i64)
    requires
        stand_at(buf, pos, zigzag_bytes(value as int)),
    ensures
        zigzag(buf, pos) == (Step {
            pos: pos + zigzag_bytes(value as int).len(),
            outcome: Ok::<i64, HeaderError>(value),
        }),
{
    let n: u64 = if value >= 0 {
        (2 * value) as u64
    } else {
        (-2 * value - 1) as u64
    };
    law_varint_reads_what_was_written(buf, pos, n);
}

/// A 32-bit integer reads as the one that was written; a wider one is refused.
pub proof fn law_int32_reads_what_was_written(buf: Seq<u8>, pos: nat, value: i64)
    requires
        stand_at(buf, pos, zigzag_bytes(value as int)),
    ensures
        int32(buf, pos).pos == pos + zigzag_bytes(value as int).len(),
        int32(buf, pos).outcome == if i32::MIN <= value <= i32::MAX {
            Ok::<i32, HeaderError>(value as i32)
        } else {
            Err(HeaderError::I32OutOfRange)
        },
{
    law_zigzag_reads_what_was_written(buf, pos, value);
}

/// A field header as one byte: the distance from the field before, and the type.
pub open spec fn short_field_bytes(delta: nat, field_type: nat) -> Seq<u8> {
    seq![(delta * 16 + field_type) as u8]
}

/// A field header with the id in full.
pub open spec fn long_field_bytes(id: i16, field_type: nat) -> Seq<u8> {
    seq![field_type as u8] + zigzag_bytes(id as int)
}

/// A field header reads as the field that was written, in either form, and the zero byte as
/// the end of a struct.
pub proof fn law_field_header_reads_what_was_written(
    buf: Seq<u8>,
    pos: nat,
    last: i16,
    id: i16,
    field_type: nat,
)
    requires
        0 < field_type < 16,
    ensures
        1 <= id - last <= 15 && stand_at(
            buf,
            pos,
            short_field_bytes((id - last) as nat, field_type),
        ) ==> field_header(buf, pos, last) == (Step {
            pos: pos + 1,
            outcome: Ok::<Option<(i16, u8)>, HeaderError>(Some((id, field_type as u8))),
        }),
        stand_at(buf, pos, long_field_bytes(id, field_type)) ==> field_header(buf, pos, last) == (
        Step {
            pos: pos + 1 + zigzag_bytes(id as int).len(),
            outcome: Ok::<Option<(i16, u8)>, HeaderError>(Some((id, field_type as u8))),
        }),
        stand_at(buf, pos, seq![0u8]) ==> field_header(buf, pos, last) == (Step {
            pos: pos + 1,
            outcome: Ok::<Option<(i16, u8)>, HeaderError>(None),
        }),
{
    if 1 <= id - last <= 15 && stand_at(
        buf,
        pos,
        short_field_bytes((id - last) as nat, field_type),
    ) {
        lemma_stand_at_first(buf, pos, short_field_bytes((id - last) as nat, field_type));
        let delta = id - last;
        assert((delta * 16 + field_type) / 16 == delta);
        assert((delta * 16 + field_type) % 16 == field_type);
    }
    if stand_at(buf, pos, long_field_bytes(id, field_type)) {
        lemma_stand_at_pieces(buf, pos, seq![field_type as u8], zigzag_bytes(id as int));
        lemma_stand_at_first(buf, pos, seq![field_type as u8]);
        law_zigzag_reads_what_was_written(buf, pos + 1, id as i64);
    }
    if stand_at(buf, pos, seq![0u8]) {
        lemma_stand_at_first(buf, pos, seq![0u8]);
    }
}

/// A value in the compact protocol.
pub enum Thrift {
    /// A boolean.
    Bool(bool),
    /// A byte.
    Byte(u8),
    /// An integer of 16, 32 or 64 bits, by the number of its type, with what its varint holds.
    Int(u8, u64),
    /// Eight bytes.
    Double(Seq<u8>),
    /// Sixteen bytes.
    Uuid(Seq<u8>),
    /// Any number of bytes.
    Binary(Seq<u8>),
    /// A list, or else a set, of elements of one type.
    List(bool, u8, Seq<Thrift>),
    /// A map from keys of one type to values of one type.
    Mapping(u8, u8, Seq<(Thrift, Thrift)>),
    /// A struct: for each field the distance of its id from the one before, and its value.
    Struct(Seq<(nat, Thrift)>),
}

/// The number of a value's type.
pub open spec fn type_number(value: Thrift) -> u8 {
    match value {
        Thrift::Bool(true) => 1,
        Thrift::Bool(false) => 2,
        Thrift::Byte(_) => 3,
        Thrift::Int(field_type, _) => field_type,
        Thrift::Double(_) => 7,
        Thrift::Binary(_) => 8,
        Thrift::List(true, _, _) => 9,
        Thrift::List(false, _, _) => 10,
        Thrift::Mapping(_, _, _) => 11,
        Thrift::Struct(_) => 12,
        Thrift::Uuid(_) => 13,
    }
}

/// Whether an element can stand in a collection of the given type. Booleans of either value
/// have either type there.
pub open spec fn has_type(value: Thrift, element_type: u8) -> bool {
    type_number(value) == element_type || value is Bool && (element_type == 1 || element_type == 2)
}

/// One level deeper.
pub open spec fn below(depth: u32) -> u32 {
    if depth < u32::MAX {
        (depth + 1) as u32
    } else {
        depth
    }
}

/// The fields of a struct at nesting level `depth`, with ids after `last`, are ones that can be
/// written.
pub open spec fn fields_wf(fields: Seq<(nat, Thrift)>, last: int, depth: u32) -> bool
    decreases fields,
{
    fields.len() == 0 || {
        &&& 1 <= fields[0].0 <= 15
        &&& last + fields[0].0 <= i16::MAX
        &&& value_wf(fields[0].1, below(depth))
        &&& fields_wf(fields.drop_first(), last + fields[0].0, depth)
    }
}

/// The elements are ones that can be written.
pub open spec fn elements_wf(elements: Seq<Thrift>, element_type: u8, depth: u32) -> bool
    decreases elements,
{
    elements.len() == 0 || {
        &&& has_type(elements[0], element_type)
        &&& value_wf(elements[0], depth)
        &&& elements_wf(elements.drop_first(), element_type, depth)
    }
}

/// The entries of a map are ones that can be written.
pub open spec fn entries_wf(
    entries: Seq<(Thrift, Thrift)>,
    key_type: u8,
    value_type: u8,
    depth: u32,
) -> bool
    decreases entries,
{
    entries.len() == 0 || {
        &&& has_type(entries[0].0, key_type)
        &&& has_type(entries[0].1, value_type)
        &&& value_wf(entries[0].0, depth)
        &&& value_wf(entries[0].1, depth)
        &&& entries_wf(entries.drop_first(), key_type, value_type, depth)
    }
}

/// A value at nesting level `depth` is one that can be written: lengths are as they must be,
/// elements have the type of their collection, and structs do not nest too deep.
pub open spec fn value_wf(value: Thrift, depth: u32) -> bool
    decreases value,
{
    match value {
        Thrift::Bool(_) | Thrift::Byte(_) => true,
        Thrift::Int(field_type, _) => 4 <= field_type <= 6,
        Thrift::Double(bytes) => bytes.len() == 8,
        Thrift::Uuid(bytes) => bytes.len() == 16,
        Thrift::Binary(bytes) => bytes.len() <= usize::MAX,
        Thrift::List(_, element_type, elements) => {
            &&& 1 <= element_type <= 13
            &&& elements.len() <= usize::MAX
            &&& elements_wf(elements, element_type, below(depth))
        },
        Thrift::Mapping(key_type, value_type, entries) => {
            &&& 1 <= key_type <= 13
            &&& 1 <= value_type <= 13
            &&& entries.len() <= usize::MAX
            &&& entries_wf(entries, key_type, value_type, below(depth))
        },
        Thrift::Struct(fields) => depth < 32 && fields_wf(fields, 0, depth),
    }
}

/// The fields of a struct, as they are written, without the end.
pub open spec fn fields_bytes(fields: Seq<(nat, Thrift)>) -> Seq<u8>
    decreases fields,
{
    if fields.len() == 0 {
        Seq::empty()
    } else {
        short_field_bytes(fields[0].0, type_number(fields[0].1) as nat) + (value_bytes(fields[0].1)
            + fields_bytes(fields.drop_first()))
    }
}

/// An element of a collection, as it is written. Unlike in a field, a boolean takes a byte.
pub open spec fn element_bytes(value: Thrift) -> Seq<u8>
    decreases value, 1nat,
{
    match value {
        Thrift::Bool(true) => seq![1u8],
        Thrift::Bool(false) => seq![2u8],
        _ => value_bytes(value),
    }
}

/// The elements of a collection, as they are written.
pub open spec fn elements_bytes(elements: Seq<Thrift>) -> Seq<u8>
    decreases elements,
{
    if elements.len() == 0 {
        Seq::empty()
    } else {
        element_bytes(elements[0]) + elements_bytes(elements.drop_first())
    }
}

/// The entries of a map, as they are written.
pub open spec fn entries_bytes(entries: Seq<(Thrift, Thrift)>) -> Seq<u8>
    decreases entries,
{
    if entries.len() == 0 {
        Seq::empty()
    } else {
        element_bytes(entries[0].0) + (element_bytes(entries[0].1) + entries_bytes(
            entries.drop_first(),
        ))
    }
}

/// The header of a list or set: short counts share a byte with the type.
pub open spec fn collection_bytes(len: nat, element_type: u8) -> Seq<u8> {
    if len < 15 {
        seq![(len * 16 + element_type) as u8]
    } else {
        seq![(240 + element_type) as u8] + varint_bytes(len)
    }
}

/// The value of a field, as it is written. A boolean is held by its type.
pub open spec fn value_bytes(value: Thrift) -> Seq<u8>
    decreases value, 0nat,
{
    match value {
        Thrift::Bool(_) => Seq::empty(),
        Thrift::Byte(byte) => seq![byte],
        Thrift::Int(_, n) => varint_bytes(n as nat),
        Thrift::Double(bytes) => bytes,
        Thrift::Uuid(bytes) => bytes,
        Thrift::Binary(bytes) => varint_bytes(bytes.len()) + bytes,
        Thrift::List(_, element_type, elements) => collection_bytes(elements.len(), element_type)
            + elements_bytes(elements),
        Thrift::Mapping(key_type, value_type, entries) => if entries.len() == 0 {
            varint_bytes(0)
        } else {
            varint_bytes(entries.len()) + (seq![(key_type * 16 + value_type) as u8]
                + entries_bytes(entries))
        },
        Thrift::Struct(fields) => fields_bytes(fields) + seq![0u8],
    }
}

/// A value that can be written has one of the types that there are.
proof fn lemma_type_number(value: Thrift, depth: u32)
    requires
        value_wf(value, depth),
    ensures
        1 <= type_number(value) <= 13,
{
}

/// Having passed over so many bytes.
pub open spec fn passed_over(pos: nat, bytes: Seq<u8>) -> Step<()> {
    Step { pos: pos + bytes.len(), outcome: Ok(()) }
}

/// A value that was written is passed over as a whole, and no further, whatever it is and
/// whatever follows it.
pub proof fn law_skipping_passes_what_was_written(
    buf: Seq<u8>,
    pos: nat,
    value: Thrift,
    depth: u32,
)
    requires
        stand_at(buf, pos, value_bytes(value)),
        value_wf(value, depth),
    ensures
        skip_value(buf, pos, type_number(value), depth) == passed_over(pos, value_bytes(value)),
    decreases value, 0nat,
{
    match value {
        Thrift::Bool(_) | Thrift::Byte(_) | Thrift::Double(_) | Thrift::Uuid(_) => {},
        Thrift::Int(_, n) => {
            law_varint_reads_what_was_written(buf, pos, n);
        },
        Thrift::Binary(bytes) => {
            let len = varint_bytes(bytes.len());
            lemma_stand_at_pieces(buf, pos, len, bytes);
            law_varint_reads_what_was_written(buf, pos, bytes.len() as u64);
        },
        Thrift::List(_, element_type, elements) => {
            let header = collection_bytes(elements.len(), element_type);
            lemma_stand_at_pieces(buf, pos, header, elements_bytes(elements));
            law_collection_header_reads_what_was_written(buf, pos, elements.len(), element_type);
            lemma_skip_elements_written(
                buf,
                pos + header.len(),
                elements,
                element_type,
                below(depth),
            );
        },
        Thrift::Mapping(key_type, value_type, entries) => {
            let len = varint_bytes(entries.len());
            if entries.len() == 0 {
                law_varint_reads_what_was_written(buf, pos, 0);
            } else {
                let types = seq![(key_type * 16 + value_type) as u8];
                lemma_stand_at_pieces(buf, pos, len, types + entries_bytes(entries));
                lemma_stand_at_pieces(buf, pos + len.len(), types, entries_bytes(entries));
                lemma_stand_at_first(buf, pos + len.len(), types);
                law_varint_reads_what_was_written(buf, pos, entries.len() as u64);
                assert((key_type * 16 + value_type) / 16 == key_type);
                assert((key_type * 16 + value_type) % 16 == value_type);
                lemma_skip_entries_written(
                    buf,
                    pos + len.len() + 1,
                    entries,
                    key_type,
                    value_type,
                    below(depth),
                );
            }
        },
        Thrift::Struct(fields) => {
            lemma_skip_fields_written(buf, pos, fields, 0, depth);
        },
    }
}

/// The header of a list or set reads as the count and type that were written.
pub proof fn law_collection_header_reads_what_was_written(
    buf: Seq<u8>,
    pos: nat,
    len: nat,
    element_type: u8,
)
    requires
        stand_at(buf, pos, collection_bytes(len, element_type)),
        1 <= element_type <= 13,
        len <= usize::MAX,
    ensures
        collection_header(buf, pos) == (Step {
            pos: pos + collection_bytes(len, element_type).len(),
            outcome: Ok::<(usize, u8), HeaderError>((len as usize, element_type)),
        }),
{
    if len < 15 {
        lemma_stand_at_first(buf, pos, collection_bytes(len, element_type));
        assert((len * 16 + element_type) / 16 == len);
        assert((len * 16 + element_type) % 16 == element_type);
    } else {
        let first = seq![(240 + element_type) as u8];
        lemma_stand_at_pieces(buf, pos, first, varint_bytes(len));
        lemma_stand_at_first(buf, pos, first);
        law_varint_reads_what_was_written(buf, pos + 1, len as u64);
    }
}

/// An element that was written is passed over as a whole.
proof fn lemma_skip_element_written(
    buf: Seq<u8>,
    pos: nat,
    value: Thrift,
    element_type: u8,
    depth: u32,
)
    requires
        stand_at(buf, pos, element_bytes(value)),
        has_type(value, element_type),
        value_wf(value, depth),
    ensures
        skip_element(buf, pos, element_type, depth) == passed_over(pos, element_bytes(value)),
    decreases value, 1nat,
{
    if !(value is Bool) {
        law_skipping_passes_what_was_written(buf, pos, value, depth);
    }
}

/// Elements that were written are passed over as a whole.
proof fn lemma_skip_elements_written(
    buf: Seq<u8>,
    pos: nat,
    elements: Seq<Thrift>,
    element_type: u8,
    depth: u32,
)
    requires
        stand_at(buf, pos, elements_bytes(elements)),
        elements_wf(elements, element_type, depth),
    ensures
        skip_elements(buf, pos, elements.len(), element_type, depth) == passed_over(
            pos,
            elements_bytes(elements),
        ),
    decreases elements,
{
    if elements.len() > 0 {
        let first = element_bytes(elements[0]);
        let rest = elements.drop_first();
        lemma_stand_at_pieces(buf, pos, first, elements_bytes(rest));
        lemma_skip_element_written(buf, pos, elements[0], element_type, depth);
        lemma_skip_elements_written(buf, pos + first.len(), rest, element_type, depth);
    }
}

/// Entries that were written are passed over as a whole.
proof fn lemma_skip_entries_written(
    buf: Seq<u8>,
    pos: nat,
    entries: Seq<(Thrift, Thrift)>,
    key_type: u8,
    value_type: u8,
    depth: u32,
)
    requires
        stand_at(buf, pos, entries_bytes(entries)),
        entries_wf(entries, key_type, value_type, depth),
    ensures
        skip_entries(buf, pos, entries.len(), key_type, value_type, depth) == passed_over(
            pos,
            entries_bytes(entries),
        ),
    decreases entries,
{
    if entries.len() > 0 {
        let key = element_bytes(entries[0].0);
        let value = element_bytes(entries[0].1);
        let rest = entries.drop_first();
        lemma_stand_at_pieces(buf, pos, key, value + entries_bytes(rest));
        lemma_stand_at_pieces(buf, pos + key.len(), value, entries_bytes(rest));
        lemma_skip_element_written(buf, pos, entries[0].0, key_type, depth);
        lemma_skip_element_written(buf, pos + key.len(), entries[0].1, value_type, depth);
        lemma_skip_entries_written(
            buf,
            pos + key.len() + value.len(),
            rest,
            key_type,
            value_type,
            depth,
        );
    }
}

/// Fields that were written are passed over as a whole, with the end of their struct.
proof fn lemma_skip_fields_written(
    buf: Seq<u8>,
    pos: nat,
    fields: Seq<(nat, Thrift)>,
    last: i16,
    depth: u32,
)
    requires
        stand_at(buf, pos, fields_bytes(fields) + seq![0u8]),
        fields_wf(fields, last as int, depth),
    ensures
        skip_fields(buf, pos, last, depth) == passed_over(pos, fields_bytes(fields) + seq![0u8]),
    decreases fields,
{
    if fields.len() == 0 {
        assert(fields_bytes(fields) + seq![0u8] =~= seq![0u8]);
        law_field_header_reads_what_was_written(buf, pos, last, 0, 1);
    } else {
        let (delta, value) = fields[0];
        let header = short_field_bytes(delta, type_number(value) as nat);
        let bytes = value_bytes(value);
        let rest = fields.drop_first();
        let tail = fields_bytes(rest) + seq![0u8];
        assert(fields_bytes(fields) + seq![0u8] =~= header + (bytes + tail));
        lemma_stand_at_pieces(buf, pos, header, bytes + tail);
        lemma_stand_at_pieces(buf, pos + 1, bytes, tail);
        let id = (last + delta) as i16;
        lemma_type_number(value, below(depth));
        law_field_header_reads_what_was_written(buf, pos, last, id, type_number(value) as nat);
        law_skipping_passes_what_was_written(buf, pos + 1, value, below(depth));
        lemma_skip_fields_written(buf, pos + 1 + bytes.len(), rest, id, depth);
    }
}

/// Whether fields that follow the field `last` of a page header can be written there.
pub open spec fn extra_wf(fields: Seq<(nat, Thrift)>, last: int) -> bool
    decreases fields.len(),
{
    fields.len() == 0 || {
        &&& 1 <= fields[0].0 <= 15
        &&& last + fields[0].0 <= i16::MAX
        &&& value_wf(fields[0].1, 0)
        &&& extra_wf(fields.drop_first(), last + fields[0].0)
    }
}

/// A 32-bit field right behind the one before it.
pub open spec fn int_field_bytes(value: int) -> Seq<u8> {
    short_field_bytes(1, 5) + zigzag_bytes(value)
}

/// A page header, as it is written: the page type, the two sizes, and any fields behind them.
pub open spec fn header_bytes(
    page_type: i32,
    uncompressed: i32,
    compressed: i32,
    extra: Seq<(nat, Thrift)>,
) -> Seq<u8> {
    int_field_bytes(page_type as int) + (int_field_bytes(uncompressed as int) + (int_field_bytes(
        compressed as int,
    ) + (fields_bytes(extra) + seq![0u8])))
}

/// Fields behind the sizes of a page header are passed over.
proof fn lemma_extra_fields_written(
    buf: Seq<u8>,
    pos: nat,
    fields: Seq<(nat, Thrift)>,
    last: i16,
)
    requires
        stand_at(buf, pos, fields_bytes(fields) + seq![0u8]),
        extra_wf(fields, last as int),
        last >= 3,
    ensures
        header_fields(buf, pos, last).pos == pos + (fields_bytes(fields) + seq![0u8]).len(),
        header_fields(buf, pos, last).outcome is Ok,
        forall|i: int|
            0 <= i < header_fields(buf, pos, last).outcome->Ok_0.len() ==> (
            #[trigger] header_fields(buf, pos, last).outcome->Ok_0[i]).value is None,
    decreases fields.len(),
{
    if fields.len() == 0 {
        assert(fields_bytes(fields) + seq![0u8] =~= seq![0u8]);
        law_field_header_reads_what_was_written(buf, pos, last, 0, 1);
    } else {
        let (delta, value) = fields[0];
        let header = short_field_bytes(delta, type_number(value) as nat);
        let bytes = value_bytes(value);
        let rest = fields.drop_first();
        let tail = fields_bytes(rest) + seq![0u8];
        assert(fields_bytes(fields) + seq![0u8] =~= header + (bytes + tail));
        lemma_stand_at_pieces(buf, pos, header, bytes + tail);
        lemma_stand_at_pieces(buf, pos + 1, bytes, tail);
        let id = (last + delta) as i16;
        lemma_type_number(value, 0);
        law_field_header_reads_what_was_written(buf, pos, last, id, type_number(value) as nat);
        law_skipping_passes_what_was_written(buf, pos + 1, value, 0);
        lemma_extra_fields_written(buf, pos + 1 + bytes.len(), rest, id);
        let after_it = header_fields(buf, pos + 1 + bytes.len(), id).outcome->Ok_0;
        let all = header_fields(buf, pos, last).outcome->Ok_0;
        assert(all == seq![HeaderField { id, value: None }] + after_it);
        assert forall|i: int| 0 <= i < all.len() implies (#[trigger] all[i]).value is None by {
            if i > 0 {
                assert(all[i] == after_it[i - 1]);
            }
        }
    }
}

/// Fields without a value do not count among the values of fields.
proof fn lemma_last_value_ignores(first: Seq<HeaderField>, rest: Seq<HeaderField>, id: i16)
    requires
        forall|i: int| 0 <= i < rest.len() ==> (#[trigger] rest[i]).value is None,
    ensures
        last_value(first + rest, id) == last_value(first, id),
    decreases rest.len(),
{
    if rest.len() == 0 {
        assert(first + rest =~= first);
    } else {
        let shorter = rest.drop_last();
        assert((first + rest).drop_last() =~= first + shorter);
        assert((first + rest).last() == rest[rest.len() - 1]);
        lemma_last_value_ignores(first, shorter, id);
    }
}

/// A 32-bit field of a page header is read as it was written.
proof fn lemma_int_field_written(buf: Seq<u8>, pos: nat, last: i16, value: i32)
    requires
        stand_at(buf, pos, int_field_bytes(value as int)),
        0 <= last <= 2,
        header_fields(buf, pos + int_field_bytes(value as int).len(), (last + 1) as i16).outcome
            is Ok,
    ensures
        header_fields(buf, pos, last) == (Step {
            pos: header_fields(
                buf,
                pos + int_field_bytes(value as int).len(),
                (last + 1) as i16,
            ).pos,
            outcome: Ok::<Seq<HeaderField>, HeaderError>(
                seq![HeaderField { id: (last + 1) as i16, value: Some(value) }] + header_fields(
                    buf,
                    pos + int_field_bytes(value as int).len(),
                    (last + 1) as i16,
                ).outcome->Ok_0,
            ),
        }),
{
    let header = short_field_bytes(1, 5);
    let bytes = zigzag_bytes(value as int);
    lemma_stand_at_pieces(buf, pos, header, bytes);
    law_field_header_reads_what_was_written(buf, pos, last, (last + 1) as i16, 5);
    law_int32_reads_what_was_written(buf, pos + 1, value as i64);
}

/// A page header reads as it was written: the page type and the two sizes, whatever fields
/// stand behind them and whatever follows the header. It is refused for a page type that there
/// is not, and for a negative size.
pub proof fn law_page_header_reads_what_was_written(
    buf: Seq<u8>,
    page_type: i32,
    uncompressed: i32,
    compressed: i32,
    extra: Seq<(nat, Thrift)>,
)
    requires
        buf.len() <= usize::MAX,
        stand_at(buf, 0, header_bytes(page_type, uncompressed, compressed, extra)),
        extra_wf(extra, 3),
    ensures
        match page_header(buf) {
            Ok(info) => {
                &&& info.header_len == header_bytes(page_type, uncompressed, compressed, extra).len()
                &&& uncompressed == info.uncompressed_len
                &&& compressed == info.compressed_len
                &&& match info.page_type {
                    PageType::Data => page_type == 0,
                    PageType::Index => page_type == 1,
                    PageType::Dictionary => page_type == 2,
                    PageType::DataV2 => page_type == 3,
                }
            },
            Err(HeaderError::UnknownPageType(number)) => number == page_type && !(0 <= page_type
                <= 3),
            Err(HeaderError::NegativeCompressedSize) => 0 <= page_type <= 3 && compressed < 0,
            Err(HeaderError::NegativeSize) => 0 <= page_type <= 3 && compressed >= 0
                && uncompressed < 0,
            Err(_) => false,
        },
{
    reveal(page_header);
    lemma_header_values_written(buf, page_type, uncompressed, compressed, extra);
}

/// The values of three fields with the ids of a page header's.
proof fn lemma_last_of_three(page_type: i32, uncompressed: i32, compressed: i32)
    ensures
        ({
            let wanted = seq![
                HeaderField { id: 1, value: Some(page_type) },
                HeaderField { id: 2, value: Some(uncompressed) },
                HeaderField { id: 3, value: Some(compressed) },
            ];
            &&& last_value(wanted, 1) == Some(page_type)
            &&& last_value(wanted, 2) == Some(uncompressed)
            &&& last_value(wanted, 3) == Some(compressed)
        }),
{
    let f1 = HeaderField { id: 1, value: Some(page_type) };
    let f2 = HeaderField { id: 2, value: Some(uncompressed) };
    let f3 = HeaderField { id: 3, value: Some(compressed) };
    let wanted = seq![f1, f2, f3];
    assert(wanted.drop_last() =~= seq![f1, f2]);
    assert(seq![f1, f2].drop_last() =~= seq![f1]);
    reveal_with_fuel(last_value, 4);
}

/// Whether the fields of a page header from `pos` on end at `end`, and are `wanted` and then
/// others without a value.
#[verifier::opaque]
spec fn reads_as(buf: Seq<u8>, pos: nat, last: i16, end: nat, wanted: Seq<HeaderField>) -> bool {
    let step = header_fields(buf, pos, last);
    &&& step.pos == end
    &&& step.outcome is Ok
    &&& wanted.len() <= step.outcome->Ok_0.len()
    &&& step.outcome->Ok_0.take(wanted.len() as int) == wanted
    &&& forall|i: int|
        wanted.len() <= i < step.outcome->Ok_0.len() ==> (#[trigger] step.outcome->Ok_0[i]).value
            is None
}

/// One more 32-bit field in front.
proof fn lemma_reads_as_next(
    buf: Seq<u8>,
    pos: nat,
    last: i16,
    value: i32,
    end: nat,
    wanted: Seq<HeaderField>,
)
    requires
        stand_at(buf, pos, int_field_bytes(value as int)),
        0 <= last <= 2,
        reads_as(
            buf,
            pos + int_field_bytes(value as int).len(),
            (last + 1) as i16,
            end,
            wanted,
        ),
    ensures
        reads_as(
            buf,
            pos,
            last,
            end,
            seq![HeaderField { id: (last + 1) as i16, value: Some(value) }] + wanted,
        ),
{
    reveal(reads_as);
    lemma_int_field_written(buf, pos, last, value);
    let first = seq![HeaderField { id: (last + 1) as i16, value: Some(value) }];
    let rest = header_fields(
        buf,
        pos + int_field_bytes(value as int).len(),
        (last + 1) as i16,
    ).outcome->Ok_0;
    let all = header_fields(buf, pos, last).outcome->Ok_0;
    assert(all == first + rest);
    assert(all.take((first + wanted).len() as int) =~= first + rest.take(wanted.len() as int));
    assert forall|i: int| (first + wanted).len() <= i < all.len() implies (
    #[trigger] all[i]).value is None by {
        assert(all[i] == rest[i - 1]);
    }
}

/// The fields of a page header are read as they were written.
proof fn lemma_header_values_written(
    buf: Seq<u8>,
    page_type: i32,
    uncompressed: i32,
    compressed: i32,
    extra: Seq<(nat, Thrift)>,
)
    requires
        stand_at(buf, 0, header_bytes(page_type, uncompressed, compressed, extra)),
        extra_wf(extra, 3),
    ensures
        header_fields(buf, 0, 0).pos == header_bytes(
            page_type,
            uncompressed,
            compressed,
            extra,
        ).len() <= buf.len(),
        header_fields(buf, 0, 0).outcome matches Ok(fields) && {
            &&& last_value(fields, 1) == Some(page_type)
            &&& last_value(fields, 2) == Some(uncompressed)
            &&& last_value(fields, 3) == Some(compressed)
        },
{
    reveal(reads_as);
    lemma_header_reads_as(buf, page_type, uncompressed, compressed, extra);
    let wanted = seq![
        HeaderField { id: 1, value: Some(page_type) },
        HeaderField { id: 2, value: Some(uncompressed) },
        HeaderField { id: 3, value: Some(compressed) },
    ];
    let all = header_fields(buf, 0, 0).outcome->Ok_0;
    let rest = all.skip(3);
    assert(all =~= wanted + rest);
    assert forall|i: int| 0 <= i < rest.len() implies (#[trigger] rest[i]).value is None by {
        assert(rest[i] == all[i + 3]);
    }
    lemma_last_value_ignores(wanted, rest, 1);
    lemma_last_value_ignores(wanted, rest, 2);
    lemma_last_value_ignores(wanted, rest, 3);
    lemma_last_of_three(page_type, uncompressed, compressed);
}

/// The fields of a page header, in the order in which they were written.
proof fn lemma_header_reads_as(
    buf: Seq<u8>,
    page_type: i32,
    uncompressed: i32,
    compressed: i32,
    extra: Seq<(nat, Thrift)>,
)
    requires
        stand_at(buf, 0, header_bytes(page_type, uncompressed, compressed, extra)),
        extra_wf(extra, 3),
    ensures
        reads_as(
            buf,
            0,
            0,
            header_bytes(page_type, uncompressed, compressed, extra).len(),
            seq![
                HeaderField { id: 1, value: Some(page_type) },
                HeaderField { id: 2, value: Some(uncompressed) },
                HeaderField { id: 3, value: Some(compressed) },
            ],
        ),
{
    let first = int_field_bytes(page_type as int);
    let second = int_field_bytes(uncompressed as int);
    let third = int_field_bytes(compressed as int);
    let tail = fields_bytes(extra) + seq![0u8];
    let end = header_bytes(page_type, uncompressed, compressed, extra).len();
    lemma_stand_at_pieces(buf, 0, first, second + (third + tail));
    lemma_stand_at_pieces(buf, first.len(), second, third + tail);
    lemma_stand_at_pieces(buf, first.len() + second.len(), third, tail);
    lemma_extra_reads_as(buf, first.len() + second.len() + third.len(), extra, end);
    let f1 = seq![HeaderField { id: 1, value: Some(page_type) }];
    let f2 = seq![HeaderField { id: 2, value: Some(uncompressed) }];
    let f3 = seq![HeaderField { id: 3, value: Some(compressed) }];
    let none = Seq::<HeaderField>::empty();
    lemma_reads_as_next(buf, first.len() + second.len(), 2, compressed, end, none);
    lemma_reads_as_next(buf, first.len(), 1, uncompressed, end, f3 + none);
    lemma_reads_as_next(buf, 0, 0, page_type, end, f2 + (f3 + none));
    assert(f1 + (f2 + (f3 + none)) =~= seq![f1[0], f2[0], f3[0]]);
}

/// The fields behind the sizes of a page header have no value.
proof fn lemma_extra_reads_as(buf: Seq<u8>, pos: nat, extra: Seq<(nat, Thrift)>, end: nat)
    requires
        stand_at(buf, pos, fields_bytes(extra) + seq![0u8]),
        extra_wf(extra, 3),
        end == pos + (fields_bytes(extra) + seq![0u8]).len(),
    ensures
        reads_as(buf, pos, 3, end, Seq::empty()),
{
    reveal(reads_as);
    lemma_extra_fields_written(buf, pos, extra, 3);
    assert(header_fields(buf, pos, 3).outcome->Ok_0.take(0) =~= Seq::empty());
}

/// A page, as it is written.
pub struct WrittenPage {
    /// The number of the page's type.
    pub page_type: i32,
    /// The length of the body once decompressed.
    pub uncompressed: i32,
    /// The fields that the header has besides.
    pub extra: Seq<(nat, Thrift)>,
    /// The body.
    pub body: Seq<u8>,
}

impl WrittenPage {
    /// Whether the page is one that can be written.
    pub open spec fn wf(self) -> bool {
        &&& 0 <= self.page_type <= 3
        &&& self.uncompressed >= 0
        &&& self.body.len() <= i32::MAX
        &&& extra_wf(self.extra, 3)
    }

    /// The header of the page.
    pub open spec fn header(self) -> Seq<u8> {
        header_bytes(self.page_type, self.uncompressed, self.body.len() as i32, self.extra)
    }
}

/// Pages, as they are written one behind the other.
pub open spec fn pages_bytes(pages: Seq<WrittenPage>) -> Seq<u8>
    decreases pages.len(),
{
    if pages.len() == 0 {
        Seq::empty()
    } else {
        (pages[0].header() + pages[0].body) + pages_bytes(pages.drop_first())
    }
}

/// Whether pages can all be written, and none is of version 2.
pub open spec fn pages_wf(pages: Seq<WrittenPage>) -> bool {
    forall|i: int|
        0 <= i < pages.len() ==> (#[trigger] pages[i]).wf() && pages[i].page_type != 3
}

/// A written page header is read at the start of any bytes that begin with it.
pub(crate) proof fn lemma_written_page_header(buf: Seq<u8>, page: WrittenPage)
    requires
        buf.len() <= usize::MAX,
        stand_at(buf, 0, page.header()),
        page.wf(),
    ensures
        page_header(buf) matches Ok(info) && {
            &&& info.header_len == page.header().len()
            &&& info.header_len > 0
            &&& info.uncompressed_len == page.uncompressed
            &&& info.compressed_len == page.body.len()
            &&& info.page_type == match page.page_type {
                0 => PageType::Data,
                1 => PageType::Index,
                2 => PageType::Dictionary,
                _ => PageType::DataV2,
            }
        },
{
    law_page_header_reads_what_was_written(
        buf,
        page.page_type,
        page.uncompressed,
        page.body.len() as i32,
        page.extra,
    );
}

/// How long a run of continuation bytes is, byte by byte.
proof fn lemma_run_is_all_continuation(buf: Seq<u8>, pos: nat, limit: nat)
    requires
        pos <= buf.len(),
    ensures
        continuation_run(buf, pos, limit) <= limit,
        pos + continuation_run(buf, pos, limit) <= buf.len(),
        forall|i: int|
            pos <= i < pos + continuation_run(buf, pos, limit) ==> #[trigger] buf[i] >= 0x80,
        continuation_run(buf, pos, limit) < limit && pos + continuation_run(buf, pos, limit)
            < buf.len() ==> buf[(pos + continuation_run(buf, pos, limit)) as int] < 0x80,
    decreases limit,
{
    if limit > 0 && pos < buf.len() && buf[pos as int] >= 0x80 {
        lemma_run_is_all_continuation(buf, pos + 1, (limit - 1) as nat);
    }
}

/// A varint ends with the first byte whose high bit is clear, which must be one of ten: it is
/// not terminated where ten bytes in a row have it set, and ends too soon where the bytes do.
pub proof fn law_varint_ends_with_a_clear_high_bit(buf: Seq<u8>, pos: nat)
    requires
        pos <= buf.len(),
    ensures
        match varint(buf, pos).outcome {
            Ok(_) => {
                let last = varint(buf, pos).pos - 1;
                &&& pos <= last < pos + 10
                &&& last < buf.len()
                &&& buf[last] < 0x80
                &&& forall|i: int| pos <= i < last ==> #[trigger] buf[i] >= 0x80
            },
            Err(HeaderError::VarintNotTerminated) => {
                &&& pos + 10 <= buf.len()
                &&& forall|i: int| pos <= i < pos + 10 ==> #[trigger] buf[i] >= 0x80
            },
            Err(HeaderError::EndsMidField) => {
                &&& buf.len() < pos + 10
                &&& forall|i: int| pos <= i < buf.len() ==> #[trigger] buf[i] >= 0x80
            },
            Err(_) => false,
        },
{
    lemma_run_is_all_continuation(buf, pos, 10);
}

/// A varint is its first seven bits, and the rest of it 128 fold, in 64 bits.
pub proof fn law_varint_counts_seven_bits_to_a_byte(buf: Seq<u8>, pos: nat)
    requires
        pos < buf.len(),
    ensures
        buf[pos as int] < 0x80 ==> varint(buf, pos).outcome == Ok::<u64, HeaderError>(
            buf[pos as int] as u64,
        ) && varint(buf, pos).pos == pos + 1,
        buf[pos as int] >= 0x80 && varint(buf, pos).outcome is Ok ==> {
            &&& varint(buf, pos + 1).outcome is Ok
            &&& varint(buf, pos + 1).pos == varint(buf, pos).pos
            &&& varint(buf, pos).outcome->Ok_0 == (buf[pos as int] - 128 + 128 * varint(
                buf,
                pos + 1,
            ).outcome->Ok_0) % 0x1_0000_0000_0000_0000
        },
{
    let run = continuation_run(buf, pos, 10);
    if buf[pos as int] < 0x80 {
        let bytes = buf.subrange(pos as int, (pos + 1) as int);
        assert(run == 0);
        assert(bytes.drop_first() =~= Seq::empty());
        assert(base128(bytes.drop_first()) == 0);
        assert(bytes[0] == buf[pos as int]);
    } else if varint(buf, pos).outcome is Ok {
        lemma_run_is_all_continuation(buf, pos, 10);
        lemma_run_is_all_continuation(buf, pos + 1, 9);
        lemma_run_does_not_need_its_limit(buf, pos + 1, 9);
        let bytes = buf.subrange(pos as int, (pos + run + 1) as int);
        let rest = buf.subrange((pos + 1) as int, (pos + run + 1) as int);
        assert(bytes.drop_first() =~= rest);
        assert(bytes[0] == buf[pos as int]);
        let n = base128(rest) as int;
        let m = 0x1_0000_0000_0000_0000int;
        let low = buf[pos as int] - 128;
        vstd::arithmetic::div_mod::lemma_mul_mod_noop(128, n, m);
        vstd::arithmetic::div_mod::lemma_mul_mod_noop(128, n % m, m);
        vstd::arithmetic::div_mod::lemma_mod_twice(n, m);
        vstd::arithmetic::div_mod::lemma_add_mod_noop(low, 128 * n, m);
        vstd::arithmetic::div_mod::lemma_add_mod_noop(low, 128 * (n % m), m);
        assert(base128(bytes) == low + 128 * n);
    }
}

/// A run that ends within a limit ends there whatever the limit.
proof fn lemma_run_does_not_need_its_limit(buf: Seq<u8>, pos: nat, limit: nat)
    requires
        continuation_run(buf, pos, limit) < limit,
    ensures
        continuation_run(buf, pos, limit + 1) == continuation_run(buf, pos, limit),
    decreases limit,
{
    if limit > 0 && pos < buf.len() && buf[pos as int] >= 0x80 {
        lemma_run_does_not_need_its_limit(buf, pos + 1, (limit - 1) as nat);
    }
}

/// What cannot be passed over is refused: structs that nest 32 deep, values of types that there
/// are not, and values of known length that go on past the end of the bytes.
pub proof fn law_skipping_refuses_what_it_cannot_pass(
    buf: Seq<u8>,
    pos: nat,
    field_type: u8,
    depth: u32,
)
    requires
        pos <= buf.len(),
    ensures
        field_type == 12 && depth >= 32 ==> skip_value(buf, pos, field_type, depth).outcome
            == Err::<(), HeaderError>(HeaderError::StructTooDeep),
        field_type == 0 || field_type > 13 ==> skip_value(buf, pos, field_type, depth).outcome
            == Err::<(), HeaderError>(HeaderError::UnsupportedType(field_type)),
        field_type == 3 && pos + 1 > buf.len() || field_type == 7 && pos + 8 > buf.len()
            || field_type == 13 && pos + 16 > buf.len() ==> skip_value(
            buf,
            pos,
            field_type,
            depth,
        ).outcome == Err::<(), HeaderError>(HeaderError::EndsMidValue),
        field_type == 8 && varint(buf, pos).outcome is Ok && varint(buf, pos).outcome->Ok_0
            <= usize::MAX && varint(buf, pos).pos + varint(buf, pos).outcome->Ok_0 > buf.len()
            ==> skip_value(buf, pos, field_type, depth).outcome == Err::<(), HeaderError>(
            HeaderError::EndsMidValue,
        ),
{
}

/// A field id that passes the largest is refused, in either form.
pub proof fn law_field_ids_stay_in_range(buf: Seq<u8>, pos: nat, last: i16)
    requires
        pos < buf.len(),
        buf[pos as int] != 0,
    ensures
        buf[pos as int] >= 16 && last + buf[pos as int] / 16 > i16::MAX ==> field_header(
            buf,
            pos,
            last,
        ).outcome == Err::<Option<(i16, u8)>, HeaderError>(HeaderError::FieldIdOverflow),
        buf[pos as int] < 16 && zigzag(buf, pos + 1).outcome is Ok && !(i16::MIN <= zigzag(
            buf,
            pos + 1,
        ).outcome->Ok_0 <= i16::MAX) ==> field_header(buf, pos, last).outcome == Err::<
            Option<(i16, u8)>,
            HeaderError,
        >(HeaderError::FieldIdOutOfRange),
{
}

} // verus!
