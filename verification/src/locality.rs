//! What is read from a buffer depends on the bytes that reading it passes, and on no others.

use crate::compact::{
    byte, collection_header, continuation_run, deeper, field_header, int32,
    lemma_field_header_forward, lemma_run_in_bytes, lemma_skip_element_forward,
    lemma_skip_elements_forward, lemma_skip_entries_forward, lemma_skip_fields_forward,
    lemma_skip_value_forward, lemma_varint_forward, length, skip_element, skip_elements,
    skip_entries, skip_fields, skip_value, varint, BINARY, BOOL_FALSE, BOOL_TRUE, I16, I32, I64,
    LIST, MAP, MAX_VARINT_BYTES, SET, STOP, STRUCT,
};
use vstd::prelude::*;

verus! {

/// Whether two buffers have their first `len` bytes in common.
pub open spec fn agree(a: Seq<u8>, b: Seq<u8>, len: nat) -> bool {
    &&& len <= a.len()
    &&& len <= b.len()
    &&& forall|i: int| 0 <= i < len ==> #[trigger] a[i] == b[i]
}

/// A run of continuation bytes that ends is the same in any buffer that has it in common.
proof fn lemma_run_local(a: Seq<u8>, b: Seq<u8>, pos: nat, limit: nat)
    requires
        continuation_run(a, pos, limit) < limit,
        agree(a, b, pos + continuation_run(a, pos, limit) + 1),
    ensures
        continuation_run(b, pos, limit) == continuation_run(a, pos, limit),
    decreases limit,
{
    assert(a[pos as int] == b[pos as int]);
    if limit > 0 && a[pos as int] >= 0x80 {
        lemma_run_local(a, b, pos + 1, (limit - 1) as nat);
    }
}

/// A varint depends on its own bytes alone.
proof fn lemma_varint_local(a: Seq<u8>, b: Seq<u8>, pos: nat)
    requires
        pos <= a.len(),
        varint(a, pos).outcome is Ok,
        agree(a, b, varint(a, pos).pos),
    ensures
        varint(b, pos) == varint(a, pos),
{
    let limit = MAX_VARINT_BYTES as nat;
    let run = continuation_run(a, pos, limit);
    lemma_run_in_bytes(a, pos, limit);
    lemma_run_local(a, b, pos, limit);
    assert(a.subrange(pos as int, (pos + run + 1) as int) =~= b.subrange(
        pos as int,
        (pos + run + 1) as int,
    ));
}

/// A 32-bit integer depends on its own bytes alone.
pub(crate) proof fn lemma_int32_local(a: Seq<u8>, b: Seq<u8>, pos: nat)
    requires
        pos <= a.len(),
        int32(a, pos).outcome is Ok,
        agree(a, b, int32(a, pos).pos),
    ensures
        int32(b, pos) == int32(a, pos),
{
    lemma_varint_local(a, b, pos);
}

/// A field header depends on its own bytes alone.
pub(crate) proof fn lemma_field_header_local(a: Seq<u8>, b: Seq<u8>, pos: nat, last_field_id: i16)
    requires
        pos <= a.len(),
        field_header(a, pos, last_field_id).outcome is Ok,
        agree(a, b, field_header(a, pos, last_field_id).pos),
    ensures
        field_header(b, pos, last_field_id) == field_header(a, pos, last_field_id),
{
    lemma_field_header_forward(a, pos, last_field_id);
    assert(a[pos as int] == b[pos as int]);
    let header = a[pos as int];
    if header != STOP && header / 16 == 0 {
        lemma_varint_local(a, b, pos + 1);
    }
}

/// A collection header depends on its own bytes alone.
proof fn lemma_collection_header_local(a: Seq<u8>, b: Seq<u8>, pos: nat)
    requires
        pos < a.len(),
        collection_header(a, pos).outcome is Ok,
        agree(a, b, collection_header(a, pos).pos),
    ensures
        collection_header(b, pos) == collection_header(a, pos),
{
    lemma_varint_forward(a, pos + 1);
    assert(a[pos as int] == b[pos as int]);
    if a[pos as int] / 16 == 0x0f {
        lemma_varint_local(a, b, pos + 1);
    }
}

/// Passing over a value depends on its own bytes alone.
pub(crate) proof fn lemma_skip_value_local(
    a: Seq<u8>,
    b: Seq<u8>,
    pos: nat,
    field_type: u8,
    depth: u32,
)
    requires
        pos <= a.len(),
        skip_value(a, pos, field_type, depth).outcome is Ok,
        agree(a, b, skip_value(a, pos, field_type, depth).pos),
    ensures
        skip_value(b, pos, field_type, depth) == skip_value(a, pos, field_type, depth),
    decreases a.len() - pos, 2nat,
{
    lemma_skip_value_forward(a, pos, field_type, depth);
    lemma_varint_forward(a, pos);
    if field_type == I16 || field_type == I32 || field_type == I64 {
        lemma_varint_local(a, b, pos);
    } else if field_type == BINARY {
        lemma_varint_local(a, b, pos);
    } else if field_type == LIST || field_type == SET {
        lemma_varint_forward(a, pos + 1);
        let header = collection_header(a, pos);
        let (len, element_type) = header.outcome->Ok_0;
        lemma_skip_elements_forward(a, header.pos, len as nat, element_type, deeper(depth));
        lemma_collection_header_local(a, b, pos);
        lemma_skip_elements_local(a, b, header.pos, len as nat, element_type, deeper(depth));
    } else if field_type == MAP {
        let len = length(a, pos);
        let entries = len.outcome->Ok_0;
        if entries > 0 {
            let types = byte(a, len.pos);
            let pair = types.outcome->Ok_0;
            lemma_skip_entries_forward(
                a,
                types.pos,
                entries as nat,
                pair / 16,
                pair % 16,
                deeper(depth),
            );
            lemma_varint_local(a, b, pos);
            assert(a[len.pos as int] == b[len.pos as int]);
            lemma_skip_entries_local(
                a,
                b,
                types.pos,
                entries as nat,
                pair / 16,
                pair % 16,
                deeper(depth),
            );
        } else {
            lemma_varint_local(a, b, pos);
        }
    } else if field_type == STRUCT {
        lemma_skip_fields_local(a, b, pos, 0, depth);
    }
}

/// Passing over an element depends on its own bytes alone.
proof fn lemma_skip_element_local(
    a: Seq<u8>,
    b: Seq<u8>,
    pos: nat,
    element_type: u8,
    depth: u32,
)
    requires
        pos <= a.len(),
        skip_element(a, pos, element_type, depth).outcome is Ok,
        agree(a, b, skip_element(a, pos, element_type, depth).pos),
    ensures
        skip_element(b, pos, element_type, depth) == skip_element(a, pos, element_type, depth),
    decreases a.len() - pos, 3nat,
{
    if element_type != BOOL_TRUE && element_type != BOOL_FALSE {
        lemma_skip_value_local(a, b, pos, element_type, depth);
    }
}

/// Passing over elements depends on their own bytes alone.
proof fn lemma_skip_elements_local(
    a: Seq<u8>,
    b: Seq<u8>,
    pos: nat,
    count: nat,
    element_type: u8,
    depth: u32,
)
    requires
        pos <= a.len(),
        skip_elements(a, pos, count, element_type, depth).outcome is Ok,
        agree(a, b, skip_elements(a, pos, count, element_type, depth).pos),
    ensures
        skip_elements(b, pos, count, element_type, depth) == skip_elements(
            a,
            pos,
            count,
            element_type,
            depth,
        ),
    decreases a.len() - pos, 4 + count,
{
    if count > 0 {
        let element = skip_element(a, pos, element_type, depth);
        let left = (count - 1) as nat;
        lemma_skip_element_forward(a, pos, element_type, depth);
        lemma_skip_elements_forward(a, element.pos, left, element_type, depth);
        lemma_skip_element_local(a, b, pos, element_type, depth);
        lemma_skip_elements_local(a, b, element.pos, left, element_type, depth);
    }
}

/// Passing over map entries depends on their own bytes alone.
proof fn lemma_skip_entries_local(
    a: Seq<u8>,
    b: Seq<u8>,
    pos: nat,
    count: nat,
    key_type: u8,
    value_type: u8,
    depth: u32,
)
    requires
        pos <= a.len(),
        skip_entries(a, pos, count, key_type, value_type, depth).outcome is Ok,
        agree(a, b, skip_entries(a, pos, count, key_type, value_type, depth).pos),
    ensures
        skip_entries(b, pos, count, key_type, value_type, depth) == skip_entries(
            a,
            pos,
            count,
            key_type,
            value_type,
            depth,
        ),
    decreases a.len() - pos, 4 + count,
{
    if count > 0 {
        let key = skip_element(a, pos, key_type, depth);
        let value = skip_element(a, key.pos, value_type, depth);
        let left = (count - 1) as nat;
        lemma_skip_element_forward(a, pos, key_type, depth);
        lemma_skip_element_forward(a, key.pos, value_type, depth);
        lemma_skip_entries_forward(a, value.pos, left, key_type, value_type, depth);
        lemma_skip_element_local(a, b, pos, key_type, depth);
        lemma_skip_element_local(a, b, key.pos, value_type, depth);
        lemma_skip_entries_local(a, b, value.pos, left, key_type, value_type, depth);
    }
}

/// Passing over fields depends on their own bytes alone.
proof fn lemma_skip_fields_local(
    a: Seq<u8>,
    b: Seq<u8>,
    pos: nat,
    last_field_id: i16,
    depth: u32,
)
    requires
        pos <= a.len(),
        skip_fields(a, pos, last_field_id, depth).outcome is Ok,
        agree(a, b, skip_fields(a, pos, last_field_id, depth).pos),
    ensures
        skip_fields(b, pos, last_field_id, depth) == skip_fields(a, pos, last_field_id, depth),
    decreases a.len() - pos, 0nat,
{
    lemma_field_header_forward(a, pos, last_field_id);
    let header = field_header(a, pos, last_field_id);
    if let Ok(Some((field_id, field_type))) = header.outcome {
        let value = skip_value(a, header.pos, field_type, deeper(depth));
        lemma_skip_value_forward(a, header.pos, field_type, deeper(depth));
        lemma_skip_fields_forward(a, value.pos, field_id, depth);
        lemma_field_header_local(a, b, pos, last_field_id);
        lemma_skip_value_local(a, b, header.pos, field_type, deeper(depth));
        lemma_skip_fields_local(a, b, value.pos, field_id, depth);
    } else {
        lemma_field_header_local(a, b, pos, last_field_id);
    }
}

} // verus!
