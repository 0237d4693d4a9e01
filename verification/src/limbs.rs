//! Splitting decimal values into 64-bit parts, and reassembling them.
//!
//! A value is stored as a signed most significant part, and `k` unsigned lower parts of 64
//! bits, the most significant first. It is
//!
//! ```text
//! msp * 2^(64k) + lower[0] * 2^(64(k - 1)) + ... + lower[k - 1]
//! ```
//!
//! which is its two's complement bit pattern, cut on 64-bit boundaries. The contracts write
//! the weight of one part, `2^64`, out as a number.

use crate::array::{
    duplicate, DType, DecimalArray, DecimalDType, DecimalType, DecimalValues, Decimals, Integers,
    Nullability, PType, PrimitiveArray, PrimitiveValues, Validity, Validness,
};
use crate::collect::{first_found, law_first_found_is_first, lemma_first_found};
use crate::wide::{
    i256, lemma_i128_of_u128, lemma_wrapped_residue, lemma_wraps_to, two_to_128, wrapped,
};
use vstd::arithmetic::div_mod::{
    lemma_add_mod_noop, lemma_fundamental_div_mod, lemma_fundamental_div_mod_converse,
    lemma_mul_mod_noop,
};
use vstd::arithmetic::power2::{lemma2_to64, lemma2_to64_rest, lemma_pow2_adds, pow2};
use vstd::prelude::*;

verus! {

/// The maximum number of lower parts that an encoded decimal can carry.
///
/// The most significant part is at most 64 bits wide, so three more parts of 64 bits fill
/// the 256 bits of the widest decimal.
pub const MAX_LOWER_PARTS: usize = 3;

/// Number of bits stored in each lower part.
pub const LOWER_PART_BITS: usize = 64;

/// The logical type that every lower part must have: `u64` without nulls.
///
/// The most significant part alone carries the validity.
pub open spec fn lower_dtype() -> DType {
    DType::Primitive(PType::U64, Nullability::NonNullable)
}

/// The logical type that every lower part must have.
pub fn lower_part_dtype() -> (dtype: DType)
    ensures
        dtype == lower_dtype(),
{
    DType::Primitive(PType::U64, Nullability::NonNullable)
}

/// What a lower part counts that has `k` lower parts behind it.
pub open spec fn radix(k: nat) -> int
    decreases k,
{
    if k == 0 {
        1
    } else {
        radix((k - 1) as nat) * 18446744073709551616int
    }
}

/// The value that parts encode.
pub open spec fn encoded(msp: int, lower: Seq<int>) -> int
    decreases lower.len(),
{
    if lower.len() == 0 {
        msp
    } else {
        encoded(msp, lower.drop_last()) * 18446744073709551616int + lower.last()
    }
}

/// What the lower parts add to the value.
pub open spec fn weighted(lower: Seq<int>) -> int
    decreases lower.len(),
{
    if lower.len() == 0 {
        0
    } else {
        lower[0] * radix((lower.len() - 1) as nat) + weighted(lower.drop_first())
    }
}

/// The lower parts of a value that is cut into `k` of them.
pub open spec fn windows(value: int, k: nat) -> Seq<int> {
    Seq::new(k, |i: int| (value / radix((k - 1 - i) as nat)) % 18446744073709551616int)
}

/// How many lower parts values of a type are split into.
pub open spec fn lower_count(values_type: DecimalType) -> nat {
    match values_type {
        DecimalType::I128 => 1,
        DecimalType::I256 => 3,
        _ => 0,
    }
}

/// The type of the most significant part of values of a type.
pub open spec fn msp_type(values_type: DecimalType) -> PType {
    match values_type {
        DecimalType::I8 => PType::I8,
        DecimalType::I16 => PType::I16,
        DecimalType::I32 => PType::I32,
        _ => PType::I64,
    }
}

/// A multiple of the weight of the last part, and the last part, are told apart by division.
proof fn lemma_cut(value: int, high: int, low: int)
    requires
        value == high * 18446744073709551616int + low,
        0 <= low < 18446744073709551616int,
    ensures
        value / 18446744073709551616int == high,
        value % 18446744073709551616int == low,
{
}

/// The weights are positive.
proof fn lemma_radix_positive(k: nat)
    ensures
        radix(k) > 0,
    decreases k,
{
    if k > 0 {
        lemma_radix_positive((k - 1) as nat);
    }
}

/// Dividing twice is dividing by the product, for negative numbers too.
proof fn lemma_div_twice(x: int, b: int, c: int)
    requires
        b > 0,
        c > 0,
    ensures
        x / (c * b) == (x / b) / c,
{
    let q = x / b;
    let r = x % b;
    let q2 = q / c;
    let r2 = q % c;
    lemma_fundamental_div_mod(x, b);
    lemma_fundamental_div_mod(q, c);
    assert(x == q2 * (c * b) + (r2 * b + r)) by (nonlinear_arith)
        requires
            x == b * q + r,
            q == c * q2 + r2,
    ;
    assert(0 <= r2 * b + r < c * b) by (nonlinear_arith)
        requires
            0 <= r < b,
            0 <= r2 < c,
    ;
    lemma_fundamental_div_mod_converse(x, c * b, q2, r2 * b + r);
}

/// Cutting a value into one more part cuts off its last 64 bits first.
proof fn lemma_windows_next(value: int, k: nat)
    requires
        k > 0,
    ensures
        value / radix(k) == (value / 18446744073709551616int) / radix((k - 1) as nat),
        windows(value, k) == windows(value / 18446744073709551616int, (k - 1) as nat).push(
            value % 18446744073709551616int,
        ),
{
    let b = 18446744073709551616int;
    assert forall|n: nat| n > 0 implies value / #[trigger] radix(n) == (value / b) / radix(
        (n - 1) as nat,
    ) by {
        lemma_radix_positive((n - 1) as nat);
        lemma_div_twice(value, b, radix((n - 1) as nat));
    }
    let shorter = windows(value / b, (k - 1) as nat).push(value % b);
    assert forall|i: int| 0 <= i < k implies #[trigger] windows(value, k)[i] == shorter[i] by {
        if i < k - 1 {
            assert(value / radix((k - 1 - i) as nat) == (value / b) / radix((k - 2 - i) as nat));
        } else {
            assert(radix(0) == 1);
        }
    }
    assert(windows(value, k) =~= shorter);
}

/// The parts that a value is cut into encode it, however many there are.
pub proof fn law_windows_encode_their_value(value: int, k: nat)
    ensures
        encoded(value / radix(k), windows(value, k)) == value,
    decreases k,
{
    let b = 18446744073709551616int;
    if k > 0 {
        lemma_windows_next(value, k);
        law_windows_encode_their_value(value / b, (k - 1) as nat);
        assert(windows(value, k).drop_last() =~= windows(value / b, (k - 1) as nat));
    } else {
        assert(windows(value, 0) =~= Seq::empty());
    }
}

/// Whether every lower part is one of 64 bits.
pub open spec fn are_windows(lower: Seq<int>) -> bool {
    forall|i: int| 0 <= i < lower.len() ==> 0 <= #[trigger] lower[i] < 18446744073709551616int
}

/// Parts are those that the value they encode is cut into: no two encodings with as many
/// lower parts have one value.
pub proof fn law_encoding_is_unique(msp: int, lower: Seq<int>)
    requires
        are_windows(lower),
    ensures
        encoded(msp, lower) / radix(lower.len()) == msp,
        windows(encoded(msp, lower), lower.len()) == lower,
    decreases lower.len(),
{
    let value = encoded(msp, lower);
    if lower.len() > 0 {
        let shorter = lower.drop_last();
        law_encoding_is_unique(msp, shorter);
        lemma_cut(value, encoded(msp, shorter), lower.last());
        lemma_windows_next(value, lower.len());
        assert(windows(value, lower.len()) =~= lower);
    } else {
        assert(windows(value, 0) =~= lower);
    }
}

/// The value that parts encode is the most significant part at its weight, and each lower
/// part at its own.
pub proof fn law_encoded_is_a_weighted_sum(msp: int, lower: Seq<int>)
    ensures
        encoded(msp, lower) == msp * radix(lower.len()) + weighted(lower),
    decreases lower.len(),
{
    if lower.len() > 0 {
        law_encoded_is_a_weighted_sum(msp, lower.drop_last());
        lemma_weighted_last(lower);
        let shorter = radix((lower.len() - 1) as nat);
        assert((msp * shorter) * 18446744073709551616int == msp * (shorter
            * 18446744073709551616int)) by (nonlinear_arith);
    }
}

/// One more lower part gives the others one more weight.
proof fn lemma_weighted_last(lower: Seq<int>)
    requires
        lower.len() > 0,
    ensures
        weighted(lower) == weighted(lower.drop_last()) * 18446744073709551616int + lower.last(),
    decreases lower.len(),
{
    if lower.len() == 1 {
        assert(radix(0) == 1);
        assert(weighted(lower.drop_first()) == 0);
        assert(weighted(lower.drop_last()) == 0);
    } else {
        let rest = lower.drop_first();
        lemma_weighted_last(rest);
        assert(rest.drop_last() =~= lower.drop_last().drop_first());
        let n = (lower.len() - 2) as nat;
        assert((lower[0] * radix(n)) * 18446744073709551616int == lower[0] * (radix(n)
            * 18446744073709551616int)) by (nonlinear_arith);
    }
}

/// Why parts do not describe a decimal.
#[derive(Clone, Copy, Debug, PartialEq, Eq, Structural)]
pub enum PartsError {
    /// There are more lower parts than a decimal can carry.
    TooManyLowerParts(usize),
    /// The most significant part is not of a signed integer type.
    UnsignedMsp(PType),
    /// A lower part is not of type `u64`, or may hold nulls.
    LowerPartType {
        /// Which of the lower parts.
        part: usize,
        /// The type that it has.
        dtype: DType,
    },
    /// A lower part has not as many rows as the most significant part.
    LowerPartLen {
        /// Which of the lower parts.
        part: usize,
        /// How many rows it has.
        len: usize,
        /// How many rows the most significant part has.
        expected: usize,
    },
    /// Lower parts may not be written unless `unstable_encodings` are asked for.
    LowerPartsUnstable,
}

impl PartsError {
    /// What is wrong, in words.
    pub fn description(self) -> (text: &'static str)
        ensures
            text@ == match self {
                PartsError::TooManyLowerParts(_) => "at most three lower parts are supported"@,
                PartsError::UnsignedMsp(_) => "the first part must be a signed integer"@,
                PartsError::LowerPartType { .. } => "every lower part must be a non-nullable u64"@,
                PartsError::LowerPartLen { .. } => "a lower part has the wrong length"@,
                PartsError::LowerPartsUnstable => "lower parts need unstable_encodings"@,
            },
    {
        match self {
            PartsError::TooManyLowerParts(_) => "at most three lower parts are supported",
            PartsError::UnsignedMsp(_) => "the first part must be a signed integer",
            PartsError::LowerPartType { .. } => "every lower part must be a non-nullable u64",
            PartsError::LowerPartLen { .. } => "a lower part has the wrong length",
            PartsError::LowerPartsUnstable => "lower parts need unstable_encodings",
        }
    }
}

/// The decimal type that reassembling parts produces.
pub open spec fn assembled_type(msp_ptype: PType, lower_part_count: nat) -> Result<
    DecimalType,
    PartsError,
> {
    if lower_part_count > MAX_LOWER_PARTS {
        Err(PartsError::TooManyLowerParts(lower_part_count as usize))
    } else if !msp_ptype.signed() {
        Err(PartsError::UnsignedMsp(msp_ptype))
    } else if lower_part_count == 0 {
        Ok(DecimalType::of(msp_ptype)->Some_0)
    } else if lower_part_count == 1 {
        Ok(DecimalType::I128)
    } else {
        Ok(DecimalType::I256)
    }
}

/// The decimal type that reassembling the given parts produces.
///
/// Fails if there are more than [`MAX_LOWER_PARTS`] lower parts, or if the most significant
/// part is not of a signed integer type.
pub fn assembled_values_type(msp_ptype: PType, lower_part_count: usize) -> (values_type: Result<
    DecimalType,
    PartsError,
>)
    ensures
        values_type == assembled_type(msp_ptype, lower_part_count as nat),
        match values_type {
            Err(PartsError::TooManyLowerParts(count)) => count == lower_part_count && count > 3,
            Err(PartsError::UnsignedMsp(ptype)) => {
                &&& ptype == msp_ptype
                &&& !(ptype is I8 || ptype is I16 || ptype is I32 || ptype is I64)
                &&& lower_part_count <= 3
            },
            Err(_) => false,
            Ok(DecimalType::I8) => msp_ptype is I8 && lower_part_count == 0,
            Ok(DecimalType::I16) => msp_ptype is I16 && lower_part_count == 0,
            Ok(DecimalType::I32) => msp_ptype is I32 && lower_part_count == 0,
            Ok(DecimalType::I64) => msp_ptype is I64 && lower_part_count == 0,
            Ok(DecimalType::I128) => lower_part_count == 1,
            Ok(DecimalType::I256) => lower_part_count == 2 || lower_part_count == 3,
        },
{
    if lower_part_count > MAX_LOWER_PARTS {
        return Err(PartsError::TooManyLowerParts(lower_part_count));
    }
    if lower_part_count == 0 {
        return match DecimalType::from_ptype(msp_ptype) {
            Some(values_type) => Ok(values_type),
            None => Err(PartsError::UnsignedMsp(msp_ptype)),
        };
    }
    if !msp_ptype.is_signed_int() {
        return Err(PartsError::UnsignedMsp(msp_ptype));
    }
    let bits: usize = msp_ptype.bit_width() + LOWER_PART_BITS * lower_part_count;
    if bits <= 128 {
        Ok(DecimalType::I128)
    } else {
        Ok(DecimalType::I256)
    }
}

/// Lower parts, as integers.
pub open spec fn ints(parts: Seq<u64>) -> Seq<int> {
    parts.map_values(|part: u64| part as int)
}

/// Combines a single row's parts into an `i128`, in two's complement arithmetic. With at most
/// one lower part nothing is lost.
pub fn combine_i128(msp: i64, lower: &[u64]) -> (value: i128)
    ensures
        value == wrapped(encoded(msp as int, ints(lower@)), two_to_128()),
        lower@.len() <= 1 ==> value == encoded(msp as int, ints(lower@)),
{
    let mut value: i128 = msp as i128;
    let ghost all = ints(lower@);
    assert(all.take(0) =~= Seq::empty());
    proof {
        lemma_wraps_to(msp as int, msp as int, 0, two_to_128());
    }
    let mut i: usize = 0;
    while i < lower.len()
        invariant
            all == ints(lower@),
            i <= lower@.len(),
            value == wrapped(encoded(msp as int, all.take(i as int)), two_to_128()),
            i == 0 ==> value == msp,
            i == 1 ==> value == encoded(msp as int, all.take(1)),
        decreases lower@.len() - i,
    {
        let part: u64 = lower[i];
        let ghost before = value;
        value = shift_in(value, part);
        proof {
            let b = 18446744073709551616int;
            let m = two_to_128();
            let x = encoded(msp as int, all.take(i as int));
            assert(all.take(i + 1).drop_last() =~= all.take(i as int));
            assert(encoded(msp as int, all.take(i + 1)) == x * b + part);
            lemma_wrapped_residue(x, x, m);
            lemma_mul_mod_noop(before as int, b, m);
            lemma_mul_mod_noop(x, b, m);
            lemma_add_mod_noop(before * b, part as int, m);
            lemma_add_mod_noop(x * b, part as int, m);
            lemma_wrapped_residue(before * b + part, x * b + part, m);
            if i == 0 {
                lemma_wraps_to(before * b + part, before * b + part, 0, m);
            }
        }
        i = i + 1;
    }
    assert(all.take(i as int) =~= all);
    value
}

/// Moves a value up by the bits of a part, and puts the part below it.
fn shift_in(value: i128, part: u64) -> (combined: i128)
    ensures
        combined == wrapped(value * 18446744073709551616int + part, two_to_128()),
{
    let combined: i128 = (value << 64) | (part as i128);
    proof {
        let top: i64 = (value >> 64) as i64;
        let low: u64 = value as u64;
        assert(value == top * 0x1_0000_0000_0000_0000 + low) by (bit_vector)
            requires
                top == (value >> 64) as i64,
                low == value as u64,
        ;
        assert(combined == (low as i64) * 0x1_0000_0000_0000_0000 + part) by (bit_vector)
            requires
                combined == (value << 64) | (part as i128),
                low == value as u64,
        ;
        assert((low as i64) == if low < 0x8000_0000_0000_0000 {
            low as int
        } else {
            low - 0x1_0000_0000_0000_0000
        }) by (bit_vector);
        let k: int = top + if low < 0x8000_0000_0000_0000 {
            0int
        } else {
            1
        };
        lemma_wraps_to(
            value * 18446744073709551616int + part,
            combined as int,
            k,
            two_to_128(),
        );
    }
    combined
}

/// The value of four words, the least significant first, in two's complement.
pub open spec fn words_value(words: Seq<u64>) -> int {
    let top = if words[3] < 0x8000_0000_0000_0000 {
        words[3] as int
    } else {
        words[3] - 18446744073709551616int
    };
    ((top * 18446744073709551616int + words[2]) * 18446744073709551616int + words[1])
        * 18446744073709551616int + words[0]
}

/// Packs four words, the least significant first.
fn pack(words: [u64; 4]) -> (value: i256)
    ensures
        value@ == words_value(words@),
{
    let low: u128 = join(words[0], words[1]);
    let high: u128 = join(words[2], words[3]);
    proof {
        lemma_i128_of_u128(high);
    }
    i256::from_parts(low, high as i128)
}

/// Two words as one integer of 128 bits.
fn join(low: u64, high: u64) -> (joined: u128)
    ensures
        joined == high * 18446744073709551616int + low,
{
    let joined: u128 = (low as u128) | ((high as u128) << 64);
    assert(joined == high * 0x1_0000_0000_0000_0000 + low) by (bit_vector)
        requires
            joined == (low as u128) | ((high as u128) << 64),
    ;
    joined
}

/// A signed word as an unsigned one.
proof fn lemma_u64_of_i64(value: i64)
    ensures
        (value as u64) as int == if value < 0 {
            value + 18446744073709551616int
        } else {
            value as int
        },
{
    assert((value as u64) == if value < 0 {
        value + 0x1_0000_0000_0000_0000
    } else {
        value as int
    }) by (bit_vector);
}

/// Words that hold the lower parts, the most significant part above them, and its sign above
/// that, hold the value that the parts encode.
proof fn lemma_words_encode(words: Seq<u64>, msp: i64, lower: Seq<int>)
    requires
        words.len() == 4,
        lower.len() <= 3,
        forall|i: int| 0 <= i < lower.len() ==> words[lower.len() - 1 - i] == #[trigger] lower[i],
        words[lower.len() as int] == msp as u64,
        forall|i: int|
            lower.len() < i < 4 ==> #[trigger] words[i] == if msp < 0 {
                u64::MAX
            } else {
                0
            },
    ensures
        words_value(words) == encoded(msp as int, lower),
{
    lemma_u64_of_i64(msp);
    reveal_with_fuel(encoded, 4);
    let k = lower.len();
    if k == 1 {
        assert(words[0] == lower[0]);
        assert(words[2] == words[3]);
    } else if k == 2 {
        assert(words[1] == lower[0]);
        assert(words[0] == lower[1]);
    } else if k == 3 {
        assert(words[2] == lower[0]);
        assert(words[1] == lower[1]);
        assert(words[0] == lower[2]);
    }
}

/// Combines a single row's parts into an `i256`.
///
/// The lower parts fill the least significant words, the most significant part the word above
/// them, and the words above that hold its sign.
pub fn combine_i256(msp: i64, lower: &[u64]) -> (value: i256)
    requires
        lower@.len() <= MAX_LOWER_PARTS,
    ensures
        value@ == encoded(msp as int, ints(lower@)),
{
    let count: usize = lower.len();
    let sign: u64 = if msp < 0 {
        u64::MAX
    } else {
        0
    };
    let mut words: [u64; 4] = [sign;4];
    let mut i: usize = 0;
    while i < count
        invariant
            count == lower@.len(),
            count <= MAX_LOWER_PARTS,
            i <= count,
            forall|j: int| 0 <= j < i ==> words@[count - 1 - j] == #[trigger] lower@[j],
            forall|j: int| count <= j < 4 ==> #[trigger] words@[j] == sign,
        decreases count - i,
    {
        words[count - 1 - i] = lower[i];
        i = i + 1;
    }
    words[count] = msp as u64;
    proof {
        lemma_words_encode(words@, msp, ints(lower@));
    }
    pack(words)
}

/// The rows of lower parts, one column each.
pub open spec fn columns_row(lower: Seq<&Vec<u64>>, row: int) -> Seq<int> {
    Seq::new(lower.len(), |j: int| lower[j]@[row] as int)
}

/// Reassembles a column whose values take 128 bits. Only one lower part can share them with a
/// signed part.
fn assemble_i128(msp: &PrimitiveValues, lower: &Vec<u64>) -> (values: Vec<i128>)
    requires
        msp.of_type().signed(),
        msp@.len() <= lower@.len(),
    ensures
        values@.len() == msp@.len(),
        forall|row: int|
            0 <= row < msp@.len() ==> #[trigger] values@[row] == encoded(
                msp@[row],
                seq![lower@[row] as int],
            ),
{
    let len: usize = msp.len();
    let mut values: Vec<i128> = Vec::with_capacity(len);
    let mut row: usize = 0;
    while row < len
        invariant
            msp.of_type().signed(),
            len == msp@.len(),
            len <= lower@.len(),
            row <= len,
            values@.len() == row,
            forall|i: int|
                0 <= i < row ==> #[trigger] values@[i] == encoded(
                    msp@[i],
                    seq![lower@[i] as int],
                ),
        decreases len - row,
    {
        let part: i64 = msp.signed_at(row);
        let value: i128 = shift_in(part as i128, lower[row]);
        proof {
            let x = part * 18446744073709551616int + lower@[row as int];
            lemma_wraps_to(x, x, 0, two_to_128());
            reveal_with_fuel(encoded, 2);
            let last = seq![lower@[row as int] as int];
            assert(last.drop_last() =~= Seq::empty());
            assert(encoded(part as int, last) == x);
        }
        values.push(value);
        row = row + 1;
    }
    values
}

/// Reassembles a column whose values take 256 bits.
fn assemble_i256(msp: &PrimitiveValues, lower: &Vec<&Vec<u64>>) -> (values: Vec<i256>)
    requires
        msp.of_type().signed(),
        lower@.len() <= MAX_LOWER_PARTS,
        forall|j: int| 0 <= j < lower@.len() ==> msp@.len() <= (#[trigger] lower@[j])@.len(),
    ensures
        values@.len() == msp@.len(),
        forall|row: int|
            0 <= row < msp@.len() ==> (#[trigger] values@[row])@ == encoded(
                msp@[row],
                columns_row(lower@, row),
            ),
{
    let len: usize = msp.len();
    let count: usize = lower.len();
    let mut values: Vec<i256> = Vec::with_capacity(len);
    let mut row: usize = 0;
    while row < len
        invariant
            msp.of_type().signed(),
            len == msp@.len(),
            count == lower@.len(),
            count <= MAX_LOWER_PARTS,
            forall|j: int| 0 <= j < count ==> len <= (#[trigger] lower@[j])@.len(),
            row <= len,
            values@.len() == row,
            forall|i: int|
                0 <= i < row ==> (#[trigger] values@[i])@ == encoded(
                    msp@[i],
                    columns_row(lower@, i),
                ),
        decreases len - row,
    {
        let part: i64 = msp.signed_at(row);
        let sign: u64 = if part < 0 {
            u64::MAX
        } else {
            0
        };
        let mut words: [u64; 4] = [sign;4];
        let mut i: usize = 0;
        while i < count
            invariant
                count == lower@.len(),
                count <= MAX_LOWER_PARTS,
                row < len,
                forall|j: int| 0 <= j < count ==> len <= (#[trigger] lower@[j])@.len(),
                i <= count,
                forall|j: int|
                    0 <= j < i ==> words@[count - 1 - j] == #[trigger] columns_row(
                        lower@,
                        row as int,
                    )[j],
                forall|j: int| count <= j < 4 ==> #[trigger] words@[j] == sign,
            decreases count - i,
        {
            let column: &Vec<u64> = lower[i];
            assert(len <= lower@[i as int]@.len());
            words[count - 1 - i] = column[row];
            i = i + 1;
        }
        words[count] = part as u64;
        proof {
            lemma_words_encode(words@, part, columns_row(lower@, row as int));
        }
        values.push(pack(words));
        row = row + 1;
    }
    values
}

/// Splits values of 128 bits.
fn split_i128(values: &Vec<i128>) -> (split: (Vec<i64>, Vec<u64>))
    ensures
        split.0@.len() == values@.len(),
        split.1@.len() == values@.len(),
        forall|i: int|
            0 <= i < values@.len() ==> #[trigger] split.0@[i] == values@[i] as int
                / radix(1),
        forall|i: int|
            0 <= i < values@.len() ==> #[trigger] split.1@[i] == windows(
                values@[i] as int,
                1,
            )[0],
{
    let mut msp: Vec<i64> = Vec::with_capacity(values.len());
    let mut lower: Vec<u64> = Vec::with_capacity(values.len());
    let mut i: usize = 0;
    while i < values.len()
        invariant
            i <= values@.len(),
            msp@.len() == i,
            lower@.len() == i,
            forall|k: int|
                0 <= k < i ==> #[trigger] msp@[k] == values@[k] as int / radix(1),
            forall|k: int|
                0 <= k < i ==> #[trigger] lower@[k] == windows(values@[k] as int, 1)[0],
        decreases values@.len() - i,
    {
        let value: i128 = values[i];
        let high: i64 = (value >> 64) as i64;
        let low: u64 = value as u64;
        proof {
            assert(value == high * 0x1_0000_0000_0000_0000 + low) by (bit_vector)
                requires
                    high == (value >> 64) as i64,
                    low == value as u64,
            ;
            let parts = seq![low as int];
            reveal_with_fuel(encoded, 2);
            assert(parts.drop_last() =~= Seq::empty());
            assert(encoded(high as int, parts) == value);
            law_encoding_is_unique(high as int, parts);
        }
        msp.push(high);
        lower.push(low);
        i = i + 1;
    }
    (msp, lower)
}

/// Splits values of 256 bits. The lower parts come most significant first.
fn split_i256(values: &Vec<i256>) -> (split: (Vec<i64>, (Vec<u64>, Vec<u64>, Vec<u64>)))
    ensures
        ({
            let (msp, (first, second, third)) = split;
            &&& msp@.len() == values@.len()
            &&& first@.len() == values@.len()
            &&& second@.len() == values@.len()
            &&& third@.len() == values@.len()
            &&& forall|i: int| 0 <= i < values@.len() ==> #[trigger] msp@[i] == values@[i]@ / radix(3)
            &&& forall|i: int|
                0 <= i < values@.len() ==> #[trigger] first@[i] == windows(values@[i]@, 3)[0]
            &&& forall|i: int|
                0 <= i < values@.len() ==> #[trigger] second@[i] == windows(values@[i]@, 3)[1]
            &&& forall|i: int|
                0 <= i < values@.len() ==> #[trigger] third@[i] == windows(values@[i]@, 3)[2]
        }),
{
    let mut msp: Vec<i64> = Vec::with_capacity(values.len());
    let mut first: Vec<u64> = Vec::with_capacity(values.len());
    let mut second: Vec<u64> = Vec::with_capacity(values.len());
    let mut third: Vec<u64> = Vec::with_capacity(values.len());
    let mut i: usize = 0;
    while i < values.len()
        invariant
            i <= values@.len(),
            msp@.len() == i,
            first@.len() == i,
            second@.len() == i,
            third@.len() == i,
            forall|k: int| 0 <= k < i ==> #[trigger] msp@[k] == values@[k]@ / radix(3),
            forall|k: int| 0 <= k < i ==> #[trigger] first@[k] == windows(values@[k]@, 3)[0],
            forall|k: int| 0 <= k < i ==> #[trigger] second@[k] == windows(values@[k]@, 3)[1],
            forall|k: int| 0 <= k < i ==> #[trigger] third@[k] == windows(values@[k]@, 3)[2],
        decreases values@.len() - i,
    {
        let (low, high) = values[i].to_parts();
        let top: i64 = (high >> 64) as i64;
        let a: u64 = high as u64;
        let b: u64 = (low >> 64) as u64;
        let c: u64 = low as u64;
        proof {
            assert(high == top * 0x1_0000_0000_0000_0000 + a) by (bit_vector)
                requires
                    top == (high >> 64) as i64,
                    a == high as u64,
            ;
            assert(low == b * 0x1_0000_0000_0000_0000 + c) by (bit_vector)
                requires
                    b == (low >> 64) as u64,
                    c == low as u64,
            ;
            let parts = seq![a as int, b as int, c as int];
            reveal_with_fuel(encoded, 4);
            assert(parts.drop_last() =~= seq![a as int, b as int]);
            assert(parts.drop_last().drop_last() =~= seq![a as int]);
            assert(parts.drop_last().drop_last().drop_last() =~= Seq::empty());
            assert(encoded(top as int, parts) == values@[i as int]@);
            law_encoding_is_unique(top as int, parts);
        }
        msp.push(top);
        first.push(a);
        second.push(b);
        third.push(c);
        i = i + 1;
    }
    (msp, (first, second, third))
}

/// A column of decimals decomposed into parts.
#[derive(Debug, PartialEq, Eq)]
pub struct DecimalParts {
    /// The signed most significant part, carrying the validity of the whole column.
    pub msp: PrimitiveArray,
    /// The unsigned 64-bit lower parts, most significant first.
    pub lower_parts: Vec<PrimitiveArray>,
}

/// A column of decimals decomposed into parts, as a value.
#[verifier::ext_equal]
pub struct Parts {
    /// The most significant part.
    pub msp: Integers,
    /// The lower parts, most significant first.
    pub lower: Seq<Integers>,
}

/// Columns of integers, as values.
pub open spec fn columns_view(columns: Seq<PrimitiveArray>) -> Seq<Integers> {
    Seq::new(columns.len(), |i: int| columns[i]@)
}

impl View for DecimalParts {
    type V = Parts;

    open spec fn view(&self) -> Parts {
        Parts { msp: self.msp@, lower: columns_view(self.lower_parts@) }
    }
}

/// A column of 64-bit words without nulls.
pub open spec fn word_column(values: Seq<int>) -> Integers {
    Integers { ptype: PType::U64, values, validity: Validness::NonNullable }
}

/// The parts of a column of decimals: every value cut on 64-bit boundaries, into as many lower
/// parts as its type takes.
pub open spec fn parts_of(decimal: Decimals) -> Parts {
    let k = lower_count(decimal.values_type);
    Parts {
        msp: Integers {
            ptype: msp_type(decimal.values_type),
            values: decimal.values.map_values(|value: int| value / radix(k)),
            validity: decimal.validity,
        },
        lower: Seq::new(
            k,
            |j: int|
                word_column(decimal.values.map_values(|value: int| windows(value, k)[j])),
        ),
    }
}

/// Words, as a column of integers.
fn words_array(words: Vec<u64>) -> (array: PrimitiveArray)
    ensures
        array@ == word_column(ints(words@)),
{
    PrimitiveArray::new(PrimitiveValues::U64(words), Validity::NonNullable)
}

impl DecimalParts {
    /// Parts for decimals already stored in a single signed integer.
    fn flat(values: PrimitiveValues, validity: Validity) -> (parts: Self)
        requires
            validity@.covers(values@.len()),
        ensures
            parts@ == (Parts {
                msp: Integers {
                    ptype: values.of_type(),
                    values: values@,
                    validity: validity@,
                },
                lower: Seq::empty(),
            }),
    {
        let lower_parts: Vec<PrimitiveArray> = Vec::new();
        assert(columns_view(lower_parts@) =~= Seq::empty());
        DecimalParts { msp: PrimitiveArray::new(values, validity), lower_parts }
    }

    /// Parts for decimals that a single signed integer does not hold.
    fn new(msp: Vec<i64>, lower_parts: Vec<PrimitiveArray>, validity: Validity) -> (parts: Self)
        requires
            validity@.covers(msp@.len()),
        ensures
            parts@ == (Parts {
                msp: Integers {
                    ptype: PType::I64,
                    values: msp@.map_values(|value: i64| value as int),
                    validity: validity@,
                },
                lower: columns_view(lower_parts@),
            }),
    {
        DecimalParts { msp: PrimitiveArray::new(PrimitiveValues::I64(msp), validity), lower_parts }
    }
}

/// Splits a column of decimals into a signed most significant part and unsigned 64-bit lower
/// parts.
///
/// Values narrower than 128 bits are a single signed part already, so they have no lower
/// parts. Values of 128 bits have one, values of 256 bits have three.
pub fn split_decimal(decimal: &DecimalArray) -> (parts: DecimalParts)
    requires
        decimal@.wf(),
    ensures
        parts@ == parts_of(decimal@),
        parts.msp.validity@ == decimal.validity@,
        parts.msp@.values.len() == decimal@.values.len(),
{
    let validity: Validity = decimal.validity.duplicate();
    let ghost whole = parts_of(decimal@);
    proof {
        if lower_count(decimal@.values_type) == 0 {
            assert(radix(0) == 1);
            assert(whole.msp.values =~= decimal@.values);
            assert(whole.lower =~= Seq::empty());
        }
    }
    match &decimal.values {
        DecimalValues::I8(values) => {
            DecimalParts::flat(PrimitiveValues::I8(duplicate(values)), validity)
        },
        DecimalValues::I16(values) => {
            DecimalParts::flat(PrimitiveValues::I16(duplicate(values)), validity)
        },
        DecimalValues::I32(values) => {
            DecimalParts::flat(PrimitiveValues::I32(duplicate(values)), validity)
        },
        DecimalValues::I64(values) => {
            DecimalParts::flat(PrimitiveValues::I64(duplicate(values)), validity)
        },
        DecimalValues::I128(values) => {
            let (msp, lower) = split_i128(values);
            let ghost high = msp@;
            let ghost low = lower@;
            let lower_parts: Vec<PrimitiveArray> = vec![words_array(lower)];
            let parts = DecimalParts::new(msp, lower_parts, validity);
            proof {
                assert(parts@.msp.values =~= whole.msp.values);
                assert(ints(low) =~= whole.lower[0].values);
                assert(parts@.lower =~= whole.lower);
            }
            parts
        },
        DecimalValues::I256(values) => {
            let (msp, (first, second, third)) = split_i256(values);
            let ghost low = seq![first@, second@, third@];
            let lower_parts: Vec<PrimitiveArray> = vec![
                words_array(first),
                words_array(second),
                words_array(third),
            ];
            let parts = DecimalParts::new(msp, lower_parts, validity);
            proof {
                assert(parts@.msp.values =~= whole.msp.values);
                assert(ints(low[0]) =~= whole.lower[0].values);
                assert(ints(low[1]) =~= whole.lower[1].values);
                assert(ints(low[2]) =~= whole.lower[2].values);
                assert(parts@.lower =~= whole.lower);
            }
            parts
        },
    }
}

/// Why a lower part cannot be reassembled with `rows` rows of a most significant part.
pub open spec fn lower_part_error(part: Integers, index: int, rows: nat) -> Option<PartsError> {
    if part.ptype != PType::U64 {
        Some(PartsError::LowerPartType { part: index as usize, dtype: part.dtype() })
    } else if part.values.len() < rows {
        Some(
            PartsError::LowerPartLen {
                part: index as usize,
                len: part.values.len() as usize,
                expected: rows as usize,
            },
        )
    } else {
        None
    }
}

/// The error of the first lower part that cannot be reassembled, if there is one.
pub open spec fn first_lower_error(lower: Seq<Integers>, rows: nat) -> Option<PartsError> {
    first_found(lower, |index: int, part: Integers| lower_part_error(part, index, rows))
}

/// The lower parts of one row.
pub open spec fn row_of(lower: Seq<Integers>, row: int) -> Seq<int> {
    Seq::new(lower.len(), |j: int| lower[j].values[row])
}

/// The column of decimals that parts encode, row by row, or why they encode none.
pub open spec fn assembled(parts: Parts, decimal_dtype: DecimalDType) -> Result<
    Decimals,
    PartsError,
> {
    match first_lower_error(parts.lower, parts.msp.values.len()) {
        Some(error) => Err(error),
        None => match assembled_type(parts.msp.ptype, parts.lower.len()) {
            Err(error) => Err(error),
            Ok(values_type) => Ok(
                Decimals {
                    values_type,
                    values: Seq::new(
                        parts.msp.values.len(),
                        |row: int| encoded(parts.msp.values[row], row_of(parts.lower, row)),
                    ),
                    decimal_dtype,
                    validity: parts.msp.validity,
                },
            ),
        },
    }
}

/// Collects the words of every lower part, and fails on the first that cannot be reassembled.
fn lower_words(lower_parts: &[PrimitiveArray], rows: usize) -> (collected: Result<
    Vec<&Vec<u64>>,
    PartsError,
>)
    ensures
        match (collected, first_lower_error(columns_view(lower_parts@), rows as nat)) {
            (Ok(words), None) => {
                &&& words@.len() == lower_parts@.len()
                &&& forall|j: int|
                    0 <= j < words@.len() ==> rows <= (#[trigger] words@[j])@.len() && ints(
                        words@[j]@,
                    ) == lower_parts@[j]@.values
            },
            (Err(error), Some(expected)) => error == expected,
            _ => false,
        },
{
    let ghost columns = columns_view(lower_parts@);
    let mut words: Vec<&Vec<u64>> = Vec::with_capacity(lower_parts.len());
    assert(columns.take(0) =~= Seq::empty());
    let mut i: usize = 0;
    while i < lower_parts.len()
        invariant
            columns == columns_view(lower_parts@),
            i <= lower_parts@.len(),
            first_lower_error(columns.take(i as int), rows as nat) is None,
            words@.len() == i,
            forall|j: int|
                0 <= j < i ==> rows <= (#[trigger] words@[j])@.len() && ints(words@[j]@)
                    == lower_parts@[j]@.values,
        decreases lower_parts@.len() - i,
    {
        proof {
            assert(columns.take(i + 1).drop_last() =~= columns.take(i as int));
            assert(columns.take(i + 1).last() == lower_parts@[i as int]@);
            if first_lower_error(columns.take(i + 1), rows as nat) is Some {
                lemma_first_found(
                    columns,
                    |index: int, part: Integers| lower_part_error(part, index, rows as nat),
                    i + 1,
                );
            }
        }
        let column: &Vec<u64> = match &lower_parts[i].values {
            PrimitiveValues::U64(column) => column,
            _ => {
                return Err(
                    PartsError::LowerPartType { part: i, dtype: lower_parts[i].dtype() },
                );
            },
        };
        if column.len() < rows {
            return Err(
                PartsError::LowerPartLen { part: i, len: column.len(), expected: rows },
            );
        }
        words.push(column);
        i = i + 1;
    }
    assert(columns.take(i as int) =~= columns);
    Ok(words)
}

/// Reassembles parts into a column of decimals.
///
/// Fails if a lower part is not of type `u64` or is shorter than the most significant part,
/// if there are too many lower parts, and if the most significant part is not of a signed
/// integer type.
pub fn assemble_decimal(
    msp: &PrimitiveArray,
    lower_parts: &[PrimitiveArray],
    decimal_dtype: DecimalDType,
) -> (assembly: Result<DecimalArray, PartsError>)
    requires
        msp@.wf(),
    ensures
        match (
            assembly,
            assembled(
                Parts { msp: msp@, lower: columns_view(lower_parts@) },
                decimal_dtype,
            ),
        ) {
            (Ok(decimal), Ok(expected)) => decimal@ == expected,
            (Err(error), Err(expected)) => error == expected,
            _ => false,
        },
        assembly matches Ok(decimal) ==> {
            &&& decimal.validity@ == msp.validity@
            &&& decimal.decimal_dtype == decimal_dtype
            &&& decimal@.values.len() == msp@.values.len()
        },
{
    let ghost parts = Parts { msp: msp@, lower: columns_view(lower_parts@) };
    let ghost rows = msp@.values.len();
    let words: Vec<&Vec<u64>> = match lower_words(lower_parts, msp.len()) {
        Ok(words) => words,
        Err(error) => return Err(error),
    };
    let values_type: DecimalType = match assembled_values_type(msp.ptype(), words.len()) {
        Ok(values_type) => values_type,
        Err(error) => return Err(error),
    };
    let ghost expected = assembled(parts, decimal_dtype)->Ok_0;
    let validity: Validity = msp.validity.duplicate();
    proof {
        assert forall|row: int| 0 <= row < rows implies #[trigger] row_of(parts.lower, row)
            == columns_row(words@, row) by {
            assert forall|j: int| 0 <= j < words@.len() implies row_of(parts.lower, row)[j]
                == columns_row(words@, row)[j] by {
                assert(rows <= words@[j]@.len());
                assert(ints(words@[j]@)[row] == lower_parts@[j]@.values[row]);
            }
            assert(row_of(parts.lower, row) =~= columns_row(words@, row));
        }
    }
    let values: DecimalValues = if words.len() == 0 {
        proof {
            assert forall|row: int| 0 <= row < rows implies #[trigger] expected.values[row]
                == msp@.values[row] by {
                assert(row_of(parts.lower, row) =~= Seq::empty());
            }
            assert(expected.values =~= msp@.values);
        }
        match &msp.values {
            PrimitiveValues::I8(values) => DecimalValues::I8(duplicate(values)),
            PrimitiveValues::I16(values) => DecimalValues::I16(duplicate(values)),
            PrimitiveValues::I32(values) => DecimalValues::I32(duplicate(values)),
            PrimitiveValues::I64(values) => DecimalValues::I64(duplicate(values)),
            other => return Err(PartsError::UnsignedMsp(other.ptype())),
        }
    } else if words.len() == 1 {
        let values: Vec<i128> = assemble_i128(&msp.values, words[0]);
        proof {
            assert forall|row: int| 0 <= row < rows implies #[trigger] expected.values[row]
                == values@[row] by {
                assert(columns_row(words@, row) =~= seq![words@[0]@[row] as int]);
            }
            assert(DecimalValues::I128(values)@ =~= expected.values);
        }
        DecimalValues::I128(values)
    } else {
        let values: Vec<i256> = assemble_i256(&msp.values, &words);
        assert(DecimalValues::I256(values)@ =~= expected.values);
        DecimalValues::I256(values)
    };
    Ok(DecimalArray::new(values, decimal_dtype, validity))
}

/// Reassembling the parts of a column gives the column back: its values, its storage type and
/// its validity.
pub proof fn law_assembling_undoes_splitting(decimal: Decimals)
    ensures
        assembled(parts_of(decimal), decimal.decimal_dtype) == Ok::<Decimals, PartsError>(decimal),
{
    let k = lower_count(decimal.values_type);
    let parts = parts_of(decimal);
    let rows = decimal.values.len();
    lemma_split_parts_assemble(parts.lower, rows);
    let result = assembled(parts, decimal.decimal_dtype)->Ok_0;
    assert forall|row: int| 0 <= row < rows implies #[trigger] result.values[row]
        == decimal.values[row] by {
        let value = decimal.values[row];
        assert(row_of(parts.lower, row) =~= windows(value, k));
        law_windows_encode_their_value(value, k);
    }
    assert(result.values =~= decimal.values);
}

/// Columns of words that are as long as the most significant part are not in error.
proof fn lemma_split_parts_assemble(lower: Seq<Integers>, rows: nat)
    requires
        forall|j: int|
            0 <= j < lower.len() ==> (#[trigger] lower[j]).ptype == PType::U64
                && lower[j].values.len() == rows,
    ensures
        first_lower_error(lower, rows) is None,
    decreases lower.len(),
{
    if lower.len() > 0 {
        lemma_split_parts_assemble(lower.drop_last(), rows);
    }
}

/// The weights of parts are powers of two, 64 bits apart.
pub proof fn law_radix_is_a_power_of_two(k: nat)
    ensures
        radix(k) == pow2(64 * k),
    decreases k,
{
    lemma2_to64();
    lemma2_to64_rest();
    if k > 0 {
        law_radix_is_a_power_of_two((k - 1) as nat);
        lemma_pow2_adds((64 * (k - 1)) as nat, 64);
        assert(64 * (k - 1) + 64 == 64 * k);
    } else {
        assert(64 * k == 0);
    }
}

/// A part more at the end moves all others up by 64 bits, and is added below them.
pub proof fn law_one_more_part_shifts_the_others(msp: int, lower: Seq<int>, part: int)
    ensures
        encoded(msp, Seq::empty()) == msp,
        encoded(msp, lower.push(part)) == encoded(msp, lower) * pow2(64) + part,
{
    lemma2_to64_rest();
    assert(lower.push(part).drop_last() =~= lower);
}

/// The value of up to three lower parts below a most significant part, written out.
proof fn lemma_encoded_written_out(msp: int, lower: Seq<int>)
    ensures
        lower.len() == 0 ==> encoded(msp, lower) == msp,
        lower.len() == 1 ==> encoded(msp, lower) == msp * pow2(64) + lower[0],
        lower.len() == 2 ==> encoded(msp, lower) == msp * pow2(128) + lower[0] * pow2(64)
            + lower[1],
        lower.len() == 3 ==> encoded(msp, lower) == msp * pow2(192) + lower[0] * pow2(128)
            + lower[1] * pow2(64) + lower[2],
{
    reveal_with_fuel(encoded, 4);
    lemma2_to64();
    lemma2_to64_rest();
    lemma_pow2_adds(64, 64);
    lemma_pow2_adds(128, 64);
    let b = 18446744073709551616int;
    assert(pow2(64) == b);
    assert(pow2(128) == b * b);
    assert(pow2(192) == (b * b) * b);
    assert((msp * b) * b == msp * (b * b)) by (nonlinear_arith);
    assert(((msp * b) * b) * b == msp * ((b * b) * b)) by (nonlinear_arith);
    if lower.len() >= 1 {
        assert((lower[0] * b) * b == lower[0] * (b * b)) by (nonlinear_arith);
    }
    if lower.len() == 1 {
        assert(lower.drop_last() =~= Seq::empty());
    } else if lower.len() == 2 {
        assert(lower.drop_last() =~= seq![lower[0]]);
        assert(lower.drop_last().drop_last() =~= Seq::empty());
    } else if lower.len() == 3 {
        assert(lower.drop_last() =~= seq![lower[0], lower[1]]);
        assert(lower.drop_last().drop_last() =~= seq![lower[0]]);
        assert(lower.drop_last().drop_last().drop_last() =~= Seq::empty());
    }
}

/// Splitting a column leaves its nulls where they are: the most significant part has the
/// validity of the column, and the lower parts have no nulls of their own.
pub proof fn law_splitting_keeps_validity(decimal: Decimals)
    ensures
        parts_of(decimal).msp.validity == decimal.validity,
        parts_of(decimal).msp.wf() <==> decimal.wf(),
        forall|row: int|
            parts_of(decimal).msp.validity.holds(row) <==> #[trigger] decimal.validity.holds(row),
        forall|j: int|
            0 <= j < parts_of(decimal).lower.len() ==> (#[trigger] parts_of(
                decimal,
            ).lower[j]).validity is NonNullable,
{
}

/// Assembling leaves nulls where they are: the column has the validity of the most significant
/// part, whatever lower parts there are, and the digits that were asked for.
pub proof fn law_assembling_keeps_validity(parts: Parts, decimal_dtype: DecimalDType)
    requires
        assembled(parts, decimal_dtype) is Ok,
    ensures
        ({
            let column = assembled(parts, decimal_dtype)->Ok_0;
            &&& column.validity == parts.msp.validity
            &&& column.values.len() == parts.msp.values.len()
            &&& column.decimal_dtype == decimal_dtype
            &&& forall|row: int|
                column.validity.holds(row) <==> #[trigger] parts.msp.validity.holds(row)
        }),
{
}

/// Splitting cuts each value on 64-bit boundaries: a value of up to 64 bits is its only part,
/// one of 128 bits is two words, and one of 256 bits is four; the first word is signed, and
/// the others are not.
pub proof fn law_splitting_cuts_each_value(decimal: Decimals, row: int)
    requires
        0 <= row < decimal.values.len(),
    ensures
        ({
            let parts = parts_of(decimal);
            let value = decimal.values[row];
            let msp = parts.msp.values[row];
            &&& parts.msp.values.len() == decimal.values.len()
            &&& forall|j: int|
                0 <= j < parts.lower.len() ==> {
                    &&& (#[trigger] parts.lower[j]).ptype is U64
                    &&& parts.lower[j].values.len() == decimal.values.len()
                    &&& 0 <= parts.lower[j].values[row] < pow2(64)
                }
            &&& match decimal.values_type {
                DecimalType::I8 => parts.msp.ptype is I8 && parts.lower.len() == 0 && msp == value,
                DecimalType::I16 => parts.msp.ptype is I16 && parts.lower.len() == 0 && msp
                    == value,
                DecimalType::I32 => parts.msp.ptype is I32 && parts.lower.len() == 0 && msp
                    == value,
                DecimalType::I64 => parts.msp.ptype is I64 && parts.lower.len() == 0 && msp
                    == value,
                DecimalType::I128 => {
                    &&& parts.msp.ptype is I64
                    &&& parts.lower.len() == 1
                    &&& value == msp * pow2(64) + parts.lower[0].values[row]
                },
                DecimalType::I256 => {
                    &&& parts.msp.ptype is I64
                    &&& parts.lower.len() == 3
                    &&& value == msp * pow2(192) + parts.lower[0].values[row] * pow2(128)
                        + parts.lower[1].values[row] * pow2(64) + parts.lower[2].values[row]
                },
            }
        }),
{
    let k = lower_count(decimal.values_type);
    let value = decimal.values[row];
    let cut = windows(value, k);
    lemma2_to64_rest();
    law_windows_encode_their_value(value, k);
    lemma_encoded_written_out(value / radix(k), cut);
    assert(radix(0) == 1);
    let parts = parts_of(decimal);
    assert forall|j: int| 0 <= j < parts.lower.len() implies {
        &&& (#[trigger] parts.lower[j]).ptype is U64
        &&& parts.lower[j].values.len() == decimal.values.len()
        &&& 0 <= parts.lower[j].values[row] < pow2(64)
    } by {
        assert(parts.lower[j].values[row] == cut[j]);
    }
}

/// Assembling puts the words of each row together: the most significant part above as many
/// unsigned words of 64 bits as there are lower parts. Without lower parts the column is
/// stored as that part was, with one in 128 bits, with more in 256.
pub proof fn law_assembling_joins_each_row(parts: Parts, decimal_dtype: DecimalDType, row: int)
    requires
        assembled(parts, decimal_dtype) is Ok,
        0 <= row < parts.msp.values.len(),
    ensures
        ({
            let column = assembled(parts, decimal_dtype)->Ok_0;
            let msp = parts.msp.values[row];
            let lower = parts.lower;
            let value = column.values[row];
            &&& lower.len() == 0 ==> value == msp && match parts.msp.ptype {
                PType::I8 => column.values_type is I8,
                PType::I16 => column.values_type is I16,
                PType::I32 => column.values_type is I32,
                PType::I64 => column.values_type is I64,
                _ => false,
            }
            &&& lower.len() == 1 ==> column.values_type is I128 && value == msp * pow2(64)
                + lower[0].values[row]
            &&& lower.len() == 2 ==> column.values_type is I256 && value == msp * pow2(128)
                + lower[0].values[row] * pow2(64) + lower[1].values[row]
            &&& lower.len() == 3 ==> column.values_type is I256 && value == msp * pow2(192)
                + lower[0].values[row] * pow2(128) + lower[1].values[row] * pow2(64)
                + lower[2].values[row]
            &&& lower.len() <= 3
        }),
{
    lemma_encoded_written_out(parts.msp.values[row], row_of(parts.lower, row));
}

/// Parts assemble exactly where the most significant part is a signed integer, there are no
/// more than three lower parts, and each of them is of type `u64` and long enough.
pub proof fn law_parts_assemble_exactly_where_they_fit(parts: Parts, decimal_dtype: DecimalDType)
    ensures
        assembled(parts, decimal_dtype) is Ok <==> {
            &&& parts.msp.ptype is I8 || parts.msp.ptype is I16 || parts.msp.ptype is I32
                || parts.msp.ptype is I64
            &&& parts.lower.len() <= 3
            &&& forall|j: int|
                0 <= j < parts.lower.len() ==> (#[trigger] parts.lower[j]).ptype is U64
                    && parts.lower[j].values.len() >= parts.msp.values.len()
        },
{
    let rows = parts.msp.values.len();
    law_first_found_is_first(
        parts.lower,
        |index: int, part: Integers| lower_part_error(part, index, rows),
    );
}

/// Where parts do not assemble the first fault is reported: that of the first lower part that
/// has one; else that there are too many; else the type of the most significant part.
pub proof fn law_assembling_reports_the_first_fault(parts: Parts, decimal_dtype: DecimalDType)
    requires
        assembled(parts, decimal_dtype) is Err,
        parts.lower.len() <= usize::MAX,
        parts.msp.values.len() <= usize::MAX,
    ensures
        ({
            let rows = parts.msp.values.len();
            let fine = |j: int|
                parts.lower[j].ptype is U64 && parts.lower[j].values.len() >= rows;
            match assembled(parts, decimal_dtype)->Err_0 {
                PartsError::LowerPartType { part, dtype } => {
                    &&& part < parts.lower.len()
                    &&& !(parts.lower[part as int].ptype is U64)
                    &&& dtype == parts.lower[part as int].dtype()
                    &&& forall|j: int| 0 <= j < part ==> #[trigger] fine(j)
                },
                PartsError::LowerPartLen { part, len, expected } => {
                    &&& part < parts.lower.len()
                    &&& parts.lower[part as int].ptype is U64
                    &&& len == parts.lower[part as int].values.len() < expected
                    &&& expected == rows
                    &&& forall|j: int| 0 <= j < part ==> #[trigger] fine(j)
                },
                PartsError::TooManyLowerParts(count) => {
                    &&& count == parts.lower.len() > 3
                    &&& forall|j: int| 0 <= j < count ==> #[trigger] fine(j)
                },
                PartsError::UnsignedMsp(ptype) => {
                    &&& ptype == parts.msp.ptype
                    &&& !(ptype is I8 || ptype is I16 || ptype is I32 || ptype is I64)
                    &&& parts.lower.len() <= 3
                    &&& forall|j: int| 0 <= j < parts.lower.len() ==> #[trigger] fine(j)
                },
                PartsError::LowerPartsUnstable => false,
            }
        }),
{
    let rows = parts.msp.values.len();
    let fine = |j: int| parts.lower[j].ptype is U64 && parts.lower[j].values.len() >= rows;
    let f = |index: int, part: Integers| lower_part_error(part, index, rows);
    law_first_found_is_first(parts.lower, f);
    if let Some(found) = first_lower_error(parts.lower, rows) {
        let i = choose|i: int|
            0 <= i < parts.lower.len() && f(i, #[trigger] parts.lower[i]) == Some(found) && forall|
                j: int,
            |
                0 <= j < i ==> f(j, #[trigger] parts.lower[j]) is None;
        assert forall|j: int| 0 <= j < i implies #[trigger] fine(j) by {
            assert(f(j, parts.lower[j]) is None);
        }
    } else {
        assert forall|j: int| 0 <= j < parts.lower.len() implies #[trigger] fine(j) by {
            assert(f(j, parts.lower[j]) is None);
        }
    }
}

/// The values of parts have every column of the parts, in order.
pub proof fn law_part_values_have_every_column(parts: DecimalParts)
    ensures
        parts@.msp == parts.msp@,
        parts@.lower.len() == parts.lower_parts@.len(),
        forall|j: int|
            0 <= j < parts.lower_parts@.len() ==> #[trigger] parts@.lower[j]
                == parts.lower_parts@[j]@,
        parts.msp@.values == parts.msp.values@,
        parts.msp@.validity == parts.msp.validity@,
{
}

} // verus!
