//! Compressing columns of decimals as byte parts.

use crate::array::{
    DecimalArray, DecimalDType, DecimalType, DecimalValues, Decimals, Integers, PrimitiveArray,
};
use crate::byte_parts::{
    lemma_right_parts_not_refused, refusal, valid_parts, DecimalByteParts,
};
use crate::limbs::{
    assembled, columns_view, law_assembling_undoes_splitting, law_splitting_keeps_validity,
    lower_count, parts_of, split_decimal, DecimalParts, Parts, PartsError, MAX_LOWER_PARTS,
};
use crate::wide::i256;
use vstd::arithmetic::power2::{lemma2_to64, lemma2_to64_rest, lemma_pow2_adds, pow2};
use vstd::prelude::*;

verus! {

/// Whether a type stores a value.
pub open spec fn stores(values_type: DecimalType, value: int) -> bool {
    match values_type {
        DecimalType::I8 => i8::MIN <= value <= i8::MAX,
        DecimalType::I16 => i16::MIN <= value <= i16::MAX,
        DecimalType::I32 => i32::MIN <= value <= i32::MAX,
        DecimalType::I64 => i64::MIN <= value <= i64::MAX,
        DecimalType::I128 => i128::MIN <= value <= i128::MAX,
        DecimalType::I256 => true,
    }
}

/// Whether a type stores all values of a column.
pub open spec fn stores_all(values_type: DecimalType, values: Seq<int>) -> bool {
    forall|i: int| 0 <= i < values.len() ==> stores(values_type, #[trigger] values[i])
}

/// The smallest type that stores all values of a column.
pub open spec fn smallest_type(values: Seq<int>) -> DecimalType {
    if stores_all(DecimalType::I8, values) {
        DecimalType::I8
    } else if stores_all(DecimalType::I16, values) {
        DecimalType::I16
    } else if stores_all(DecimalType::I32, values) {
        DecimalType::I32
    } else if stores_all(DecimalType::I64, values) {
        DecimalType::I64
    } else if stores_all(DecimalType::I128, values) {
        DecimalType::I128
    } else {
        DecimalType::I256
    }
}

/// The same column in the smallest type that stores it.
pub open spec fn narrowed(decimal: Decimals) -> Decimals {
    Decimals { values_type: smallest_type(decimal.values), ..decimal }
}

/// Decides whether a type stores a value.
fn can_store(values_type: DecimalType, value: i256) -> (can: bool)
    ensures
        can == stores(values_type, value@),
{
    match values_type {
        DecimalType::I256 => true,
        _ => match value.to_i128() {
            None => false,
            Some(value) => match values_type {
                DecimalType::I8 => i8::MIN as i128 <= value && value <= i8::MAX as i128,
                DecimalType::I16 => i16::MIN as i128 <= value && value <= i16::MAX as i128,
                DecimalType::I32 => i32::MIN as i128 <= value && value <= i32::MAX as i128,
                DecimalType::I64 => i64::MIN as i128 <= value && value <= i64::MAX as i128,
                _ => true,
            },
        },
    }
}

/// Decides whether a type stores all values of a column.
fn can_store_all(values_type: DecimalType, values: &DecimalValues) -> (can: bool)
    ensures
        can == stores_all(values_type, values@),
{
    let mut row: usize = 0;
    while row < values.len()
        invariant
            row <= values@.len(),
            forall|i: int| 0 <= i < row ==> stores(values_type, #[trigger] values@[i]),
        decreases values@.len() - row,
    {
        if !can_store(values_type, values.at(row)) {
            assert(!stores(values_type, values@[row as int]));
            return false;
        }
        row = row + 1;
    }
    true
}

/// Finds the smallest type that stores all values of a column.
fn find_smallest_type(values: &DecimalValues) -> (values_type: DecimalType)
    ensures
        values_type == smallest_type(values@),
{
    if can_store_all(DecimalType::I8, values) {
        DecimalType::I8
    } else if can_store_all(DecimalType::I16, values) {
        DecimalType::I16
    } else if can_store_all(DecimalType::I32, values) {
        DecimalType::I32
    } else if can_store_all(DecimalType::I64, values) {
        DecimalType::I64
    } else if can_store_all(DecimalType::I128, values) {
        DecimalType::I128
    } else {
        DecimalType::I256
    }
}

/// A value in 128 bits.
fn at_i128(values: &DecimalValues, row: usize) -> (value: i128)
    requires
        row < values@.len(),
        i128::MIN <= values@[row as int] <= i128::MAX,
    ensures
        value == values@[row as int],
{
    values.at(row).to_i128().unwrap()
}

/// Stores values in another type.
fn store_as(values: &DecimalValues, values_type: DecimalType) -> (stored: DecimalValues)
    requires
        stores_all(values_type, values@),
    ensures
        stored@ == values@,
        stored.of_type() == values_type,
{
    let len: usize = values.len();
    let mut as_i8: Vec<i8> = Vec::new();
    let mut as_i16: Vec<i16> = Vec::new();
    let mut as_i32: Vec<i32> = Vec::new();
    let mut as_i64: Vec<i64> = Vec::new();
    let mut as_i128: Vec<i128> = Vec::new();
    let mut as_i256: Vec<i256> = Vec::new();
    let mut row: usize = 0;
    while row < len
        invariant
            len == values@.len(),
            stores_all(values_type, values@),
            row <= len,
            match values_type {
                DecimalType::I8 => as_i8@.map_values(|v: i8| v as int) == values@.take(row as int),
                DecimalType::I16 => as_i16@.map_values(|v: i16| v as int) == values@.take(
                    row as int,
                ),
                DecimalType::I32 => as_i32@.map_values(|v: i32| v as int) == values@.take(
                    row as int,
                ),
                DecimalType::I64 => as_i64@.map_values(|v: i64| v as int) == values@.take(
                    row as int,
                ),
                DecimalType::I128 => as_i128@.map_values(|v: i128| v as int) == values@.take(
                    row as int,
                ),
                DecimalType::I256 => as_i256@.map_values(|v: i256| v@) == values@.take(row as int),
            },
        decreases len - row,
    {
        assert(stores(values_type, values@[row as int]));
        match values_type {
            DecimalType::I8 => as_i8.push(at_i128(values, row) as i8),
            DecimalType::I16 => as_i16.push(at_i128(values, row) as i16),
            DecimalType::I32 => as_i32.push(at_i128(values, row) as i32),
            DecimalType::I64 => as_i64.push(at_i128(values, row) as i64),
            DecimalType::I128 => as_i128.push(at_i128(values, row)),
            DecimalType::I256 => as_i256.push(values.at(row)),
        }
        proof {
            let through = values@.take(row + 1);
            match values_type {
                DecimalType::I8 => assert(as_i8@.map_values(|v: i8| v as int) =~= through),
                DecimalType::I16 => assert(as_i16@.map_values(|v: i16| v as int) =~= through),
                DecimalType::I32 => assert(as_i32@.map_values(|v: i32| v as int) =~= through),
                DecimalType::I64 => assert(as_i64@.map_values(|v: i64| v as int) =~= through),
                DecimalType::I128 => assert(as_i128@.map_values(|v: i128| v as int) =~= through),
                DecimalType::I256 => assert(as_i256@.map_values(|v: i256| v@) =~= through),
            }
        }
        row = row + 1;
    }
    assert(values@.take(len as int) =~= values@);
    match values_type {
        DecimalType::I8 => DecimalValues::I8(as_i8),
        DecimalType::I16 => DecimalValues::I16(as_i16),
        DecimalType::I32 => DecimalValues::I32(as_i32),
        DecimalType::I64 => DecimalValues::I64(as_i64),
        DecimalType::I128 => DecimalValues::I128(as_i128),
        DecimalType::I256 => DecimalValues::I256(as_i256),
    }
}

/// Narrows a column to the smallest integer type that stores all its values. What stands in
/// rows that hold no value counts too.
pub fn narrowed_decimal(decimal: DecimalArray) -> (narrow: DecimalArray)
    ensures
        narrow@ == narrowed(decimal@),
        narrow@.values == decimal@.values,
        narrow.validity == decimal.validity,
        narrow.decimal_dtype == decimal.decimal_dtype,
{
    let values_type: DecimalType = find_smallest_type(&decimal.values);
    let values: DecimalValues = store_as(&decimal.values, values_type);
    DecimalArray { values, decimal_dtype: decimal.decimal_dtype, validity: decimal.validity }
}

/// Narrowing keeps every value, the digits and the validity; no smaller type would store them;
/// and narrowing again changes nothing.
pub proof fn law_narrowing_loses_nothing(decimal: Decimals, smaller: DecimalType)
    ensures
        narrowed(decimal).values == decimal.values,
        narrowed(decimal).decimal_dtype == decimal.decimal_dtype,
        narrowed(decimal).validity == decimal.validity,
        stores_all(narrowed(decimal).values_type, decimal.values),
        stores_all(smaller, decimal.values) ==> type_rank(narrowed(decimal).values_type)
            <= type_rank(smaller),
        narrowed(narrowed(decimal)) == narrowed(decimal),
{
}

/// The place of a type among all, by width.
pub open spec fn type_rank(values_type: DecimalType) -> int {
    match values_type {
        DecimalType::I8 => 0,
        DecimalType::I16 => 1,
        DecimalType::I32 => 2,
        DecimalType::I64 => 3,
        DecimalType::I128 => 4,
        DecimalType::I256 => 5,
    }
}

/// A canonical column.
#[derive(Debug, PartialEq, Eq)]
pub enum Canonical {
    /// Integers.
    Primitive(PrimitiveArray),
    /// Decimals.
    Decimal(DecimalArray),
}

/// The encodings that a scheme can produce.
#[derive(Clone, Copy, Debug, PartialEq, Eq, Structural)]
pub enum EncodingId {
    /// Byte parts.
    DecimalByteParts,
}

/// What a scheme expects to gain.
#[derive(Clone, Copy, Debug, PartialEq, Eq, Structural)]
pub enum EstimateVerdict {
    /// The scheme is to be used without looking further.
    AlwaysUse,
}

/// The child that holds the most significant part.
pub const MSP_SLOT: usize = 0;

/// The child that holds the first lower part.
pub const LOWER_PARTS_OFFSET: usize = 1;

/// A column split for compression: the children to compress, and what puts them together.
#[derive(Debug, PartialEq, Eq)]
pub struct SplitDecimal {
    /// The parts, each to be compressed on its own.
    pub parts: DecimalParts,
    /// The digits of the values.
    pub decimal_dtype: DecimalDType,
}

/// Compression scheme for decimals by decomposition into byte parts.
///
/// Narrows the decimals to the smallest integer type, compresses the integers, and encodes
/// the result as byte parts.
///
/// Values that stay wider than 64 bits after narrowing are split into a signed part and lower
/// parts of 64 bits, one for 128 bits and three for 256, each of which is compressed on its
/// own.
#[derive(Debug, Clone, Copy, PartialEq, Eq, Structural)]
pub struct DecimalScheme;

impl DecimalScheme {
    /// The name of the scheme.
    pub fn scheme_name(&self) -> (name: &'static str)
        ensures
            name@ == "vortex.decimal.byte_parts"@,
    {
        "vortex.decimal.byte_parts"
    }

    /// Whether the scheme applies to a column.
    pub fn matches(&self, canonical: &Canonical) -> (applies: bool)
        ensures
            applies == canonical is Decimal,
    {
        match canonical {
            Canonical::Decimal(_) => true,
            _ => false,
        }
    }

    /// The encodings that the scheme produces.
    pub fn produced_encodings(&self) -> (encodings: Vec<EncodingId>)
        ensures
            encodings@ == seq![EncodingId::DecimalByteParts],
    {
        vec![EncodingId::DecimalByteParts]
    }

    /// How many children an encoded column can have: the most significant part, and the lower
    /// parts behind it.
    pub fn num_children(&self) -> (count: usize)
        ensures
            count == 4,
            count == LOWER_PARTS_OFFSET + MAX_LOWER_PARTS,
    {
        LOWER_PARTS_OFFSET + MAX_LOWER_PARTS
    }

    /// Decimals almost always gain by narrowing and compression of the integers.
    pub fn expected_compression_ratio(&self) -> (verdict: EstimateVerdict)
        ensures
            verdict == EstimateVerdict::AlwaysUse,
    {
        EstimateVerdict::AlwaysUse
    }

    /// Narrows and splits a column, for its parts to be compressed.
    pub fn split(&self, decimal: DecimalArray) -> (split: SplitDecimal)
        requires
            decimal@.wf(),
        ensures
            split.parts@ == parts_of(narrowed(decimal@)),
            split.decimal_dtype == decimal@.decimal_dtype,
    {
        let decimal: DecimalArray = narrowed_decimal(decimal);
        SplitDecimal { parts: split_decimal(&decimal), decimal_dtype: decimal.decimal_dtype }
    }

    /// Encodes a column as byte parts: narrows it, splits it, and puts the parts together as
    /// they are. A [`DecimalCompression`] has each compressed in between.
    ///
    /// Values that do not fit 64 bits are refused unless unstable encodings are asked for.
    pub fn compress(&self, decimal: DecimalArray, unstable_encodings: bool) -> (compressed: Result<
        DecimalByteParts,
        PartsError,
    >)
        requires
            decimal@.wf(),
        ensures
            match compressed {
                Ok(encoded) => {
                    &&& unstable_encodings || lower_count(smallest_type(decimal@.values)) == 0
                    &&& encoded.wf()
                    &&& encoded.parts@ == parts_of(narrowed(decimal@))
                    &&& encoded.decimal_dtype == decimal@.decimal_dtype
                    &&& encoded.decoded() == narrowed(decimal@)
                },
                Err(error) => {
                    &&& error == PartsError::LowerPartsUnstable
                    &&& !unstable_encodings && lower_count(smallest_type(decimal@.values)) > 0
                },
            },
            compressed is Ok <==> unstable_encodings || forall|i: int|
                0 <= i < decimal@.values.len() ==> i64::MIN <= #[trigger] decimal@.values[i]
                    <= i64::MAX,
            compressed matches Ok(encoded) ==> {
                &&& encoded.decoded().values == decimal@.values
                &&& encoded.decoded().validity == decimal.validity@
                &&& encoded.decoded().decimal_dtype == decimal.decimal_dtype
                &&& encoded.parts.msp.validity@ == decimal.validity@
            },
    {
        proof {
            law_compression_round_trips(decimal@);
            law_splitting_keeps_validity(narrowed(decimal@));
        }
        let ghost narrow = narrowed(decimal@);
        proof {
            lemma_split_parts_are_valid(narrow);
            law_assembling_undoes_splitting(narrow);
        }
        let split: SplitDecimal = self.split(decimal);
        DecimalByteParts::try_new_with_lower_parts(
            split.parts.msp,
            split.parts.lower_parts,
            split.decimal_dtype,
            unstable_encodings,
        )
    }
}

/// What compressing a column of decimals does next.
#[derive(Clone, Copy, Debug, PartialEq, Eq, Structural)]
pub enum CompressAction {
    /// Compress the next part, as the child in this slot.
    Child {
        /// The slot: the most significant part first, then the lower parts in their order.
        slot: usize,
    },
    /// Put the compressed parts together.
    Finish,
}

/// The compression of a column of decimals under way, part by part.
///
/// Who compresses a part hands back the column that the compressed part decodes to.
pub struct DecimalCompression {
    /// The column, narrowed and split.
    pub split: SplitDecimal,
    /// The most significant part, once it is compressed.
    pub msp: Option<PrimitiveArray>,
    /// The lower parts that are compressed so far.
    pub lower_parts: Vec<PrimitiveArray>,
    /// The column to compress.
    pub source: Ghost<Decimals>,
}

impl DecimalCompression {
    /// Whether the parts are those of the column, and no more are compressed than there are.
    pub open spec fn wf(&self) -> bool {
        &&& self.source@.wf()
        &&& self.split.parts@ == parts_of(narrowed(self.source@))
        &&& self.split.decimal_dtype == self.source@.decimal_dtype
        &&& self.lower_parts@.len() <= self.split.parts@.lower.len()
        &&& self.msp is None ==> self.lower_parts@.len() == 0
        &&& self.msp matches Some(msp) ==> msp@.wf()
    }

    /// What to do next.
    pub open spec fn next(&self) -> CompressAction {
        if self.msp is None {
            CompressAction::Child { slot: MSP_SLOT }
        } else if self.lower_parts@.len() < self.split.parts@.lower.len() {
            CompressAction::Child {
                slot: (LOWER_PARTS_OFFSET + self.lower_parts@.len()) as usize,
            }
        } else {
            CompressAction::Finish
        }
    }

    /// The part to compress next.
    pub open spec fn next_part(&self) -> Integers {
        if self.msp is None {
            self.split.parts@.msp
        } else {
            self.split.parts@.lower[self.lower_parts@.len() as int]
        }
    }

    /// The compressed parts, once all are.
    pub open spec fn compressed(&self) -> Parts {
        Parts { msp: self.msp->Some_0@, lower: columns_view(self.lower_parts@) }
    }

    /// Starts compressing a column: narrows it and splits it.
    pub fn start(decimal: DecimalArray) -> (compression: Self)
        requires
            decimal@.wf(),
        ensures
            compression.wf(),
            compression.source@ == decimal@,
            compression.msp is None,
            compression.next() == (CompressAction::Child { slot: MSP_SLOT }),
    {
        let ghost source = decimal@;
        let lower_parts: Vec<PrimitiveArray> = Vec::new();
        DecimalCompression {
            split: DecimalScheme.split(decimal),
            msp: None,
            lower_parts,
            source: Ghost(source),
        }
    }

    /// What to do next.
    pub fn action(&self) -> (action: CompressAction)
        requires
            self.wf(),
        ensures
            action == self.next(),
            match action {
                CompressAction::Child { slot } => (self.msp is None && slot == 0) || (self.msp
                    is Some && slot == 1 + self.lower_parts@.len() && self.lower_parts@.len()
                    < self.split.parts.lower_parts@.len()),
                CompressAction::Finish => self.msp is Some && self.lower_parts@.len()
                    == self.split.parts.lower_parts@.len(),
            },
            action matches CompressAction::Child { slot } ==> slot < LOWER_PARTS_OFFSET
                + MAX_LOWER_PARTS,
    {
        proof {
            law_compression_round_trips(self.source@);
        }
        if self.msp.is_none() {
            CompressAction::Child { slot: MSP_SLOT }
        } else if self.lower_parts.len() < self.split.parts.lower_parts.len() {
            CompressAction::Child { slot: LOWER_PARTS_OFFSET + self.lower_parts.len() }
        } else {
            CompressAction::Finish
        }
    }

    /// The part to compress next.
    pub fn part(&self) -> (part: &PrimitiveArray)
        requires
            self.wf(),
            self.next() is Child,
        ensures
            part@ == self.next_part(),
            self.msp is None ==> *part == self.split.parts.msp,
            self.msp is Some ==> *part
                == self.split.parts.lower_parts@[self.lower_parts@.len() as int],
    {
        if self.msp.is_none() {
            &self.split.parts.msp
        } else {
            &self.split.parts.lower_parts[self.lower_parts.len()]
        }
    }

    /// Takes note that the next part was compressed, to something that decodes to `child`.
    pub fn done(self, child: PrimitiveArray) -> (next: Self)
        requires
            self.wf(),
            self.next() is Child,
            child@.wf(),
        ensures
            next.wf(),
            next.source@ == self.source@,
            next.split == self.split,
            match self.msp {
                None => next.msp == Some(child) && next.lower_parts@ == self.lower_parts@,
                Some(msp) => next.msp == Some(msp) && next.lower_parts@ == self.lower_parts@.push(
                    child,
                ),
            },
    {
        let mut lower_parts: Vec<PrimitiveArray> = self.lower_parts;
        let msp: PrimitiveArray = match self.msp {
            None => child,
            Some(msp) => {
                lower_parts.push(child);
                msp
            },
        };
        DecimalCompression { split: self.split, msp: Some(msp), lower_parts, source: self.source }
    }

    /// Puts the compressed parts together, or says why they cannot be written.
    pub fn finish(self, unstable_encodings: bool) -> (finished: Result<
        DecimalByteParts,
        PartsError,
    >)
        requires
            self.wf(),
            self.next() is Finish,
        ensures
            match (finished, refusal(self.compressed(), unstable_encodings)) {
                (Ok(encoded), None) => {
                    &&& encoded.wf()
                    &&& encoded.parts@ == self.compressed()
                    &&& Some(encoded.parts.msp) == self.msp
                    &&& encoded.parts.lower_parts == self.lower_parts
                    &&& encoded.decimal_dtype == self.source@.decimal_dtype
                },
                (Err(error), Some(expected)) => error == expected,
                _ => false,
            },
    {
        DecimalByteParts::try_new_with_lower_parts(
            self.msp.unwrap(),
            self.lower_parts,
            self.split.decimal_dtype,
            unstable_encodings,
        )
    }
}

/// Where every part was compressed without loss, the compressed column decodes to the column,
/// in the smallest type that stores it, and is refused only for having lower parts where
/// unstable encodings are not asked for.
pub proof fn law_lossless_children_round_trip(
    compression: DecimalCompression,
    unstable_encodings: bool,
)
    requires
        compression.wf(),
        compression.next() is Finish,
        compression.compressed() == compression.split.parts@,
    ensures
        refusal(compression.compressed(), unstable_encodings) == if unstable_encodings
            || lower_count(smallest_type(compression.source@.values)) == 0 {
            None::<PartsError>
        } else {
            Some(PartsError::LowerPartsUnstable)
        },
        assembled(compression.compressed(), compression.source@.decimal_dtype) == Ok::<
            Decimals,
            PartsError,
        >(narrowed(compression.source@)),
{
    lemma_split_parts_are_valid(narrowed(compression.source@));
    law_compression_round_trips(compression.source@);
}

/// The parts that a column is split into can be written.
pub(crate) proof fn lemma_split_parts_are_valid(decimal: Decimals)
    requires
        decimal.wf(),
    ensures
        valid_parts(parts_of(decimal)),
        parts_of(decimal).lower.len() == lower_count(decimal.values_type),
{
    let parts = parts_of(decimal);
    lemma_right_parts_not_refused(parts.lower, parts.msp.values.len());
}

/// Decoding a compressed column gives back its values, its digits and its validity, in the
/// smallest type that stores them; and it has lower parts only if 64 bits do not.
pub proof fn law_compression_round_trips(decimal: Decimals)
    ensures
        ({
            let parts = parts_of(narrowed(decimal));
            &&& assembled(parts, decimal.decimal_dtype) == Ok::<Decimals, PartsError>(
                narrowed(decimal),
            )
            &&& narrowed(decimal).values == decimal.values
            &&& narrowed(decimal).decimal_dtype == decimal.decimal_dtype
            &&& narrowed(decimal).validity == decimal.validity
            &&& parts.lower.len() == 0 <==> stores_all(DecimalType::I64, decimal.values)
            &&& parts.lower.len() <= 1 <==> stores_all(DecimalType::I128, decimal.values)
            &&& parts.lower.len() <= MAX_LOWER_PARTS
        }),
{
    law_assembling_undoes_splitting(narrowed(decimal));
    let values = decimal.values;
    if stores_all(DecimalType::I8, values) {
        assert(stores_all(DecimalType::I16, values));
    }
    if stores_all(DecimalType::I16, values) {
        assert(stores_all(DecimalType::I32, values));
    }
    if stores_all(DecimalType::I32, values) {
        assert(stores_all(DecimalType::I64, values));
    }
    if stores_all(DecimalType::I64, values) {
        assert(stores_all(DecimalType::I128, values));
    }
}

/// Narrowing takes the smallest type whose range has every value: 8, 16, 32, 64 or 128 bits, or
/// else 256.
pub proof fn law_narrowed_type_is_the_smallest(decimal: Decimals)
    ensures
        ({
            let within = |bits: nat|
                forall|i: int|
                    0 <= i < decimal.values.len() ==> -pow2((bits - 1) as nat)
                        <= #[trigger] decimal.values[i] < pow2((bits - 1) as nat);
            match narrowed(decimal).values_type {
                DecimalType::I8 => within(8),
                DecimalType::I16 => within(16) && !within(8),
                DecimalType::I32 => within(32) && !within(16),
                DecimalType::I64 => within(64) && !within(32),
                DecimalType::I128 => within(128) && !within(64),
                DecimalType::I256 => !within(128),
            }
        }),
{
    lemma2_to64();
    lemma2_to64_rest();
    lemma_pow2_adds(64, 63);
    let values = decimal.values;
    let b = 18446744073709551616int;
    let h = 9223372036854775808int;
    assert(b * h == 170141183460469231731687303715884105728int) by (nonlinear_arith)
        requires
            b == 18446744073709551616int,
            h == 9223372036854775808int,
    ;
    assert(pow2(127) == 170141183460469231731687303715884105728int);
    let within = |bits: nat|
        forall|i: int|
            0 <= i < values.len() ==> -pow2((bits - 1) as nat) <= #[trigger] values[i] < pow2(
                (bits - 1) as nat,
            );
    assert(within(8) == stores_all(DecimalType::I8, values));
    assert(within(16) == stores_all(DecimalType::I16, values));
    assert(within(32) == stores_all(DecimalType::I32, values));
    assert(within(64) == stores_all(DecimalType::I64, values));
    assert(within(128) == stores_all(DecimalType::I128, values));
}

} // verus!
