//! Decimals split into parts, compressed, and put together again.

use pagewise::array::{
    keep, DecimalArray, DecimalDType, DecimalType, DecimalValues, PType, PrimitiveArray,
    PrimitiveValues, Validity,
};
use pagewise::byte_parts::{DecimalByteParts, DecimalBytePartsFilterPushDownRule};
use pagewise::decimal_scheme::{
    narrowed_decimal, Canonical, CompressAction, DecimalCompression, DecimalScheme, EncodingId,
    EstimateVerdict,
};
use pagewise::fixture::{encode_byte_parts, DecimalBytePartsFixture};
use pagewise::limbs::{
    assemble_decimal, assembled_values_type, combine_i128, combine_i256, lower_part_dtype,
    split_decimal, PartsError, MAX_LOWER_PARTS,
};
use pagewise::wide::i256;

/// Number of values per array.
const N: usize = 16_384;

fn ten_pow(exp: u32) -> i256 {
    i256::from_i128(10).wrapping_pow(exp)
}

/// Deterministic 24-bit noise, so the low part of each value is neither constant nor a
/// sequence.
fn noise(seed: u64) -> impl Iterator<Item = i128> {
    let mut state = seed;
    std::iter::repeat_with(move || {
        state = state
            .wrapping_mul(6_364_136_223_846_793_005)
            .wrapping_add(1_442_695_040_888_963_407);
        i128::from(state >> 40)
    })
}

fn wide_i128_array(validity: Validity) -> DecimalArray {
    let base = 10i128.pow(25);
    let values: Vec<i128> = noise(7).take(N).map(|delta| base + delta).collect();
    DecimalArray::new(
        DecimalValues::I128(values),
        DecimalDType::new(38, 2),
        validity,
    )
}

fn wide_i256_array(validity: Validity) -> DecimalArray {
    let base = ten_pow(40);
    let values: Vec<i256> = noise(11)
        .take(N)
        .map(|delta| base.wrapping_add(i256::from_i128(delta)))
        .collect();
    DecimalArray::new(
        DecimalValues::I256(values),
        DecimalDType::new(76, 2),
        validity,
    )
}

fn marks(every: usize) -> Validity {
    Validity::Array((0..N).map(|i| i % every != 0).collect())
}

fn round_trip(decimal: &DecimalArray) -> Result<DecimalArray, PartsError> {
    let parts = split_decimal(decimal);
    assemble_decimal(&parts.msp, &parts.lower_parts, decimal.decimal_dtype)
}

fn one_i128(value: i128) -> DecimalArray {
    DecimalArray::new(
        DecimalValues::I128(vec![value]),
        DecimalDType::new(38, 2),
        Validity::NonNullable,
    )
}

fn one_i256(value: i256) -> DecimalArray {
    DecimalArray::new(
        DecimalValues::I256(vec![value]),
        DecimalDType::new(76, 2),
        Validity::NonNullable,
    )
}

fn minus_one() -> i256 {
    i256::zero().wrapping_sub(i256::one())
}

#[test]
fn test_split_assemble_i128() {
    for value in [
        0,
        1,
        -1,
        1i128 << 64,
        (1i128 << 64) - 1,
        -(1i128 << 64),
        i128::MAX,
        i128::MIN,
    ] {
        let round_tripped = round_trip(&one_i128(value)).unwrap();
        assert_eq!(round_tripped.values, DecimalValues::I128(vec![value]));
    }
}

#[test]
fn test_split_assemble_i256() {
    for value in [
        i256::zero(),
        i256::one(),
        minus_one(),
        i256::max(),
        i256::min(),
        i256::from_parts(1u128 << 64, 0),
        i256::from_parts(0, 1),
        i256::from_parts(0, 1i128 << 64),
        i256::from_parts(u128::MAX, -3),
    ] {
        let round_tripped = round_trip(&one_i256(value)).unwrap();
        assert_eq!(round_tripped.values, DecimalValues::I256(vec![value]));
    }
}

#[test]
fn test_split_narrow_decimal_has_no_lower_parts() {
    let decimal = DecimalArray::new(
        DecimalValues::I32(vec![1i32, 2, 3]),
        DecimalDType::new(9, 2),
        Validity::NonNullable,
    );
    let parts = split_decimal(&decimal);
    assert!(parts.lower_parts.is_empty());
    assert_eq!(parts.msp.ptype(), PType::I32);
}

#[test]
fn test_split_i256_part_count_and_types() {
    let decimal = DecimalArray::new(
        DecimalValues::I256(vec![i256::from_i128(i128::MAX), i256::min()]),
        DecimalDType::new(76, 0),
        Validity::NonNullable,
    );
    let parts = split_decimal(&decimal);
    assert_eq!(parts.lower_parts.len(), MAX_LOWER_PARTS);
    assert_eq!(parts.msp.ptype(), PType::I64);
    for part in &parts.lower_parts {
        assert_eq!(part.dtype(), lower_part_dtype());
    }
}

#[test]
fn test_assembled_values_type() {
    assert_eq!(assembled_values_type(PType::I32, 0), Ok(DecimalType::I32));
    assert_eq!(assembled_values_type(PType::I64, 1), Ok(DecimalType::I128));
    assert_eq!(assembled_values_type(PType::I8, 1), Ok(DecimalType::I128));
    assert_eq!(assembled_values_type(PType::I8, 2), Ok(DecimalType::I256));
    assert_eq!(assembled_values_type(PType::I64, 3), Ok(DecimalType::I256));
    assert!(assembled_values_type(PType::I64, 4).is_err());
}

#[test]
fn assembled_values_type_refuses_unsigned_parts() {
    for ptype in [PType::U8, PType::U16, PType::U32, PType::U64, PType::F64] {
        for count in 0..=MAX_LOWER_PARTS {
            assert_eq!(
                assembled_values_type(ptype, count),
                Err(PartsError::UnsignedMsp(ptype))
            );
        }
    }
    assert_eq!(
        assembled_values_type(PType::U8, 4),
        Err(PartsError::TooManyLowerParts(4))
    );
}

fn msp() -> PrimitiveArray {
    PrimitiveArray::new(PrimitiveValues::I64(vec![1, 2, 3]), Validity::NonNullable)
}

fn lower_part() -> PrimitiveArray {
    PrimitiveArray::new(PrimitiveValues::U64(vec![1, 2, 3]), Validity::NonNullable)
}

/// A single-child array is the stable shape and is always constructible.
#[test]
fn single_child_is_always_allowed() {
    assert!(DecimalByteParts::try_new(msp(), DecimalDType::new(19, 2)).is_ok());
    assert!(DecimalByteParts::try_new_with_lower_parts(
        msp(),
        vec![],
        DecimalDType::new(19, 2),
        false
    )
    .is_ok());
}

#[test]
fn lower_parts_rejected_without_the_feature() {
    let result = DecimalByteParts::try_new_with_lower_parts(
        msp(),
        vec![lower_part()],
        DecimalDType::new(38, 2),
        false,
    );
    let err = result.expect_err("expected the write gate to reject");
    assert!(
        err.description().contains("unstable_encodings"),
        "error should name the feature, got: {err:?}"
    );
}

#[test]
fn lower_parts_allowed_with_the_feature() {
    assert!(DecimalByteParts::try_new_with_lower_parts(
        msp(),
        vec![lower_part()],
        DecimalDType::new(38, 2),
        true,
    )
    .is_ok());
}

#[test]
fn parts_that_do_not_fit_are_refused() {
    let dtype = DecimalDType::new(38, 2);
    let short = PrimitiveArray::new(PrimitiveValues::U64(vec![1]), Validity::NonNullable);
    let nullable = PrimitiveArray::new(PrimitiveValues::U64(vec![1, 2, 3]), Validity::AllValid);
    let signed = PrimitiveArray::new(PrimitiveValues::I64(vec![1, 2, 3]), Validity::NonNullable);
    let signed_dtype = signed.dtype();
    let nullable_dtype = nullable.dtype();
    let refused = |msp, lower| {
        DecimalByteParts::try_new_with_lower_parts(msp, lower, dtype, true).unwrap_err()
    };
    assert_eq!(
        refused(msp(), vec![lower_part(), short]),
        PartsError::LowerPartLen {
            part: 1,
            len: 1,
            expected: 3
        }
    );
    assert_eq!(
        refused(msp(), vec![nullable]),
        PartsError::LowerPartType {
            part: 0,
            dtype: nullable_dtype
        }
    );
    assert_eq!(
        refused(msp(), vec![signed]),
        PartsError::LowerPartType {
            part: 0,
            dtype: signed_dtype
        }
    );
    assert_eq!(
        refused(lower_part(), vec![]),
        PartsError::UnsignedMsp(PType::U64)
    );
    assert_eq!(
        refused(
            msp(),
            vec![lower_part(), lower_part(), lower_part(), lower_part()]
        ),
        PartsError::TooManyLowerParts(4)
    );
    assert_eq!(
        DecimalByteParts::try_new(lower_part(), dtype),
        Err(PartsError::UnsignedMsp(PType::U64))
    );
}

#[test]
fn assembling_checks_its_parts() {
    let dtype = DecimalDType::new(38, 2);
    let longer = PrimitiveArray::new(
        PrimitiveValues::U64(vec![7, 8, 9, 10]),
        Validity::NonNullable,
    );
    // A lower part may be longer than the most significant part.
    let assembled = assemble_decimal(&msp(), &[longer], dtype).unwrap();
    assert_eq!(
        assembled.values,
        DecimalValues::I128(vec![
            (1i128 << 64) + 7,
            (2i128 << 64) + 8,
            (3i128 << 64) + 9
        ])
    );
    let short = PrimitiveArray::new(PrimitiveValues::U64(vec![1]), Validity::NonNullable);
    assert_eq!(
        assemble_decimal(&msp(), &[lower_part(), short], dtype),
        Err(PartsError::LowerPartLen {
            part: 1,
            len: 1,
            expected: 3
        })
    );
    assert_eq!(
        assemble_decimal(&msp(), &[msp()], dtype),
        Err(PartsError::LowerPartType {
            part: 0,
            dtype: msp().dtype()
        })
    );
    assert_eq!(
        assemble_decimal(&lower_part(), &[], dtype),
        Err(PartsError::UnsignedMsp(PType::U64))
    );
    let four = [lower_part(), lower_part(), lower_part(), lower_part()];
    assert_eq!(
        assemble_decimal(&msp(), &four, dtype),
        Err(PartsError::TooManyLowerParts(4))
    );
}

#[test]
fn narrow_parts_are_widened() {
    let dtype = DecimalDType::new(38, 0);
    let narrow = PrimitiveArray::new(PrimitiveValues::I8(vec![-1, 5]), Validity::AllValid);
    let word = || PrimitiveArray::new(PrimitiveValues::U64(vec![2, 3]), Validity::NonNullable);
    let one = assemble_decimal(&narrow, &[word()], dtype).unwrap();
    assert_eq!(
        one.values,
        DecimalValues::I128(vec![-(1i128 << 64) + 2, (5i128 << 64) + 3])
    );
    assert_eq!(one.validity, Validity::AllValid);
    let two = assemble_decimal(&narrow, &[word(), word()], dtype).unwrap();
    assert_eq!(
        two.values,
        DecimalValues::I256(vec![
            i256::from_parts((2u128 << 64) | 2, -1),
            i256::from_parts((3u128 << 64) | 3, 5)
        ])
    );
}

#[test]
fn rows_are_combined() {
    assert_eq!(combine_i128(-1, &[]), -1);
    assert_eq!(combine_i128(-1, &[5]), -(1i128 << 64) + 5);
    assert_eq!(combine_i128(3, &[1, 2]), (1i128 << 64) + 2);
    assert_eq!(combine_i256(-1, &[]), minus_one());
    assert_eq!(combine_i256(-1, &[5]), i256::from_i128(-(1i128 << 64) + 5));
    assert_eq!(
        combine_i256(2, &[3, 4, 5]),
        i256::from_parts((4u128 << 64) | 5, (2i128 << 64) | 3)
    );
    assert_eq!(
        combine_i256(-2, &[3, 4]),
        i256::from_parts((3u128 << 64) | 4, -2)
    );
}

fn compress(decimal: DecimalArray) -> DecimalByteParts {
    DecimalScheme.compress(decimal, true).unwrap()
}

fn copy(decimal: &DecimalArray) -> DecimalArray {
    round_trip(decimal).unwrap()
}

fn values(decimal: &DecimalArray) -> Vec<i256> {
    (0..decimal.len()).map(|row| decimal.values.at(row)).collect()
}

fn assert_compresses(decimal: DecimalArray, lower_parts: usize) {
    let compressed = compress(copy(&decimal));
    assert_eq!(compressed.parts.lower_parts.len(), lower_parts);
    assert_eq!(compressed.dtype(), decimal.dtype());
    assert_eq!(compressed.len(), decimal.len());
    let decoded = compressed.decode();
    assert_eq!(values(&decoded), values(&decimal));
    assert_eq!(decoded.validity, decimal.validity);
}

#[test]
fn test_i128_decimal_splits_into_one_lower_part() {
    for validity in [Validity::NonNullable, Validity::AllValid, marks(3)] {
        assert_compresses(wide_i128_array(validity), 1);
    }
}

#[test]
fn test_i256_decimal_splits_into_three_lower_parts() {
    for validity in [Validity::NonNullable, Validity::AllValid, marks(5)] {
        assert_compresses(wide_i256_array(validity), MAX_LOWER_PARTS);
    }
}

#[test]
fn test_i256_decimal_round_trips_extreme_values() {
    // Every 64-bit window exercised, including the sign boundary of the most significant
    // part. Bounded by the precision so the values are legal `Decimal(76, 0)` scalars.
    let max = ten_pow(76).wrapping_sub(i256::one());
    let values: Vec<i256> = (0..N)
        .map(|i| match i % 8 {
            0 => i256::zero(),
            1 => i256::one(),
            2 => minus_one(),
            3 => i256::from_parts(u128::MAX, 0),
            4 => i256::from_parts(0, 1),
            5 => i256::from_parts(0, -1),
            6 => max,
            _ => i256::zero().wrapping_sub(max),
        })
        .collect();
    let array = DecimalArray::new(
        DecimalValues::I256(values),
        DecimalDType::new(76, 0),
        Validity::NonNullable,
    );
    let compressed = compress(copy(&array));
    assert_eq!(compressed.decode(), array);
}

#[test]
fn test_narrow_decimal_has_no_lower_parts() {
    // Values that fit 64 bits are narrowed rather than split, even when the declared
    // precision needs an i256.
    let values: Vec<i256> = (0..N as i128).map(|i| i256::from_i128(i * 3)).collect();
    let array = DecimalArray::new(
        DecimalValues::I256(values),
        DecimalDType::new(76, 2),
        Validity::NonNullable,
    );
    let compressed = DecimalScheme.compress(copy(&array), false).unwrap();
    assert_eq!(compressed.parts.lower_parts.len(), 0);
    assert_compresses(array, 0);
}

#[test]
fn test_canonical_of_compressed_wide_decimal_keeps_storage_width() {
    let canonical = compress(wide_i128_array(Validity::NonNullable)).decode();
    assert_eq!(canonical.values_type(), DecimalType::I128);

    let canonical = compress(wide_i256_array(Validity::NonNullable)).decode();
    assert_eq!(canonical.values_type(), DecimalType::I256);
}

#[test]
fn wide_decimals_are_refused_without_unstable_encodings() {
    assert_eq!(
        DecimalScheme.compress(wide_i128_array(Validity::NonNullable), false),
        Err(PartsError::LowerPartsUnstable)
    );
}

#[test]
fn scheme_describes_itself() {
    assert_eq!(DecimalScheme.scheme_name(), "vortex.decimal.byte_parts");
    assert_eq!(DecimalScheme.num_children(), 4);
    assert_eq!(
        DecimalScheme.produced_encodings(),
        vec![EncodingId::DecimalByteParts]
    );
    assert_eq!(
        DecimalScheme.expected_compression_ratio(),
        EstimateVerdict::AlwaysUse
    );
    assert!(DecimalScheme.matches(&Canonical::Decimal(one_i128(1))));
    assert!(!DecimalScheme.matches(&Canonical::Primitive(msp())));
}

#[test]
fn parts_are_compressed_one_by_one() {
    let decimal = wide_i256_array(marks(5));
    let mut compression = DecimalCompression::start(copy(&decimal));
    let mut slots = Vec::new();
    while let CompressAction::Child { slot } = compression.action() {
        slots.push(slot);
        let every_row = vec![true; N];
        let child = compression.part().filter(&every_row);
        compression = compression.done(child);
    }
    assert_eq!(slots, vec![0, 1, 2, 3]);
    let encoded = compression.finish(true).unwrap();
    assert_eq!(encoded.decode(), decimal);

    // A child that lost rows is refused.
    let mut compression = DecimalCompression::start(wide_i128_array(Validity::NonNullable));
    compression = compression.done(msp());
    compression = compression.done(PrimitiveArray::new(
        PrimitiveValues::U64(vec![1]),
        Validity::NonNullable,
    ));
    assert_eq!(compression.action(), CompressAction::Finish);
    assert_eq!(
        compression.finish(true),
        Err(PartsError::LowerPartLen {
            part: 0,
            len: 1,
            expected: 3
        })
    );
}

#[test]
fn narrowing_takes_the_smallest_type() {
    for (value, values_type) in [
        (-128, DecimalType::I8),
        (128, DecimalType::I16),
        (-32_769, DecimalType::I32),
        (1 << 31, DecimalType::I64),
        (i128::from(i64::MIN), DecimalType::I64),
        (i128::from(i64::MIN) - 1, DecimalType::I128),
        (i128::MAX, DecimalType::I128),
    ] {
        let narrow = narrowed_decimal(one_i256(i256::from_i128(value)));
        assert_eq!(narrow.values_type(), values_type);
        assert_eq!(values(&narrow), vec![i256::from_i128(value)]);
    }
    let narrow = narrowed_decimal(one_i256(i256::from_parts(0, 1)));
    assert_eq!(narrow.values_type(), DecimalType::I256);
}

#[test]
fn filtering_parts_filters_the_column() {
    let mask: Vec<bool> = (0..N).map(|i| i % 4 == 1).collect();
    for decimal in [wide_i128_array(marks(3)), wide_i256_array(Validity::AllValid)] {
        let child = encode_byte_parts(&decimal, true).unwrap();
        let filtered = DecimalBytePartsFilterPushDownRule
            .reduce_parent(&child, &mask)
            .unwrap();
        let decoded = filtered.decode();
        assert_eq!(values(&decoded), keep(&values(&decimal), &mask));
        assert_eq!(decoded.validity, decimal.validity.filter(&mask));
        assert_eq!(decoded.len(), N / 4);
    }
}

#[test]
fn wide_integers_wrap() {
    assert_eq!(i256::max().wrapping_add(i256::one()), i256::min());
    assert_eq!(i256::min().wrapping_neg(), i256::min());
    assert_eq!(minus_one().wrapping_mul(minus_one()), i256::one());
    let three = i256::from_i128(3);
    assert_eq!(
        i256::from_parts(u128::MAX, 0).wrapping_mul(three),
        i256::from_parts(u128::MAX - 2, 2)
    );
    assert_eq!(i256::from_i128(-7).wrapping_pow(3), i256::from_i128(-343));
    assert_eq!(i256::from_i128(5).wrapping_pow(0), i256::one());
    assert_eq!(i256::from_i128(2).wrapping_pow(256), i256::zero());
    assert_eq!(i256::from_i128(2).wrapping_pow(255), i256::min());
    assert_eq!(i256::from_i128(i128::MIN).to_i128(), Some(i128::MIN));
    assert_eq!(i256::from_parts(0, 1).to_i128(), None);
}

#[test]
fn fixture_builds_every_column() {
    let fixture = DecimalBytePartsFixture;
    assert_eq!(fixture.name(), "decimal_byte_parts.vortex");
    assert_eq!(
        fixture.description(),
        "Fixed-precision decimal arrays for DecimalByteParts encoding"
    );
    assert_eq!(
        fixture.expected_encodings(),
        vec![EncodingId::DecimalByteParts]
    );
    assert_eq!(
        fixture.build(10, false),
        Err(PartsError::LowerPartsUnstable)
    );
    let table = fixture.build(1024, true).unwrap();
    assert_eq!(table.len, 1024);
    let names: Vec<&str> = table.columns.iter().map(|column| column.name).collect();
    assert_eq!(
        names,
        vec![
            "dec_10_2",
            "dec_18_6",
            "dec_negative",
            "dec_nullable",
            "dec_zero",
            "dec_crossing",
            "dec_trailing_zero",
            "dec_near_limit",
            "dec_wide_128",
            "dec_wide_256_nullable",
        ]
    );
    let decoded: Vec<DecimalArray> = table
        .columns
        .iter()
        .map(|column| column.column.decode())
        .collect();
    let at = |column: usize, row: usize| decoded[column].values.at(row);
    let int = i256::from_i128;
    assert_eq!(at(0, 123), int(12_323));
    assert_eq!(at(1, 1000), int(1_000_007_000));
    assert_eq!(at(2, 10), int(-4970));
    assert_eq!(at(3, 12), int(-4_880_000));
    assert_eq!(at(4, 99), int(0));
    assert_eq!(at(5, 250), int(-50));
    assert_eq!(at(6, 1003), int(30_000));
    assert_eq!(at(7, 1), int(899_999_999_999_999_999));
    assert_eq!(at(8, 2), int(10_000_000_000_000_000_000_000_014));
    assert_eq!(at(9, 3), ten_pow(40).wrapping_add(int(21)));
    assert_eq!(
        decoded[3].validity,
        Validity::Array((0..1024).map(|i| i % 11 != 0).collect())
    );
    assert_eq!(
        decoded[9].validity,
        Validity::Array((0..1024).map(|i| i % 7 != 0).collect())
    );
    assert_eq!(decoded[9].decimal_dtype, DecimalDType::new(76, 2));
    for column in &table.columns {
        assert_eq!(column.column.parts.msp.ptype(), PType::I64);
    }
    assert_eq!(table.columns[8].column.parts.lower_parts.len(), 1);
    assert_eq!(table.columns[9].column.parts.lower_parts.len(), 3);
}
