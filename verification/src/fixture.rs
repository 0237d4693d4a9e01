//! A table of decimal columns in every shape that byte parts take.

use crate::array::{
    DecimalArray, DecimalDType, DecimalType, DecimalValues, Decimals, PrimitiveArray,
    PrimitiveValues, Validity, Validness,
};
use crate::byte_parts::DecimalByteParts;
use crate::decimal_scheme::{lemma_split_parts_are_valid, EncodingId};
use crate::limbs::{
    law_assembling_undoes_splitting, lower_count, parts_of, radix, split_decimal, DecimalParts,
    PartsError,
};
use crate::wide::{i256, lemma_wraps_to, two_to_256};
use vstd::arithmetic::power::{lemma_pow0, lemma_pow_adds, pow};
use vstd::prelude::*;

verus! {

/// The most rows for which every value of the table fits its column.
pub const MAX_FIXTURE_ROWS: u64 = 9_000_000_000_000;

/// How many columns of the table a single signed part holds.
pub const NARROW_COLUMNS: usize = 8;

/// The values of the columns that a single signed part holds, by row.
pub open spec fn narrow_value(column: int, row: int) -> int {
    if column == 0 {
        row * 100 + row % 100
    } else if column == 1 {
        row * 1_000_000 + (row * 7) % 999_999
    } else if column == 2 {
        -5000 + (row * 3) % 10_000
    } else if column == 3 {
        if row % 11 == 0 {
            0
        } else {
            (row - 500) * 10_000
        }
    } else if column == 4 {
        0
    } else if column == 5 {
        row % 200 - 100
    } else if column == 6 {
        (row % 1000) * 10_000
    } else {
        900_000_000_000_000_000 - row
    }
}

/// The values of the column of 128 bits, by row.
pub open spec fn wide_128_value(row: int) -> int {
    10_000_000_000_000_000_000_000_000 + row * 7
}

/// The values of the column of 256 bits, by row.
pub open spec fn wide_256_value(row: int) -> int {
    10000000000000000000000000000000000000000int + row * 7
}

/// Which rows hold a value, where every so many rows one does not.
pub open spec fn gaps(rows: nat, every: int) -> Validness {
    Validness::Array(Seq::new(rows, |row: int| row % every != 0))
}

/// The names of the columns.
pub open spec fn column_name(column: int) -> Seq<char> {
    if column == 0 {
        "dec_10_2"@
    } else if column == 1 {
        "dec_18_6"@
    } else if column == 2 {
        "dec_negative"@
    } else if column == 3 {
        "dec_nullable"@
    } else if column == 4 {
        "dec_zero"@
    } else if column == 5 {
        "dec_crossing"@
    } else if column == 6 {
        "dec_trailing_zero"@
    } else if column == 7 {
        "dec_near_limit"@
    } else if column == 8 {
        "dec_wide_128"@
    } else {
        "dec_wide_256_nullable"@
    }
}

/// The digits of the columns.
pub open spec fn column_dtype(column: int) -> DecimalDType {
    if column == 0 || column == 2 || column == 4 {
        DecimalDType { precision: 10, scale: 2 }
    } else if column == 1 {
        DecimalDType { precision: 18, scale: 6 }
    } else if column == 3 {
        DecimalDType { precision: 12, scale: 4 }
    } else if column == 5 {
        DecimalDType { precision: 12, scale: 3 }
    } else if column == 6 {
        DecimalDType { precision: 18, scale: 4 }
    } else if column == 7 {
        DecimalDType { precision: 18, scale: 0 }
    } else if column == 8 {
        DecimalDType { precision: 38, scale: 2 }
    } else {
        DecimalDType { precision: 76, scale: 2 }
    }
}

/// The contents of the columns.
pub open spec fn column_contents(column: int, rows: nat) -> Decimals {
    Decimals {
        values_type: if column < 8 {
            DecimalType::I64
        } else if column == 8 {
            DecimalType::I128
        } else {
            DecimalType::I256
        },
        values: Seq::new(
            rows,
            |row: int|
                if column < 8 {
                    narrow_value(column, row)
                } else if column == 8 {
                    wide_128_value(row)
                } else {
                    wide_256_value(row)
                },
        ),
        decimal_dtype: column_dtype(column),
        validity: if column == 3 {
            gaps(rows, 11)
        } else if column == 9 {
            gaps(rows, 7)
        } else {
            Validness::NonNullable
        },
    }
}

/// A named column.
#[derive(Debug, PartialEq, Eq)]
pub struct NamedColumn {
    /// The name.
    pub name: &'static str,
    /// The column.
    pub column: DecimalByteParts,
}

/// A table of columns with as many rows each.
#[derive(Debug, PartialEq, Eq)]
pub struct DecimalTable {
    /// The columns.
    pub columns: Vec<NamedColumn>,
    /// How many rows each has.
    pub len: usize,
}

/// Encodes a column of decimals as byte parts, splitting wide values into lower parts.
pub fn encode_byte_parts(decimal: &DecimalArray, unstable_encodings: bool) -> (created: Result<
    DecimalByteParts,
    PartsError,
>)
    requires
        decimal@.wf(),
    ensures
        match created {
            Ok(encoded) => {
                &&& unstable_encodings || lower_count(decimal@.values_type) == 0
                &&& encoded.wf()
                &&& encoded.parts@ == parts_of(decimal@)
                &&& encoded.decimal_dtype == decimal@.decimal_dtype
                &&& encoded.decoded() == decimal@
            },
            Err(error) => {
                &&& error == PartsError::LowerPartsUnstable
                &&& !unstable_encodings && lower_count(decimal@.values_type) > 0
            },
        },
{
    proof {
        lemma_split_parts_are_valid(decimal@);
        law_assembling_undoes_splitting(decimal@);
    }
    let parts: DecimalParts = split_decimal(decimal);
    DecimalByteParts::try_new_with_lower_parts(
        parts.msp,
        parts.lower_parts,
        decimal.decimal_dtype,
        unstable_encodings,
    )
}

/// Computes a value of a column that a single signed part holds.
fn narrow_at(column: usize, row: i64) -> (value: i64)
    requires
        column < NARROW_COLUMNS,
        0 <= row < MAX_FIXTURE_ROWS,
    ensures
        value == narrow_value(column as int, row as int),
{
    if column == 0 {
        row * 100 + row % 100
    } else if column == 1 {
        row * 1_000_000 + (row * 7) % 999_999
    } else if column == 2 {
        -5000 + (row * 3) % 10_000
    } else if column == 3 {
        if row % 11 == 0 {
            0
        } else {
            (row - 500) * 10_000
        }
    } else if column == 4 {
        0
    } else if column == 5 {
        row % 200 - 100
    } else if column == 6 {
        (row % 1000) * 10_000
    } else {
        900_000_000_000_000_000 - row
    }
}

/// Marks the rows that hold a value, where every so many rows one does not.
fn mark_gaps(rows: usize, every: usize) -> (validity: Validity)
    requires
        every > 0,
    ensures
        validity@ == gaps(rows as nat, every as int),
{
    let mut marks: Vec<bool> = Vec::with_capacity(rows);
    let mut row: usize = 0;
    while row < rows
        invariant
            row <= rows,
            every > 0,
            marks@ == Seq::new(row as nat, |i: int| i % every as int != 0),
        decreases rows - row,
    {
        marks.push(row % every != 0);
        assert(marks@ =~= Seq::new((row + 1) as nat, |i: int| i % every as int != 0));
        row = row + 1;
    }
    Validity::Array(marks)
}

/// Builds a column that a single signed part holds.
fn narrow_column(column: usize, rows: usize) -> (created: Result<DecimalByteParts, PartsError>)
    requires
        column < NARROW_COLUMNS,
        rows <= MAX_FIXTURE_ROWS,
    ensures
        created matches Ok(encoded) && {
            &&& encoded.wf()
            &&& encoded.parts@ == parts_of(column_contents(column as int, rows as nat))
            &&& encoded.decoded() == column_contents(column as int, rows as nat)
        },
{
    let ghost contents = column_contents(column as int, rows as nat);
    let mut values: Vec<i64> = Vec::with_capacity(rows);
    let mut row: usize = 0;
    while row < rows
        invariant
            column < NARROW_COLUMNS,
            row <= rows <= MAX_FIXTURE_ROWS,
            values@.len() == row,
            forall|i: int|
                0 <= i < row ==> #[trigger] values@[i] == narrow_value(column as int, i),
        decreases rows - row,
    {
        values.push(narrow_at(column, row as i64));
        row = row + 1;
    }
    let validity: Validity = if column == 3 {
        mark_gaps(rows, 11)
    } else {
        Validity::NonNullable
    };
    let dtype: DecimalDType = narrow_dtype(column);
    let msp = PrimitiveArray::new(PrimitiveValues::I64(values), validity);
    proof {
        assert(radix(0) == 1);
        assert(msp@.values =~= parts_of(contents).msp.values);
        assert(parts_of(contents).lower =~= Seq::empty());
        law_assembling_undoes_splitting(contents);
    }
    DecimalByteParts::try_new(msp, dtype)
}

/// The digits of a column that a single signed part holds.
fn narrow_dtype(column: usize) -> (dtype: DecimalDType)
    requires
        column < NARROW_COLUMNS,
    ensures
        dtype == column_dtype(column as int),
{
    if column == 0 || column == 2 || column == 4 {
        DecimalDType::new(10, 2)
    } else if column == 1 {
        DecimalDType::new(18, 6)
    } else if column == 3 {
        DecimalDType::new(12, 4)
    } else if column == 5 {
        DecimalDType::new(12, 3)
    } else if column == 6 {
        DecimalDType::new(18, 4)
    } else {
        DecimalDType::new(18, 0)
    }
}

/// The name of a column that a single signed part holds.
fn narrow_name(column: usize) -> (name: &'static str)
    requires
        column < NARROW_COLUMNS,
    ensures
        name@ == column_name(column as int),
{
    if column == 0 {
        "dec_10_2"
    } else if column == 1 {
        "dec_18_6"
    } else if column == 2 {
        "dec_negative"
    } else if column == 3 {
        "dec_nullable"
    } else if column == 4 {
        "dec_zero"
    } else if column == 5 {
        "dec_crossing"
    } else if column == 6 {
        "dec_trailing_zero"
    } else {
        "dec_near_limit"
    }
}

/// Builds the column of 128 bits.
fn wide_128(rows: usize) -> (decimal: DecimalArray)
    requires
        rows <= MAX_FIXTURE_ROWS,
    ensures
        decimal@ == column_contents(8, rows as nat),
        decimal@.wf(),
{
    let mut values: Vec<i128> = Vec::with_capacity(rows);
    let mut row: usize = 0;
    while row < rows
        invariant
            row <= rows <= MAX_FIXTURE_ROWS,
            values@.len() == row,
            forall|i: int| 0 <= i < row ==> #[trigger] values@[i] == wide_128_value(i),
        decreases rows - row,
    {
        values.push(10_000_000_000_000_000_000_000_000 + row as i128 * 7);
        row = row + 1;
    }
    let decimal = DecimalArray::new(
        DecimalValues::I128(values),
        DecimalDType::new(38, 2),
        Validity::NonNullable,
    );
    assert(decimal@.values =~= column_contents(8, rows as nat).values);
    decimal
}

/// Ten to the fortieth.
proof fn lemma_ten_to_40()
    ensures
        pow(10, 40) == 10000000000000000000000000000000000000000int,
{
    lemma_pow0(10);
    assert(pow(10, 10) == 10_000_000_000) by {
        reveal_with_fuel(pow, 11);
    }
    lemma_pow_adds(10, 10, 10);
    let half = 100_000_000_000_000_000_000int;
    assert(10_000_000_000int * 10_000_000_000int == half) by (nonlinear_arith)
        requires
            half == 100_000_000_000_000_000_000int,
    ;
    assert(pow(10, 20) == half);
    lemma_pow_adds(10, 20, 20);
    assert(half * half == 10000000000000000000000000000000000000000int) by (nonlinear_arith)
        requires
            half == 100_000_000_000_000_000_000int,
    ;
}

/// Builds the column of 256 bits.
fn wide_256(rows: usize) -> (decimal: DecimalArray)
    requires
        rows <= MAX_FIXTURE_ROWS,
    ensures
        decimal@ == column_contents(9, rows as nat),
        decimal@.wf(),
{
    let base = i256::from_i128(10).wrapping_pow(40);
    proof {
        lemma_ten_to_40();
        lemma_wraps_to(pow(10, 40), pow(10, 40), 0, two_to_256());
    }
    let mut values: Vec<i256> = Vec::with_capacity(rows);
    let mut row: usize = 0;
    while row < rows
        invariant
            row <= rows <= MAX_FIXTURE_ROWS,
            base@ == 10000000000000000000000000000000000000000int,
            values@.len() == row,
            forall|i: int| 0 <= i < row ==> (#[trigger] values@[i])@ == wide_256_value(i),
        decreases rows - row,
    {
        let value = base.wrapping_add(i256::from_i128(row as i128 * 7));
        proof {
            let sum = wide_256_value(row as int);
            lemma_wraps_to(sum, sum, 0, two_to_256());
        }
        values.push(value);
        row = row + 1;
    }
    let decimal = DecimalArray::new(
        DecimalValues::I256(values),
        DecimalDType::new(76, 2),
        mark_gaps(rows, 7),
    );
    assert(decimal@.values =~= column_contents(9, rows as nat).values);
    decimal
}

/// Decimal columns for the byte parts encoding.
#[derive(Clone, Copy, Debug, PartialEq, Eq, Structural)]
pub struct DecimalBytePartsFixture;

impl DecimalBytePartsFixture {
    /// The name of the file that holds the table.
    pub fn name(&self) -> (name: &'static str)
        ensures
            name@ == "decimal_byte_parts.vortex"@,
    {
        "decimal_byte_parts.vortex"
    }

    /// What the table is for.
    pub fn description(&self) -> (description: &'static str)
        ensures
            description@ == "Fixed-precision decimal arrays for DecimalByteParts encoding"@,
    {
        "Fixed-precision decimal arrays for DecimalByteParts encoding"
    }

    /// The encodings that the table exercises.
    pub fn expected_encodings(&self) -> (encodings: Vec<EncodingId>)
        ensures
            encodings@ == seq![EncodingId::DecimalByteParts],
    {
        vec![EncodingId::DecimalByteParts]
    }

    /// Builds the table with so many rows. Two of its columns are wide, so unstable encodings
    /// must be asked for.
    pub fn build(&self, rows: usize, unstable_encodings: bool) -> (built: Result<
        DecimalTable,
        PartsError,
    >)
        requires
            rows <= MAX_FIXTURE_ROWS,
        ensures
            match built {
                Ok(table) => {
                    &&& unstable_encodings
                    &&& table.len == rows
                    &&& table.columns@.len() == 10
                    &&& forall|c: int|
                        0 <= c < 10 ==> {
                            &&& (#[trigger] table.columns@[c]).name@ == column_name(c)
                            &&& table.columns@[c].column.wf()
                            &&& table.columns@[c].column.decoded() == column_contents(
                                c,
                                rows as nat,
                            )
                            &&& table.columns@[c].column.parts@ == parts_of(
                                column_contents(c, rows as nat),
                            )
                        }
                },
                Err(error) => !unstable_encodings && error == PartsError::LowerPartsUnstable,
            },
    {
        let mut columns: Vec<NamedColumn> = Vec::with_capacity(10);
        let mut column: usize = 0;
        while column < NARROW_COLUMNS
            invariant
                rows <= MAX_FIXTURE_ROWS,
                column <= NARROW_COLUMNS,
                columns@.len() == column,
                forall|c: int|
                    0 <= c < column ==> {
                        &&& (#[trigger] columns@[c]).name@ == column_name(c)
                        &&& columns@[c].column.wf()
                        &&& columns@[c].column.decoded() == column_contents(c, rows as nat)
                        &&& columns@[c].column.parts@ == parts_of(
                            column_contents(c, rows as nat),
                        )
                    },
            decreases NARROW_COLUMNS - column,
        {
            let encoded: DecimalByteParts = match narrow_column(column, rows) {
                Ok(encoded) => encoded,
                Err(error) => return Err(error),
            };
            columns.push(NamedColumn { name: narrow_name(column), column: encoded });
            column = column + 1;
        }
        match encode_byte_parts(&wide_128(rows), unstable_encodings) {
            Ok(encoded) => columns.push(NamedColumn { name: "dec_wide_128", column: encoded }),
            Err(error) => return Err(error),
        }
        match encode_byte_parts(&wide_256(rows), unstable_encodings) {
            Ok(encoded) => columns.push(
                NamedColumn { name: "dec_wide_256_nullable", column: encoded },
            ),
            Err(error) => return Err(error),
        }
        Ok(DecimalTable { columns, len: rows })
    }
}

/// What each column of the table holds in each row, of which digits, stored how, and with nulls
/// where.
pub proof fn law_table_holds_these_columns(rows: nat, row: int)
    requires
        0 <= row < rows,
    ensures
        forall|c: int| 0 <= c < 10 ==> (#[trigger] column_contents(c, rows)).values.len() == rows,
        column_contents(0, rows).values[row] == row * 100 + row % 100,
        column_contents(1, rows).values[row] == row * 1_000_000 + row * 7 % 999_999,
        column_contents(2, rows).values[row] == row * 3 % 10_000 - 5000,
        row % 11 != 0 ==> column_contents(3, rows).values[row] == (row - 500) * 10_000,
        column_contents(4, rows).values[row] == 0,
        column_contents(5, rows).values[row] == row % 200 - 100,
        column_contents(6, rows).values[row] == row % 1000 * 10_000,
        column_contents(7, rows).values[row] == 900_000_000_000_000_000 - row,
        column_contents(8, rows).values[row] == pow(10, 25) + 7 * row,
        column_contents(9, rows).values[row] == pow(10, 40) + 7 * row,
        forall|c: int|
            0 <= c < 10 ==> ((#[trigger] column_contents(c, rows)).validity.holds(row) <==> !(c == 3
                && row % 11 == 0) && !(c == 9 && row % 7 == 0)),
        forall|c: int|
            0 <= c < 10 ==> ((#[trigger] column_contents(c, rows)).validity is NonNullable <==> c
                != 3 && c != 9),
        forall|c: int|
            0 <= c < 10 ==> match (#[trigger] column_contents(c, rows)).values_type {
                DecimalType::I64 => c < 8,
                DecimalType::I128 => c == 8,
                DecimalType::I256 => c == 9,
                _ => false,
            },
        forall|c: int|
            0 <= c < 10 ==> (#[trigger] column_contents(c, rows)).decimal_dtype == {
                let digits: (u8, i8) = if c == 1 {
                    (18, 6)
                } else if c == 3 {
                    (12, 4)
                } else if c == 5 {
                    (12, 3)
                } else if c == 6 {
                    (18, 4)
                } else if c == 7 {
                    (18, 0)
                } else if c == 8 {
                    (38, 2)
                } else if c == 9 {
                    (76, 2)
                } else {
                    (10, 2)
                };
                DecimalDType { precision: digits.0, scale: digits.1 }
            },
{
    lemma_ten_to_40();
    lemma_pow0(10);
    assert(pow(10, 10) == 10_000_000_000) by {
        reveal_with_fuel(pow, 11);
    }
    assert(pow(10, 5) == 100_000) by {
        reveal_with_fuel(pow, 6);
    }
    lemma_pow_adds(10, 10, 10);
    lemma_pow_adds(10, 20, 5);
    let half = 100_000_000_000_000_000_000int;
    assert(10_000_000_000int * 10_000_000_000int == half) by (nonlinear_arith)
        requires
            half == 100_000_000_000_000_000_000int,
    ;
    assert(half * 100_000int == 10_000_000_000_000_000_000_000_000int) by (nonlinear_arith)
        requires
            half == 100_000_000_000_000_000_000int,
    ;
}

} // verus!
