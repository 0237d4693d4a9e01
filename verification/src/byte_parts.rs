//! Decimals encoded as byte parts: a signed part, and unsigned parts of 64 bits below it.

use crate::array::{
    kept, law_filtered_decimals_row, law_keeping_commutes, DType, DecimalArray, DecimalDType,
    Decimals, Integers, PrimitiveArray, Validness,
};
use crate::collect::{first_found, law_first_found_is_first, lemma_first_found};
use crate::limbs::{
    assemble_decimal, assembled, assembled_type, assembled_values_type, columns_view,
    first_lower_error, lower_dtype, lower_part_dtype, row_of, DecimalParts, Parts, PartsError,
};
use vstd::prelude::*;

verus! {

/// A column of decimals encoded as byte parts.
#[derive(Debug, PartialEq, Eq)]
pub struct DecimalByteParts {
    /// The parts.
    pub parts: DecimalParts,
    /// The digits of the values.
    pub decimal_dtype: DecimalDType,
}

/// Why a lower part cannot stand below a most significant part of `rows` rows.
pub open spec fn lower_part_refusal(part: Integers, index: int, rows: nat) -> Option<PartsError> {
    if part.dtype() != lower_dtype() {
        Some(PartsError::LowerPartType { part: index as usize, dtype: part.dtype() })
    } else if part.values.len() != rows {
        Some(
            PartsError::LowerPartLen {
                part: index as usize,
                len: part.values.len() as usize,
                expected: rows as usize,
            },
        )
    } else {
        None
    }
}

/// Why the first lower part that cannot stand there cannot, if there is one.
pub open spec fn first_refusal(lower: Seq<Integers>, rows: nat) -> Option<PartsError> {
    first_found(lower, |index: int, part: Integers| lower_part_refusal(part, index, rows))
}

/// Why parts cannot be written as byte parts, if they cannot. A single part always can if it
/// is signed; lower parts can only where unstable encodings are asked for.
pub open spec fn refusal(parts: Parts, unstable_encodings: bool) -> Option<PartsError> {
    if parts.lower.len() > 0 && !unstable_encodings {
        Some(PartsError::LowerPartsUnstable)
    } else {
        match assembled_type(parts.msp.ptype, parts.lower.len()) {
            Err(error) => Some(error),
            Ok(_) => first_refusal(parts.lower, parts.msp.values.len()),
        }
    }
}

/// Whether parts are such as can be written, with unstable encodings or without.
pub open spec fn valid_parts(parts: Parts) -> bool {
    &&& parts.msp.wf()
    &&& refusal(parts, true) is None
}

/// Checks every lower part in order.
fn check_lower_parts(lower_parts: &Vec<PrimitiveArray>, rows: usize) -> (checked: Result<
    (),
    PartsError,
>)
    ensures
        match (checked, first_refusal(columns_view(lower_parts@), rows as nat)) {
            (Ok(_), None) => true,
            (Err(error), Some(expected)) => error == expected,
            _ => false,
        },
{
    let ghost columns = columns_view(lower_parts@);
    assert(columns.take(0) =~= Seq::empty());
    let mut i: usize = 0;
    while i < lower_parts.len()
        invariant
            columns == columns_view(lower_parts@),
            i <= lower_parts@.len(),
            first_refusal(columns.take(i as int), rows as nat) is None,
        decreases lower_parts@.len() - i,
    {
        proof {
            assert(columns.take(i + 1).drop_last() =~= columns.take(i as int));
            assert(columns.take(i + 1).last() == lower_parts@[i as int]@);
            if first_refusal(columns.take(i + 1), rows as nat) is Some {
                lemma_first_found(
                    columns,
                    |index: int, part: Integers| lower_part_refusal(part, index, rows as nat),
                    i + 1,
                );
            }
        }
        let part: &PrimitiveArray = &lower_parts[i];
        if part.dtype() != lower_part_dtype() {
            return Err(PartsError::LowerPartType { part: i, dtype: part.dtype() });
        }
        if part.len() != rows {
            return Err(PartsError::LowerPartLen { part: i, len: part.len(), expected: rows });
        }
        i = i + 1;
    }
    assert(columns.take(i as int) =~= columns);
    Ok(())
}

impl DecimalByteParts {
    /// Whether the parts are such as can be written.
    pub open spec fn wf(&self) -> bool {
        valid_parts(self.parts@)
    }

    /// The column that the parts encode.
    pub open spec fn decoded(&self) -> Decimals {
        assembled(self.parts@, self.decimal_dtype)->Ok_0
    }

    /// Encodes decimals that a single signed part holds.
    pub fn try_new(msp: PrimitiveArray, decimal_dtype: DecimalDType) -> (created: Result<
        Self,
        PartsError,
    >)
        requires
            msp@.wf(),
        ensures
            match created {
                Ok(encoded) => {
                    &&& msp@.ptype.signed()
                    &&& encoded.wf()
                    &&& encoded.parts@ == (Parts { msp: msp@, lower: Seq::empty() })
                    &&& encoded.decimal_dtype == decimal_dtype
                },
                Err(error) => !msp@.ptype.signed() && error == PartsError::UnsignedMsp(msp@.ptype),
            },
    {
        let lower_parts: Vec<PrimitiveArray> = Vec::new();
        assert(columns_view(lower_parts@) =~= Seq::empty());
        DecimalByteParts::try_new_with_lower_parts(msp, lower_parts, decimal_dtype, false)
    }

    /// Encodes decimals that a signed part and lower parts hold.
    ///
    /// Lower parts are written only where unstable encodings are asked for.
    pub fn try_new_with_lower_parts(
        msp: PrimitiveArray,
        lower_parts: Vec<PrimitiveArray>,
        decimal_dtype: DecimalDType,
        unstable_encodings: bool,
    ) -> (created: Result<Self, PartsError>)
        requires
            msp@.wf(),
        ensures
            match (
                created,
                refusal(
                    Parts { msp: msp@, lower: columns_view(lower_parts@) },
                    unstable_encodings,
                ),
            ) {
                (Ok(encoded), None) => {
                    &&& encoded.wf()
                    &&& encoded.parts@ == (Parts { msp: msp@, lower: columns_view(lower_parts@) })
                    &&& encoded.decimal_dtype == decimal_dtype
                },
                (Err(error), Some(expected)) => error == expected,
                _ => false,
            },
            created matches Ok(encoded) ==> encoded.parts.msp == msp && encoded.parts.lower_parts
                == lower_parts,
    {
        if lower_parts.len() > 0 && !unstable_encodings {
            return Err(PartsError::LowerPartsUnstable);
        }
        match assembled_values_type(msp.ptype(), lower_parts.len()) {
            Ok(_) => {},
            Err(error) => return Err(error),
        }
        match check_lower_parts(&lower_parts, msp.len()) {
            Ok(_) => {},
            Err(error) => return Err(error),
        }
        Ok(DecimalByteParts { parts: DecimalParts { msp, lower_parts }, decimal_dtype })
    }

    /// How many rows there are.
    pub fn len(&self) -> (len: usize)
        ensures
            len == self.parts@.msp.values.len(),
    {
        self.parts.msp.len()
    }

    /// The logical type of the column.
    pub fn dtype(&self) -> (dtype: DType)
        requires
            self.wf(),
        ensures
            dtype == self.decoded().dtype(),
            dtype matches DType::Decimal(digits, nullability) && digits == self.decimal_dtype && (
            nullability is NonNullable <==> self.parts.msp.validity is NonNullable),
    {
        proof {
            law_valid_parts_assemble(self.parts@, self.decimal_dtype);
        }
        DType::Decimal(self.decimal_dtype, self.parts.msp.validity.nullability())
    }

    /// Decodes the column.
    pub fn decode(&self) -> (decimal: DecimalArray)
        requires
            self.wf(),
        ensures
            assembled(self.parts@, self.decimal_dtype) is Ok,
            decimal@ == self.decoded(),
            decimal@.wf(),
            assembled(self.parts@, self.decimal_dtype) == Ok::<Decimals, PartsError>(decimal@),
            decimal.validity@ == self.parts.msp.validity@,
            decimal.decimal_dtype == self.decimal_dtype,
    {
        proof {
            law_valid_parts_assemble(self.parts@, self.decimal_dtype);
        }
        let assembly: Result<DecimalArray, PartsError> = assemble_decimal(
            &self.parts.msp,
            self.parts.lower_parts.as_slice(),
            self.decimal_dtype,
        );
        assembly.unwrap()
    }
}

/// Parts that could be written can be read: they encode a column with as many rows.
pub proof fn law_valid_parts_assemble(parts: Parts, decimal_dtype: DecimalDType)
    requires
        valid_parts(parts),
    ensures
        assembled(parts, decimal_dtype) is Ok,
        assembled(parts, decimal_dtype)->Ok_0.wf(),
        assembled(parts, decimal_dtype)->Ok_0.values.len() == parts.msp.values.len(),
{
    lemma_no_refusal_no_error(parts.lower, parts.msp.values.len());
}

/// Lower parts that can be written can be reassembled.
proof fn lemma_no_refusal_no_error(lower: Seq<Integers>, rows: nat)
    requires
        first_refusal(lower, rows) is None,
    ensures
        first_lower_error(lower, rows) is None,
        forall|j: int|
            0 <= j < lower.len() ==> (#[trigger] lower[j]).dtype() == lower_dtype()
                && lower[j].values.len() == rows,
    decreases lower.len(),
{
    if lower.len() > 0 {
        lemma_no_refusal_no_error(lower.drop_last(), rows);
        assert forall|j: int| 0 <= j < lower.len() implies (#[trigger] lower[j]).dtype()
            == lower_dtype() && lower[j].values.len() == rows by {
            if j < lower.len() - 1 {
                assert(lower.drop_last()[j] == lower[j]);
            }
        }
    }
}

/// Parts whose lower parts have the right type and length are not refused.
pub(crate) proof fn lemma_right_parts_not_refused(lower: Seq<Integers>, rows: nat)
    requires
        forall|j: int|
            0 <= j < lower.len() ==> (#[trigger] lower[j]).dtype() == lower_dtype()
                && lower[j].values.len() == rows,
    ensures
        first_refusal(lower, rows) is None,
    decreases lower.len(),
{
    if lower.len() > 0 {
        lemma_right_parts_not_refused(lower.drop_last(), rows);
    }
}

/// The rows of parts that `mask` keeps.
pub open spec fn kept_parts(parts: Parts, mask: Seq<bool>) -> Parts {
    Parts {
        msp: parts.msp.kept(mask),
        lower: parts.lower.map_values(|part: Integers| part.kept(mask)),
    }
}

/// Pushes a filter down to the parts of an encoded column.
#[derive(Clone, Copy, Debug, PartialEq, Eq, Structural)]
pub struct DecimalBytePartsFilterPushDownRule;

impl DecimalBytePartsFilterPushDownRule {
    /// Replaces a filter over an encoded column by an encoded column of filtered parts. The
    /// rule always applies.
    pub fn reduce_parent(&self, child: &DecimalByteParts, mask: &[bool]) -> (reduced: Option<
        DecimalByteParts,
    >)
        requires
            child.wf(),
            mask@.len() == child.parts@.msp.values.len(),
        ensures
            reduced matches Some(filtered) && {
                &&& filtered.parts.msp@ == child.parts.msp@.kept(mask@)
                &&& filtered.parts.lower_parts@.len() == child.parts.lower_parts@.len()
                &&& forall|j: int|
                    0 <= j < child.parts.lower_parts@.len() ==> (
                    #[trigger] filtered.parts.lower_parts@[j])@
                        == child.parts.lower_parts@[j]@.kept(mask@)
                &&& filtered.wf()
                &&& filtered.parts@ == kept_parts(child.parts@, mask@)
                &&& filtered.decimal_dtype == child.decimal_dtype
                &&& filtered.decoded() == child.decoded().kept(mask@)
            },
    {
        let ghost parts = child.parts@;
        proof {
            lemma_no_refusal_no_error(parts.lower, parts.msp.values.len());
        }
        let msp: PrimitiveArray = child.parts.msp.filter(mask);
        let lower = &child.parts.lower_parts;
        let mut lower_parts: Vec<PrimitiveArray> = Vec::with_capacity(lower.len());
        let mut i: usize = 0;
        while i < lower.len()
            invariant
                parts == child.parts@,
                lower@ == child.parts.lower_parts@,
                mask@.len() == parts.msp.values.len(),
                forall|j: int|
                    0 <= j < parts.lower.len() ==> (#[trigger] parts.lower[j]).dtype()
                        == lower_dtype() && parts.lower[j].values.len() == mask@.len(),
                i <= lower@.len(),
                lower_parts@.len() == i,
                forall|j: int|
                    0 <= j < i ==> (#[trigger] lower_parts@[j])@ == parts.lower[j].kept(mask@),
            decreases lower@.len() - i,
        {
            assert(parts.lower[i as int] == lower@[i as int]@);
            assert(parts.lower[i as int].dtype() == lower_dtype());
            lower_parts.push(lower[i].filter(mask));
            i = i + 1;
        }
        let filtered = DecimalByteParts {
            parts: DecimalParts { msp, lower_parts },
            decimal_dtype: child.decimal_dtype,
        };
        proof {
            assert(filtered.parts@.lower =~= kept_parts(parts, mask@).lower);
            law_filtering_commutes_with_assembling(parts, mask@, child.decimal_dtype);
        }
        Some(filtered)
    }
}

/// The rows that a mask keeps, taken by their number.
proof fn lemma_kept_by_number<T>(rows: Seq<T>, mask: Seq<bool>)
    requires
        rows.len() == mask.len(),
    ensures
        ({
            let numbers = kept(Seq::new(mask.len(), |i: int| i), mask);
            &&& kept(rows, mask).len() == numbers.len()
            &&& forall|i: int|
                0 <= i < numbers.len() ==> 0 <= #[trigger] numbers[i] < mask.len() && kept(
                    rows,
                    mask,
                )[i] == rows[numbers[i]]
        }),
{
    let all = Seq::new(mask.len(), |i: int| i);
    let f = |i: int| rows[i];
    law_keeping_commutes(all, mask, f);
    assert(all.map_values(f) =~= rows);
    lemma_kept_in_range(mask.len(), all, mask);
}

/// Numbers of rows stay numbers of rows.
proof fn lemma_kept_in_range(bound: nat, numbers: Seq<int>, mask: Seq<bool>)
    requires
        numbers.len() == mask.len(),
        forall|i: int| 0 <= i < numbers.len() ==> 0 <= #[trigger] numbers[i] < bound,
    ensures
        forall|i: int|
            0 <= i < kept(numbers, mask).len() ==> 0 <= #[trigger] kept(numbers, mask)[i] < bound,
    decreases mask.len(),
{
    if mask.len() > 0 {
        lemma_kept_in_range(bound, numbers.drop_last(), mask.drop_last());
        let before = kept(numbers.drop_last(), mask.drop_last());
        assert forall|i: int| 0 <= i < kept(numbers, mask).len() implies 0 <= #[trigger] kept(
            numbers,
            mask,
        )[i] < bound by {
            if i < before.len() {
                assert(kept(numbers, mask)[i] == before[i]);
            } else {
                assert(kept(numbers, mask)[i] == numbers[numbers.len() - 1]);
            }
        }
    }
}

/// Filtering the parts and reassembling them gives what reassembling them and filtering the
/// column gives, and parts that can be written stay so.
pub proof fn law_filtering_commutes_with_assembling(
    parts: Parts,
    mask: Seq<bool>,
    decimal_dtype: DecimalDType,
)
    requires
        valid_parts(parts),
        mask.len() == parts.msp.values.len(),
    ensures
        valid_parts(kept_parts(parts, mask)),
        assembled(kept_parts(parts, mask), decimal_dtype) is Ok,
        assembled(kept_parts(parts, mask), decimal_dtype)->Ok_0 == assembled(
            parts,
            decimal_dtype,
        )->Ok_0.kept(mask),
{
    let filtered = kept_parts(parts, mask);
    let numbers = kept(Seq::new(mask.len(), |i: int| i), mask);
    law_valid_parts_assemble(parts, decimal_dtype);
    lemma_no_refusal_no_error(parts.lower, parts.msp.values.len());
    lemma_kept_by_number(parts.msp.values, mask);
    if let Validness::Array(marks) = parts.msp.validity {
        lemma_kept_by_number(marks, mask);
    }
    assert forall|j: int| 0 <= j < filtered.lower.len() implies (
    #[trigger] filtered.lower[j]).dtype() == lower_dtype() && filtered.lower[j].values.len()
        == numbers.len() by {
        assert(parts.lower[j].dtype() == lower_dtype());
        lemma_kept_by_number(parts.lower[j].values, mask);
    }
    lemma_right_parts_not_refused(filtered.lower, filtered.msp.values.len());
    law_valid_parts_assemble(filtered, decimal_dtype);
    let before = assembled(parts, decimal_dtype)->Ok_0;
    let after = assembled(filtered, decimal_dtype)->Ok_0;
    lemma_kept_by_number(before.values, mask);
    assert forall|row: int| 0 <= row < numbers.len() implies #[trigger] after.values[row] == kept(
        before.values,
        mask,
    )[row] by {
        let from = numbers[row];
        assert(kept(before.values, mask)[row] == before.values[from]);
        assert forall|j: int| 0 <= j < parts.lower.len() implies row_of(filtered.lower, row)[j]
            == row_of(parts.lower, from)[j] by {
            assert(parts.lower[j].dtype() == lower_dtype());
            lemma_kept_by_number(parts.lower[j].values, mask);
        }
        assert(row_of(filtered.lower, row) =~= row_of(parts.lower, from));
    }
    assert(after.values =~= kept(before.values, mask));
}

/// Parts can be written exactly where the most significant part is a signed integer, there are
/// no lower parts unless unstable encodings are asked for and never more than three, and each
/// lower part is of type `u64`, without nulls, and as long as the most significant part.
pub proof fn law_parts_are_written_exactly_where_they_fit(parts: Parts, unstable_encodings: bool)
    ensures
        refusal(parts, unstable_encodings) is None <==> {
            &&& parts.lower.len() == 0 || unstable_encodings
            &&& parts.msp.ptype is I8 || parts.msp.ptype is I16 || parts.msp.ptype is I32
                || parts.msp.ptype is I64
            &&& parts.lower.len() <= 3
            &&& forall|j: int|
                0 <= j < parts.lower.len() ==> (#[trigger] parts.lower[j]).ptype is U64
                    && parts.lower[j].validity is NonNullable && parts.lower[j].values.len()
                    == parts.msp.values.len()
        },
{
    let rows = parts.msp.values.len();
    let f = |index: int, part: Integers| lower_part_refusal(part, index, rows);
    law_first_found_is_first(parts.lower, f);
    if first_refusal(parts.lower, rows) is None {
        assert forall|j: int| 0 <= j < parts.lower.len() implies (
        #[trigger] parts.lower[j]).ptype is U64 && parts.lower[j].validity is NonNullable
            && parts.lower[j].values.len() == rows by {
            assert(f(j, parts.lower[j]) is None);
        }
    }
}

/// Where parts cannot be written the first fault is reported: that unstable encodings were not
/// asked for; else too many lower parts; else the type of the most significant part; else the
/// first lower part of another type or length.
pub proof fn law_refusal_names_the_first_fault(parts: Parts, unstable_encodings: bool)
    requires
        refusal(parts, unstable_encodings) is Some,
        parts.lower.len() <= usize::MAX,
        parts.msp.values.len() <= usize::MAX,
        forall|j: int|
            0 <= j < parts.lower.len() ==> (#[trigger] parts.lower[j]).values.len() <= usize::MAX,
    ensures
        ({
            let rows = parts.msp.values.len();
            let fine = |j: int|
                parts.lower[j].ptype is U64 && parts.lower[j].validity is NonNullable
                    && parts.lower[j].values.len() == rows;
            match refusal(parts, unstable_encodings)->Some_0 {
                PartsError::LowerPartsUnstable => parts.lower.len() > 0 && !unstable_encodings,
                PartsError::TooManyLowerParts(count) => unstable_encodings && count
                    == parts.lower.len() && count > 3,
                PartsError::UnsignedMsp(ptype) => {
                    &&& ptype == parts.msp.ptype
                    &&& !(ptype is I8 || ptype is I16 || ptype is I32 || ptype is I64)
                    &&& parts.lower.len() <= 3
                    &&& parts.lower.len() == 0 || unstable_encodings
                },
                PartsError::LowerPartType { part, dtype } => {
                    &&& part < parts.lower.len()
                    &&& dtype == parts.lower[part as int].dtype()
                    &&& !(parts.lower[part as int].ptype is U64
                        && parts.lower[part as int].validity is NonNullable)
                    &&& forall|j: int| 0 <= j < part ==> #[trigger] fine(j)
                },
                PartsError::LowerPartLen { part, len, expected } => {
                    &&& part < parts.lower.len()
                    &&& len == parts.lower[part as int].values.len()
                    &&& expected == rows
                    &&& len != expected
                    &&& forall|j: int| 0 <= j < part ==> #[trigger] fine(j)
                },
            }
        }),
{
    let rows = parts.msp.values.len();
    let fine = |j: int|
        parts.lower[j].ptype is U64 && parts.lower[j].validity is NonNullable
            && parts.lower[j].values.len() == rows;
    let f = |index: int, part: Integers| lower_part_refusal(part, index, rows);
    law_first_found_is_first(parts.lower, f);
    if let Some(found) = first_refusal(parts.lower, rows) {
        let i = choose|i: int|
            0 <= i < parts.lower.len() && f(i, #[trigger] parts.lower[i]) == Some(found) && forall|
                j: int,
            |
                0 <= j < i ==> f(j, #[trigger] parts.lower[j]) is None;
        assert forall|j: int| 0 <= j < i implies #[trigger] fine(j) by {
            assert(f(j, parts.lower[j]) is None);
        }
    }
}

/// Filtering an encoded column filters every part of it by the same mask, and nothing else.
pub proof fn law_filter_goes_to_every_part(parts: Parts, mask: Seq<bool>)
    ensures
        kept_parts(parts, mask).msp == parts.msp.kept(mask),
        kept_parts(parts, mask).lower.len() == parts.lower.len(),
        forall|j: int|
            0 <= j < parts.lower.len() ==> #[trigger] kept_parts(parts, mask).lower[j]
                == parts.lower[j].kept(mask),
{
}

/// A row that a filter keeps has in the filtered column the value that it had, and holds one
/// exactly if it did, at the place behind the kept rows in front of it.
pub proof fn law_filtered_row_keeps_its_value(
    parts: Parts,
    mask: Seq<bool>,
    decimal_dtype: DecimalDType,
    i: int,
)
    requires
        valid_parts(parts),
        mask.len() == parts.msp.values.len(),
        0 <= i < mask.len(),
        mask[i],
    ensures
        assembled(parts, decimal_dtype) is Ok,
        assembled(kept_parts(parts, mask), decimal_dtype) is Ok,
        ({
            let at = mask.take(i).filter(|mark: bool| mark).len() as int;
            let before = assembled(parts, decimal_dtype)->Ok_0;
            let after = assembled(kept_parts(parts, mask), decimal_dtype)->Ok_0;
            &&& after.values.len() == mask.filter(|mark: bool| mark).len()
            &&& at < after.values.len()
            &&& after.values[at] == before.values[i]
            &&& after.validity.holds(at) <==> before.validity.holds(i)
            &&& after.values_type == before.values_type
            &&& after.decimal_dtype == decimal_dtype
        }),
{
    law_valid_parts_assemble(parts, decimal_dtype);
    law_filtering_commutes_with_assembling(parts, mask, decimal_dtype);
    law_filtered_decimals_row(assembled(parts, decimal_dtype)->Ok_0, mask, i);
}

} // verus!
