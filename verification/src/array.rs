//! Columns of integers and decimals held in memory.

use crate::wide::i256;
use vstd::prelude::*;

verus! {

/// The types of primitive values.
#[derive(Clone, Copy, Debug, PartialEq, Eq, Structural)]
pub enum PType {
    /// Unsigned, 8 bits.
    U8,
    /// Unsigned, 16 bits.
    U16,
    /// Unsigned, 32 bits.
    U32,
    /// Unsigned, 64 bits.
    U64,
    /// Signed, 8 bits.
    I8,
    /// Signed, 16 bits.
    I16,
    /// Signed, 32 bits.
    I32,
    /// Signed, 64 bits.
    I64,
    /// Floating point, 16 bits.
    F16,
    /// Floating point, 32 bits.
    F32,
    /// Floating point, 64 bits.
    F64,
}

impl PType {
    /// Whether the values are signed integers.
    pub open spec fn signed(self) -> bool {
        self is I8 || self is I16 || self is I32 || self is I64
    }

    /// The bits of a value.
    pub open spec fn bits(self) -> nat {
        match self {
            PType::U8 | PType::I8 => 8,
            PType::U16 | PType::I16 | PType::F16 => 16,
            PType::U32 | PType::I32 | PType::F32 => 32,
            PType::U64 | PType::I64 | PType::F64 => 64,
        }
    }

    /// Decides whether the values are signed integers.
    pub fn is_signed_int(self) -> (answer: bool)
        ensures
            answer == self.signed(),
            answer <==> self is I8 || self is I16 || self is I32 || self is I64,
    {
        match self {
            PType::I8 | PType::I16 | PType::I32 | PType::I64 => true,
            _ => false,
        }
    }

    /// The bits of a value.
    pub fn bit_width(self) -> (bits: usize)
        ensures
            bits == self.bits(),
            bits == 8 <==> self is U8 || self is I8,
            bits == 16 <==> self is U16 || self is I16 || self is F16,
            bits == 32 <==> self is U32 || self is I32 || self is F32,
            bits == 64 <==> self is U64 || self is I64 || self is F64,
    {
        match self {
            PType::U8 | PType::I8 => 8,
            PType::U16 | PType::I16 | PType::F16 => 16,
            PType::U32 | PType::I32 | PType::F32 => 32,
            PType::U64 | PType::I64 | PType::F64 => 64,
        }
    }
}

/// The integer types that decimal values are stored in.
#[derive(Clone, Copy, Debug, PartialEq, Eq, Structural)]
pub enum DecimalType {
    /// 8 bits.
    I8,
    /// 16 bits.
    I16,
    /// 32 bits.
    I32,
    /// 64 bits.
    I64,
    /// 128 bits.
    I128,
    /// 256 bits.
    I256,
}

impl DecimalType {
    /// The decimal type that stores values as a signed primitive type does.
    pub open spec fn of(ptype: PType) -> Option<DecimalType> {
        match ptype {
            PType::I8 => Some(DecimalType::I8),
            PType::I16 => Some(DecimalType::I16),
            PType::I32 => Some(DecimalType::I32),
            PType::I64 => Some(DecimalType::I64),
            _ => None,
        }
    }

    /// The decimal type that stores values as a signed primitive type does.
    pub fn from_ptype(ptype: PType) -> (values_type: Option<DecimalType>)
        ensures
            values_type == DecimalType::of(ptype),
            match (ptype, values_type) {
                (PType::I8, Some(DecimalType::I8)) => true,
                (PType::I16, Some(DecimalType::I16)) => true,
                (PType::I32, Some(DecimalType::I32)) => true,
                (PType::I64, Some(DecimalType::I64)) => true,
                (PType::I8 | PType::I16 | PType::I32 | PType::I64, _) => false,
                (_, None) => true,
                _ => false,
            },
    {
        match ptype {
            PType::I8 => Some(DecimalType::I8),
            PType::I16 => Some(DecimalType::I16),
            PType::I32 => Some(DecimalType::I32),
            PType::I64 => Some(DecimalType::I64),
            _ => None,
        }
    }
}

/// The digits of a decimal: how many there are, and how many stand behind the point.
#[derive(Clone, Copy, Debug, PartialEq, Eq, Structural)]
pub struct DecimalDType {
    /// How many digits there are.
    pub precision: u8,
    /// How many of them stand behind the point.
    pub scale: i8,
}

impl DecimalDType {
    /// The decimals with so many digits, so many of them behind the point.
    pub fn new(precision: u8, scale: i8) -> (dtype: Self)
        ensures
            dtype == (DecimalDType { precision, scale }),
    {
        DecimalDType { precision, scale }
    }
}

/// Whether a column may hold nulls.
#[derive(Clone, Copy, Debug, PartialEq, Eq, Structural)]
pub enum Nullability {
    /// It holds none.
    NonNullable,
    /// It may.
    Nullable,
}

/// The logical type of a column.
#[derive(Clone, Copy, Debug, PartialEq, Eq, Structural)]
pub enum DType {
    /// Primitive values.
    Primitive(PType, Nullability),
    /// Decimals.
    Decimal(DecimalDType, Nullability),
}

/// Which rows of a column hold a value.
#[derive(Debug, PartialEq, Eq)]
pub enum Validity {
    /// All, and the column may hold no nulls.
    NonNullable,
    /// All, though the column may hold nulls.
    AllValid,
    /// None.
    AllInvalid,
    /// Those that are marked.
    Array(Vec<bool>),
}

/// Which rows of a column hold a value, as a value.
#[verifier::ext_equal]
pub enum Validness {
    /// All, and the column may hold no nulls.
    NonNullable,
    /// All, though the column may hold nulls.
    AllValid,
    /// None.
    AllInvalid,
    /// Those that are marked.
    Array(Seq<bool>),
}

impl View for Validity {
    type V = Validness;

    open spec fn view(&self) -> Validness {
        match self {
            Validity::NonNullable => Validness::NonNullable,
            Validity::AllValid => Validness::AllValid,
            Validity::AllInvalid => Validness::AllInvalid,
            Validity::Array(marks) => Validness::Array(marks@),
        }
    }
}

impl Validness {
    /// Whether rows are marked for a column of this length, if they are marked at all.
    pub open spec fn covers(self, len: nat) -> bool {
        self matches Validness::Array(marks) ==> marks.len() == len
    }

    /// Whether a row holds a value.
    pub open spec fn holds(self, row: int) -> bool {
        match self {
            Validness::NonNullable | Validness::AllValid => true,
            Validness::AllInvalid => false,
            Validness::Array(marks) => marks[row],
        }
    }

    /// Whether the column may hold nulls.
    pub open spec fn nullability(self) -> Nullability {
        if self is NonNullable {
            Nullability::NonNullable
        } else {
            Nullability::Nullable
        }
    }

    /// The validity of the rows that `mask` keeps.
    pub open spec fn kept(self, mask: Seq<bool>) -> Validness {
        match self {
            Validness::Array(marks) => Validness::Array(kept(marks, mask)),
            same => same,
        }
    }
}

/// The rows of a column that `mask` keeps.
pub open spec fn kept<T>(rows: Seq<T>, mask: Seq<bool>) -> Seq<T>
    decreases mask.len(),
{
    if mask.len() == 0 || rows.len() != mask.len() {
        Seq::empty()
    } else if mask.last() {
        kept(rows.drop_last(), mask.drop_last()).push(rows.last())
    } else {
        kept(rows.drop_last(), mask.drop_last())
    }
}

/// How many of the first rows `mask` keeps.
pub open spec fn kept_before(mask: Seq<bool>, row: int) -> nat
    decreases row,
{
    if row <= 0 {
        0
    } else {
        kept_before(mask, row - 1) + if mask[row - 1] {
            1nat
        } else {
            0
        }
    }
}

/// One more row.
proof fn lemma_kept_next<T>(rows: Seq<T>, mask: Seq<bool>, i: int)
    requires
        rows.len() == mask.len(),
        0 <= i < mask.len(),
    ensures
        kept(rows.take(i + 1), mask.take(i + 1)) == if mask[i] {
            kept(rows.take(i), mask.take(i)).push(rows[i])
        } else {
            kept(rows.take(i), mask.take(i))
        },
{
    assert(rows.take(i + 1).drop_last() =~= rows.take(i));
    assert(mask.take(i + 1).drop_last() =~= mask.take(i));
}

/// What is kept of a column depends row for row on what it holds: keeping commutes with any
/// function of a row.
pub proof fn law_keeping_commutes<T, U>(rows: Seq<T>, mask: Seq<bool>, f: spec_fn(T) -> U)
    requires
        rows.len() == mask.len(),
    ensures
        kept(rows.map_values(f), mask) == kept(rows, mask).map_values(f),
    decreases mask.len(),
{
    if mask.len() > 0 {
        law_keeping_commutes(rows.drop_last(), mask.drop_last(), f);
        assert(rows.map_values(f).drop_last() =~= rows.drop_last().map_values(f));
        let before = kept(rows.drop_last(), mask.drop_last());
        assert(before.push(rows.last()).map_values(f) =~= before.map_values(f).push(
            f(rows.last()),
        ));
    }
    assert(kept(rows.map_values(f), mask) =~= kept(rows, mask).map_values(f));
}

/// The rows that a mask keeps are those that it marks, in their order.
pub proof fn law_kept_rows_stay_in_order<T>(rows: Seq<T>, mask: Seq<bool>)
    requires
        rows.len() == mask.len(),
    ensures
        kept(rows, mask).len() == kept_before(mask, mask.len() as int),
        forall|i: int|
            0 <= i < mask.len() && #[trigger] mask[i] ==> kept_before(mask, i) < kept(
                rows,
                mask,
            ).len() && kept(rows, mask)[kept_before(mask, i) as int] == rows[i],
    decreases mask.len(),
{
    if mask.len() > 0 {
        let shorter = mask.drop_last();
        law_kept_rows_stay_in_order(rows.drop_last(), shorter);
        assert forall|i: int| 0 <= i <= shorter.len() implies #[trigger] kept_before(mask, i)
            == kept_before(shorter, i) by {
            lemma_kept_before_prefix(mask, i);
        }
        lemma_kept_before_prefix(mask, shorter.len() as int);
        assert forall|i: int| 0 <= i < mask.len() && #[trigger] mask[i] implies kept_before(mask, i)
            < kept(rows, mask).len() && kept(rows, mask)[kept_before(mask, i) as int]
            == rows[i] by {
            if i < shorter.len() {
                assert(shorter[i]);
                assert(kept_before(mask, i) == kept_before(shorter, i));
            }
        }
    }
}

/// Counting among the first rows does not look at the last.
proof fn lemma_kept_before_prefix(mask: Seq<bool>, row: int)
    requires
        0 <= row < mask.len(),
    ensures
        kept_before(mask, row) == kept_before(mask.drop_last(), row),
    decreases row,
{
    if row > 0 {
        lemma_kept_before_prefix(mask, row - 1);
    }
}

/// How many of the first rows a mask marks.
proof fn lemma_kept_before_counts(mask: Seq<bool>, row: int)
    requires
        0 <= row <= mask.len(),
    ensures
        kept_before(mask, row) == mask.take(row).filter(|mark: bool| mark).len(),
    decreases row,
{
    reveal(Seq::filter);
    if row > 0 {
        lemma_kept_before_counts(mask, row - 1);
        assert(mask.take(row).drop_last() =~= mask.take(row - 1));
    }
}

/// Keeping rows is pairing each with its mark, filtering by the mark, and taking the rows.
pub proof fn law_keeping_filters_by_the_mark<T>(rows: Seq<T>, mask: Seq<bool>)
    requires
        rows.len() == mask.len(),
    ensures
        kept(rows, mask) == Seq::new(mask.len(), |i: int| (rows[i], mask[i])).filter(
            |row: (T, bool)| row.1,
        ).map_values(|row: (T, bool)| row.0),
    decreases mask.len(),
{
    reveal(Seq::filter);
    let pairs = Seq::new(mask.len(), |i: int| (rows[i], mask[i]));
    let marked = |row: (T, bool)| row.1;
    let row_of = |row: (T, bool)| row.0;
    if mask.len() > 0 {
        law_keeping_filters_by_the_mark(rows.drop_last(), mask.drop_last());
        let before = Seq::new(
            mask.drop_last().len(),
            |i: int| (rows.drop_last()[i], mask.drop_last()[i]),
        );
        assert(pairs.drop_last() =~= before);
        let kept_pairs = before.filter(marked);
        assert(kept_pairs.push(pairs.last()).map_values(row_of) =~= kept_pairs.map_values(
            row_of,
        ).push(rows.last()));
    }
    assert(kept(rows, mask) =~= pairs.filter(marked).map_values(row_of));
}

/// A kept row stands where as many rows are kept before it: the row that the mask marks at `i`
/// is found behind the marked rows in front of it, and no other rows are kept.
pub proof fn law_kept_row_is_found_behind_those_before_it<T>(
    rows: Seq<T>,
    mask: Seq<bool>,
    i: int,
)
    requires
        rows.len() == mask.len(),
        0 <= i < mask.len(),
        mask[i],
    ensures
        kept(rows, mask).len() == mask.filter(|mark: bool| mark).len(),
        mask.take(i).filter(|mark: bool| mark).len() < kept(rows, mask).len(),
        kept(rows, mask)[mask.take(i).filter(|mark: bool| mark).len() as int] == rows[i],
{
    law_kept_rows_stay_in_order(rows, mask);
    lemma_kept_before_counts(mask, i);
    lemma_kept_before_counts(mask, mask.len() as int);
    assert(mask.take(mask.len() as int) =~= mask);
    assert(mask[i]);
}

/// A kept row holds a value exactly if it did before: where rows are marked, the mark of the
/// row at `i` follows it to its new place. Where no rows are marked nothing changes.
pub proof fn law_kept_rows_keep_their_validity(validity: Validness, mask: Seq<bool>, i: int)
    requires
        validity.covers(mask.len()),
        0 <= i < mask.len(),
        mask[i],
    ensures
        ({
            let at = mask.take(i).filter(|mark: bool| mark).len() as int;
            let left = mask.filter(|mark: bool| mark).len();
            &&& at < left
            &&& validity.kept(mask).covers(left)
            &&& validity.kept(mask).holds(at) <==> validity.holds(i)
            &&& validity.kept(mask).nullability() == validity.nullability()
            &&& match (validity, validity.kept(mask)) {
                (Validness::NonNullable, Validness::NonNullable) => true,
                (Validness::AllValid, Validness::AllValid) => true,
                (Validness::AllInvalid, Validness::AllInvalid) => true,
                (Validness::Array(marks), Validness::Array(kept_marks)) => kept_marks.len() == left
                    && kept_marks[at] == marks[i],
                _ => false,
            }
        }),
{
    match validity {
        Validness::Array(marks) => {
            law_kept_row_is_found_behind_those_before_it(marks, mask, i);
        },
        _ => {
            law_kept_row_is_found_behind_those_before_it(mask, mask, i);
        },
    }
}

/// Keeps the rows of a column that `mask` marks.
pub fn keep<T: Copy>(rows: &Vec<T>, mask: &[bool]) -> (filtered: Vec<T>)
    requires
        rows@.len() == mask@.len(),
    ensures
        filtered@ == kept(rows@, mask@),
{
    let mut filtered: Vec<T> = Vec::new();
    assert(kept(rows@.take(0), mask@.take(0)) =~= Seq::empty());
    let mut i: usize = 0;
    while i < mask.len()
        invariant
            rows@.len() == mask@.len(),
            i <= mask@.len(),
            filtered@ == kept(rows@.take(i as int), mask@.take(i as int)),
        decreases mask@.len() - i,
    {
        proof {
            lemma_kept_next(rows@, mask@, i as int);
        }
        if mask[i] {
            filtered.push(rows[i]);
        }
        i = i + 1;
    }
    assert(rows@.take(i as int) =~= rows@);
    assert(mask@.take(i as int) =~= mask@);
    filtered
}

/// The same rows once more.
pub fn duplicate<T: Copy>(rows: &Vec<T>) -> (copy: Vec<T>)
    ensures
        copy@ == rows@,
{
    let mut copy: Vec<T> = Vec::with_capacity(rows.len());
    let mut i: usize = 0;
    while i < rows.len()
        invariant
            i <= rows@.len(),
            copy@ == rows@.take(i as int),
        decreases rows@.len() - i,
    {
        copy.push(rows[i]);
        assert(copy@ =~= rows@.take(i + 1));
        i = i + 1;
    }
    assert(copy@ =~= rows@);
    copy
}

impl Validity {
    /// The same validity once more.
    pub fn duplicate(&self) -> (copy: Self)
        ensures
            copy@ == self@,
            match (self, copy) {
                (Validity::NonNullable, Validity::NonNullable) => true,
                (Validity::AllValid, Validity::AllValid) => true,
                (Validity::AllInvalid, Validity::AllInvalid) => true,
                (Validity::Array(marks), Validity::Array(same)) => same@ == marks@,
                _ => false,
            },
    {
        match self {
            Validity::NonNullable => Validity::NonNullable,
            Validity::AllValid => Validity::AllValid,
            Validity::AllInvalid => Validity::AllInvalid,
            Validity::Array(marks) => Validity::Array(duplicate(marks)),
        }
    }

    /// Decides whether rows are marked for a column of this length, if they are marked at all.
    pub fn covers(&self, len: usize) -> (answer: bool)
        ensures
            answer == self@.covers(len as nat),
            answer <==> (self matches Validity::Array(marks) ==> marks@.len() == len),
    {
        match self {
            Validity::Array(marks) => marks.len() == len,
            _ => true,
        }
    }

    /// The validity of the rows that `mask` keeps.
    pub fn filter(&self, mask: &[bool]) -> (filtered: Self)
        requires
            self@.covers(mask@.len()),
        ensures
            filtered@ == self@.kept(mask@),
            match (self, filtered) {
                (Validity::NonNullable, Validity::NonNullable) => true,
                (Validity::AllValid, Validity::AllValid) => true,
                (Validity::AllInvalid, Validity::AllInvalid) => true,
                (Validity::Array(marks), Validity::Array(left)) => left@ == kept(marks@, mask@),
                _ => false,
            },
    {
        match self {
            Validity::NonNullable => Validity::NonNullable,
            Validity::AllValid => Validity::AllValid,
            Validity::AllInvalid => Validity::AllInvalid,
            Validity::Array(marks) => Validity::Array(keep(marks, mask)),
        }
    }

    /// Whether the column may hold nulls.
    pub fn nullability(&self) -> (nullability: Nullability)
        ensures
            nullability == self@.nullability(),
            nullability is NonNullable <==> self is NonNullable,
    {
        match self {
            Validity::NonNullable => Nullability::NonNullable,
            _ => Nullability::Nullable,
        }
    }
}

/// The values of a column of integers.
#[derive(Debug, PartialEq, Eq)]
pub enum PrimitiveValues {
    /// Unsigned, 8 bits.
    U8(Vec<u8>),
    /// Unsigned, 16 bits.
    U16(Vec<u16>),
    /// Unsigned, 32 bits.
    U32(Vec<u32>),
    /// Unsigned, 64 bits.
    U64(Vec<u64>),
    /// Signed, 8 bits.
    I8(Vec<i8>),
    /// Signed, 16 bits.
    I16(Vec<i16>),
    /// Signed, 32 bits.
    I32(Vec<i32>),
    /// Signed, 64 bits.
    I64(Vec<i64>),
}

impl View for PrimitiveValues {
    type V = Seq<int>;

    open spec fn view(&self) -> Seq<int> {
        match self {
            PrimitiveValues::U8(values) => values@.map_values(|v: u8| v as int),
            PrimitiveValues::U16(values) => values@.map_values(|v: u16| v as int),
            PrimitiveValues::U32(values) => values@.map_values(|v: u32| v as int),
            PrimitiveValues::U64(values) => values@.map_values(|v: u64| v as int),
            PrimitiveValues::I8(values) => values@.map_values(|v: i8| v as int),
            PrimitiveValues::I16(values) => values@.map_values(|v: i16| v as int),
            PrimitiveValues::I32(values) => values@.map_values(|v: i32| v as int),
            PrimitiveValues::I64(values) => values@.map_values(|v: i64| v as int),
        }
    }
}

impl PrimitiveValues {
    /// The type of the values.
    pub open spec fn of_type(&self) -> PType {
        match self {
            PrimitiveValues::U8(_) => PType::U8,
            PrimitiveValues::U16(_) => PType::U16,
            PrimitiveValues::U32(_) => PType::U32,
            PrimitiveValues::U64(_) => PType::U64,
            PrimitiveValues::I8(_) => PType::I8,
            PrimitiveValues::I16(_) => PType::I16,
            PrimitiveValues::I32(_) => PType::I32,
            PrimitiveValues::I64(_) => PType::I64,
        }
    }

    /// The type of the values.
    pub fn ptype(&self) -> (ptype: PType)
        ensures
            ptype == self.of_type(),
    {
        match self {
            PrimitiveValues::U8(_) => PType::U8,
            PrimitiveValues::U16(_) => PType::U16,
            PrimitiveValues::U32(_) => PType::U32,
            PrimitiveValues::U64(_) => PType::U64,
            PrimitiveValues::I8(_) => PType::I8,
            PrimitiveValues::I16(_) => PType::I16,
            PrimitiveValues::I32(_) => PType::I32,
            PrimitiveValues::I64(_) => PType::I64,
        }
    }

    /// How many values there are.
    pub fn len(&self) -> (len: usize)
        ensures
            len == self@.len(),
    {
        match self {
            PrimitiveValues::U8(values) => values.len(),
            PrimitiveValues::U16(values) => values.len(),
            PrimitiveValues::U32(values) => values.len(),
            PrimitiveValues::U64(values) => values.len(),
            PrimitiveValues::I8(values) => values.len(),
            PrimitiveValues::I16(values) => values.len(),
            PrimitiveValues::I32(values) => values.len(),
            PrimitiveValues::I64(values) => values.len(),
        }
    }

    /// A signed value, in 64 bits.
    pub fn signed_at(&self, row: usize) -> (value: i64)
        requires
            self.of_type().signed(),
            row < self@.len(),
        ensures
            value == self@[row as int],
    {
        match self {
            PrimitiveValues::I8(values) => values[row] as i64,
            PrimitiveValues::I16(values) => values[row] as i64,
            PrimitiveValues::I32(values) => values[row] as i64,
            PrimitiveValues::I64(values) => values[row],
            _ => 0,
        }
    }

    /// The rows that `mask` keeps.
    pub fn filter(&self, mask: &[bool]) -> (filtered: Self)
        requires
            self@.len() == mask@.len(),
        ensures
            filtered@ == kept(self@, mask@),
            filtered.of_type() == self.of_type(),
    {
        proof {
            match self {
                PrimitiveValues::U8(v) => law_keeping_commutes(v@, mask@, |v: u8| v as int),
                PrimitiveValues::U16(v) => law_keeping_commutes(v@, mask@, |v: u16| v as int),
                PrimitiveValues::U32(v) => law_keeping_commutes(v@, mask@, |v: u32| v as int),
                PrimitiveValues::U64(v) => law_keeping_commutes(v@, mask@, |v: u64| v as int),
                PrimitiveValues::I8(v) => law_keeping_commutes(v@, mask@, |v: i8| v as int),
                PrimitiveValues::I16(v) => law_keeping_commutes(v@, mask@, |v: i16| v as int),
                PrimitiveValues::I32(v) => law_keeping_commutes(v@, mask@, |v: i32| v as int),
                PrimitiveValues::I64(v) => law_keeping_commutes(v@, mask@, |v: i64| v as int),
            }
        }
        match self {
            PrimitiveValues::U8(values) => PrimitiveValues::U8(keep(values, mask)),
            PrimitiveValues::U16(values) => PrimitiveValues::U16(keep(values, mask)),
            PrimitiveValues::U32(values) => PrimitiveValues::U32(keep(values, mask)),
            PrimitiveValues::U64(values) => PrimitiveValues::U64(keep(values, mask)),
            PrimitiveValues::I8(values) => PrimitiveValues::I8(keep(values, mask)),
            PrimitiveValues::I16(values) => PrimitiveValues::I16(keep(values, mask)),
            PrimitiveValues::I32(values) => PrimitiveValues::I32(keep(values, mask)),
            PrimitiveValues::I64(values) => PrimitiveValues::I64(keep(values, mask)),
        }
    }
}

/// A column of integers.
#[derive(Debug, PartialEq, Eq)]
pub struct PrimitiveArray {
    /// The values. Where a row holds none, what stands here means nothing.
    pub values: PrimitiveValues,
    /// Which rows hold a value.
    pub validity: Validity,
}

/// A column of integers, as a value.
#[verifier::ext_equal]
pub struct Integers {
    /// The type of the values.
    pub ptype: PType,
    /// The values.
    pub values: Seq<int>,
    /// Which rows hold a value.
    pub validity: Validness,
}

impl View for PrimitiveArray {
    type V = Integers;

    open spec fn view(&self) -> Integers {
        Integers {
            ptype: self.values.of_type(),
            values: self.values@,
            validity: self.validity@,
        }
    }
}

impl Integers {
    /// Whether the validity is that of as many rows as there are.
    pub open spec fn wf(self) -> bool {
        self.validity.covers(self.values.len())
    }

    /// The logical type of the column.
    pub open spec fn dtype(self) -> DType {
        DType::Primitive(self.ptype, self.validity.nullability())
    }

    /// The rows that `mask` keeps.
    pub open spec fn kept(self, mask: Seq<bool>) -> Integers {
        Integers {
            ptype: self.ptype,
            values: kept(self.values, mask),
            validity: self.validity.kept(mask),
        }
    }
}

/// Filtering a column of integers keeps the type, and takes every marked row, with its value
/// and whether it holds one, to the place behind the marked rows in front of it.
pub proof fn law_filtered_integers_row(column: Integers, mask: Seq<bool>, i: int)
    requires
        column.wf(),
        column.values.len() == mask.len(),
        0 <= i < mask.len(),
        mask[i],
    ensures
        ({
            let at = mask.take(i).filter(|mark: bool| mark).len() as int;
            let left = column.kept(mask);
            &&& left.ptype == column.ptype
            &&& left.wf()
            &&& left.values.len() == mask.filter(|mark: bool| mark).len()
            &&& at < left.values.len()
            &&& left.values[at] == column.values[i]
            &&& left.validity.holds(at) <==> column.validity.holds(i)
        }),
{
    law_kept_row_is_found_behind_those_before_it(column.values, mask, i);
    law_kept_rows_keep_their_validity(column.validity, mask, i);
}

/// A row holds a value as its column's validity says: always, never, or where it is marked.
pub proof fn law_rows_hold_values_as_marked(validity: Validity, row: int)
    ensures
        match validity {
            Validity::NonNullable | Validity::AllValid => validity@.holds(row),
            Validity::AllInvalid => !validity@.holds(row),
            Validity::Array(marks) => validity@.holds(row) <==> marks@[row],
        },
        validity@.nullability() is NonNullable <==> validity is NonNullable,
{
}

impl PrimitiveArray {
    /// A column of integers.
    pub fn new(values: PrimitiveValues, validity: Validity) -> (array: Self)
        requires
            validity@.covers(values@.len()),
        ensures
            array@.wf(),
            array@ == (Integers {
                ptype: values.of_type(),
                values: values@,
                validity: validity@,
            }),
    {
        PrimitiveArray { values, validity }
    }

    /// How many rows there are.
    pub fn len(&self) -> (len: usize)
        ensures
            len == self@.values.len(),
    {
        self.values.len()
    }

    /// The type of the values.
    pub fn ptype(&self) -> (ptype: PType)
        ensures
            ptype == self@.ptype,
    {
        self.values.ptype()
    }

    /// The logical type of the column.
    pub fn dtype(&self) -> (dtype: DType)
        ensures
            dtype == self@.dtype(),
            dtype matches DType::Primitive(ptype, nullability) && ptype == self@.ptype && (
            nullability is NonNullable <==> self.validity is NonNullable),
    {
        DType::Primitive(self.values.ptype(), self.validity.nullability())
    }

    /// The rows that `mask` keeps.
    pub fn filter(&self, mask: &[bool]) -> (filtered: Self)
        requires
            self@.wf(),
            self@.values.len() == mask@.len(),
        ensures
            filtered@ == self@.kept(mask@),
    {
        PrimitiveArray { values: self.values.filter(mask), validity: self.validity.filter(mask) }
    }
}

/// The values of a column of decimals, each scaled to an integer.
#[derive(Debug, PartialEq, Eq)]
pub enum DecimalValues {
    /// 8 bits.
    I8(Vec<i8>),
    /// 16 bits.
    I16(Vec<i16>),
    /// 32 bits.
    I32(Vec<i32>),
    /// 64 bits.
    I64(Vec<i64>),
    /// 128 bits.
    I128(Vec<i128>),
    /// 256 bits.
    I256(Vec<i256>),
}

impl View for DecimalValues {
    type V = Seq<int>;

    open spec fn view(&self) -> Seq<int> {
        match self {
            DecimalValues::I8(values) => values@.map_values(|v: i8| v as int),
            DecimalValues::I16(values) => values@.map_values(|v: i16| v as int),
            DecimalValues::I32(values) => values@.map_values(|v: i32| v as int),
            DecimalValues::I64(values) => values@.map_values(|v: i64| v as int),
            DecimalValues::I128(values) => values@.map_values(|v: i128| v as int),
            DecimalValues::I256(values) => values@.map_values(|v: i256| v@),
        }
    }
}

impl DecimalValues {
    /// The type that the values are stored in.
    pub open spec fn of_type(&self) -> DecimalType {
        match self {
            DecimalValues::I8(_) => DecimalType::I8,
            DecimalValues::I16(_) => DecimalType::I16,
            DecimalValues::I32(_) => DecimalType::I32,
            DecimalValues::I64(_) => DecimalType::I64,
            DecimalValues::I128(_) => DecimalType::I128,
            DecimalValues::I256(_) => DecimalType::I256,
        }
    }

    /// The type that the values are stored in.
    pub fn values_type(&self) -> (values_type: DecimalType)
        ensures
            values_type == self.of_type(),
    {
        match self {
            DecimalValues::I8(_) => DecimalType::I8,
            DecimalValues::I16(_) => DecimalType::I16,
            DecimalValues::I32(_) => DecimalType::I32,
            DecimalValues::I64(_) => DecimalType::I64,
            DecimalValues::I128(_) => DecimalType::I128,
            DecimalValues::I256(_) => DecimalType::I256,
        }
    }

    /// How many values there are.
    pub fn len(&self) -> (len: usize)
        ensures
            len == self@.len(),
    {
        match self {
            DecimalValues::I8(values) => values.len(),
            DecimalValues::I16(values) => values.len(),
            DecimalValues::I32(values) => values.len(),
            DecimalValues::I64(values) => values.len(),
            DecimalValues::I128(values) => values.len(),
            DecimalValues::I256(values) => values.len(),
        }
    }

    /// One value, in 256 bits.
    pub fn at(&self, row: usize) -> (value: i256)
        requires
            row < self@.len(),
        ensures
            value@ == self@[row as int],
    {
        match self {
            DecimalValues::I8(values) => i256::from_i128(values[row] as i128),
            DecimalValues::I16(values) => i256::from_i128(values[row] as i128),
            DecimalValues::I32(values) => i256::from_i128(values[row] as i128),
            DecimalValues::I64(values) => i256::from_i128(values[row] as i128),
            DecimalValues::I128(values) => i256::from_i128(values[row]),
            DecimalValues::I256(values) => values[row],
        }
    }
}

/// A column of decimals.
#[derive(Debug, PartialEq, Eq)]
pub struct DecimalArray {
    /// The values, each scaled to an integer.
    pub values: DecimalValues,
    /// The digits of the values.
    pub decimal_dtype: DecimalDType,
    /// Which rows hold a value.
    pub validity: Validity,
}

/// A column of decimals, as a value.
#[verifier::ext_equal]
pub struct Decimals {
    /// The type that the values are stored in.
    pub values_type: DecimalType,
    /// The values.
    pub values: Seq<int>,
    /// The digits of the values.
    pub decimal_dtype: DecimalDType,
    /// Which rows hold a value.
    pub validity: Validness,
}

impl View for DecimalArray {
    type V = Decimals;

    open spec fn view(&self) -> Decimals {
        Decimals {
            values_type: self.values.of_type(),
            values: self.values@,
            decimal_dtype: self.decimal_dtype,
            validity: self.validity@,
        }
    }
}

impl Decimals {
    /// Whether the validity is that of as many rows as there are.
    pub open spec fn wf(self) -> bool {
        self.validity.covers(self.values.len())
    }

    /// The logical type of the column.
    pub open spec fn dtype(self) -> DType {
        DType::Decimal(self.decimal_dtype, self.validity.nullability())
    }

    /// The rows that `mask` keeps.
    pub open spec fn kept(self, mask: Seq<bool>) -> Decimals {
        Decimals {
            values_type: self.values_type,
            values: kept(self.values, mask),
            decimal_dtype: self.decimal_dtype,
            validity: self.validity.kept(mask),
        }
    }
}

/// Filtering a column of decimals keeps the storage type and the digits, and takes every marked
/// row, with its value and whether it holds one, to the place behind the marked rows in front
/// of it.
pub proof fn law_filtered_decimals_row(column: Decimals, mask: Seq<bool>, i: int)
    requires
        column.wf(),
        column.values.len() == mask.len(),
        0 <= i < mask.len(),
        mask[i],
    ensures
        ({
            let at = mask.take(i).filter(|mark: bool| mark).len() as int;
            let left = column.kept(mask);
            &&& left.values_type == column.values_type
            &&& left.decimal_dtype == column.decimal_dtype
            &&& left.wf()
            &&& left.values.len() == mask.filter(|mark: bool| mark).len()
            &&& at < left.values.len()
            &&& left.values[at] == column.values[i]
            &&& left.validity.holds(at) <==> column.validity.holds(i)
        }),
{
    law_kept_row_is_found_behind_those_before_it(column.values, mask, i);
    law_kept_rows_keep_their_validity(column.validity, mask, i);
}

impl DecimalArray {
    /// A column of decimals.
    pub fn new(values: DecimalValues, decimal_dtype: DecimalDType, validity: Validity) -> (array:
        Self)
        requires
            validity@.covers(values@.len()),
        ensures
            array@.wf(),
            array@ == (Decimals {
                values_type: values.of_type(),
                values: values@,
                decimal_dtype,
                validity: validity@,
            }),
    {
        DecimalArray { values, decimal_dtype, validity }
    }

    /// How many rows there are.
    pub fn len(&self) -> (len: usize)
        ensures
            len == self@.values.len(),
    {
        self.values.len()
    }

    /// The type that the values are stored in.
    pub fn values_type(&self) -> (values_type: DecimalType)
        ensures
            values_type == self@.values_type,
    {
        self.values.values_type()
    }

    /// The logical type of the column.
    pub fn dtype(&self) -> (dtype: DType)
        ensures
            dtype == self@.dtype(),
            dtype matches DType::Decimal(digits, nullability) && digits == self.decimal_dtype && (
            nullability is NonNullable <==> self.validity is NonNullable),
    {
        DType::Decimal(self.decimal_dtype, self.validity.nullability())
    }
}

} // verus!
