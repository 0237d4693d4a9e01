//! Signed integers of 256 bits.

use vstd::arithmetic::div_mod::{
    lemma_add_mod_noop, lemma_mod_multiples_vanish, lemma_mul_mod_noop, lemma_small_mod,
};
use vstd::arithmetic::power::{
    lemma_pow0, lemma_pow_adds, lemma_pow_mod_noop, lemma_pow_multiplies, pow,
};
use vstd::arithmetic::power2::{
    lemma2_to64, lemma2_to64_rest, lemma_pow2_adds, lemma_pow2_pos, lemma_pow2_unfold, pow2,
};
use vstd::prelude::*;

verus! {

/// The number of values of 128 bits.
pub open spec fn two_to_128() -> int {
    340282366920938463463374607431768211456int
}

/// The number of values of 256 bits.
pub open spec fn two_to_256() -> int {
    115792089237316195423570985008687907853269984665640564039457584007913129639936int
}

/// `x` reduced to the signed integers of which there are `modulus`, as two's complement
/// arithmetic reduces it.
pub open spec fn wrapped(x: int, modulus: int) -> int {
    (x + modulus / 2) % modulus - modulus / 2
}

/// A signed integer of 256 bits, in two's complement.
#[allow(non_camel_case_types)]
#[derive(Clone, Copy, Debug, PartialEq, Eq, Structural)]
pub struct i256 {
    /// The least significant 128 bits.
    pub low: u128,
    /// The most significant 128 bits, which hold the sign.
    pub high: i128,
}

impl View for i256 {
    type V = int;

    open spec fn view(&self) -> int {
        self.high * 340282366920938463463374607431768211456int + self.low
    }
}

/// A value that differs from `y` by a multiple of the modulus wraps to `y`.
pub(crate) proof fn lemma_wraps_to(x: int, y: int, k: int, modulus: int)
    requires
        modulus > 0,
        modulus % 2 == 0,
        -(modulus / 2) <= y < modulus / 2,
        x == y + modulus * k,
    ensures
        wrapped(x, modulus) == y,
{
    lemma_mod_multiples_vanish(k, y + modulus / 2, modulus);
    lemma_small_mod((y + modulus / 2) as nat, modulus as nat);
}

/// Wrapping keeps the residue, and two values with one residue wrap to one.
pub(crate) proof fn lemma_wrapped_residue(x: int, y: int, modulus: int)
    requires
        modulus > 0,
        modulus % 2 == 0,
    ensures
        wrapped(x, modulus) % modulus == x % modulus,
        -(modulus / 2) <= wrapped(x, modulus) < modulus / 2,
        x % modulus == y % modulus ==> wrapped(x, modulus) == wrapped(y, modulus),
{
    let half = modulus / 2;
    lemma_add_mod_noop(x, half, modulus);
    lemma_add_mod_noop(y, half, modulus);
    lemma_add_mod_noop(wrapped(x, modulus), half, modulus);
    vstd::arithmetic::div_mod::lemma_mod_bound(x + half, modulus);
    vstd::arithmetic::div_mod::lemma_fundamental_div_mod(x + half, modulus);
    let q = (x + half) / modulus;
    assert(x == wrapped(x, modulus) + modulus * q);
    lemma_mod_multiples_vanish(q, wrapped(x, modulus), modulus);
}

/// The moduli are the powers of two that their names say.
pub proof fn law_moduli_are_powers_of_two()
    ensures
        two_to_128() == pow2(128),
        two_to_256() == pow2(256),
{
    lemma2_to64();
    lemma2_to64_rest();
    lemma_pow2_adds(64, 64);
    lemma_pow2_adds(128, 128);
    assert(18446744073709551616int * 18446744073709551616int
        == 340282366920938463463374607431768211456int) by (nonlinear_arith);
    assert(pow2(128) == 340282366920938463463374607431768211456int);
    assert(340282366920938463463374607431768211456int
        * 340282366920938463463374607431768211456int == two_to_256()) by (nonlinear_arith)
        requires
            two_to_256()
                == 115792089237316195423570985008687907853269984665640564039457584007913129639936int,
    ;
}

/// What two's complement arithmetic makes of a number is a signed integer in range, and differs
/// from it by a multiple of the modulus; a number in range stays as it is.
pub proof fn law_wrapping_keeps_the_residue(x: int, bits: nat)
    requires
        bits > 0,
    ensures
        -pow2((bits - 1) as nat) <= wrapped(x, pow2(bits) as int) < pow2((bits - 1) as nat),
        (wrapped(x, pow2(bits) as int) - x) % (pow2(bits) as int) == 0,
        -pow2((bits - 1) as nat) <= x < pow2((bits - 1) as nat) ==> wrapped(x, pow2(bits) as int)
            == x,
{
    let m = pow2(bits) as int;
    lemma_pow2_pos(bits);
    lemma_pow2_unfold(bits);
    lemma_wrapped_residue(x, x, m);
    vstd::arithmetic::div_mod::lemma_mod_equivalence(wrapped(x, m), x, m);
    if -pow2((bits - 1) as nat) <= x < pow2((bits - 1) as nat) {
        lemma_wraps_to(x, x, 0, m);
    }
}

/// A 256-bit integer is its high half above its low half.
pub proof fn law_i256_joins_its_halves(a: i256)
    ensures
        a@ == a.high * pow2(128) + a.low,
{
    law_moduli_are_powers_of_two();
}

/// The views of 256-bit integers are the integers of that range, each once.
pub proof fn law_i256_is_its_value(a: i256, b: i256)
    ensures
        -(two_to_256() / 2) <= a@ < two_to_256() / 2,
        a@ == b@ <==> a == b,
{
}

impl i256 {
    /// Zero.
    pub fn zero() -> (value: Self)
        ensures
            value@ == 0,
    {
        i256 { low: 0, high: 0 }
    }

    /// One.
    pub fn one() -> (value: Self)
        ensures
            value@ == 1,
    {
        i256 { low: 1, high: 0 }
    }

    /// The largest value.
    pub fn max() -> (value: Self)
        ensures
            value@ == two_to_256() / 2 - 1,
    {
        i256 { low: u128::MAX, high: i128::MAX }
    }

    /// The smallest value.
    pub fn min() -> (value: Self)
        ensures
            value@ == -(two_to_256() / 2),
    {
        i256 { low: 0, high: i128::MIN }
    }

    /// The value whose halves are these.
    pub fn from_parts(low: u128, high: i128) -> (value: Self)
        ensures
            value == (i256 { low, high }),
            value@ == high * two_to_128() + low,
    {
        i256 { low, high }
    }

    /// The two halves, the least significant first.
    pub fn to_parts(self) -> (parts: (u128, i128))
        ensures
            parts == (self.low, self.high),
            self@ == parts.1 * two_to_128() + parts.0,
    {
        (self.low, self.high)
    }

    /// The same value in more bits.
    pub fn from_i128(value: i128) -> (widened: Self)
        ensures
            widened@ == value,
    {
        let low: u128 = value as u128;
        let high: i128 = if value < 0 {
            -1
        } else {
            0
        };
        proof {
            lemma_u128_of_i128(value);
        }
        i256 { low, high }
    }

    /// The same value in fewer bits, if it fits.
    pub fn to_i128(self) -> (narrowed: Option<i128>)
        ensures
            narrowed is Some <==> i128::MIN <= self@ <= i128::MAX,
            narrowed matches Some(value) ==> value == self@,
    {
        let value: i128 = self.low as i128;
        proof {
            lemma_i128_of_u128(self.low);
        }
        if (self.high == 0 && value >= 0) || (self.high == -1 && value < 0) {
            Some(value)
        } else {
            None
        }
    }

    /// The sum, in two's complement arithmetic.
    pub fn wrapping_add(self, other: Self) -> (sum: Self)
        ensures
            sum@ == wrapped(self@ + other@, two_to_256()),
    {
        let low: u128 = self.low.wrapping_add(other.low);
        let carry: i128 = if low < self.low {
            1
        } else {
            0
        };
        let high: i128 = self.high.wrapping_add(other.high).wrapping_add(carry);
        let sum = i256 { low, high };
        proof {
            let whole = self.high + other.high + carry;
            assert(self@ + other@ == whole * two_to_128() + low);
            let k: int = if whole > high {
                1
            } else if whole < high {
                -1
            } else {
                0
            };
            assert(whole == high + k * two_to_128());
            assert(self@ + other@ == sum@ + two_to_256() * k) by (nonlinear_arith)
                requires
                    self@ + other@ == whole * two_to_128() + low,
                    whole == high + k * two_to_128(),
                    sum@ == high * two_to_128() + low,
                    two_to_256() == two_to_128() * two_to_128(),
            ;
            law_i256_is_its_value(sum, sum);
            lemma_wraps_to(self@ + other@, sum@, k, two_to_256());
        }
        sum
    }

    /// The value with its sign changed, in two's complement arithmetic.
    pub fn wrapping_neg(self) -> (negated: Self)
        ensures
            negated@ == wrapped(-self@, two_to_256()),
    {
        let flipped = i256 { low: u128::MAX - self.low, high: -1 - self.high };
        proof {
            assert(flipped@ + 1 == -self@);
        }
        flipped.wrapping_add(i256::one())
    }

    /// The difference, in two's complement arithmetic.
    pub fn wrapping_sub(self, other: Self) -> (difference: Self)
        ensures
            difference@ == wrapped(self@ - other@, two_to_256()),
    {
        let negated = other.wrapping_neg();
        proof {
            lemma_wrapped_residue(-other@, -other@, two_to_256());
            lemma_add_mod_noop(self@, negated@, two_to_256());
            lemma_add_mod_noop(self@, -other@, two_to_256());
            lemma_wrapped_residue(self@ + negated@, self@ - other@, two_to_256());
        }
        self.wrapping_add(negated)
    }

    /// The value times an unsigned integer of 128 bits, in two's complement arithmetic.
    fn wrapping_mul_u128(self, factor: u128) -> (product: Self)
        ensures
            product@ == wrapped(self@ * factor, two_to_256()),
    {
        let mut sum = i256::zero();
        let mut doubled = self;
        let mut rest: u128 = factor;
        proof {
            lemma_wrapped_residue(self@ * factor, self@ * factor, two_to_256());
            assert(0 + self@ * factor == self@ * factor);
        }
        while rest > 0
            invariant
                (sum@ + doubled@ * rest) % two_to_256() == (self@ * factor) % two_to_256(),
            decreases rest,
        {
            let ghost before = sum@;
            let ghost addend = doubled@;
            let ghost half = (rest / 2) as int;
            if rest % 2 == 1 {
                sum = sum.wrapping_add(doubled);
            }
            doubled = doubled.wrapping_add(doubled);
            proof {
                let m = two_to_256();
                let due = if rest % 2 == 1 {
                    before + addend
                } else {
                    before
                };
                lemma_wrapped_residue(before + addend, before, m);
                lemma_wrapped_residue(addend + addend, addend, m);
                assert(sum@ % m == due % m);
                lemma_mul_mod_noop(doubled@, half, m);
                lemma_mul_mod_noop(addend + addend, half, m);
                lemma_add_mod_noop(sum@, doubled@ * half, m);
                lemma_add_mod_noop(due, (addend + addend) * half, m);
                assert(due + (addend + addend) * half == before + addend * rest)
                    by (nonlinear_arith)
                    requires
                        rest == 2 * half + (if rest % 2 == 1 {
                            1int
                        } else {
                            0
                        }),
                        due == (if rest % 2 == 1 {
                            before + addend
                        } else {
                            before
                        }),
                ;
            }
            rest = rest / 2;
        }
        proof {
            assert(doubled@ * 0 == 0);
            law_i256_is_its_value(sum, sum);
            lemma_wraps_to(sum@, sum@, 0, two_to_256());
            lemma_wrapped_residue(sum@, self@ * factor, two_to_256());
        }
        sum
    }

    /// The product, in two's complement arithmetic.
    pub fn wrapping_mul(self, other: Self) -> (product: Self)
        ensures
            product@ == wrapped(self@ * other@, two_to_256()),
    {
        let by_low = self.wrapping_mul_u128(other.low);
        let shifted = i256 { low: 0, high: self.low as i128 };
        let by_high = shifted.wrapping_mul_u128(other.high as u128);
        let product = by_low.wrapping_add(by_high);
        proof {
            let m = two_to_256();
            let b = two_to_128();
            let a = self@;
            let low = other.low as int;
            let high = (other.high as u128) as int;
            lemma_i128_of_u128(self.low);
            lemma_u128_of_i128(other.high);
            lemma_wrapped_residue(a * low, 0, m);
            lemma_wrapped_residue(shifted@ * high, 0, m);
            lemma_add_mod_noop(by_low@, by_high@, m);
            lemma_add_mod_noop(a * low, shifted@ * high, m);
            let j: int = if self.low >= 0x8000_0000_0000_0000_0000_0000_0000_0000u128 {
                1
            } else {
                0
            };
            let k: int = if other.high < 0 {
                1
            } else {
                0
            };
            assert(shifted@ == self.low * b - j * m);
            assert(other@ == high * b + low - k * m);
            assert(a == self.high * b + self.low);
            let multiples = -j * high - self.high * high + k * a;
            lemma_product_of_halves(
                self.low as int,
                self.high as int,
                low,
                high,
                j,
                k,
                a,
                shifted@,
                other@,
                b,
                m,
            );
            assert(a * low + shifted@ * high == m * multiples + a * other@);
            lemma_mod_multiples_vanish(multiples, a * other@, m);
            lemma_wrapped_residue(by_low@ + by_high@, a * other@, m);
        }
        product
    }

    /// The value raised to a power, in two's complement arithmetic.
    pub fn wrapping_pow(self, exponent: u32) -> (power: Self)
        ensures
            power@ == wrapped(pow(self@, exponent as nat), two_to_256()),
    {
        let mut power = i256::one();
        let mut square = self;
        let mut rest: u32 = exponent;
        assert(1 * pow(self@, exponent as nat) == pow(self@, exponent as nat));
        while rest > 0
            invariant
                (power@ * pow(square@, rest as nat)) % two_to_256() == pow(self@, exponent as nat)
                    % two_to_256(),
            decreases rest,
        {
            let ghost before = power@;
            let ghost base = square@;
            let ghost half = (rest / 2) as nat;
            if rest % 2 == 1 {
                power = power.wrapping_mul(square);
            }
            square = square.wrapping_mul(square);
            proof {
                let m = two_to_256();
                let due = if rest % 2 == 1 {
                    before * base
                } else {
                    before
                };
                lemma_wrapped_residue(before * base, before, m);
                lemma_wrapped_residue(base * base, base, m);
                assert(power@ % m == due % m);
                lemma_pow_mod_noop(square@, half, m);
                lemma_pow_mod_noop(base * base, half, m);
                lemma_mul_mod_noop(power@, pow(square@, half), m);
                lemma_mul_mod_noop(due, pow(base * base, half), m);
                lemma_split_power(base, rest as nat);
                let whole = pow(base * base, half);
                if rest % 2 == 1 {
                    assert(due * whole == before * (base * whole)) by (nonlinear_arith)
                        requires
                            due == before * base,
                    ;
                }
            }
            rest = rest / 2;
        }
        proof {
            lemma_pow0(square@);
            law_i256_is_its_value(power, power);
            lemma_wraps_to(power@, power@, 0, two_to_256());
            lemma_wrapped_residue(power@, pow(self@, exponent as nat), two_to_256());
        }
        power
    }
}

/// A product of two numbers in halves, less the multiples of the modulus in it.
proof fn lemma_product_of_halves(
    a_low: int,
    a_high: int,
    low: int,
    high: int,
    j: int,
    k: int,
    a: int,
    shifted: int,
    other: int,
    b: int,
    m: int,
)
    requires
        m == b * b,
        a == a_high * b + a_low,
        shifted == a_low * b - j * m,
        other == high * b + low - k * m,
    ensures
        a * low + shifted * high == m * (-j * high - a_high * high + k * a) + a * other,
{
    assert(a * other == a * (high * b) + a * low - a * (k * m)) by (nonlinear_arith)
        requires
            other == high * b + low - k * m,
    ;
    assert(a * (high * b) == a_high * high * m + a_low * b * high) by (nonlinear_arith)
        requires
            a == a_high * b + a_low,
            m == b * b,
    ;
    assert(shifted * high == a_low * b * high - j * m * high) by (nonlinear_arith)
        requires
            shifted == a_low * b - j * m,
    ;
    let x = j * high;
    let y = a_high * high;
    let z = k * a;
    assert(-j * high == -x) by (nonlinear_arith)
        requires
            x == j * high,
    ;
    assert(m * (-x - y + z) == -(m * x) - m * y + m * z) by (nonlinear_arith);
    assert(m * x == j * m * high) by (nonlinear_arith)
        requires
            x == j * high,
    ;
    assert(m * y == a_high * high * m) by (nonlinear_arith)
        requires
            y == a_high * high,
    ;
    assert(m * z == a * (k * m)) by (nonlinear_arith)
        requires
            z == k * a,
    ;
}

/// A power is that of the square to half the exponent, with one factor more if it is odd.
proof fn lemma_split_power(base: int, exponent: nat)
    ensures
        pow(base, exponent) == if exponent % 2 == 1 {
            base * pow(base * base, exponent / 2)
        } else {
            pow(base * base, exponent / 2)
        },
{
    let half = exponent / 2;
    vstd::arithmetic::power::lemma_pow1(base);
    lemma_pow_adds(base, 1, 1);
    lemma_pow_multiplies(base, 2, half);
    assert(pow(base, 2) == base * base);
    if exponent % 2 == 1 {
        lemma_pow_adds(base, 1, 2 * half);
    }
}

/// A signed integer of 128 bits as an unsigned one.
pub(crate) proof fn lemma_u128_of_i128(value: i128)
    ensures
        (value as u128) as int == if value < 0 {
            value + two_to_128()
        } else {
            value as int
        },
{
    assert(value < 0 ==> (value as u128) == (value - i128::MIN) as u128
        + 0x8000_0000_0000_0000_0000_0000_0000_0000u128) by (bit_vector);
    assert(value >= 0 ==> (value as u128) == value) by (bit_vector);
}

/// An unsigned integer of 128 bits as a signed one.
pub(crate) proof fn lemma_i128_of_u128(value: u128)
    ensures
        (value as i128) as int == if value < 0x8000_0000_0000_0000_0000_0000_0000_0000 {
            value as int
        } else {
            value - two_to_128()
        },
{
    assert(value >= 0x8000_0000_0000_0000_0000_0000_0000_0000u128 ==> (value as i128) == (value
        - 0x8000_0000_0000_0000_0000_0000_0000_0000u128) as i128 + i128::MIN) by (bit_vector);
    assert(value < 0x8000_0000_0000_0000_0000_0000_0000_0000u128 ==> (value as i128) == value)
        by (bit_vector);
}

} // verus!
