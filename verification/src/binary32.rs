//! IEEE 754 binary32 values held by their bit patterns.
//!
//! Every finite binary32 value is a whole multiple of 2^-149, the smallest
//! positive subnormal. The model below measures values in that unit, so a
//! value is an integer and every statement about it is exact.
use vstd::prelude::*;
use vstd::arithmetic::power2::*;
use vstd::arithmetic::div_mod::*;
use vstd::arithmetic::mul::*;

verus! {

/// A binary32 floating-point value, held by its bit pattern.
#[derive(Clone, Copy, PartialEq, Eq, Structural, Debug)]
pub struct Binary32 {
    pub bits: u32,
}

/// The biased exponent field.
pub open spec fn exponent_field(bits: u32) -> nat {
    ((bits as nat) / 0x80_0000) % 0x100
}

/// The fraction field.
pub open spec fn fraction_field(bits: u32) -> nat {
    (bits as nat) % 0x80_0000
}

/// The sign bit is set.
pub open spec fn sign_set(bits: u32) -> bool {
    bits >= 0x8000_0000
}

/// Not an infinity and not a NaN.
pub open spec fn is_finite_bits(bits: u32) -> bool {
    exponent_field(bits) != 0xff
}

/// The absolute value of a finite binary32, in units of 2^-149.
pub open spec fn magnitude(bits: u32) -> nat {
    let e = exponent_field(bits);
    let f = fraction_field(bits);
    if e == 0 {
        f
    } else {
        (f + pow2(23)) * pow2((e - 1) as nat)
    }
}

/// The signed value of a finite binary32, in units of 2^-149.
pub open spec fn value(bits: u32) -> int {
    if sign_set(bits) {
        -magnitude(bits)
    } else {
        magnitude(bits) as int
    }
}

/// The largest finite magnitude, `f32::MAX`, in units of 2^-149.
pub open spec fn max_magnitude() -> nat {
    ((pow2(24) - 1) * pow2(253)) as nat
}

/// A positive, finite value that is a power of two (subnormals included).
pub open spec fn is_power_of_two_bits(bits: u32) -> bool {
    &&& !sign_set(bits)
    &&& is_finite_bits(bits)
    &&& exists|k: nat| magnitude(bits) == #[trigger] pow2(k)
}

/// A positive power of two whose exponent field is not zero (not subnormal).
pub open spec fn is_normal_power_of_two_bits(bits: u32) -> bool {
    is_power_of_two_bits(bits) && exponent_field(bits) != 0
}

impl Binary32 {
    /// The value in units of 2^-149.
    pub open spec fn value(self) -> int {
        value(self.bits)
    }

    /// The magnitude in units of 2^-149.
    pub open spec fn magnitude(self) -> nat {
        magnitude(self.bits)
    }

    pub open spec fn is_finite(self) -> bool {
        is_finite_bits(self.bits)
    }
}

/// Splits a bit pattern into its sign, exponent and fraction fields.
pub fn fields(bits: u32) -> (r: (bool, u32, u32))
    ensures
        r.0 == sign_set(bits),
        r.1 as nat == exponent_field(bits),
        r.2 as nat == fraction_field(bits),
        r.1 < 0x100,
        r.2 < 0x80_0000,
{
    assert((bits >> 23) & 0xff == (bits / 0x80_0000) % 0x100) by (bit_vector);
    assert(bits & 0x7f_ffff == bits % 0x80_0000) by (bit_vector);
    assert((bits >> 31 != 0) == (bits >= 0x8000_0000)) by (bit_vector);
    ((bits >> 31) != 0, (bits >> 23) & 0xff, bits & 0x7f_ffff)
}

/// Puts a sign, a biased exponent and a fraction back together.
pub fn assemble(negative: bool, exponent: u32, fraction: u32) -> (bits: u32)
    requires
        exponent < 0x100,
        fraction < 0x80_0000,
    ensures
        sign_set(bits) == negative,
        exponent_field(bits) == exponent,
        fraction_field(bits) == fraction,
{
    let sign: u32 = if negative { 0x8000_0000 } else { 0 };
    let bits = sign + exponent * 0x80_0000 + fraction;
    assert(exponent_field(bits) == exponent) by {
        assert(bits as nat / 0x80_0000 == sign as nat / 0x80_0000 + exponent);
    }
    bits
}

/// True when `v` is a positive, finite power of two, subnormals included.
pub fn is_power_of_two(v: Binary32) -> (r: bool)
    ensures
        r == is_power_of_two_bits(v.bits),
{
    let (negative, e, f) = fields(v.bits);
    if negative || e == 0xff {
        return false;
    }
    if e != 0 {
        proof {
            lemma_normal_power_of_two(v.bits);
        }
        f == 0
    } else if f == 0 {
        proof {
            assert forall|k: nat| magnitude(v.bits) != #[trigger] pow2(k) by {
                lemma_pow2_pos(k);
            }
        }
        false
    } else {
        let k = highest_bit(f);
        proof {
            if k > 23 {
                lemma_pow2_strictly_increases(23, k as nat);
            }
            lemma2_to64();
            vstd::bits::lemma_u32_shl_is_mul(1, k);
            lemma_subnormal_power_of_two(v.bits, k as nat);
        }
        f == (1u32 << k)
    }
}

/// The position of the highest set bit.
pub fn highest_bit(x: u32) -> (k: u32)
    requires
        x > 0,
    ensures
        k < 32,
        pow2(k as nat) <= x < pow2(k as nat + 1),
{
    let mut k: u32 = 0;
    let mut y: u32 = x;
    proof {
        lemma2_to64();
    }
    while y > 1
        invariant
            1 <= y,
            k < 32,
            y as nat == x as nat / pow2(k as nat),
            x as nat >= pow2(k as nat),
        decreases y,
    {
        proof {
            lemma_pow2_pos(k as nat);
            lemma_div_denominator(x as int, pow2(k as nat) as int, 2);
            lemma_pow2_unfold(k as nat + 1);
            lemma_fundamental_div_mod(x as int, pow2(k as nat + 1) as int);
            assert(x as nat / pow2(k as nat + 1) == y / 2);
            assert(x as nat / pow2(k as nat + 1) >= 1);
            lemma_pow2_pos(k as nat + 1);
            if (x as nat) < pow2(k as nat + 1) {
                lemma_basic_div(x as int, pow2(k as nat + 1) as int);
            }
            if k >= 31 {
                lemma_pow2_strictly_increases(31, k as nat + 1);
                lemma2_to64();
            }
        }
        y = y / 2;
        k = k + 1;
    }
    proof {
        lemma_pow2_pos(k as nat);
        lemma_fundamental_div_mod(x as int, pow2(k as nat) as int);
        lemma_pow2_unfold(k as nat + 1);
        lemma_remainder_upper(x as int, pow2(k as nat) as int);
    }
    k
}

/// A normal value is a power of two exactly when its fraction is zero.
pub proof fn lemma_normal_power_of_two(bits: u32)
    requires
        exponent_field(bits) != 0,
    ensures
        (exists|k: nat| magnitude(bits) == #[trigger] pow2(k)) <==> fraction_field(bits) == 0,
{
    let e = exponent_field(bits);
    let f = fraction_field(bits);
    let lo = pow2((e - 1) as nat);
    lemma_pow2_adds(23, (e - 1) as nat);
    lemma_pow2_adds(24, (e - 1) as nat);
    if f == 0 {
        assert(magnitude(bits) == pow2((23 + (e - 1)) as nat));
    } else {
        if exists|k: nat| magnitude(bits) == #[trigger] pow2(k) {
            let k = choose|k: nat| magnitude(bits) == #[trigger] pow2(k);
            lemma2_to64();
            lemma_pow2_pos((e - 1) as nat);
            lemma_mul_strict_inequality(pow2(23) as int, (f + pow2(23)) as int, lo as int);
            lemma_mul_strict_inequality((f + pow2(23)) as int, pow2(24) as int, lo as int);
            lemma_mul_is_commutative(pow2(23) as int, lo as int);
            lemma_mul_is_commutative(pow2(24) as int, lo as int);
            lemma_mul_is_commutative((f + pow2(23)) as int, lo as int);
            let a = (23 + (e - 1)) as nat;
            let b = (24 + (e - 1)) as nat;
            if k <= a {
                if k < a {
                    lemma_pow2_strictly_increases(k, a);
                }
            } else if k >= b {
                if k > b {
                    lemma_pow2_strictly_increases(b, k);
                }
            }
        }
    }
}

/// A subnormal fraction is a power of two exactly when it equals its highest bit.
pub proof fn lemma_subnormal_power_of_two(bits: u32, k: nat)
    requires
        exponent_field(bits) == 0,
        pow2(k) <= fraction_field(bits) < pow2(k + 1),
    ensures
        (exists|j: nat| magnitude(bits) == #[trigger] pow2(j)) <==> fraction_field(bits) == pow2(k),
{
    let f = fraction_field(bits);
    if exists|j: nat| magnitude(bits) == #[trigger] pow2(j) {
        let j = choose|j: nat| magnitude(bits) == #[trigger] pow2(j);
        if j < k {
            lemma_pow2_strictly_increases(j, k);
        } else if j > k + 1 || j == k + 1 {
            if j > k + 1 {
                lemma_pow2_strictly_increases(k + 1, j);
            }
        }
    }
    if f == pow2(k) {
        assert(magnitude(bits) == pow2(k));
    }
}

/// The largest power of two that is not larger than `target`.
///
/// It rounds down, never up, so the result is never coarser than asked, and
/// a target that is already a power of two comes back unchanged.
pub fn power_of_two_at_most(target: Binary32) -> (r: Binary32)
    requires
        !sign_set(target.bits),
        is_finite_bits(target.bits),
        target.magnitude() > 0,
    ensures
        is_power_of_two_bits(r.bits),
        r.magnitude() <= target.magnitude() < 2 * r.magnitude(),
        is_power_of_two_bits(target.bits) ==> r == target,
{
    let (_, e, f) = fields(target.bits);
    proof {
        lemma2_to64();
        lemma_bits_from_fields(target.bits);
    }
    if e != 0 {
        let bits = assemble(false, e, 0);
        proof {
            let lo = pow2((e - 1) as nat);
            lemma_pow2_pos((e - 1) as nat);
            lemma_pow2_adds(23, (e - 1) as nat);
            assert(magnitude(bits) == pow2((23 + (e - 1)) as nat));
            lemma_normal_power_of_two(target.bits);
            lemma_mul_inequality(pow2(23) as int, (f + pow2(23)) as int, lo as int);
            lemma_mul_strict_inequality((f + pow2(23)) as int, pow2(24) as int, lo as int);
            lemma_mul_is_associative(2, pow2(23) as int, lo as int);
            lemma_bits_from_fields(bits);
        }
        Binary32 { bits }
    } else {
        let k = highest_bit(f);
        proof {
            if k > 22 {
                lemma_pow2_strictly_increases(23, k as nat);
            }
            vstd::bits::lemma_u32_shl_is_mul(1, k);
            lemma_pow2_unfold(k as nat + 1);
            lemma_subnormal_power_of_two(target.bits, k as nat);
        }
        let bits = assemble(false, 0, 1u32 << k);
        proof {
            assert(magnitude(bits) == pow2(k as nat));
            lemma_bits_from_fields(bits);
        }
        Binary32 { bits }
    }
}

/// A bit pattern is its three fields laid side by side.
pub proof fn lemma_bits_from_fields(bits: u32)
    ensures
        bits == (if sign_set(bits) { 0x8000_0000nat } else { 0nat }) + exponent_field(bits)
            * 0x80_0000 + fraction_field(bits),
{
    assert(bits == (bits & 0x8000_0000) + ((bits >> 23) & 0xff) * 0x80_0000 + (bits & 0x7f_ffff))
        by (bit_vector);
    assert((bits >> 23) & 0xff == (bits / 0x80_0000) % 0x100) by (bit_vector);
    assert(bits & 0x7f_ffff == bits % 0x80_0000) by (bit_vector);
    assert(bits & 0x8000_0000 == (if bits >= 0x8000_0000 { 0x8000_0000u32 } else { 0u32 }))
        by (bit_vector);
}

/// True when `v` is neither an infinity nor a NaN.
pub fn is_finite(v: Binary32) -> (r: bool)
    ensures
        r == v.is_finite(),
{
    let (_, e, _) = fields(v.bits);
    e != 0xff
}

/// A normal magnitude lies in `[2^(e + 22), 2^(e + 23))`.
pub proof fn lemma_normal_magnitude_bounds(bits: u32)
    requires
        exponent_field(bits) != 0,
    ensures
        pow2(exponent_field(bits) + 22) <= magnitude(bits) < pow2(exponent_field(bits) + 23),
{
    let e = exponent_field(bits);
    let f = fraction_field(bits);
    let lo = pow2((e - 1) as nat);
    lemma2_to64();
    lemma_pow2_pos((e - 1) as nat);
    lemma_pow2_adds(23, (e - 1) as nat);
    lemma_pow2_adds(24, (e - 1) as nat);
    lemma_mul_inequality(pow2(23) as int, (f + pow2(23)) as int, lo as int);
    lemma_mul_strict_inequality((f + pow2(23)) as int, pow2(24) as int, lo as int);
    lemma_mul_is_commutative(pow2(23) as int, lo as int);
    lemma_mul_is_commutative(pow2(24) as int, lo as int);
    assert(23 + (e - 1) == e + 22);
    assert(24 + (e - 1) == e + 23);
}

/// Two finite bit patterns with the same magnitude have the same exponent
/// and fraction fields.
pub proof fn lemma_magnitude_injective(a: u32, b: u32)
    requires
        is_finite_bits(a),
        is_finite_bits(b),
        magnitude(a) == magnitude(b),
    ensures
        exponent_field(a) == exponent_field(b),
        fraction_field(a) == fraction_field(b),
{
    let ea = exponent_field(a);
    let eb = exponent_field(b);
    lemma2_to64();
    if ea == 0 && eb != 0 {
        lemma_normal_magnitude_bounds(b);
        lemma_pow2_strictly_increases(23, eb + 22);
    } else if eb == 0 && ea != 0 {
        lemma_normal_magnitude_bounds(a);
        lemma_pow2_strictly_increases(23, ea + 22);
    } else if ea != 0 && eb != 0 {
        lemma_normal_magnitude_bounds(a);
        lemma_normal_magnitude_bounds(b);
        if ea < eb {
            if ea + 23 < eb + 22 {
                lemma_pow2_strictly_increases(ea + 23, eb + 22);
            }
        } else if eb < ea {
            if eb + 23 < ea + 22 {
                lemma_pow2_strictly_increases(eb + 23, ea + 22);
            }
        }
        assert(ea == eb);
        let lo = pow2((ea - 1) as nat);
        lemma_pow2_pos((ea - 1) as nat);
        let fa = fraction_field(a) + pow2(23);
        let fb = fraction_field(b) + pow2(23);
        if fa < fb {
            lemma_mul_strict_inequality(fa as int, fb as int, lo as int);
        } else if fb < fa {
            lemma_mul_strict_inequality(fb as int, fa as int, lo as int);
        }
    }
}

/// A finite value other than negative zero has exactly one bit pattern.
pub proof fn lemma_value_injective(a: u32, b: u32)
    requires
        is_finite_bits(a),
        is_finite_bits(b),
        a != 0x8000_0000,
        b != 0x8000_0000,
        value(a) == value(b),
    ensures
        a == b,
{
    lemma_bits_from_fields(a);
    lemma_bits_from_fields(b);
    if exponent_field(a) != 0 {
        lemma_normal_magnitude_bounds(a);
        lemma_pow2_pos(exponent_field(a) + 22);
    }
    if exponent_field(b) != 0 {
        lemma_normal_magnitude_bounds(b);
        lemma_pow2_pos(exponent_field(b) + 22);
    }
    lemma_magnitude_injective(a, b);
}

/// True when `v` is above zero (and not a NaN).
pub fn is_positive(v: Binary32) -> (r: bool)
    requires
        v.is_finite(),
    ensures
        r == (v.value() > 0),
{
    let (negative, e, f) = fields(v.bits);
    proof {
        if e != 0 {
            lemma_normal_magnitude_bounds(v.bits);
            lemma_pow2_pos(exponent_field(v.bits) + 22);
        }
    }
    !negative && (e != 0 || f != 0)
}

} // verus!
