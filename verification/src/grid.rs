//! The global grid: snapping positions onto multiples of a power-of-two
//! spacing anchored at zero.
use vstd::prelude::*;
use vstd::arithmetic::power2::*;
use vstd::arithmetic::div_mod::*;
use vstd::arithmetic::mul::*;
use crate::binary32::{
    Binary32, exponent_field, fraction_field, magnitude, max_magnitude, is_finite_bits,
    is_normal_power_of_two_bits, lemma_normal_power_of_two, highest_bit, assemble, fields, value,
    is_power_of_two_bits, is_power_of_two, is_finite, lemma_value_injective,
};
use crate::error::{DracoError, argument, argument_owned, argument_error};
use crate::search::{any_fails, first_failing, is_first_failing, lemma_first_failing};
use crate::text::{decimal, push_decimal};

verus! {

/// The multiple of `s` nearest to `x`, a halfway value rounding towards
/// positive infinity: `floor(x / s + 1/2) * s`.
pub open spec fn snapped(x: int, s: nat) -> int {
    ((2 * x + s) / (2 * s as int)) * s
}

pub open spec fn abs(x: int) -> nat {
    if x < 0 {
        (-x) as nat
    } else {
        x as nat
    }
}

/// The magnitude of a normal power of two is 2^(exponent + 22).
pub proof fn lemma_normal_power_magnitude(bits: u32)
    requires
        is_normal_power_of_two_bits(bits),
    ensures
        fraction_field(bits) == 0,
        1 <= exponent_field(bits) <= 254,
        magnitude(bits) == pow2(exponent_field(bits) + 22),
{
    lemma_normal_power_of_two(bits);
    lemma_pow2_adds(23, (exponent_field(bits) - 1) as nat);
}

/// Every finite magnitude is at most `f32::MAX`.
pub proof fn lemma_finite_magnitude_bound(bits: u32)
    requires
        is_finite_bits(bits),
    ensures
        magnitude(bits) <= max_magnitude(),
{
    let e = exponent_field(bits);
    let f = fraction_field(bits);
    lemma2_to64();
    lemma_pow2_pos(253);
    if e == 0 {
        lemma_pow2_strictly_increases(23, 253);
        lemma_mul_inequality(1, (pow2(24) - 1) as int, pow2(253) as int);
    } else {
        let lo = pow2((e - 1) as nat);
        if e < 254 {
            lemma_pow2_strictly_increases((e - 1) as nat, 253);
        }
        lemma_mul_inequality((f + pow2(23)) as int, (pow2(24) - 1) as int, lo as int);
        lemma_mul_inequality(lo as int, pow2(253) as int, (pow2(24) - 1) as int);
        lemma_mul_is_commutative((pow2(24) - 1) as int, lo as int);
        lemma_mul_is_commutative((pow2(24) - 1) as int, pow2(253) as int);
    }
}

/// Snapping divides out exactly: if `2x + S` is `2^a` times a number whose
/// floor quotient by `2^(n+1)` is `k`, the snapped value is `k * S`.
proof fn lemma_snap_quotient(x: int, a: nat, n: nat, num: int, k: int, r: int)
    requires
        2 * x + pow2(a + n) == pow2(a) * num,
        num == k * pow2(n + 1) + r,
        0 <= r < pow2(n + 1),
    ensures
        snapped(x, pow2(a + n)) == k * pow2(a + n),
{
    let pa = pow2(a) as int;
    let d = pow2(n + 1) as int;
    let s = pow2(a + n) as int;
    lemma_pow2_pos(a);
    lemma_pow2_adds(a, n);
    lemma_pow2_unfold(n + 1);
    assert(2 * s == pa * d) by (nonlinear_arith)
        requires
            s == pa * pow2(n),
            d == 2 * pow2(n),
    ;
    assert(pa * num == k * (pa * d) + pa * r) by {
        lemma_mul_is_distributive_add(pa, k * d, r);
        lemma_mul_is_associative(pa, k, d);
        lemma_mul_is_commutative(pa, k);
        lemma_mul_is_associative(k, pa, d);
    }
    assert(0 <= pa * r < pa * d) by {
        lemma_mul_nonnegative(pa, r);
        lemma_mul_strict_inequality(r, d, pa);
        lemma_mul_is_commutative(r, pa);
        lemma_mul_is_commutative(d, pa);
    }
    lemma_fundamental_div_mod_converse_div(2 * x + s, 2 * s, k, pa * r);
}

/// Encodes `±kmag * 2^(es + 22)` as a binary32, or reports that it is too
/// large to be finite.
fn encode_multiple(kmag: u64, negative: bool, es: u32) -> (r: Option<Binary32>)
    requires
        1 <= es <= 254,
        kmag <= 0x80_0000,
    ensures
        r matches Some(w) ==> {
            &&& is_finite_bits(w.bits)
            &&& w.bits != 0x8000_0000
            &&& w.value() == (if negative { -(kmag * pow2(es as nat + 22)) } else { kmag
                * pow2(es as nat + 22) })
        },
        r is None ==> kmag * pow2(es as nat + 22) > max_magnitude(),
{
    proof {
        lemma2_to64();
    }
    if kmag == 0 {
        proof {
            assert(exponent_field(0) == 0 && fraction_field(0) == 0);
        }
        return Some(Binary32 { bits: 0 });
    }
    let k32 = kmag as u32;
    let p = highest_bit(k32);
    proof {
        if p > 23 {
            lemma_pow2_strictly_increases(24, p as nat);
        }
    }
    let exponent = es + p;
    if exponent > 254 {
        proof {
            // kmag * 2^(es+22) >= 2^(p + es + 22) >= 2^277 > f32::MAX
            lemma_pow2_pos(es as nat + 22);
            lemma_mul_inequality(pow2(p as nat) as int, kmag as int, pow2(es as nat + 22) as int);
            lemma_pow2_adds(p as nat, es as nat + 22);
            if exponent > 255 {
                lemma_pow2_strictly_increases(277, (p + es + 22) as nat);
            }
            lemma_pow2_adds(24, 253);
            lemma_pow2_pos(253);
        }
        return None;
    }
    proof {
        vstd::bits::lemma_u32_shl_is_mul(1, p);
    }
    let rest = k32 - (1u32 << p);
    proof {
        lemma_pow2_adds(p as nat, (23 - p) as nat);
        lemma_pow2_pos((23 - p) as nat);
        lemma_mul_strict_inequality(rest as int, pow2(p as nat) as int, pow2((23 - p) as nat) as int);
        vstd::bits::lemma_u32_pow2_no_overflow((23 - p) as nat);
        vstd::bits::lemma_u32_shl_is_mul(rest, (23 - p) as u32);
    }
    let fraction = rest << (23 - p);
    let bits = assemble(negative, exponent, fraction);
    proof {
        let lo = pow2((exponent - 1) as nat);
        let sh = pow2((23 - p) as nat);
        // (rest * 2^(23-p) + 2^23) * 2^(es+p-1) == kmag * 2^(es+22)
        assert(fraction + pow2(23) == kmag * sh) by (nonlinear_arith)
            requires
                fraction == rest * sh,
                pow2(23) == pow2(p as nat) * sh,
                kmag == rest + pow2(p as nat),
        ;
        lemma_mul_is_associative(kmag as int, sh as int, lo as int);
        lemma_pow2_adds((23 - p) as nat, (exponent - 1) as nat);
        assert((23 - p) + (exponent - 1) == es + 22);
        assert(magnitude(bits) == kmag * pow2(es as nat + 22));
    }
    Some(Binary32 { bits })
}

/// Snapping a multiple of `s` leaves it where it is.
pub proof fn lemma_snap_of_multiple(j: int, s: nat)
    requires
        s > 0,
    ensures
        snapped(j * s, s) == j * s,
{
    assert(2 * (j * s) + s == j * (2 * s) + s) by (nonlinear_arith);
    lemma_fundamental_div_mod_converse_div(2 * (j * s) + s, 2 * s as int, j, s as int);
}

/// Rounds one value onto the grid of `spacing`, exactly as
/// `floor(v / spacing + 1/2) * spacing` in exact arithmetic.
///
/// `None` when `v` is not finite, or when the grid point is beyond the
/// largest finite binary32. A zero result is always positive zero.
pub fn snap_value(v: Binary32, spacing: Binary32) -> (r: Option<Binary32>)
    requires
        is_normal_power_of_two_bits(spacing.bits),
    ensures
        r is Some <==> (v.is_finite() && abs(snapped(v.value(), spacing.magnitude()))
            <= max_magnitude()),
        r matches Some(w) ==> {
            &&& w.is_finite()
            &&& w.bits != 0x8000_0000
            &&& w.value() == snapped(v.value(), spacing.magnitude())
        },
{
    let (negative, ev, fv) = fields(v.bits);
    if ev == 0xff {
        return None;
    }
    let (_, es, _) = fields(spacing.bits);
    proof {
        lemma_normal_power_magnitude(spacing.bits);
        lemma2_to64();
    }
    let ghost x = value(v.bits);
    let ghost s = pow2(es as nat + 22);
    let m: u64;
    let a: u32;
    if ev == 0 {
        m = fv as u64;
        a = 0;
    } else {
        m = fv as u64 + 0x80_0000;
        a = ev - 1;
    }
    assert(magnitude(v.bits) == m * pow2(a as nat)) by {
        if ev == 0 {
            assert(m * pow2(0) == m);
        } else {
            assert(m == fraction_field(v.bits) + pow2(23));
        }
    }
    assert(m < 0x100_0000);
    if m == 0 {
        proof {
            lemma_pow2_pos(es as nat + 22);
            lemma_snap_of_multiple(0, s);
        }
        return Some(Binary32 { bits: 0 });
    }
    let t: u32 = es + 22;
    if a >= t {
        proof {
            let pj = pow2((a - t) as nat);
            lemma_pow2_adds((a - t) as nat, t as nat);
            lemma_pow2_pos(t as nat);
            lemma_mul_is_associative(m as int, pj as int, s as int);
            if negative {
                lemma_snap_of_multiple(-(m * pj), s);
                assert(x == (-(m * pj)) * s) by (nonlinear_arith)
                    requires
                        x == -(m * (pj * s)),
                ;
            } else {
                lemma_snap_of_multiple(m * pj, s);
            }
            lemma_finite_magnitude_bound(v.bits);
            lemma_pow2_pos(a as nat);
            lemma_mul_strictly_positive(m as int, pow2(a as nat) as int);
        }
        return Some(v);
    }
    let n: u32 = t - a;
    let kmag: u64;
    let ghost k: int;
    if n >= 26 {
        proof {
            let pn = pow2(n as nat);
            let pa = pow2(a as nat);
            lemma_pow2_strictly_increases(25, n as nat);
            lemma_pow2_unfold(n as nat + 1);
            lemma_pow2_adds(a as nat, n as nat);
            if negative {
                assert(2 * x + pow2((a + n) as nat) == pa * (pn - 2 * m)) by (nonlinear_arith)
                    requires
                        x == -(m * pa),
                        pow2((a + n) as nat) == pa * pn,
                ;
                lemma_snap_quotient(x, a as nat, n as nat, pn - 2 * m, 0, pn - 2 * m);
            } else {
                assert(2 * x + pow2((a + n) as nat) == pa * (pn + 2 * m)) by (nonlinear_arith)
                    requires
                        x == m * pa,
                        pow2((a + n) as nat) == pa * pn,
                ;
                lemma_snap_quotient(x, a as nat, n as nat, pn + 2 * m, 0, pn + 2 * m);
            }
        }
        kmag = 0;
        proof {
            k = 0;
        }
    } else {
        proof {
            vstd::bits::lemma_u64_pow2_no_overflow(n as nat);
            vstd::bits::lemma_u64_pow2_no_overflow(n as nat + 1);
            vstd::bits::lemma_u64_shl_is_mul(1, n as u64);
            vstd::bits::lemma_u64_shl_is_mul(1, (n + 1) as u64);
            lemma_pow2_strictly_increases(n as nat, 26);
            lemma_pow2_unfold(n as nat + 1);
            lemma_pow2_adds(a as nat, n as nat);
            if n >= 2 {
                lemma_pow2_strictly_increases(1, n as nat);
            }
        }
        let p: u64 = 1u64 << (n as u64);
        let d: u64 = 1u64 << ((n + 1) as u64);
        let two: u64 = 2 * m;
        let ghost pa = pow2(a as nat);
        assert(p >= 2 && d == 2 * p);
        if !negative {
            let num = two + p;
            kmag = num / d;
            let rem = num % d;
            proof {
                k = kmag as int;
                assert(2 * x + pow2((a + n) as nat) == pa * num) by (nonlinear_arith)
                    requires
                        x == m * pa,
                        pow2((a + n) as nat) == pa * p,
                        num == 2 * m + p,
                ;
                lemma_fundamental_div_mod(num as int, d as int);
                lemma_mul_is_commutative(d as int, kmag as int);
                lemma_snap_quotient(x, a as nat, n as nat, num as int, k, rem as int);
                assert(kmag <= 0x80_0000) by (nonlinear_arith)
                    requires
                        kmag * d <= num,
                        num < 0x200_0000 + p,
                        d == 2 * p,
                        p >= 2,
                ;
            }
        } else if two <= p {
            let num = p - two;
            kmag = 0;
            proof {
                k = 0;
                assert(2 * x + pow2((a + n) as nat) == pa * num) by (nonlinear_arith)
                    requires
                        x == -(m * pa),
                        pow2((a + n) as nat) == pa * p,
                        num == p - 2 * m,
                ;
                lemma_snap_quotient(x, a as nat, n as nat, num as int, 0, num as int);
            }
        } else {
            let y = two - p;
            let q = y / d;
            let rem = y % d;
            proof {
                lemma_fundamental_div_mod(y as int, d as int);
                lemma_mul_is_commutative(d as int, q as int);
                assert(q <= 0x7f_ffff) by (nonlinear_arith)
                    requires
                        q * d <= y,
                        y < 0x200_0000,
                        d >= 4,
                ;
            }
            if rem == 0 {
                kmag = q;
                proof {
                    k = -(q as int);
                    assert(2 * x + pow2((a + n) as nat) == pa * (k * d)) by (nonlinear_arith)
                        requires
                            x == -(m * pa),
                            pow2((a + n) as nat) == pa * p,
                            y == 2 * m - p,
                            y == q * d,
                            k == -q,
                    ;
                    lemma_snap_quotient(x, a as nat, n as nat, k * d, k, 0);
                }
            } else {
                kmag = q + 1;
                proof {
                    k = -(q as int) - 1;
                    let num = k * d + (d - rem);
                    assert(2 * x + pow2((a + n) as nat) == pa * num) by (nonlinear_arith)
                        requires
                            x == -(m * pa),
                            pow2((a + n) as nat) == pa * p,
                            y == 2 * m - p,
                            y == q * d + rem,
                            k == -q - 1,
                            num == k * d + (d - rem),
                    ;
                    lemma_snap_quotient(x, a as nat, n as nat, num, k, d - rem);
                }
            }
        }
    }
    proof {
        assert(k == (if negative { -(kmag as int) } else { kmag as int }));
        assert((a + n) as nat == es as nat + 22);
        assert(snapped(x, s) == k * s);
        if negative {
            lemma_mul_unary_negation(kmag as int, s as int);
        }
        lemma_pow2_pos(es as nat + 22);
        lemma_mul_nonnegative(kmag as int, s as int);
    }
    let r = encode_multiple(kmag, negative, es);
    proof {
        if let Some(w) = r {
            lemma_finite_magnitude_bound(w.bits);
        }
    }
    r
}

/// How to quantize positions.
#[derive(Debug, Clone, Copy, PartialEq, Eq, Structural)]
pub enum Quantization {
    /// Snap to a grid of this spacing in metres, anchored at zero. Draco picks
    /// the bit count. It is the only mode that keeps two tiles on one lattice.
    Grid { spacing: Binary32 },
    /// Fit the mesh's own bounding box into this many bits. Every mesh gets a
    /// different lattice, so every shared vertex moves.
    Bits { bits: i32 },
}

/// Why a spacing cannot carry the native grid, if it cannot. `explain`
/// selects the long message of `Quantization::grid`, which says why a
/// spacing that is not a power of two breaks the seam; snapping and encoding
/// give the short one.
pub open spec fn spacing_refusal(spacing: Binary32, explain: bool) -> Option<Seq<char>> {
    if !is_power_of_two_bits(spacing.bits) {
        if explain {
            Some(
                "grid spacing is not a power of two; a spacing that is not exactly representable puts neighbouring tiles on different lattices"@,
            )
        } else {
            Some("grid spacing is not a power of two"@)
        }
    } else if exponent_field(spacing.bits) == 0 {
        Some("grid spacing is a subnormal power of two; the native grid needs a normal spacing"@)
    } else {
        None
    }
}

/// Checks a spacing for the native grid.
pub fn check_spacing(spacing: Binary32, explain: bool) -> (r: Result<(), DracoError>)
    ensures
        r is Ok <==> spacing_refusal(spacing, explain) is None,
        spacing_refusal(spacing, explain) is None <==> is_normal_power_of_two_bits(spacing.bits),
        r matches Err(e) ==> argument_error(e, spacing_refusal(spacing, explain)->Some_0),
{
    if !is_power_of_two(spacing) {
        if explain {
            return Err(
                argument(
                    "grid spacing is not a power of two; a spacing that is not exactly representable puts neighbouring tiles on different lattices",
                ),
            );
        } else {
            return Err(argument("grid spacing is not a power of two"));
        }
    }
    let (_, e, _) = fields(spacing.bits);
    if e == 0 {
        return Err(
            argument(
                "grid spacing is a subnormal power of two; the native grid needs a normal spacing",
            ),
        );
    }
    Ok(())
}

impl Quantization {
    /// A grid whose spacing is a normal power of two, which is the only kind
    /// that decodes exactly.
    ///
    /// Draco decodes a position as `origin + index * step`. When the spacing
    /// is a power of two, and the origin is a multiple of it, both the
    /// product and the sum are exact and two tiles must agree.
    pub fn grid(spacing: Binary32) -> (r: Result<Quantization, DracoError>)
        ensures
            r is Ok <==> is_normal_power_of_two_bits(spacing.bits),
            r matches Ok(q) ==> q == (Quantization::Grid { spacing }),
            r matches Err(e) ==> argument_error(e, spacing_refusal(spacing, true)->Some_0),
    {
        match check_spacing(spacing, true) {
            Ok(()) => Ok(Quantization::Grid { spacing }),
            Err(e) => Err(e),
        }
    }
}

/// `v` is finite and its grid point is a finite binary32.
pub open spec fn snappable(v: Binary32, spacing: Binary32) -> bool {
    v.is_finite() && abs(snapped(v.value(), spacing.magnitude())) <= max_magnitude()
}

/// Why the value at `index` cannot be snapped.
pub open spec fn unsnappable_message(index: nat, v: Binary32) -> Seq<char> {
    if !v.is_finite() {
        "position "@ + decimal(index) + " is not finite"@
    } else {
        "position "@ + decimal(index) + " lands beyond the largest finite value when snapped"@
    }
}

/// Why `snap_positions` refuses, if it does: the spacing first, then the
/// first position that cannot be snapped.
pub open spec fn snap_refusal(values: Seq<Binary32>, spacing: Binary32) -> Option<Seq<char>> {
    let ok = |v: Binary32| snappable(v, spacing);
    if spacing_refusal(spacing, false) is Some {
        spacing_refusal(spacing, false)
    } else if any_fails(values, ok) {
        let i = first_failing(values, ok);
        Some(unsnappable_message(i as nat, values[i]))
    } else {
        None
    }
}

/// `w` is where snapping puts `v`: the grid point, finite, and never
/// negative zero.
pub open spec fn snaps_to(v: Binary32, spacing: Binary32, w: Binary32) -> bool {
    &&& w.is_finite()
    &&& w.bits != 0x8000_0000
    &&& w.value() == snapped(v.value(), spacing.magnitude())
}

/// Rounds every position onto the global grid of `spacing`.
///
/// Draco quantizes as `floor((v - origin) / step + 0.5)`. That subtraction
/// rounds, and two neighbouring tiles have different origins, so a vertex
/// halfway between two grid points can round up in one tile and down in the
/// other. Pre-snapping makes the subtraction exact and removes the case.
///
/// The whole result is checked before anything is written: on a refusal the
/// slice is left as it was.
pub fn snap_positions(positions: &mut [Binary32], spacing: Binary32) -> (r: Result<(), DracoError>)
    ensures
        r is Ok <==> snap_refusal(old(positions)@, spacing) is None,
        r matches Err(e) ==> argument_error(e, snap_refusal(old(positions)@, spacing)->Some_0),
        r is Err ==> final(positions)@ == old(positions)@,
        r is Ok ==> final(positions)@.len() == old(positions)@.len(),
        r is Ok ==> forall|i: int|
            0 <= i < old(positions)@.len() ==> snaps_to(
                old(positions)@[i],
                spacing,
                #[trigger] final(positions)@[i],
            ),
        is_normal_power_of_two_bits(spacing.bits) && (forall|i: int|
            0 <= i < old(positions)@.len() ==> snappable(#[trigger] old(positions)@[i], spacing))
            ==> r is Ok,
{
    proof {
        lemma_snap_accepts_every_snappable_slice(old(positions)@, spacing);
    }
    match check_spacing(spacing, false) {
        Ok(()) => {},
        Err(e) => {
            return Err(e);
        },
    }
    let ghost ok = |v: Binary32| snappable(v, spacing);
    let ghost before = positions@;
    let len = positions.len();
    let mut out: Vec<Binary32> = Vec::new();
    let mut i: usize = 0;
    while i < len
        invariant
            is_normal_power_of_two_bits(spacing.bits),
            ok == (|v: Binary32| snappable(v, spacing)),
            positions@ == before,
            len == before.len(),
            i <= len,
            out@.len() == i,
            forall|j: int| 0 <= j < i ==> ok(#[trigger] before[j]),
            forall|j: int| 0 <= j < i ==> snaps_to(before[j], spacing, #[trigger] out@[j]),
        decreases len - i,
    {
        match snap_value(positions[i], spacing) {
            Some(w) => {
                out.push(w);
            },
            None => {
                proof {
                    assert(!ok(before[i as int]));
                    assert(is_first_failing(before, ok, i as int));
                    lemma_first_failing(before, ok, i as int);
                }
                let mut message = String::from_str("position ");
                push_decimal(&mut message, i as u64);
                if !is_finite(positions[i]) {
                    message.append(" is not finite");
                } else {
                    message.append(" lands beyond the largest finite value when snapped");
                }
                return Err(argument_owned(message));
            },
        }
        i = i + 1;
    }
    proof {
        assert(!any_fails(before, ok));
    }
    let mut j: usize = 0;
    while j < len
        invariant
            len == before.len(),
            out@.len() == len,
            j <= len,
            positions@.len() == len,
            forall|k: int| 0 <= k < j ==> positions@[k] == out@[k],
            forall|k: int| j <= k < len ==> positions@[k] == before[k],
            forall|k: int| 0 <= k < len ==> snaps_to(before[k], spacing, #[trigger] out@[k]),
        decreases len - j,
    {
        positions[j] = out[j];
        j = j + 1;
    }
    proof {
        assert forall|k: int| 0 <= k < len implies snaps_to(
            before[k],
            spacing,
            #[trigger] positions@[k],
        ) by {
            assert(positions@[k] == out@[k]);
        }
    }
    Ok(())
}

/// The snapped value is a whole multiple of the spacing.
pub proof fn lemma_snapped_on_grid(x: int, s: nat)
    requires
        s > 0,
    ensures
        snapped(x, s) % (s as int) == 0,
{
    lemma_mod_multiples_basic((2 * x + s) / (2 * s as int), s as int);
}

/// The snapped value is the nearest multiple of the spacing: it moves a value
/// by at most half a step, and a value exactly halfway moves up.
pub proof fn lemma_snapped_nearest(x: int, s: nat)
    requires
        s > 0,
    ensures
        -(s as int) < 2 * (snapped(x, s) - x) <= s,
{
    let d = 2 * s as int;
    let q = (2 * x + s) / d;
    let r = (2 * x + s) % d;
    lemma_fundamental_div_mod(2 * x + s, d);
    lemma_mod_division_less_than_divisor(2 * x + s, d);
    assert(2 * (q * s) == q * d) by (nonlinear_arith)
        requires
            d == 2 * s,
    ;
}

/// Snapping a snapped value changes nothing.
pub proof fn lemma_snapped_idempotent(x: int, s: nat)
    requires
        s > 0,
    ensures
        snapped(snapped(x, s), s) == snapped(x, s),
{
    lemma_snap_of_multiple((2 * x + s) / (2 * s as int), s);
}

/// Snapping the output of snapping gives back the same bit pattern: the grid
/// point is snappable and snaps to itself, and nothing else.
pub proof fn lemma_snapping_is_idempotent(v: Binary32, spacing: Binary32, w: Binary32, w2: Binary32)
    requires
        is_normal_power_of_two_bits(spacing.bits),
        snaps_to(v, spacing, w),
        snaps_to(w, spacing, w2),
    ensures
        snappable(w, spacing),
        w2 == w,
{
    lemma_normal_power_magnitude(spacing.bits);
    lemma_pow2_pos(exponent_field(spacing.bits) + 22);
    lemma_snapped_idempotent(v.value(), spacing.magnitude());
    lemma_finite_magnitude_bound(w.bits);
    lemma_value_injective(w.bits, w2.bits);
}

/// A value already on the grid is left where it is.
pub proof fn lemma_aligned_value_stays(v: Binary32, spacing: Binary32, w: Binary32)
    requires
        is_normal_power_of_two_bits(spacing.bits),
        v.is_finite(),
        v.bits != 0x8000_0000,
        v.value() % (spacing.magnitude() as int) == 0,
        snaps_to(v, spacing, w),
    ensures
        w == v,
{
    lemma_normal_power_magnitude(spacing.bits);
    let s = spacing.magnitude();
    lemma_pow2_pos(exponent_field(spacing.bits) + 22);
    lemma_fundamental_div_mod(v.value(), s as int);
    lemma_mul_is_commutative(s as int, v.value() / (s as int));
    lemma_snap_of_multiple(v.value() / (s as int), s);
    lemma_value_injective(v.bits, w.bits);
}

/// `floor(x / s)`.
pub open spec fn floor_div(x: int, s: nat) -> int {
    x / (s as int)
}

/// `ceil(x / s)`.
pub open spec fn ceil_div(x: int, s: nat) -> int {
    -((-x) / (s as int))
}

pub open spec fn fits_i32(i: int) -> bool {
    i32::MIN <= i <= i32::MAX
}

/// Floor and ceiling of a quotient whose integer part and remainder are known.
proof fn lemma_floor_ceil(x: int, s: int, q: int, rem: int, negative: bool)
    requires
        s > 0,
        0 <= rem < s,
        x == (if negative { -(q * s + rem) } else { q * s + rem }),
    ensures
        floor_div(x, s as nat) == (if negative { if rem == 0 { -q } else { -q - 1 } } else { q }),
        ceil_div(x, s as nat) == (if negative { -q } else { if rem == 0 { q } else { q + 1 } }),
{
    if negative {
        lemma_fundamental_div_mod_converse_div(-x, s, q, rem);
        if rem == 0 {
            assert(x == (-q) * s) by (nonlinear_arith)
                requires
                    x == -(q * s + rem),
                    rem == 0,
            ;
            lemma_fundamental_div_mod_converse_div(x, s, -q, 0);
        } else {
            assert(x == (-q - 1) * s + (s - rem)) by (nonlinear_arith)
                requires
                    x == -(q * s + rem),
            ;
            lemma_fundamental_div_mod_converse_div(x, s, -q - 1, s - rem);
        }
    } else {
        lemma_fundamental_div_mod_converse_div(x, s, q, rem);
        if rem == 0 {
            assert(-x == (-q) * s) by (nonlinear_arith)
                requires
                    x == q * s + rem,
                    rem == 0,
            ;
            lemma_fundamental_div_mod_converse_div(-x, s, -q, 0);
        } else {
            assert(-x == (-q - 1) * s + (s - rem)) by (nonlinear_arith)
                requires
                    x == q * s + rem,
            ;
            lemma_fundamental_div_mod_converse_div(-x, s, -q - 1, s - rem);
        }
    }
}

/// The grid indices `floor(v / spacing)` and `ceil(v / spacing)` of a finite
/// value, when both fit a signed 32-bit integer.
pub fn grid_index_bounds(v: Binary32, spacing: Binary32) -> (r: Option<(i64, i64)>)
    requires
        v.is_finite(),
        is_normal_power_of_two_bits(spacing.bits),
    ensures
        r is Some <==> (fits_i32(floor_div(v.value(), spacing.magnitude())) && fits_i32(
            ceil_div(v.value(), spacing.magnitude()),
        )),
        r matches Some(b) ==> b.0 == floor_div(v.value(), spacing.magnitude()) && b.1 == ceil_div(
            v.value(),
            spacing.magnitude(),
        ),
{
    let (negative, ev, fv) = fields(v.bits);
    let (_, es, _) = fields(spacing.bits);
    proof {
        lemma_normal_power_magnitude(spacing.bits);
        lemma2_to64();
    }
    let ghost x = value(v.bits);
    let ghost s = pow2(es as nat + 22);
    let m: u64;
    let a: u32;
    if ev == 0 {
        m = fv as u64;
        a = 0;
    } else {
        m = fv as u64 + 0x80_0000;
        a = ev - 1;
    }
    assert(magnitude(v.bits) == m * pow2(a as nat)) by {
        if ev == 0 {
            assert(m * pow2(0) == m);
        } else {
            assert(m == fraction_field(v.bits) + pow2(23));
        }
    }
    let t: u32 = es + 22;
    proof {
        lemma_pow2_pos(t as nat);
        lemma_pow2_pos(a as nat);
    }
    if m == 0 {
        proof {
            lemma_floor_ceil(x, s as int, 0, 0, false);
        }
        return Some((0, 0));
    }
    if a >= t {
        let diff = a - t;
        proof {
            lemma_pow2_adds(diff as nat, t as nat);
            lemma_mul_is_associative(m as int, pow2(diff as nat) as int, s as int);
        }
        if diff >= 9 {
            proof {
                lemma_pow2_strictly_increases(8, diff as nat);
                lemma_mul_inequality(0x80_0000, m as int, pow2(diff as nat) as int);
                lemma_mul_strict_inequality(pow2(8) as int, pow2(diff as nat) as int, 0x80_0000);
                let q = m * pow2(diff as nat);
                lemma_floor_ceil(x, s as int, q as int, 0, negative);
            }
            return None;
        }
        proof {
            vstd::bits::lemma_u64_pow2_no_overflow(diff as nat);
            lemma_pow2_strictly_increases(diff as nat, 9);
            lemma_mul_strict_inequality(m as int, 0x100_0000, pow2(diff as nat) as int);
            lemma_mul_inequality(pow2(diff as nat) as int, pow2(9) as int, 0x100_0000);
            vstd::bits::lemma_u64_shl_is_mul(m, diff as u64);
        }
        let q: u64 = m << (diff as u64);
        proof {
            lemma_floor_ceil(x, s as int, q as int, 0, negative);
        }
        if negative {
            if q > 0x8000_0000 {
                return None;
            }
            return Some((-(q as i64), -(q as i64)));
        } else {
            if q > 0x7fff_ffff {
                return None;
            }
            return Some((q as i64, q as i64));
        }
    }
    let n: u32 = t - a;
    proof {
        lemma_pow2_adds(a as nat, n as nat);
    }
    if n >= 25 {
        proof {
            lemma_pow2_strictly_increases(24, n as nat);
            let rem = m * pow2(a as nat);
            lemma_mul_strict_inequality(m as int, pow2(n as nat) as int, pow2(a as nat) as int);
            lemma_mul_is_commutative(pow2(n as nat) as int, pow2(a as nat) as int);
            lemma_mul_strictly_positive(m as int, pow2(a as nat) as int);
            assert(x == (if negative { -(0 * s + rem) } else { 0 * s + rem }));
            lemma_floor_ceil(x, s as int, 0, rem as int, negative);
        }
        if negative {
            return Some((-1, 0));
        } else {
            return Some((0, 1));
        }
    }
    proof {
        vstd::bits::lemma_u64_pow2_no_overflow(n as nat);
        vstd::bits::lemma_u64_shl_is_mul(1, n as u64);
    }
    let p: u64 = 1u64 << (n as u64);
    let q = m / p;
    let rem = m % p;
    proof {
        let pa = pow2(a as nat);
        lemma_fundamental_div_mod(m as int, p as int);
        assert(m * pa == q * s + rem * pa) by (nonlinear_arith)
            requires
                m == p * q + rem,
                s == pa * p,
        ;
        lemma_mul_strict_inequality(rem as int, p as int, pa as int);
        lemma_mul_is_commutative(p as int, pa as int);
        lemma_mul_nonnegative(rem as int, pa as int);
        lemma_floor_ceil(x, s as int, q as int, (rem * pa) as int, negative);
        lemma_div_is_ordered(m as int, 0x100_0000, p as int);
        lemma_mul_strictly_positive(rem as int, pa as int);
        assert((rem * pa == 0) == (rem == 0)) by (nonlinear_arith)
            requires
                pa > 0,
        ;
        assert(floor_div(x, s) == (if negative { if rem == 0 { -(q as int) } else { -(q as int) - 1 } } else { q as int }));
    }
    let up: u64 = if rem != 0 { q + 1 } else { q };
    if negative {
        Some((-(up as i64), -(q as i64)))
    } else {
        Some((q as i64, up as i64))
    }
}

/// Component `a` of vertex `w` in a tightly packed attribute of `c` components.
pub open spec fn coordinate(values: Seq<Binary32>, c: nat, w: int, a: int) -> Binary32 {
    values[w * c + a]
}

/// `ceil(coordinate(w1, a) / s) - floor(coordinate(w2, a) / s)`: how many grid
/// steps separate the two vertices on axis `a`, counted outwards.
pub open spec fn grid_span(values: Seq<Binary32>, c: nat, s: nat, w1: int, w2: int, a: int) -> int {
    ceil_div(coordinate(values, c, w1, a).value(), s) - floor_div(
        coordinate(values, c, w2, a).value(),
        s,
    )
}

/// Every coordinate's grid index fits a signed 32-bit integer.
pub open spec fn grid_indices_fit(values: Seq<Binary32>, c: nat, nv: nat, s: nat) -> bool {
    forall|w: int, a: int|
        0 <= w < nv && 0 <= a < c ==> fits_i32(
            floor_div(#[trigger] coordinate(values, c, w, a).value(), s),
        ) && fits_i32(ceil_div(coordinate(values, c, w, a).value(), s))
}

/// On every axis the grid points between the lowest and the highest vertex,
/// both ends included, number at most 2^30.
pub open spec fn grid_spans_fit(values: Seq<Binary32>, c: nat, nv: nat, s: nat) -> bool {
    forall|w1: int, w2: int, a: int|
        0 <= w1 < nv && 0 <= w2 < nv && 0 <= a < c ==> #[trigger] grid_span(values, c, s, w1, w2, a)
            + 1 <= pow2(30)
}

/// The binary32 overflow threshold, `f32::MAX` plus half an ulp, in units of
/// 2^-149: a product at or above it rounds to infinity.
pub open spec fn overflow_threshold() -> int {
    pow2(277) - pow2(252)
}

/// On every axis the grid range, the span times the spacing, is a finite
/// binary32.
pub open spec fn grid_ranges_finite(values: Seq<Binary32>, c: nat, nv: nat, s: nat) -> bool {
    forall|w1: int, w2: int, a: int|
        0 <= w1 < nv && 0 <= w2 < nv && 0 <= a < c ==> #[trigger] grid_span(values, c, s, w1, w2, a)
            * s < overflow_threshold()
}

/// Why the native grid cannot hold these positions, if it cannot.
pub open spec fn grid_domain_refusal(values: Seq<Binary32>, c: nat, nv: nat, spacing: Binary32) -> Option<
    Seq<char>,
> {
    let s = spacing.magnitude();
    if !grid_indices_fit(values, c, nv, s) {
        Some(
            "a position is too far from zero for the grid: its grid index does not fit a signed 32-bit integer"@,
        )
    } else if !grid_spans_fit(values, c, nv, s) {
        Some("the positions span more than 2^30 grid points on one axis"@)
    } else if !grid_ranges_finite(values, c, nv, s) {
        Some("the grid range of the positions is not finite"@)
    } else {
        None
    }
}

/// `d` grid steps of a normal power-of-two spacing with exponent field `es`
/// make a finite binary32.
fn range_is_finite(d: i64, es: u32) -> (r: bool)
    requires
        0 <= d < 0x4000_0000,
        1 <= es <= 254,
    ensures
        r == (d * pow2(es as nat + 22) < overflow_threshold()),
{
    let k: u32 = 255 - es;
    let ghost s = pow2(es as nat + 22);
    proof {
        lemma2_to64();
        lemma_pow2_pos(es as nat + 22);
        lemma_pow2_adds((277 - k) as nat, k as nat);
        assert(es as nat + 22 == (277 - k) as nat);
    }
    if k >= 31 {
        proof {
            lemma_pow2_adds(30, es as nat + 22);
            lemma_mul_strict_inequality(d as int, pow2(30) as int, s as int);
            lemma_mul_is_commutative(d as int, s as int);
            if es as nat + 52 < 276 {
                lemma_pow2_strictly_increases(es as nat + 52, 276);
            }
            lemma_pow2_unfold(277);
            lemma_pow2_strictly_increases(252, 276);
        }
        return true;
    }
    proof {
        vstd::bits::lemma_u64_pow2_no_overflow(k as nat);
        vstd::bits::lemma_u64_shl_is_mul(1, k as u64);
    }
    if k >= 25 {
        proof {
            vstd::bits::lemma_u64_pow2_no_overflow((k - 25) as nat);
            vstd::bits::lemma_u64_shl_is_mul(1, (k - 25) as u64);
            lemma_pow2_adds((277 - k) as nat, (k - 25) as nat);
            lemma_pow2_strictly_increases((k - 25) as nat, k as nat);
            let x = pow2(k as nat) - pow2((k - 25) as nat);
            assert(overflow_threshold() == s * x) by (nonlinear_arith)
                requires
                    pow2(277) == s * pow2(k as nat),
                    pow2(252) == s * pow2((k - 25) as nat),
                    x == pow2(k as nat) - pow2((k - 25) as nat),
            ;
            if d < x {
                lemma_mul_strict_inequality(d as int, x, s as int);
            } else {
                lemma_mul_inequality(x, d as int, s as int);
            }
            lemma_mul_is_commutative(d as int, s as int);
            lemma_mul_is_commutative(x, s as int);
        }
        let bound: u64 = (1u64 << (k as u64)) - (1u64 << ((k - 25) as u64));
        (d as u64) < bound
    } else {
        proof {
            let pk = pow2(k as nat);
            lemma_pow2_strictly_increases(252, (277 - k) as nat);
            if d < pk {
                lemma_mul_inequality(d as int, pk - 1, s as int);
                assert((pk - 1) * s == pk * s - s) by (nonlinear_arith);
            } else {
                lemma_mul_inequality(pk as int, d as int, s as int);
            }
            lemma_mul_is_commutative(s as int, pk as int);
        }
        (d as u64) < (1u64 << (k as u64))
    }
}

/// The ceiling of a quotient is not below its floor.
proof fn lemma_ceil_at_least_floor(x: int, s: nat)
    requires
        s > 0,
    ensures
        floor_div(x, s) <= ceil_div(x, s),
{
    let q = x / (s as int);
    lemma_fundamental_div_mod(x, s as int);
    lemma_mod_division_less_than_divisor(x, s as int);
    lemma_mul_is_commutative(s as int, q);
    assert(-x <= (-q) * (s as int)) by (nonlinear_arith)
        requires
            x == q * s + x % (s as int),
            x % (s as int) >= 0,
    ;
    lemma_div_is_ordered(-x, (-q) * (s as int), s as int);
    lemma_fundamental_div_mod_converse_div((-q) * (s as int), s as int, -q, 0);
}

/// Checks that the native grid can hold every position: each grid index fits
/// a signed 32-bit integer, each axis spans at most 2^30 grid points, and each
/// axis's range is a finite binary32.
///
/// The grid indices are the exact `floor(v / spacing)` and
/// `ceil(v / spacing)`. The native encoder divides in binary32, which is exact
/// for a power-of-two spacing unless the quotient underflows below the
/// smallest normal value; there a tiny coordinate can get an index one
/// further from zero here than in the native code. The check therefore
/// refuses everything the binary32-rounded bounds would refuse, and in that
/// corner may refuse slightly more.
pub fn check_grid_domain(values: &[Binary32], c: usize, nv: usize, spacing: Binary32) -> (r: Result<
    (),
    DracoError,
>)
    requires
        values@.len() == nv * c,
        1 <= c <= 4,
        nv >= 1,
        forall|i: int| 0 <= i < values@.len() ==> (#[trigger] values@[i]).is_finite(),
        is_normal_power_of_two_bits(spacing.bits),
    ensures
        r is Ok <==> grid_domain_refusal(values@, c as nat, nv as nat, spacing) is None,
        r matches Err(e) ==> argument_error(
            e,
            grid_domain_refusal(values@, c as nat, nv as nat, spacing)->Some_0,
        ),
{
    let ghost vs = values@;
    let ghost cn = c as nat;
    let ghost s = spacing.magnitude();
    let len = values.len();
    proof {
        assert(c <= nv * c) by (nonlinear_arith)
            requires
                nv >= 1,
        ;
        lemma_normal_power_magnitude(spacing.bits);
        lemma_pow2_pos(exponent_field(spacing.bits) + 22);
        lemma2_to64();
    }
    let mut lows: Vec<i64> = Vec::new();
    let mut highs: Vec<i64> = Vec::new();
    let ghost mut low_at: Seq<int> = Seq::empty();
    let ghost mut high_at: Seq<int> = Seq::empty();
    let mut a: usize = 0;
    while a < c
        invariant
            vs == values@,
            cn == c,
            s == spacing.magnitude(),
            s > 0,
            values@.len() == nv * c,
            len == values@.len(),
            1 <= c <= 4,
            nv >= 1,
            c <= nv * c,
            forall|i: int| 0 <= i < values@.len() ==> (#[trigger] values@[i]).is_finite(),
            is_normal_power_of_two_bits(spacing.bits),
            a <= c,
            lows@.len() == a,
            highs@.len() == a,
            low_at.len() == a,
            high_at.len() == a,
            forall|a2: int, w: int|
                0 <= a2 < a && 0 <= w < nv ==> {
                    let x = (#[trigger] coordinate(vs, cn, w, a2)).value();
                    &&& fits_i32(floor_div(x, s))
                    &&& fits_i32(ceil_div(x, s))
                    &&& lows@[a2] <= floor_div(x, s)
                    &&& ceil_div(x, s) <= highs@[a2]
                },
            forall|a2: int|
                0 <= a2 < a ==> {
                    &&& 0 <= #[trigger] low_at[a2] < nv
                    &&& 0 <= high_at[a2] < nv
                    &&& lows@[a2] == floor_div(coordinate(vs, cn, low_at[a2], a2).value(), s)
                    &&& highs@[a2] == ceil_div(coordinate(vs, cn, high_at[a2], a2).value(), s)
                },
        decreases c - a,
    {
        proof {
            assert(coordinate(vs, cn, 0, a as int) == vs[a as int]);
        }
        let (mut mn, mut mx) = match grid_index_bounds(values[a], spacing) {
            Some(b) => b,
            None => {
                return Err(
                    argument(
                        "a position is too far from zero for the grid: its grid index does not fit a signed 32-bit integer",
                    ),
                );
            },
        };
        let ghost mut wl: int = 0;
        let ghost mut wh: int = 0;
        let mut w: usize = 1;
        while w < nv
            invariant
                vs == values@,
                cn == c,
                s == spacing.magnitude(),
                s > 0,
                values@.len() == nv * c,
                len == values@.len(),
                1 <= c <= 4,
                forall|i: int| 0 <= i < values@.len() ==> (#[trigger] values@[i]).is_finite(),
                is_normal_power_of_two_bits(spacing.bits),
                a < c,
                1 <= w <= nv,
                0 <= wl < w,
                0 <= wh < w,
                mn == floor_div(coordinate(vs, cn, wl, a as int).value(), s),
                mx == ceil_div(coordinate(vs, cn, wh, a as int).value(), s),
                forall|w2: int|
                    0 <= w2 < w ==> {
                        let x = (#[trigger] coordinate(vs, cn, w2, a as int)).value();
                        &&& fits_i32(floor_div(x, s))
                        &&& fits_i32(ceil_div(x, s))
                        &&& mn <= floor_div(x, s)
                        &&& ceil_div(x, s) <= mx
                    },
            decreases nv - w,
        {
            assert(w * c + a < nv * c) by (nonlinear_arith)
                requires
                    w < nv,
                    a < c,
            ;
            let i = w * c + a;
            proof {
                assert(coordinate(vs, cn, w as int, a as int) == vs[i as int]);
            }
            let (lo, hi) = match grid_index_bounds(values[i], spacing) {
                Some(b) => b,
                None => {
                    return Err(
                        argument(
                            "a position is too far from zero for the grid: its grid index does not fit a signed 32-bit integer",
                        ),
                    );
                },
            };
            if lo < mn {
                mn = lo;
                proof {
                    wl = w as int;
                }
            }
            if hi > mx {
                mx = hi;
                proof {
                    wh = w as int;
                }
            }
            w = w + 1;
        }
        lows.push(mn);
        highs.push(mx);
        proof {
            low_at = low_at.push(wl);
            high_at = high_at.push(wh);
        }
        a = a + 1;
    }
    proof {
        assert(grid_indices_fit(vs, cn, nv as nat, s));
    }
    let mut a: usize = 0;
    while a < c
        invariant
            vs == values@,
            s == spacing.magnitude(),
            cn == c,
            lows@.len() == c,
            highs@.len() == c,
            low_at.len() == c,
            high_at.len() == c,
            a <= c,
            s > 0,
            grid_indices_fit(vs, cn, nv as nat, s),
            forall|a2: int, w: int|
                0 <= a2 < c && 0 <= w < nv ==> {
                    let x = (#[trigger] coordinate(vs, cn, w, a2)).value();
                    &&& fits_i32(floor_div(x, s))
                    &&& fits_i32(ceil_div(x, s))
                    &&& lows@[a2] <= floor_div(x, s)
                    &&& ceil_div(x, s) <= highs@[a2]
                },
            forall|a2: int|
                0 <= a2 < c ==> {
                    &&& 0 <= #[trigger] low_at[a2] < nv
                    &&& 0 <= high_at[a2] < nv
                    &&& lows@[a2] == floor_div(coordinate(vs, cn, low_at[a2], a2).value(), s)
                    &&& highs@[a2] == ceil_div(coordinate(vs, cn, high_at[a2], a2).value(), s)
                },
            forall|a2: int| 0 <= a2 < a ==> highs@[a2] - lows@[a2] + 1 <= pow2(30),
        decreases c - a,
    {
        let ghost a2 = a as int;
        let ghost x0 = coordinate(vs, cn, low_at[a2], a2).value();
        let ghost x1 = coordinate(vs, cn, high_at[a2], a2).value();
        proof {
            lemma2_to64();
        }
        if highs[a] - lows[a] + 1 > 0x4000_0000 {
            proof {
                assert(grid_span(vs, cn, s, high_at[a2], low_at[a2], a2) + 1 > pow2(30));
            }
            return Err(argument("the positions span more than 2^30 grid points on one axis"));
        }
        a = a + 1;
    }
    proof {
        assert forall|w1: int, w2: int, a2: int|
            0 <= w1 < nv && 0 <= w2 < nv && 0 <= a2 < c implies #[trigger] grid_span(
            vs,
            cn,
            s,
            w1,
            w2,
            a2,
        ) + 1 <= pow2(30) by {
            assert(coordinate(vs, cn, w1, a2) == coordinate(vs, cn, w1, a2));
            assert(coordinate(vs, cn, w2, a2) == coordinate(vs, cn, w2, a2));
        }
    }
    let (_, es, _) = fields(spacing.bits);
    let mut a: usize = 0;
    while a < c
        invariant
            vs == values@,
            s == spacing.magnitude(),
            cn == c,
            lows@.len() == c,
            highs@.len() == c,
            low_at.len() == c,
            high_at.len() == c,
            a <= c,
            s > 0,
            s == pow2(es as nat + 22),
            1 <= es <= 254,
            nv >= 1,
            grid_indices_fit(vs, cn, nv as nat, s),
            grid_spans_fit(vs, cn, nv as nat, s),
            forall|a2: int, w: int|
                0 <= a2 < c && 0 <= w < nv ==> {
                    let x = (#[trigger] coordinate(vs, cn, w, a2)).value();
                    &&& fits_i32(floor_div(x, s))
                    &&& fits_i32(ceil_div(x, s))
                    &&& lows@[a2] <= floor_div(x, s)
                    &&& ceil_div(x, s) <= highs@[a2]
                },
            forall|a2: int|
                0 <= a2 < c ==> {
                    &&& 0 <= #[trigger] low_at[a2] < nv
                    &&& 0 <= high_at[a2] < nv
                    &&& lows@[a2] == floor_div(coordinate(vs, cn, low_at[a2], a2).value(), s)
                    &&& highs@[a2] == ceil_div(coordinate(vs, cn, high_at[a2], a2).value(), s)
                },
            forall|a2: int|
                0 <= a2 < a ==> (highs@[a2] - lows@[a2]) * s < overflow_threshold(),
        decreases c - a,
    {
        let ghost a2 = a as int;
        proof {
            lemma2_to64();
            let x = coordinate(vs, cn, 0, a2).value();
            lemma_ceil_at_least_floor(x, s);
            assert(grid_span(vs, cn, s, high_at[a2], low_at[a2], a2) + 1 <= pow2(30));
        }
        if !range_is_finite(highs[a] - lows[a], es) {
            proof {
                assert(grid_span(vs, cn, s, high_at[a2], low_at[a2], a2) * s >= overflow_threshold());
            }
            return Err(argument("the grid range of the positions is not finite"));
        }
        a = a + 1;
    }
    proof {
        assert forall|w1: int, w2: int, a2: int|
            0 <= w1 < nv && 0 <= w2 < nv && 0 <= a2 < c implies #[trigger] grid_span(
            vs,
            cn,
            s,
            w1,
            w2,
            a2,
        ) * s < overflow_threshold() by {
            assert(coordinate(vs, cn, w1, a2) == coordinate(vs, cn, w1, a2));
            assert(coordinate(vs, cn, w2, a2) == coordinate(vs, cn, w2, a2));
            lemma_mul_inequality(
                grid_span(vs, cn, s, w1, w2, a2),
                highs@[a2] - lows@[a2],
                s as int,
            );
        }
    }
    Ok(())
}

/// Two snapped values lie a whole number of steps apart, so once both a
/// vertex and a grid origin are on the grid, the subtraction between them is
/// exact.
pub proof fn lemma_snapped_differences_are_whole_steps(x: int, y: int, s: nat)
    requires
        s > 0,
    ensures
        (snapped(x, s) - snapped(y, s)) % (s as int) == 0,
{
    let qx = (2 * x + s) / (2 * s as int);
    let qy = (2 * y + s) / (2 * s as int);
    assert(snapped(x, s) - snapped(y, s) == (qx - qy) * s) by (nonlinear_arith)
        requires
            snapped(x, s) == qx * s,
            snapped(y, s) == qy * s,
    ;
    lemma_mod_multiples_basic(qx - qy, s as int);
}

/// Snapping one value with one spacing has one outcome, bit for bit: two
/// tiles that hold the same vertex put it in the same place.
pub proof fn lemma_snapping_is_unique(v: Binary32, spacing: Binary32, w1: Binary32, w2: Binary32)
    requires
        snaps_to(v, spacing, w1),
        snaps_to(v, spacing, w2),
    ensures
        w1 == w2,
{
    lemma_value_injective(w1.bits, w2.bits);
}

/// Snapping and `Quantization::grid` refuse exactly the same spacings:
/// snapping with its short message, `grid` with its long one.
pub proof fn lemma_snap_and_grid_refuse_alike(values: Seq<Binary32>, spacing: Binary32)
    ensures
        spacing_refusal(spacing, true) is Some <==> spacing_refusal(spacing, false) is Some,
        spacing_refusal(spacing, false) is Some ==> snap_refusal(values, spacing)
            == spacing_refusal(spacing, false),
        spacing_refusal(spacing, true) is None <==> is_normal_power_of_two_bits(spacing.bits),
{
    if is_normal_power_of_two_bits(spacing.bits) {
        lemma_normal_power_magnitude(spacing.bits);
    }
}

/// Snapping refuses nothing but a bad spacing or a value it cannot snap: with
/// a normal power-of-two spacing and every value finite with a finite grid
/// point, however many values there are, it succeeds.
pub proof fn lemma_snap_accepts_every_snappable_slice(values: Seq<Binary32>, spacing: Binary32)
    ensures
        is_normal_power_of_two_bits(spacing.bits) && (forall|i: int|
            0 <= i < values.len() ==> snappable(#[trigger] values[i], spacing)) ==> snap_refusal(
            values,
            spacing,
        ) is None,
{
    if is_normal_power_of_two_bits(spacing.bits) {
        lemma_normal_power_magnitude(spacing.bits);
    }
}

} // verus!
