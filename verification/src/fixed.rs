//! Fixed-point scalar arithmetic: the numeric ground the analysis stands on.
//!
//! A signal value is an `i64` count of ticks, where `SCALE` ticks equal an
//! amplitude of 1.0 (16 fractional bits).

use vstd::prelude::*;

verus! {

use vstd::arithmetic::power2::pow2;

/// Ticks per unit amplitude: values are in Q47.16 fixed point.
pub const SCALE: i64 = 65536;

/// Truncating (round-toward-zero) signed division, the rounding every
/// fixed-point stage uses. Defined for positive divisors.
pub open spec fn sdiv(a: int, b: int) -> int {
    if a >= 0 {
        a / b
    } else {
        -((-a) / b)
    }
}

/// Executable truncating division; matches `sdiv` for positive divisors.
pub fn div_trunc(a: i64, b: i64) -> (r: i64)
    requires
        b > 0,
        a > i64::MIN,
    ensures
        r == sdiv(a as int, b as int),
{
    if a >= 0 {
        a / b
    } else {
        -((-a) / b)
    }
}

/// The magnitude of a truncating quotient never exceeds the magnitude bound
/// of the dividend, divided by the divisor.
pub proof fn lemma_sdiv_mag(a: int, b: int, m: int)
    requires
        b > 0,
        -m <= a <= m,
    ensures
        -(m / b) <= sdiv(a, b) <= m / b,
{
    if a >= 0 {
        vstd::arithmetic::div_mod::lemma_div_is_ordered(a, m, b);
        vstd::arithmetic::div_mod::lemma_div_pos_is_pos(a, b);
    } else {
        vstd::arithmetic::div_mod::lemma_div_is_ordered(-a, m, b);
        vstd::arithmetic::div_mod::lemma_div_pos_is_pos(-a, b);
    }
}

/// Dividing a value no greater than `c * b` by `b` yields at most `c`.
pub proof fn lemma_sdiv_le(a: int, b: int, c: int)
    requires
        b > 0,
        0 <= a,
        a <= c * b,
    ensures
        0 <= sdiv(a, b) <= c,
{
    assert(c >= 0) by (nonlinear_arith)
        requires b > 0, 0 <= a, a <= c * b;
    vstd::arithmetic::div_mod::lemma_div_pos_is_pos(a, b);
    vstd::arithmetic::div_mod::lemma_div_is_ordered(a, c * b, b);
    vstd::arithmetic::div_mod::lemma_div_multiples_vanish(c, b);
    vstd::arithmetic::mul::lemma_mul_is_commutative(c, b);
}

/// Dividing a value strictly below `c * b` by `b` yields strictly less
/// than `c`.
pub proof fn lemma_sdiv_lt(a: int, b: int, c: int)
    requires
        b > 0,
        0 <= a,
        a < c * b,
    ensures
        0 <= sdiv(a, b) < c,
{
    assert(c >= 1) by (nonlinear_arith)
        requires b > 0, 0 <= a, a < c * b;
    vstd::arithmetic::div_mod::lemma_div_pos_is_pos(a, b);
    vstd::arithmetic::div_mod::lemma_div_is_ordered(a, c * b - 1, b);
    assert((c - 1) * b + (b - 1) == c * b - 1) by (nonlinear_arith);
    vstd::arithmetic::div_mod::lemma_fundamental_div_mod_converse(
        c * b - 1, b, c - 1, b - 1);
}

/// A product divided by its own positive factor comes back exactly.
pub proof fn lemma_sdiv_exact(x: int, k: int)
    requires
        k > 0,
    ensures
        sdiv(k * x, k) == x,
{
    if x >= 0 {
        vstd::arithmetic::div_mod::lemma_div_multiples_vanish(x, k);
    } else {
        vstd::arithmetic::div_mod::lemma_div_multiples_vanish(-x, k);
        assert(-(k * x) == k * (-x)) by (nonlinear_arith);
        assert(k * x < 0) by (nonlinear_arith)
            requires k > 0, x < 0;
    }
}

/// Largest integer whose square does not exceed `x` (0 for negative `x`).
pub open spec fn sqrt_floor(x: int) -> int
    decreases x,
{
    if x < 1 {
        0
    } else {
        let r = sqrt_floor(x - 1);
        if (r + 1) * (r + 1) <= x {
            r + 1
        } else {
            r
        }
    }
}

/// `sqrt_floor(x)` is exactly the integer square root: its square is at most
/// `x`, and the next square is beyond `x`.
pub proof fn lemma_sqrt_floor_char(x: int)
    requires
        x >= 0,
    ensures
        0 <= sqrt_floor(x),
        sqrt_floor(x) * sqrt_floor(x) <= x,
        x < (sqrt_floor(x) + 1) * (sqrt_floor(x) + 1),
    decreases x,
{
    if x < 1 {
    } else {
        lemma_sqrt_floor_char(x - 1);
        let r = sqrt_floor(x - 1);
        if (r + 1) * (r + 1) <= x {
            assert(x - 1 < (r + 1) * (r + 1));
            assert((r + 2) * (r + 2) > (r + 1) * (r + 1)) by (nonlinear_arith)
                requires r >= 0;
        }
    }
}

/// Two integers that both satisfy the square-root bracketing are equal.
pub proof fn lemma_sqrt_unique(x: int, r: int, s: int)
    requires
        0 <= r,
        0 <= s,
        r * r <= x,
        x < (r + 1) * (r + 1),
        s * s <= x,
        x < (s + 1) * (s + 1),
    ensures
        r == s,
{
    if r < s {
        assert((r + 1) * (r + 1) <= s * s) by (nonlinear_arith)
            requires 0 <= r, 0 <= s, r < s;
    }
    if s < r {
        assert((s + 1) * (s + 1) <= r * r) by (nonlinear_arith)
            requires 0 <= r, 0 <= s, s < r;
    }
}

/// Quadratic coefficient of the quarter-wave cosine approximation.
pub const COS_A: i64 = 80278;

/// Quartic coefficient; `COS_A - COS_B == SCALE`, so the quarter wave ends
/// at exactly zero.
pub const COS_B: i64 = 14742;

/// A quarter turn, in ticks of a full turn.
pub const QUARTER_TURN: i64 = 16384;

/// Cosine over the first quarter wave: `v` ticks sweep the quarter
/// (`v == SCALE` is a quarter turn). Even polynomial, exact at both ends,
/// within about 0.1% of the true cosine in between, clamped to `[0, SCALE]`.
pub open spec fn cos_qturn_spec(v: int) -> int {
    let v2 = (v * v) / (SCALE as int);
    let v4 = (v2 * v2) / (SCALE as int);
    let c = (SCALE as int) - (COS_A * v2) / (SCALE as int) + (COS_B * v4) / (SCALE as int);
    if c < 0 {
        0
    } else if c > SCALE {
        SCALE as int
    } else {
        c
    }
}

/// Cosine of `t` ticks of a full turn (`t` in `[0, SCALE)`), by quadrant
/// symmetry over the quarter wave. Exact at every quarter-turn multiple.
pub open spec fn cos_turns_spec(t: int) -> int {
    if t < QUARTER_TURN {
        cos_qturn_spec(4 * t)
    } else if t < 2 * QUARTER_TURN {
        -cos_qturn_spec(4 * (2 * QUARTER_TURN - t))
    } else if t < 3 * QUARTER_TURN {
        -cos_qturn_spec(4 * (t - 2 * QUARTER_TURN))
    } else {
        cos_qturn_spec(4 * (4 * QUARTER_TURN - t))
    }
}

/// Sine of `t` ticks of a full turn, as the cosine a quarter turn behind.
pub open spec fn sin_turns_spec(t: int) -> int {
    cos_turns_spec((t + 3 * QUARTER_TURN) % (SCALE as int))
}

fn cos_qturn(v: i64) -> (r: i64)
    requires
        0 <= v <= SCALE,
    ensures
        r == cos_qturn_spec(v as int),
        0 <= r <= SCALE,
{
    assert(0 <= v as int * v as int <= 0x1_0000_0000) by (nonlinear_arith)
        requires 0 <= v <= SCALE;
    let v2 = (v * v) / SCALE;
    assert(0 <= v2 <= SCALE) by (nonlinear_arith)
        requires 0 <= v <= SCALE, v2 as int == (v as int * v as int) / (SCALE as int);
    assert(0 <= v2 as int * v2 as int <= 0x1_0000_0000) by (nonlinear_arith)
        requires 0 <= v2 <= SCALE;
    let v4 = (v2 * v2) / SCALE;
    assert(0 <= v4 <= SCALE) by (nonlinear_arith)
        requires 0 <= v2 <= SCALE, v4 as int == (v2 as int * v2 as int) / (SCALE as int);
    let c = SCALE - (COS_A * v2) / SCALE + (COS_B * v4) / SCALE;
    proof {
        lemma_sdiv_le(COS_A as int * v2 as int, SCALE as int, COS_A as int);
        lemma_sdiv_le(COS_B as int * v4 as int, SCALE as int, COS_B as int);
        assert(COS_A * v2 <= COS_A * SCALE) by (nonlinear_arith)
            requires 0 <= v2 <= SCALE;
        assert(COS_B * v4 <= COS_B * SCALE) by (nonlinear_arith)
            requires 0 <= v4 <= SCALE;
    }
    if c < 0 {
        0
    } else if c > SCALE {
        SCALE
    } else {
        c
    }
}

/// Fixed-point cosine of a fraction of a full turn.
pub fn cos_turns(t: i64) -> (r: i64)
    requires
        0 <= t < SCALE,
    ensures
        r == cos_turns_spec(t as int),
        -SCALE <= r <= SCALE,
{
    if t < QUARTER_TURN {
        cos_qturn(4 * t)
    } else if t < 2 * QUARTER_TURN {
        -cos_qturn(4 * (2 * QUARTER_TURN - t))
    } else if t < 3 * QUARTER_TURN {
        -cos_qturn(4 * (t - 2 * QUARTER_TURN))
    } else {
        cos_qturn(4 * (4 * QUARTER_TURN - t))
    }
}

/// Fixed-point sine of a fraction of a full turn.
pub fn sin_turns(t: i64) -> (r: i64)
    requires
        0 <= t < SCALE,
    ensures
        r == sin_turns_spec(t as int),
        -SCALE <= r <= SCALE,
{
    cos_turns((t + 3 * QUARTER_TURN) % SCALE)
}

/// Level reported for a silent (zero-amplitude) frame, in decibel ticks:
/// below any level a one-tick amplitude can produce.
pub const DB_FLOOR: i64 = -8388608;

/// `log10(2) * SCALE`, for converting binary to decimal logarithms.
pub const LOG10_2T: i64 = 19728;

/// Position of the most significant set bit: `floor(log2(m))` for `m >= 1`.
pub open spec fn msb_spec(m: int) -> int
    decreases m,
{
    if m < 2 {
        0
    } else {
        1 + msb_spec(m / 2)
    }
}

/// The leading-bit position brackets its value between two powers of two.
pub proof fn lemma_msb_bounds(m: int)
    requires
        m >= 1,
    ensures
        0 <= msb_spec(m),
        pow2(msb_spec(m) as nat) <= m < 2 * pow2(msb_spec(m) as nat),
    decreases m,
{
    if m < 2 {
        assert(pow2(0) == 1) by { vstd::arithmetic::power2::lemma2_to64(); }
    } else {
        lemma_msb_bounds(m / 2);
        vstd::arithmetic::power2::lemma_pow2_unfold(msb_spec(m) as nat);
        vstd::arithmetic::div_mod::lemma_fundamental_div_mod(m, 2);
    }
}

/// A positive value below `2^63` has its leading bit below position 63.
pub proof fn lemma_msb_small(m: int)
    requires
        1 <= m < 0x8000_0000_0000_0000,
    ensures
        0 <= msb_spec(m) < 63,
{
    lemma_msb_bounds(m);
    if msb_spec(m) >= 63 {
        vstd::arithmetic::power2::lemma2_to64();
        vstd::arithmetic::power2::lemma2_to64_rest();
        if msb_spec(m) > 63 {
            vstd::arithmetic::power2::lemma_pow2_strictly_increases(63, msb_spec(m) as nat);
        }
    }
}

fn msb(m: i64) -> (r: u32)
    requires
        m >= 1,
    ensures
        r == msb_spec(m as int),
        r < 63,
{
    proof {
        lemma_msb_small(m as int);
    }
    let mut y: i64 = m;
    let mut r: u32 = 0;
    while y >= 2
        invariant
            1 <= y <= m,
            msb_spec(m as int) == r + msb_spec(y as int),
            msb_spec(m as int) < 63,
            0 <= msb_spec(y as int),
        decreases y,
    {
        proof {
            vstd::arithmetic::div_mod::lemma_div_basics(2);
            vstd::arithmetic::div_mod::lemma_div_is_ordered(2, y as int, 2);
            lemma_msb_bounds((y / 2) as int);
        }
        y = y / 2;
        r = r + 1;
    }
    r
}

/// Fractional bits of the binary logarithm of `y / SCALE` for
/// `y` in `[SCALE, 2 * SCALE)`, to `k` bits, by repeated squaring.
pub open spec fn log2_frac_spec(y: int, k: nat) -> int
    decreases k,
{
    if k == 0 {
        0
    } else {
        let y2 = (y * y) / (SCALE as int);
        if y2 >= 2 * SCALE {
            pow2((k - 1) as nat) + log2_frac_spec(y2 / 2, (k - 1) as nat)
        } else {
            log2_frac_spec(y2, (k - 1) as nat)
        }
    }
}

/// The fractional logarithm bits fit in `k` bits.
pub proof fn lemma_log2_frac_bounds(y: int, k: nat)
    ensures
        0 <= log2_frac_spec(y, k) < pow2(k),
    decreases k,
{
    vstd::arithmetic::power2::lemma_pow2_pos(k);
    if k == 0 {
        assert(pow2(0) == 1) by { vstd::arithmetic::power2::lemma2_to64(); }
    } else {
        let y2 = (y * y) / (SCALE as int);
        lemma_log2_frac_bounds(y2 / 2, (k - 1) as nat);
        lemma_log2_frac_bounds(y2, (k - 1) as nat);
        vstd::arithmetic::power2::lemma_pow2_unfold(k);
    }
}

fn log2_frac(y0: i64) -> (r: i64)
    requires
        SCALE <= y0 < 2 * SCALE,
    ensures
        r == log2_frac_spec(y0 as int, 16),
        0 <= r < 65536,
{
    let mut y: i64 = y0;
    let mut f: i64 = 0;
    proof {
        vstd::arithmetic::power2::lemma2_to64();
    }
    let mut i: u32 = 0;
    while i < 16
        invariant
            SCALE <= y < 2 * SCALE,
            i <= 16,
            0 <= f < pow2(i as nat),
            log2_frac_spec(y0 as int, 16)
                == f * pow2((16 - i) as nat) + log2_frac_spec(y as int, (16 - i) as nat),
        decreases 16 - i,
    {
        proof {
            assert(SCALE as int * SCALE as int <= (y as int * y as int)
                && (y as int * y as int) < 4 * (SCALE as int) * (SCALE as int))
                by (nonlinear_arith)
                requires SCALE <= y < 2 * SCALE;
            lemma_sdiv_le(y as int * y as int, SCALE as int, 4 * SCALE as int);
            assert(y as int * y as int >= SCALE as int * SCALE as int);
            vstd::arithmetic::div_mod::lemma_div_is_ordered(
                SCALE as int * SCALE as int, y as int * y as int, SCALE as int);
            vstd::arithmetic::div_mod::lemma_div_multiples_vanish(SCALE as int, SCALE as int);
        }
        let y2 = (y * y) / SCALE;
        assert(SCALE <= y2 < 4 * SCALE);
        let ghost k = (16 - i) as nat;
        proof {
            vstd::arithmetic::power2::lemma_pow2_unfold(k);
            vstd::arithmetic::power2::lemma_pow2_pos((k - 1) as nat);
            vstd::arithmetic::power2::lemma_pow2_unfold((i + 1) as nat);
            vstd::arithmetic::power2::lemma2_to64();
            if i < 15 {
                vstd::arithmetic::power2::lemma_pow2_strictly_increases(i as nat, 15);
            }
        }
        if y2 >= 2 * SCALE {
            proof {
                vstd::arithmetic::div_mod::lemma_div_is_ordered(
                    2 * SCALE as int, y2 as int, 2);
                assert((2 * SCALE as int) / 2 == SCALE as int);
                assert(f * pow2(k) + (pow2((k - 1) as nat) + log2_frac_spec(y2 as int / 2, (k - 1) as nat))
                    == (2 * f + 1) * pow2((k - 1) as nat) + log2_frac_spec(y2 as int / 2, (k - 1) as nat))
                    by (nonlinear_arith)
                    requires pow2(k) == 2 * pow2((k - 1) as nat);
            }
            y = y2 / 2;
            f = 2 * f + 1;
        } else {
            proof {
                assert(f * pow2(k) + log2_frac_spec(y2 as int, (k - 1) as nat)
                    == (2 * f) * pow2((k - 1) as nat) + log2_frac_spec(y2 as int, (k - 1) as nat))
                    by (nonlinear_arith)
                    requires pow2(k) == 2 * pow2((k - 1) as nat);
            }
            y = y2;
            f = 2 * f;
        }
        i = i + 1;
    }
    proof {
        vstd::arithmetic::power2::lemma2_to64();
        assert(log2_frac_spec(y as int, (16 - i) as nat) == 0);
        assert(f * pow2((16 - i) as nat) == f as int) by (nonlinear_arith)
            requires i == 16, pow2(0) == 1;
    }
    f
}

/// Binary logarithm of `m / SCALE` in ticks, for `m >= 1`: the integer part
/// comes from the leading bit, the fractional part from `log2_frac_spec`
/// after normalizing `m` into `[SCALE, 2 * SCALE)`.
pub open spec fn log2_ticks_spec(m: int) -> int {
    let e = msb_spec(m);
    let y = if e >= 16 {
        m / pow2((e - 16) as nat) as int
    } else {
        m * pow2((16 - e) as nat) as int
    };
    (e - 16) * (SCALE as int) + log2_frac_spec(y, 16)
}

/// Amplitude (in ticks) to a decibel-like level in ticks:
/// `20 * log10(m / SCALE)`, with `DB_FLOOR` for silence.
pub open spec fn db_from_amp_spec(m: int) -> int {
    if m <= 0 {
        DB_FLOOR as int
    } else {
        20 * sdiv(log2_ticks_spec(m) * (LOG10_2T as int), SCALE as int)
    }
}

/// The decibel spec stays within a fixed window for any representable
/// amplitude.
pub proof fn lemma_db_range(m: int)
    requires
        m < 0x4000_0000_0000_0000,
    ensures
        -0x800_0000 <= db_from_amp_spec(m) <= 0x2000_0000,
{
    if m <= 0 {
    } else {
        lemma_msb_small(m);
        lemma_msb_bounds(m);
        let e = msb_spec(m);
        let y = if e >= 16 {
            m / pow2((e - 16) as nat) as int
        } else {
            m * pow2((16 - e) as nat) as int
        };
        lemma_log2_frac_bounds(y, 16);
        assert(pow2(16) == 65536) by { vstd::arithmetic::power2::lemma2_to64(); }
        let l2 = log2_ticks_spec(m);
        assert(-16 * (SCALE as int) <= l2 <= 47 * (SCALE as int));
        assert(-(16 * (SCALE as int) * (LOG10_2T as int)) <= l2 * (LOG10_2T as int)
            && l2 * (LOG10_2T as int) <= 47 * (SCALE as int) * (LOG10_2T as int))
            by (nonlinear_arith)
            requires -16 * (SCALE as int) <= l2 <= 47 * (SCALE as int);
        lemma_sdiv_mag(l2 * (LOG10_2T as int), SCALE as int,
            47 * (SCALE as int) * (LOG10_2T as int));
        assert((47 * (SCALE as int) * (LOG10_2T as int)) / (SCALE as int)
            == 47 * (LOG10_2T as int)) by {
            vstd::arithmetic::div_mod::lemma_div_multiples_vanish(
                47 * (LOG10_2T as int), SCALE as int);
            assert(47 * (SCALE as int) * (LOG10_2T as int)
                == (SCALE as int) * (47 * (LOG10_2T as int))) by (nonlinear_arith);
        }
    }
}

/// Decibel level of an amplitude, `20 * log10(m / SCALE)` in ticks.
pub fn db_from_amp(m: i64) -> (r: i64)
    requires
        m < 0x4000_0000_0000_0000,
    ensures
        r == db_from_amp_spec(m as int),
        -0x800_0000 <= r <= 0x2000_0000,
{
    proof {
        lemma_db_range(m as int);
    }
    if m <= 0 {
        return DB_FLOOR;
    }
    let e = msb(m);
    proof {
        lemma_msb_bounds(m as int);
        vstd::arithmetic::power2::lemma2_to64();
        vstd::arithmetic::div_mod::lemma_div_basics(m as int);
        vstd::arithmetic::mul::lemma_mul_basics(m as int);
    }
    let mut y: i64 = m;
    if e >= 16 {
        let mut c: u32 = e;
        while c > 16
            invariant
                e == msb_spec(m as int),
                e < 63,
                16 <= c <= e,
                y as int == m as int / pow2((e - c) as nat) as int,
                pow2(c as nat) <= y as int && (y as int) < 2 * pow2(c as nat),
            decreases c,
        {
            proof {
                let p = pow2((e - c) as nat) as int;
                let pc1 = pow2((c - 1) as nat) as int;
                vstd::arithmetic::power2::lemma_pow2_unfold(c as nat);
                vstd::arithmetic::power2::lemma_pow2_unfold((e - c + 1) as nat);
                vstd::arithmetic::power2::lemma_pow2_pos((e - c) as nat);
                vstd::arithmetic::power2::lemma_pow2_pos((c - 1) as nat);
                vstd::arithmetic::div_mod::lemma_div_denominator(m as int, p, 2);
                // lower bound: y / 2 >= pc1 since y >= 2 * pc1
                vstd::arithmetic::div_mod::lemma_div_is_ordered(2 * pc1, y as int, 2);
                vstd::arithmetic::div_mod::lemma_div_multiples_vanish(pc1, 2);
                // upper bound: y / 2 < pow2(c) since y < 2 * pow2(c)
                vstd::arithmetic::div_mod::lemma_div_is_ordered(
                    y as int, 2 * pow2(c as nat) - 1, 2);
                assert((2 * pow2(c as nat) - 1) / 2 == pow2(c as nat) - 1) by {
                    vstd::arithmetic::div_mod::lemma_fundamental_div_mod_converse(
                        2 * pow2(c as nat) - 1, 2, pow2(c as nat) as int - 1, 1);
                }
            }
            y = y / 2;
            c = c - 1;
        }
    } else {
        let mut c: u32 = e;
        while c < 16
            invariant
                e == msb_spec(m as int),
                e <= c <= 16,
                y as int == m as int * pow2((c - e) as nat) as int,
                pow2(c as nat) <= y as int && (y as int) < 2 * pow2(c as nat),
            decreases 16 - c,
        {
            proof {
                vstd::arithmetic::power2::lemma_pow2_unfold((c - e + 1) as nat);
                vstd::arithmetic::power2::lemma_pow2_unfold(c as nat + 1);
                vstd::arithmetic::power2::lemma2_to64();
                assert(m as int * (2 * pow2((c - e) as nat)) as int
                    == 2 * (m as int * pow2((c - e) as nat) as int)) by (nonlinear_arith);
            }
            y = y * 2;
            c = c + 1;
        }
    }
    assert(SCALE <= y < 2 * SCALE) by {
        vstd::arithmetic::power2::lemma2_to64();
    }
    let f = log2_frac(y);
    let l2: i64 = (e as i64 - 16) * SCALE + f;
    proof {
        vstd::arithmetic::power2::lemma2_to64();
        assert(l2 as int * LOG10_2T as int <= 0x7000_0000_0000_0000
            && l2 as int * LOG10_2T as int >= -0x7000_0000_0000_0000) by (nonlinear_arith)
            requires -17 * (SCALE as int) <= l2 as int <= 64 * (SCALE as int);
        lemma_sdiv_mag(l2 as int * LOG10_2T as int, SCALE as int, 0x7000_0000_0000_0000);
    }
    20 * div_trunc(l2 * LOG10_2T, SCALE)
}

/// Integer square root by bisection.
pub fn isqrt(x: i64) -> (r: i64)
    requires
        x >= 0,
    ensures
        r == sqrt_floor(x as int),
{
    let mut lo: u64 = 0;
    let mut hi: u64 = 0x1_0000_0000;
    let xu: u64 = x as u64;
    while lo + 1 < hi
        invariant
            lo < hi <= 0x1_0000_0000,
            xu == x,
            (lo * lo) as int <= xu as int,
            (xu as int) < (hi as int) * (hi as int),
        decreases hi - lo,
    {
        let mid: u64 = lo + (hi - lo) / 2;
        assert(mid < 0x1_0000_0000);
        assert(mid * mid < 0xffff_ffff_ffff_ffff) by (nonlinear_arith)
            requires mid < 0x1_0000_0000;
        if mid * mid <= xu {
            lo = mid;
        } else {
            hi = mid;
        }
    }
    proof {
        lemma_sqrt_floor_char(x as int);
        lemma_sqrt_unique(x as int, lo as int, sqrt_floor(x as int));
    }
    lo as i64
}

} // verus!
