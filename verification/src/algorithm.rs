//! The numeric kernel: elementary array operations every analysis frame
//! passes through — loudness, min-max normalization, windowing, the
//! radix-2 transform, bin gating, cepstral liftering and interpolation.
//!
//! Everything works on `i64` tick values (see [`crate::fixed`]).

use vstd::prelude::*;
use crate::fixed::{
    SCALE, sdiv, div_trunc, isqrt, sqrt_floor, db_from_amp, db_from_amp_spec,
    cos_turns, cos_turns_spec, cos_qturn_spec, sin_turns_spec, sin_turns,
    lemma_sdiv_mag, lemma_sdiv_le, lemma_sdiv_lt,
};
use crate::model::{DataPoint, cadd_spec, cmul_spec};

verus! {

/// Magnitude admitted into the transform and the other kernel stages;
/// keeps every intermediate product inside `i64`.
pub const FFT_VAL_MAX: i64 = 0x80_0000;

/// Largest sample magnitude a frame may carry (16x the nominal full scale
/// of one amplitude unit).
pub const SAMPLE_MAX: i64 = 0x10_0000;

/// First Hamming coefficient, `0.54 * SCALE`.
pub const HAM_A: i64 = 35389;

/// Second Hamming coefficient, `0.46 * SCALE`.
pub const HAM_B: i64 = 30147;

/// Every element within `[-m, m]`.
pub open spec fn all_abs_le(s: Seq<i64>, m: int) -> bool {
    forall|i: int| 0 <= i < s.len() ==> -m <= #[trigger] s[i] <= m
}

/// Sum of squared elements.
pub open spec fn sum_sq(s: Seq<i64>) -> int
    decreases s.len(),
{
    if s.len() == 0 {
        0
    } else {
        sum_sq(s.drop_last()) + s.last() * s.last()
    }
}

/// Loudness of a frame: the root-mean-square amplitude on a decibel-like
/// scale, `20 * log10(rms)` in ticks.
pub open spec fn rms_spec(s: Seq<i64>) -> int {
    db_from_amp_spec(sqrt_floor(sum_sq(s) / s.len() as int))
}

/// Root-mean-square level of a frame in decibel ticks.
pub fn rms(data: &Vec<i64>) -> (r: i64)
    requires
        1 <= data@.len() <= 0x40_0000,
        all_abs_le(data@, SAMPLE_MAX as int),
    ensures
        r == rms_spec(data@),
        -0x800_0000 <= r <= 0x2000_0000,
{
    let n = data.len();
    let mut acc: i64 = 0;
    let mut i: usize = 0;
    while i < n
        invariant
            i <= n,
            n == data@.len() <= 0x40_0000,
            all_abs_le(data@, SAMPLE_MAX as int),
            acc == sum_sq(data@.take(i as int)),
            0 <= acc <= i * ((SAMPLE_MAX * SAMPLE_MAX) as int),
        decreases n - i,
    {
        let x = data[i];
        proof {
            assert(x * x <= SAMPLE_MAX * SAMPLE_MAX && x * x >= 0) by (nonlinear_arith)
                requires -SAMPLE_MAX <= x <= SAMPLE_MAX;
            assert((i + 1) * ((SAMPLE_MAX * SAMPLE_MAX) as int)
                == i * ((SAMPLE_MAX * SAMPLE_MAX) as int) + SAMPLE_MAX * SAMPLE_MAX)
                by (nonlinear_arith);
            assert(i * ((SAMPLE_MAX * SAMPLE_MAX) as int)
                <= 0x40_0000 * ((SAMPLE_MAX * SAMPLE_MAX) as int)) by (nonlinear_arith)
                requires 0 <= i <= 0x40_0000;
            assert(data@.take(i + 1).drop_last() =~= data@.take(i as int));
            assert(data@.take(i + 1).last() == data@[i as int]);
        }
        acc = acc + x * x;
        i = i + 1;
    }
    proof {
        assert(data@.take(n as int) =~= data@);
        vstd::arithmetic::mul::lemma_mul_is_commutative(n as int,
            (SAMPLE_MAX * SAMPLE_MAX) as int);
        lemma_sdiv_le(acc as int, n as int, (SAMPLE_MAX * SAMPLE_MAX) as int);
    }
    let mean = acc / (n as i64);
    let root = isqrt(mean);
    proof {
        crate::fixed::lemma_sqrt_floor_char(mean as int);
        assert(root as int * root as int <= mean);
        assert(root < 0x4000_0000_0000_0000) by (nonlinear_arith)
            requires root as int * root as int <= mean, 0 <= mean < 0x4000_0000_0000_0000,
                root >= 0;
    }
    db_from_amp(root)
}

/// Largest element, seeded with zero.
pub open spec fn vmax0(s: Seq<i64>) -> int
    decreases s.len(),
{
    if s.len() == 0 {
        0
    } else if vmax0(s.drop_last()) >= s.last() {
        vmax0(s.drop_last())
    } else {
        s.last() as int
    }
}

/// Smallest element, seeded with zero.
pub open spec fn vmin0(s: Seq<i64>) -> int
    decreases s.len(),
{
    if s.len() == 0 {
        0
    } else if vmin0(s.drop_last()) <= s.last() {
        vmin0(s.drop_last())
    } else {
        s.last() as int
    }
}

/// Min-max rescale onto `[0, SCALE]`, with the extremes seeded at zero;
/// the identity when the observed range is zero.
pub open spec fn normalize_spec(s: Seq<i64>) -> Seq<i64> {
    let lo = vmin0(s);
    let hi = vmax0(s);
    if hi == lo {
        s
    } else {
        Seq::new(s.len(), |i: int| sdiv((s[i] - lo) * SCALE as int, hi - lo) as i64)
    }
}

proof fn lemma_vminmax0_bounds(s: Seq<i64>, i: int)
    requires
        0 <= i < s.len(),
    ensures
        vmin0(s) <= s[i] <= vmax0(s),
        vmin0(s) <= 0 <= vmax0(s),
    decreases s.len(),
{
    if s.len() == 0 {
    } else if i == s.len() - 1 {
        if s.len() > 1 {
            lemma_vminmax0_bounds(s.drop_last(), 0);
        }
    } else {
        lemma_vminmax0_bounds(s.drop_last(), i);
    }
}

/// Every rescaled element of `normalize_spec` lies in `[0, SCALE]` when the
/// range is non-zero; the sequence is untouched when the range is zero.
pub proof fn lemma_normalize_bounds(s: Seq<i64>)
    requires
        all_abs_le(s, 0x1000_0000_0000),
    ensures
        vmax0(s) != vmin0(s) ==> forall|i: int| 0 <= i < s.len()
            ==> 0 <= #[trigger] normalize_spec(s)[i] <= SCALE,
        vmax0(s) == vmin0(s) ==> normalize_spec(s) == s,
{
    let lo = vmin0(s);
    let hi = vmax0(s);
    if hi != lo {
        assert forall|i: int| 0 <= i < s.len()
            implies 0 <= #[trigger] normalize_spec(s)[i] <= SCALE by {
            lemma_vminmax0_bounds(s, i);
            assert((s[i] - lo) * SCALE as int <= (hi - lo) * SCALE as int)
                by (nonlinear_arith)
                requires s[i] <= hi, lo <= s[i];
            assert((hi - lo) * SCALE as int == SCALE as int * (hi - lo))
                by (nonlinear_arith);
            lemma_sdiv_le((s[i] - lo) * SCALE as int, hi - lo, SCALE as int);
        }
    }
}

/// Min-max rescale in place onto `[0, SCALE]`; leaves the frame unchanged
/// when the observed range (extremes seeded at zero) is exactly zero.
pub fn normalize(data: &mut Vec<i64>)
    requires
        all_abs_le(old(data)@, 0x1000_0000_0000),
    ensures
        final(data)@ == normalize_spec(old(data)@),
        final(data)@.len() == old(data)@.len(),
        vmax0(old(data)@) != vmin0(old(data)@) ==> all_abs_le(final(data)@, SCALE as int),
{
    let n = data.len();
    let mut hi: i64 = 0;
    let mut lo: i64 = 0;
    let mut i: usize = 0;
    while i < n
        invariant
            i <= n,
            n == data@.len(),
            all_abs_le(data@, 0x1000_0000_0000),
            hi == vmax0(data@.take(i as int)),
            lo == vmin0(data@.take(i as int)),
            -0x1000_0000_0000 <= lo <= 0 <= hi <= 0x1000_0000_0000,
        decreases n - i,
    {
        proof {
            assert(data@.take(i + 1).drop_last() =~= data@.take(i as int));
            assert(data@.take(i + 1).last() == data@[i as int]);
        }
        let x = data[i];
        if x > hi {
            hi = x;
        }
        if x < lo {
            lo = x;
        }
        i = i + 1;
    }
    proof {
        assert(data@.take(n as int) =~= data@);
        lemma_normalize_bounds(data@);
    }
    if hi == lo {
        return;
    }
    let diff = hi - lo;
    let ghost orig = data@;
    let mut j: usize = 0;
    while j < n
        invariant
            j <= n,
            n == orig.len() == data@.len(),
            diff == vmax0(orig) - vmin0(orig),
            diff > 0,
            lo == vmin0(orig),
            -0x1000_0000_0000 <= lo <= 0,
            diff <= 0x2000_0000_0000,
            all_abs_le(orig, 0x1000_0000_0000),
            forall|k: int| j <= k < n ==> #[trigger] data@[k] == orig[k],
            forall|k: int| 0 <= k < j ==> #[trigger] data@[k] == normalize_spec(orig)[k],
        decreases n - j,
    {
        let x = data[j];
        proof {
            lemma_vminmax0_bounds(orig, j as int);
            assert((x - lo) * SCALE as int <= diff * SCALE as int) by (nonlinear_arith)
                requires x <= lo + diff, 0 <= x - lo;
            assert(diff * SCALE as int == SCALE as int * diff) by (nonlinear_arith);
            assert((x - lo) * (SCALE as int) <= 0x2000_0000_0000int * 0x1_0000)
                by (nonlinear_arith)
                requires 0 <= x - lo <= 0x2000_0000_0000;
            lemma_sdiv_le((x - lo) * SCALE as int, diff as int, SCALE as int);
        }
        let y = div_trunc((x - lo) * SCALE, diff);
        data.set(j, y);
        j = j + 1;
    }
    proof {
        assert(data@ =~= normalize_spec(orig));
    }
}

/// Element-wise average of the current frame with the previous one: a
/// one-step temporal low-pass at the per-bin level.
pub open spec fn smoothing_spec(a: Seq<i64>, b: Seq<i64>) -> Seq<i64> {
    Seq::new(a.len(), |i: int| sdiv(a[i] + b[i], 2) as i64)
}

/// Averages `data` with the equal-length previous frame `before`, in place.
pub fn smoothing(data: &mut Vec<i64>, before: &Vec<i64>)
    requires
        old(data)@.len() == before@.len(),
        all_abs_le(old(data)@, 0x1000_0000_0000_0000),
        all_abs_le(before@, 0x1000_0000_0000_0000),
    ensures
        final(data)@ == smoothing_spec(old(data)@, before@),
{
    let n = data.len();
    let ghost orig = data@;
    let mut i: usize = 0;
    while i < n
        invariant
            i <= n,
            n == orig.len() == data@.len() == before@.len(),
            all_abs_le(orig, 0x1000_0000_0000_0000),
            all_abs_le(before@, 0x1000_0000_0000_0000),
            forall|k: int| i <= k < n ==> #[trigger] data@[k] == orig[k],
            forall|k: int| 0 <= k < i ==> #[trigger] data@[k] == smoothing_spec(orig, before@)[k],
        decreases n - i,
    {
        proof {
            lemma_sdiv_mag(orig[i as int] + before@[i as int], 2, 0x2000_0000_0000_0000);
        }
        let y = div_trunc(data[i] + before[i], 2);
        data.set(i, y);
        i = i + 1;
    }
    proof {
        assert(data@ =~= smoothing_spec(orig, before@));
    }
}

/// The Hamming weight of position `i` in an `n`-sample window:
/// `0.54 - 0.46 * cos(2*pi*i/(n-1))`, in ticks.
pub open spec fn ham_coeff(i: int, n: int) -> int {
    HAM_A - sdiv(HAM_B as int * cos_turns_spec(sdiv(i * SCALE as int, n - 1)), SCALE as int)
}

/// The windowed frame: interior samples scaled by the Hamming weight of
/// their position, first and last forced to exactly zero.
pub open spec fn hamming_spec(s: Seq<i64>) -> Seq<i64> {
    Seq::new(s.len(), |i: int|
        if i == 0 || i == s.len() - 1 {
            0i64
        } else {
            sdiv(s[i] * ham_coeff(i, s.len() as int), SCALE as int) as i64
        })
}

/// Applies the Hamming-style window in place; the first and last samples
/// are always forced to zero.
pub fn hamming(data: &mut Vec<i64>)
    requires
        1 <= old(data)@.len() <= 0x40_0000,
        all_abs_le(old(data)@, 0x1000_0000_0000),
    ensures
        final(data)@ == hamming_spec(old(data)@),
        final(data)@.len() >= 2 ==> final(data)@[0] == 0
            && final(data)@[final(data)@.len() - 1] == 0,
        all_abs_le(final(data)@, 0x1000_0000_0000),
{
    let n = data.len();
    let ghost orig = data@;
    if n == 1 {
        data.set(0, 0);
        proof {
            assert(data@ =~= hamming_spec(orig));
        }
        return;
    }
    let mut i: usize = 1;
    while i < n - 1
        invariant
            1 <= i <= n - 1,
            2 <= n == orig.len() == data@.len() <= 0x40_0000,
            all_abs_le(orig, 0x1000_0000_0000),
            forall|k: int| k == 0 || i <= k < n ==> #[trigger] data@[k] == orig[k],
            forall|k: int| 1 <= k < i ==> #[trigger] data@[k] == hamming_spec(orig)[k],
            forall|k: int| 1 <= k < i ==> -0x1000_0000_0000 <= #[trigger] data@[k]
                <= 0x1000_0000_0000,
        decreases n - i,
    {
        proof {
            assert((i as int) * (SCALE as int) < (n - 1) * (SCALE as int)) by (nonlinear_arith)
                requires i < n - 1;
            lemma_sdiv_lt((i as int) * (SCALE as int), (n - 1) as int, SCALE as int);
        }
        let t = div_trunc((i as i64) * SCALE, (n as i64) - 1);
        let co = cos_turns(t);
        proof {
            lemma_sdiv_mag(HAM_B as int * co as int, SCALE as int,
                HAM_B as int * SCALE as int);
            assert(-(HAM_B as int * SCALE as int) <= HAM_B as int * co as int
                <= HAM_B as int * SCALE as int) by (nonlinear_arith)
                requires -SCALE <= co <= SCALE;
            assert((HAM_B as int * SCALE as int) / SCALE as int == HAM_B as int) by {
                vstd::arithmetic::div_mod::lemma_div_multiples_vanish(
                    HAM_B as int, SCALE as int);
                vstd::arithmetic::mul::lemma_mul_is_commutative(HAM_B as int, SCALE as int);
            }
        }
        let h = HAM_A - div_trunc(HAM_B * co, SCALE);
        assert(0 <= h <= SCALE);
        let x = data[i];
        proof {
            assert(-(0x1000_0000_0000 * SCALE as int) <= x as int * h as int
                <= 0x1000_0000_0000 * SCALE as int) by (nonlinear_arith)
                requires -0x1000_0000_0000 <= x <= 0x1000_0000_0000, 0 <= h <= SCALE;
            lemma_sdiv_mag(x as int * h as int, SCALE as int,
                0x1000_0000_0000 * SCALE as int);
            assert((0x1000_0000_0000 * SCALE as int) / (SCALE as int) == 0x1000_0000_0000) by {
                vstd::arithmetic::div_mod::lemma_div_multiples_vanish(
                    0x1000_0000_0000, SCALE as int);
                vstd::arithmetic::mul::lemma_mul_is_commutative(0x1000_0000_0000, SCALE as int);
            }
        }
        let y = div_trunc(x * h, SCALE);
        proof {
            // y matches the interior branch of hamming_spec at index i
            assert(h as int == ham_coeff(i as int, n as int));
        }
        data.set(i, y);
        i = i + 1;
    }
    data.set(0, 0);
    let m = data.len();
    data.set(m - 1, 0);
    proof {
        assert(data@ =~= hamming_spec(orig));
    }
}

/// The liftered frame: coefficients with index above `level` and at most
/// `len - 1 - level` zeroed, the low and high ends kept.
pub open spec fn lifter_spec(s: Seq<i64>, level: int) -> Seq<i64> {
    Seq::new(s.len(), |i: int|
        if i > level && i <= s.len() - 1 - level {
            0i64
        } else {
            s[i]
        })
}

/// Zeroes the mid-quefrency cepstral coefficients in place, keeping only
/// the lowest- and highest-order ones.
pub fn lifter(data: &mut Vec<i64>, level: i32)
    requires
        old(data)@.len() <= 0x4000_0000,
    ensures
        final(data)@ == lifter_spec(old(data)@, level as int),
{
    let n = data.len();
    let ghost orig = data@;
    let i_min: i64 = level as i64;
    let i_max: i64 = n as i64 - 1 - level as i64;
    let mut i: usize = 0;
    while i < n
        invariant
            i <= n,
            n == orig.len() == data@.len() <= 0x4000_0000,
            i_min == level as int,
            i_max == n - 1 - level as int,
            forall|k: int| i <= k < n ==> #[trigger] data@[k] == orig[k],
            forall|k: int| 0 <= k < i ==> #[trigger] data@[k]
                == lifter_spec(orig, level as int)[k],
        decreases n - i,
    {
        if (i as i64) > i_min && (i as i64) <= i_max {
            data.set(i, 0);
        }
        i = i + 1;
    }
    proof {
        assert(data@ =~= lifter_spec(orig, level as int));
    }
}

/// Liftering partitions the frame: indices up to `level` and above
/// `len - 1 - level` keep their values, and every index strictly between
/// those ends is zeroed.
pub proof fn lemma_lifter_partition(s: Seq<i64>, level: int)
    ensures
        forall|i: int| 0 <= i < s.len() && (i <= level || i > s.len() - 1 - level)
            ==> #[trigger] lifter_spec(s, level)[i] == s[i],
        forall|i: int| 0 <= i < s.len() && level < i <= s.len() - 1 - level
            ==> #[trigger] lifter_spec(s, level)[i] == 0,
{
}

/// Smallest element of a non-empty frame.
pub open spec fn vmin(s: Seq<i64>) -> int
    decreases s.len(),
{
    if s.len() <= 1 {
        s[0] as int
    } else if vmin(s.drop_last()) <= s.last() {
        vmin(s.drop_last())
    } else {
        s.last() as int
    }
}

/// The band floor: the frame's minimum, raised to one tick when the
/// minimum is exactly zero.
pub open spec fn band_floor(s: Seq<i64>) -> int {
    if vmin(s) == 0 {
        1
    } else {
        vmin(s)
    }
}

/// The band-passed frame: bins with index outside `[lowcut, highcut]` replaced
/// by the band floor.
pub open spec fn filter_spec(s: Seq<i64>, lowcut: int, highcut: int) -> Seq<i64> {
    Seq::new(s.len(), |i: int|
        if i < lowcut || i > highcut {
            band_floor(s) as i64
        } else {
            s[i]
        })
}

/// Replaces every bin outside the index band `[lowcut, highcut]` with the
/// frame minimum (floored at one tick), a crude band-pass.
pub fn filter(data: &mut Vec<i64>, lowcut: i32, highcut: i32)
    requires
        1 <= old(data)@.len() <= 0x4000_0000,
        all_abs_le(old(data)@, 0x1000_0000_0000_0000),
    ensures
        final(data)@ == filter_spec(old(data)@, lowcut as int, highcut as int),
{
    let n = data.len();
    let ghost orig = data@;
    let mut minimum: i64 = data[0];
    let mut i: usize = 1;
    proof {
        assert(orig.take(1).len() == 1 && orig.take(1)[0] == orig[0]);
    }
    while i < n
        invariant
            1 <= i <= n,
            n == data@.len() <= 0x4000_0000,
            data@ == orig,
            minimum == vmin(orig.take(i as int)),
        decreases n - i,
    {
        proof {
            assert(orig.take(i + 1).drop_last() =~= orig.take(i as int));
            assert(orig.take(i + 1).last() == orig[i as int]);
        }
        let x = data[i];
        if x < minimum {
            minimum = x;
        }
        i = i + 1;
    }
    proof {
        assert(orig.take(n as int) =~= orig);
    }
    if minimum == 0 {
        minimum = 1;
    }
    let mut j: usize = 0;
    while j < n
        invariant
            j <= n,
            n == orig.len() == data@.len() <= 0x4000_0000,
            minimum == band_floor(orig),
            forall|k: int| j <= k < n ==> #[trigger] data@[k] == orig[k],
            forall|k: int| 0 <= k < j ==> #[trigger] data@[k]
                == filter_spec(orig, lowcut as int, highcut as int)[k],
        decreases n - j,
    {
        if (j as i64) < (lowcut as i64) || (j as i64) > (highcut as i64) {
            data.set(j, minimum);
        }
        j = j + 1;
    }
    proof {
        assert(data@ =~= filter_spec(orig, lowcut as int, highcut as int));
    }
}

/// Both components of every element within `[-m, m]`.
pub open spec fn all_cabs_le(s: Seq<DataPoint>, m: int) -> bool {
    forall|i: int| 0 <= i < s.len()
        ==> -m <= #[trigger] s[i].0 <= m && -m <= s[i].1 <= m
}

/// The even-indexed half of a frame (the larger half when the length is
/// odd).
pub open spec fn evens(s: Seq<DataPoint>) -> Seq<DataPoint> {
    Seq::new(((s.len() + 1) / 2) as nat, |i: int| s[2 * i])
}

/// The odd-indexed half of a frame.
pub open spec fn odds(s: Seq<DataPoint>) -> Seq<DataPoint> {
    Seq::new((s.len() / 2) as nat, |i: int| s[2 * i + 1])
}

/// The unit rotation applied to the odd half at output position `k` of an
/// `n`-point stage: angle `k/n` of a turn, conjugated for the inverse
/// transform.
pub open spec fn twiddle_spec(k: int, n: int, reverse: bool) -> DataPoint {
    let t = sdiv(k * SCALE as int, n);
    DataPoint(
        cos_turns_spec(t) as i64,
        (if reverse { -sin_turns_spec(t) } else { sin_turns_spec(t) }) as i64,
    )
}

/// The radix-2 decimation-in-time transform: even and odd halves
/// transformed recursively, then every output bin is the matching even
/// bin plus the twiddle-rotated odd bin, indices wrapping around the
/// half length.
pub open spec fn fft_spec(s: Seq<DataPoint>, reverse: bool) -> Seq<DataPoint>
    decreases s.len(),
{
    if s.len() <= 1 {
        s
    } else {
        let h = s.len() as int / 2;
        let e = fft_spec(evens(s), reverse);
        let o = fft_spec(odds(s), reverse);
        Seq::new(s.len(), |i: int|
            cadd_spec(e[i % h], cmul_spec(twiddle_spec(i, s.len() as int, reverse), o[i % h])))
    }
}

/// Worst-case componentwise magnitude growth of one transform: a factor
/// of three per splitting stage, the larger half governing the depth.
pub open spec fn growth(n: int) -> int
    decreases n,
{
    if n <= 1 {
        1
    } else {
        3 * growth((n + 1) / 2)
    }
}

/// The growth factor never shrinks as the frame grows.
pub proof fn lemma_growth_mono(a: int, b: int)
    requires
        a <= b,
    ensures
        growth(a) <= growth(b),
    decreases b,
{
    if b <= 1 || a == b {
    } else if a <= 1 {
        lemma_growth_pos((b + 1) / 2);
        assert(growth(b) == 3 * growth((b + 1) / 2));
        assert(growth(b) >= 3) by (nonlinear_arith)
            requires growth(b) == 3 * growth((b + 1) / 2), growth((b + 1) / 2) >= 1;
    } else {
        vstd::arithmetic::div_mod::lemma_div_is_ordered(a + 1, b + 1, 2);
        lemma_growth_mono((a + 1) / 2, (b + 1) / 2);
        assert(3 * growth((a + 1) / 2) <= 3 * growth((b + 1) / 2));
    }
}

/// Concrete growth factors of the frame lengths the analysis and its
/// tests use.
pub proof fn lemma_growth_values()
    ensures
        growth(1) == 1,
        growth(2) == 3,
        growth(3) == 9,
        growth(4) == 9,
        growth(5) == 27,
        growth(8) == 27,
        growth(9) == 81,
        growth(16) == 81,
        growth(17) == 243,
        growth(32) == 243,
        growth(33) == 729,
        growth(64) == 729,
        growth(65) == 2187,
        growth(128) == 2187,
        growth(129) == 6561,
        growth(256) == 6561,
        growth(257) == 19683,
        growth(512) == 19683,
        growth(513) == 59049,
        growth(1024) == 59049,
{
    assert(growth(1) == 1);
    assert(growth(2) == 3);
    assert(growth(3) == 9);
    assert(growth(4) == 9);
    assert(growth(5) == 27);
    assert(growth(8) == 27);
    assert(growth(9) == 81);
    assert(growth(16) == 81);
    assert(growth(17) == 243);
    assert(growth(32) == 243);
    assert(growth(33) == 729);
    assert(growth(64) == 729);
    assert(growth(65) == 2187);
    assert(growth(128) == 2187);
    assert(growth(129) == 6561);
    assert(growth(256) == 6561);
    assert(growth(257) == 19683);
    assert(growth(512) == 19683);
    assert(growth(513) == 59049);
    assert(growth(1024) == 59049);
}

/// The cosine and sine specs always stay within one unit.
pub proof fn lemma_trig_bounds(t: int)
    ensures
        -SCALE <= cos_turns_spec(t) <= SCALE,
        -SCALE <= sin_turns_spec(t) <= SCALE,
{
}

/// A transform of a frame bounded by `m` is bounded by `growth(len) * m`.
#[verifier::rlimit(50)]
pub proof fn lemma_fft_spec_bound(s: Seq<DataPoint>, m: int, reverse: bool)
    requires
        all_cabs_le(s, m),
        m >= 0,
        growth(s.len() as int) * m <= 0x2000_0000_0000,
    ensures
        all_cabs_le(fft_spec(s, reverse), growth(s.len() as int) * m),
    decreases s.len(),
{
    let n = s.len() as int;
    if s.len() <= 1 {
        assert(growth(n) * m == m) by (nonlinear_arith)
            requires growth(n) == 1;
        assert(all_cabs_le(fft_spec(s, reverse), growth(n) * m));
    } else {
        let h = n / 2;
        let he = (n + 1) / 2;
        let g = growth(he);
        assert(growth(n) == 3 * g);
        lemma_growth_pos(he);
        lemma_growth_pos(h);
        lemma_growth_mono(h, he);
        assert(0 <= g * m && g * m <= 3 * g * m && 3 * (g * m) == 3 * g * m
            && g * m <= 0x2000_0000_0000 && growth(h) * m <= g * m
            && 0 <= growth(h) * m) by (nonlinear_arith)
            requires m >= 0, 1 <= growth(h) <= g, 3 * g * m <= 0x2000_0000_0000;
        assert(all_cabs_le(evens(s), m));
        assert(all_cabs_le(odds(s), m));
        lemma_fft_spec_bound(evens(s), m, reverse);
        lemma_fft_spec_bound(odds(s), m, reverse);
        let e = fft_spec(evens(s), reverse);
        let o = fft_spec(odds(s), reverse);
        let gm = g * m;
        assert(all_cabs_le(e, gm));
        assert(all_cabs_le(o, gm));
        assert forall|i: int| 0 <= i < n
            implies -(3 * gm) <= #[trigger] fft_spec(s, reverse)[i].0 <= 3 * gm
                && -(3 * gm) <= fft_spec(s, reverse)[i].1 <= 3 * gm by {
            vstd::arithmetic::div_mod::lemma_mod_bound(i, h);
            let j = i % h;
            let w = twiddle_spec(i, n, reverse);
            lemma_trig_bounds(sdiv(i * SCALE as int, n));
            let num_re = w.0 * o[j].0 - w.1 * o[j].1;
            let num_im = w.0 * o[j].1 + w.1 * o[j].0;
            assert(-(2 * SCALE as int * gm) <= num_re <= 2 * SCALE as int * gm
                && -(2 * SCALE as int * gm) <= num_im <= 2 * SCALE as int * gm)
                by (nonlinear_arith)
                requires -SCALE <= w.0 <= SCALE, -SCALE <= w.1 <= SCALE,
                    -gm <= o[j].0 <= gm, -gm <= o[j].1 <= gm, gm >= 0,
                    num_re == w.0 * o[j].0 - w.1 * o[j].1,
                    num_im == w.0 * o[j].1 + w.1 * o[j].0;
            lemma_sdiv_mag(num_re, SCALE as int, 2 * SCALE as int * gm);
            lemma_sdiv_mag(num_im, SCALE as int, 2 * SCALE as int * gm);
            assert((2 * SCALE as int * gm) / SCALE as int == 2 * gm) by {
                vstd::arithmetic::div_mod::lemma_div_multiples_vanish(2 * gm, SCALE as int);
                assert(2 * SCALE as int * gm == SCALE as int * (2 * gm)) by (nonlinear_arith);
            }
            assert(fft_spec(s, reverse)[i]
                == cadd_spec(e[j], cmul_spec(twiddle_spec(i, n, reverse), o[j])));
        }
    }
}

proof fn lemma_growth_pos(n: int)
    ensures
        growth(n) >= 1,
    decreases n,
{
    if n > 1 {
        lemma_growth_pos((n + 1) / 2);
        assert(growth(n) == 3 * growth((n + 1) / 2));
        assert(growth(n) >= 3) by (nonlinear_arith)
            requires growth(n) == 3 * growth((n + 1) / 2), growth((n + 1) / 2) >= 1;
    }
}

/// Componentwise bounds of one twiddle rotation: a unit-magnitude factor
/// at most doubles the bound of the rotated value.
proof fn lemma_cmul_bounds(w: DataPoint, z: DataPoint, m: int)
    requires
        -SCALE <= w.0 <= SCALE,
        -SCALE <= w.1 <= SCALE,
        0 <= m <= 0x2000_0000_0000,
        -m <= z.0 <= m,
        -m <= z.1 <= m,
    ensures
        -(SCALE as int * m) <= w.0 * z.0 <= SCALE as int * m,
        -(SCALE as int * m) <= w.1 * z.1 <= SCALE as int * m,
        -(SCALE as int * m) <= w.0 * z.1 <= SCALE as int * m,
        -(SCALE as int * m) <= w.1 * z.0 <= SCALE as int * m,
        SCALE as int * m <= 0x2000_0000_0000_0000,
        -(2 * m) <= cmul_spec(w, z).0 <= 2 * m,
        -(2 * m) <= cmul_spec(w, z).1 <= 2 * m,
{
    assert(-(SCALE as int * m) <= w.0 * z.0 <= SCALE as int * m
        && -(SCALE as int * m) <= w.1 * z.1 <= SCALE as int * m
        && -(SCALE as int * m) <= w.0 * z.1 <= SCALE as int * m
        && -(SCALE as int * m) <= w.1 * z.0 <= SCALE as int * m
        && SCALE as int * m <= 0x2000_0000_0000_0000) by (nonlinear_arith)
        requires -SCALE <= w.0 <= SCALE, -SCALE <= w.1 <= SCALE,
            -m <= z.0 <= m, -m <= z.1 <= m, 0 <= m <= 0x2000_0000_0000;
    assert(2 * SCALE as int * m == 2 * (SCALE as int * m)) by (nonlinear_arith);
    lemma_sdiv_mag(w.0 * z.0 - w.1 * z.1, SCALE as int, 2 * SCALE as int * m);
    lemma_sdiv_mag(w.0 * z.1 + w.1 * z.0, SCALE as int, 2 * SCALE as int * m);
    assert((2 * SCALE as int * m) / SCALE as int == 2 * m) by {
        vstd::arithmetic::div_mod::lemma_div_multiples_vanish(2 * m, SCALE as int);
        assert(2 * SCALE as int * m == SCALE as int * (2 * m)) by (nonlinear_arith);
    }
}

/// One output bin of the combining stage, written out of the recursive
/// definition.
proof fn lemma_fft_unfold(orig: Seq<DataPoint>, reverse: bool, k: int)
    requires
        orig.len() >= 2,
        0 <= k < orig.len(),
    ensures
        fft_spec(orig, reverse)[k] == cadd_spec(
            fft_spec(evens(orig), reverse)[k % (orig.len() as int / 2)],
            cmul_spec(
                twiddle_spec(k, orig.len() as int, reverse),
                fft_spec(odds(orig), reverse)[k % (orig.len() as int / 2)])),
{
}

/// Transforms the frame in place: the classic even/odd split with
/// twiddle-factor rotation; `reverse` selects the inverse (conjugate)
/// direction.
#[verifier::rlimit(100)]
pub fn fft(data: &mut Vec<DataPoint>, reverse: bool)
    requires
        old(data)@.len() <= 0x1000_0000,
        all_cabs_le(old(data)@, FFT_VAL_MAX as int),
        growth(old(data)@.len() as int) * (FFT_VAL_MAX as int) <= 0x2000_0000_0000,
    ensures
        final(data)@ == fft_spec(old(data)@, reverse),
    decreases old(data)@.len(),
{
    let n = data.len();
    if n <= 1 {
        return;
    }
    let ghost orig = data@;
    let he = (n + 1) / 2;
    let h = n / 2;
    let mut b: Vec<DataPoint> = Vec::new();
    let mut c: Vec<DataPoint> = Vec::new();
    let mut i: usize = 0;
    while i < he
        invariant
            i <= he,
            he == (n + 1) / 2,
            2 <= n == data@.len() <= 0x1000_0000,
            data@ == orig,
            b@.len() == i,
            forall|j: int| 0 <= j < i ==> #[trigger] b@[j] == orig[2 * j],
        decreases he - i,
    {
        b.push(data[2 * i]);
        i = i + 1;
    }
    let mut q: usize = 0;
    while q < h
        invariant
            q <= h,
            h == n / 2,
            2 <= n == data@.len() <= 0x1000_0000,
            data@ == orig,
            c@.len() == q,
            forall|j: int| 0 <= j < q ==> #[trigger] c@[j] == orig[2 * j + 1],
        decreases h - q,
    {
        c.push(data[2 * q + 1]);
        q = q + 1;
    }
    proof {
        assert(b@ =~= evens(orig));
        assert(c@ =~= odds(orig));
        lemma_growth_pos((he) as int);
        lemma_growth_pos(h as int);
        lemma_growth_mono(h as int, he as int);
        assert(growth(n as int) == 3 * growth(he as int));
        assert(growth(he as int) * (FFT_VAL_MAX as int) <= 0x2000_0000_0000
            && growth(h as int) * (FFT_VAL_MAX as int)
                <= growth(he as int) * (FFT_VAL_MAX as int)
            && 0 <= growth(h as int) * (FFT_VAL_MAX as int)
            && 3 * (growth(he as int) * (FFT_VAL_MAX as int))
                == growth(n as int) * (FFT_VAL_MAX as int)) by (nonlinear_arith)
            requires 1 <= growth(h as int) <= growth(he as int),
                growth(n as int) == 3 * growth(he as int),
                growth(n as int) * (FFT_VAL_MAX as int) <= 0x2000_0000_0000,
                FFT_VAL_MAX > 0;
    }
    fft(&mut b, reverse);
    fft(&mut c, reverse);
    let ghost gb = growth(he as int) * (FFT_VAL_MAX as int);
    proof {
        lemma_fft_spec_bound(evens(orig), FFT_VAL_MAX as int, reverse);
        lemma_fft_spec_bound(odds(orig), FFT_VAL_MAX as int, reverse);
        assert forall|j: int| 0 <= j < c@.len()
            implies -gb <= (#[trigger] c@[j]).0 <= gb && -gb <= c@[j].1 <= gb by {
            assert(-(growth(h as int) * (FFT_VAL_MAX as int)) <= c@[j].0
                <= growth(h as int) * (FFT_VAL_MAX as int));
        }
    }
    let mut k: usize = 0;
    while k < n
        invariant
            k <= n,
            2 <= n <= 0x1000_0000,
            he == (n + 1) / 2,
            h == n / 2,
            n == data@.len(),
            b@ == fft_spec(evens(orig), reverse),
            c@ == fft_spec(odds(orig), reverse),
            b@.len() == he,
            c@.len() == h,
            orig.len() == n,
            gb == growth(he as int) * (FFT_VAL_MAX as int),
            0 <= gb,
            3 * gb <= 0x2000_0000_0000,
            all_cabs_le(b@, gb),
            all_cabs_le(c@, gb),
            forall|j: int| k <= j < n ==> #[trigger] data@[j] == orig[j],
            forall|j: int| 0 <= j < k ==> #[trigger] data@[j] == fft_spec(orig, reverse)[j],
        decreases n - k,
    {
        proof {
            assert((k as int) * (SCALE as int) < (n as int) * (SCALE as int))
                by (nonlinear_arith)
                requires k < n;
            lemma_sdiv_lt((k as int) * (SCALE as int), n as int, SCALE as int);
        }
        let t = div_trunc((k as i64) * SCALE, n as i64);
        let ct = cos_turns(t);
        let st = sin_turns(t);
        let w = DataPoint(ct, if reverse { -st } else { st });
        let idx = k % h;
        proof {
            vstd::arithmetic::div_mod::lemma_mod_bound(k as int, h as int);
            lemma_cmul_bounds(w, c@[idx as int], gb);
        }
        let prod = w.mul(c[idx]);
        proof {
            lemma_fft_unfold(orig, reverse, k as int);
            assert(w == twiddle_spec(k as int, n as int, reverse));
        }
        let val = b[idx].add(prod);
        data.set(k, val);
        k = k + 1;
    }
    proof {
        assert(data@ =~= fft_spec(orig, reverse));
    }
}

/// Absolute value.
pub open spec fn iabs(x: int) -> int {
    if x < 0 {
        -x
    } else {
        x
    }
}

/// The real-input transform: samples wrapped into complex pairs,
/// transformed, then collapsed back to the absolute (`positive`) or signed
/// real part; the inverse direction is scaled by `1/len`.
pub open spec fn rfft_spec(s: Seq<i64>, reverse: bool, positive: bool) -> Seq<i64> {
    let f = fft_spec(Seq::new(s.len(), |i: int| DataPoint(s[i], 0)), reverse);
    let g = Seq::new(s.len(), |i: int|
        (if positive { iabs(f[i].0 as int) } else { f[i].0 as int }) as i64);
    if reverse {
        Seq::new(s.len(), |i: int| sdiv(g[i] as int, s.len() as int) as i64)
    } else {
        g
    }
}

/// Real-input wrapper around [`fft`]: wraps samples into complex pairs,
/// transforms, and extracts the absolute or signed real part, applying the
/// `1/len` scaling in the inverse direction.
pub fn rfft(data: &mut Vec<i64>, reverse: bool, positive: bool)
    requires
        1 <= old(data)@.len() <= 0x1000_0000,
        all_abs_le(old(data)@, FFT_VAL_MAX as int),
        growth(old(data)@.len() as int) * (FFT_VAL_MAX as int) <= 0x2000_0000_0000,
    ensures
        final(data)@ == rfft_spec(old(data)@, reverse, positive),
        all_abs_le(final(data)@, growth(old(data)@.len() as int) * (FFT_VAL_MAX as int)),
{
    let n = data.len();
    let ghost orig = data@;
    let ghost gb = growth(n as int) * (FFT_VAL_MAX as int);
    let mut cs: Vec<DataPoint> = Vec::new();
    let mut i: usize = 0;
    while i < n
        invariant
            i <= n,
            n == data@.len(),
            data@ == orig,
            all_abs_le(orig, FFT_VAL_MAX as int),
            cs@.len() == i,
            forall|j: int| 0 <= j < i ==> #[trigger] cs@[j] == DataPoint(orig[j], 0i64),
        decreases n - i,
    {
        cs.push(DataPoint(data[i], 0));
        i = i + 1;
    }
    proof {
        assert(cs@ =~= Seq::new(orig.len(), |j: int| DataPoint(orig[j], 0i64)));
    }
    fft(&mut cs, reverse);
    proof {
        lemma_fft_spec_bound(Seq::new(orig.len(), |j: int| DataPoint(orig[j], 0i64)),
            FFT_VAL_MAX as int, reverse);
    }
    let ghost f = fft_spec(Seq::new(orig.len(), |j: int| DataPoint(orig[j], 0i64)), reverse);
    let ghost gseq = Seq::new(orig.len(), |j: int|
        (if positive { iabs(f[j].0 as int) } else { f[j].0 as int }) as i64);
    proof {
        lemma_growth_pos(n as int);
        assert(0 <= gb) by (nonlinear_arith)
            requires gb == growth(n as int) * (FFT_VAL_MAX as int),
                growth(n as int) >= 1, FFT_VAL_MAX > 0;
    }
    let mut k: usize = 0;
    while k < n
        invariant
            k <= n,
            n == data@.len() == cs@.len() == orig.len(),
            cs@ == f,
            gb == growth(n as int) * (FFT_VAL_MAX as int),
            gseq == Seq::new(orig.len(), |j: int|
                (if positive { iabs(f[j].0 as int) } else { f[j].0 as int }) as i64),
            all_cabs_le(f, gb),
            0 <= gb <= 0x2000_0000_0000,
            forall|j: int| k <= j < n ==> #[trigger] data@[j] == orig[j],
            forall|j: int| 0 <= j < k ==> #[trigger] data@[j] == gseq[j],
        decreases n - k,
    {
        let x = cs[k].0;
        if positive {
            if x < 0 {
                data.set(k, -x);
            } else {
                data.set(k, x);
            }
        } else {
            data.set(k, x);
        }
        k = k + 1;
    }
    if reverse {
        let mut j: usize = 0;
        while j < n
            invariant
                j <= n,
                1 <= n == data@.len() == orig.len(),
                n <= 0x1000_0000,
                gseq.len() == n,
                gb == growth(n as int) * (FFT_VAL_MAX as int),
                0 <= gb <= 0x2000_0000_0000,
                forall|q: int| 0 <= q < n ==> -gb <= #[trigger] gseq[q] <= gb,
                forall|q: int| j <= q < n ==> #[trigger] data@[q] == gseq[q],
                forall|q: int| 0 <= q < j ==> #[trigger] data@[q]
                    == sdiv(gseq[q] as int, n as int) as i64,
        decreases n - j,
        {
            proof {
                lemma_sdiv_mag(data@[j as int] as int, n as int, gb);
                vstd::arithmetic::div_mod::lemma_div_is_ordered(gb, 0x2000_0000_0000, n as int);
            }
            let y = div_trunc(data[j], n as i64);
            data.set(j, y);
            j = j + 1;
        }
        proof {
            assert(data@ =~= rfft_spec(orig, reverse, positive));
            assert forall|q: int| 0 <= q < n
                implies -gb <= #[trigger] data@[q] <= gb by {
                lemma_sdiv_mag(gseq[q] as int, n as int, gb);
                vstd::arithmetic::div_mod::lemma_div_is_ordered(gb, gb, n as int);
                vstd::arithmetic::div_mod::lemma_div_basics_5(gb, n as int);
            }
        }
    } else {
        proof {
            assert(data@ =~= rfft_spec(orig, reverse, positive));
        }
    }
}

/// The Hamming window never enlarges a sample: each weight lies in
/// `[0, SCALE]`, so the windowed frame keeps any magnitude bound of the
/// input.
pub proof fn lemma_hamming_bound(s: Seq<i64>, m: int)
    requires
        all_abs_le(s, m),
        0 <= m,
    ensures
        all_abs_le(hamming_spec(s), m),
{
    assert forall|i: int| 0 <= i < s.len()
        implies -m <= #[trigger] hamming_spec(s)[i] <= m by {
        if i == 0 || i == s.len() - 1 {
        } else {
            let co = cos_turns_spec(sdiv(i * SCALE as int, s.len() - 1));
            let h = ham_coeff(i, s.len() as int);
            lemma_sdiv_mag(HAM_B as int * co, SCALE as int, HAM_B as int * SCALE as int);
            assert(-(HAM_B as int * SCALE as int) <= HAM_B as int * co
                <= HAM_B as int * SCALE as int) by (nonlinear_arith)
                requires -SCALE <= co <= SCALE;
            assert((HAM_B as int * SCALE as int) / SCALE as int == HAM_B as int) by {
                vstd::arithmetic::div_mod::lemma_div_multiples_vanish(
                    HAM_B as int, SCALE as int);
                vstd::arithmetic::mul::lemma_mul_is_commutative(HAM_B as int, SCALE as int);
            }
            assert(0 <= h <= SCALE);
            assert(-(m * SCALE as int) <= s[i] * h <= m * SCALE as int)
                by (nonlinear_arith)
                requires -m <= s[i] <= m, 0 <= h <= SCALE, 0 <= m;
            lemma_sdiv_mag(s[i] * h, SCALE as int, m * SCALE as int);
            assert((m * SCALE as int) / SCALE as int == m) by {
                vstd::arithmetic::div_mod::lemma_div_multiples_vanish(m, SCALE as int);
                vstd::arithmetic::mul::lemma_mul_is_commutative(m, SCALE as int);
            }
        }
    }
}

/// A normalized frame lies in `[0, SCALE]`: the rescale maps into the unit
/// range, and a zero-range frame is all zero to begin with.
pub proof fn lemma_normalize_abs(s: Seq<i64>)
    requires
        all_abs_le(s, 0x1000_0000_0000),
    ensures
        forall|i: int| 0 <= i < s.len() ==> 0 <= #[trigger] normalize_spec(s)[i] <= SCALE,
    decreases s.len(),
{
    lemma_normalize_bounds(s);
    if vmax0(s) == vmin0(s) {
        assert forall|i: int| 0 <= i < s.len()
            implies 0 <= #[trigger] normalize_spec(s)[i] <= SCALE by {
            lemma_vminmax0_bounds(s, i);
        }
    }
}

/// The element-wise average of two frames keeps their common magnitude
/// bound.
pub proof fn lemma_smoothing_bound(a: Seq<i64>, b: Seq<i64>, m: int)
    requires
        a.len() == b.len(),
        all_abs_le(a, m),
        all_abs_le(b, m),
        0 <= m <= 0x1000_0000_0000_0000,
    ensures
        all_abs_le(smoothing_spec(a, b), m),
{
    assert forall|i: int| 0 <= i < a.len()
        implies -m <= #[trigger] smoothing_spec(a, b)[i] <= m by {
        lemma_sdiv_mag(a[i] + b[i], 2, 2 * m);
        assert((2 * m) / 2 == m) by {
            vstd::arithmetic::div_mod::lemma_div_multiples_vanish(m, 2);
        }
    }
}

/// The liftered frame keeps any magnitude bound of the input.
pub proof fn lemma_lifter_bound(s: Seq<i64>, level: int, m: int)
    requires
        all_abs_le(s, m),
        0 <= m,
    ensures
        all_abs_le(lifter_spec(s, level), m),
{
}

/// The smallest element of a non-empty frame lies within the frame's
/// magnitude bound.
proof fn lemma_vmin_bounds(s: Seq<i64>, m: int)
    requires
        1 <= s.len(),
        all_abs_le(s, m),
    ensures
        -m <= vmin(s) <= m,
    decreases s.len(),
{
    if s.len() <= 1 {
    } else {
        assert(all_abs_le(s.drop_last(), m)) by {
            assert(forall|i: int| 0 <= i < s.len() - 1 ==> s.drop_last()[i] == s[i]);
        }
        lemma_vmin_bounds(s.drop_last(), m);
    }
}

/// The band-passed frame keeps any magnitude bound of at least one tick.
pub proof fn lemma_filter_bound(s: Seq<i64>, lowcut: int, highcut: int, m: int)
    requires
        1 <= s.len(),
        all_abs_le(s, m),
        1 <= m,
    ensures
        all_abs_le(filter_spec(s, lowcut, highcut), m),
{
    lemma_vmin_bounds(s, m);
}

/// The inverse transform of a unit-range half-spectrum frame stays within
/// the magnitude the transform admits, thanks to the final `1/len`
/// scaling.
pub proof fn lemma_rfft_rev_bound(s: Seq<i64>)
    requires
        s.len() == 513,
        all_abs_le(s, SCALE as int),
    ensures
        all_abs_le(rfft_spec(s, true, false), FFT_VAL_MAX as int),
{
    let cs = Seq::new(s.len(), |i: int| DataPoint(s[i], 0));
    assert(all_cabs_le(cs, SCALE as int));
    lemma_growth_values();
    lemma_fft_spec_bound(cs, SCALE as int, true);
    let f = fft_spec(cs, true);
    let bound = 59049int * 65536;
    assert(all_cabs_le(f, bound));
    assert forall|i: int| 0 <= i < s.len()
        implies -FFT_VAL_MAX <= #[trigger] rfft_spec(s, true, false)[i] <= FFT_VAL_MAX by {
        lemma_sdiv_mag(f[i].0 as int, 513, bound);
    }
}

/// Multiplying by an exact unit (one, minus one, or a quarter rotation)
/// permutes and negates components without any rounding.
proof fn lemma_cmul_units(z: DataPoint)
    requires
        -0x1000_0000_0000_0000 <= z.0 <= 0x1000_0000_0000_0000,
        -0x1000_0000_0000_0000 <= z.1 <= 0x1000_0000_0000_0000,
    ensures
        cmul_spec(DataPoint(SCALE, 0i64), z) == z,
        cmul_spec(DataPoint((-65536) as i64, 0i64), z) == DataPoint((-z.0) as i64, (-z.1) as i64),
        cmul_spec(DataPoint(0i64, SCALE), z) == DataPoint((-z.1) as i64, z.0),
        cmul_spec(DataPoint(0i64, (-65536) as i64), z) == DataPoint(z.1, (-z.0) as i64),
{
    let x = z.0 as int;
    let y = z.1 as int;
    crate::fixed::lemma_sdiv_exact(x, SCALE as int);
    crate::fixed::lemma_sdiv_exact(y, SCALE as int);
    crate::fixed::lemma_sdiv_exact(-x, SCALE as int);
    crate::fixed::lemma_sdiv_exact(-y, SCALE as int);
    assert(65536 * x - 0 * y == 65536 * x && 65536 * y + 0 * x == 65536 * y
        && (-65536) * x - 0 * y == 65536 * (-x) && (-65536) * y + 0 * x == 65536 * (-y)
        && 0 * x - 65536 * y == 65536 * (-y) && 0 * y + 65536 * x == 65536 * x
        && 0 * x - (-65536) * y == 65536 * y && 0 * y + (-65536) * x == 65536 * (-x))
        by (nonlinear_arith);
}

/// The transform's round trip is exact on two-sample frames: a forward
/// pass followed by the inverse pass with its `1/len` scaling returns the
/// original real sequence unchanged, because every twiddle factor of a
/// two-point stage is an exact unit.
pub proof fn lemma_rfft_round_trip_len2(s: Seq<i64>)
    requires
        s.len() == 2,
        all_abs_le(s, 0x1000_0000_0000_0000),
    ensures
        rfft_spec(rfft_spec(s, false, false), true, false) == s,
{
    let a = s[0] as int;
    let b = s[1] as int;
    assert(cos_qturn_spec(0) == SCALE as int);
    assert(cos_qturn_spec(65536) == 0);
    assert(cos_turns_spec(0) == SCALE);
    assert(sin_turns_spec(0) == cos_turns_spec(49152));
    assert(sin_turns_spec(0) == 0);
    assert(cos_turns_spec(32768) == -65536);
    assert(sin_turns_spec(32768) == cos_turns_spec(16384));
    assert(sin_turns_spec(32768) == 0);
    assert(sdiv(0 * SCALE as int, 2) == 0);
    assert(sdiv(1 * SCALE as int, 2) == 32768);
    crate::fixed::lemma_sdiv_exact(b, SCALE as int);
    crate::fixed::lemma_sdiv_exact(-b, SCALE as int);
    let cs = Seq::new(s.len(), |i: int| DataPoint(s[i], 0));
    assert(evens(cs) =~= seq![DataPoint(s[0], 0i64)]);
    assert(odds(cs) =~= seq![DataPoint(s[1], 0i64)]);
    let f1 = fft_spec(cs, false);
    lemma_fft_unfold(cs, false, 0);
    lemma_fft_unfold(cs, false, 1);
    assert(fft_spec(evens(cs), false) == evens(cs));
    assert(fft_spec(odds(cs), false) == odds(cs));
    assert(f1[0] == cadd_spec(DataPoint(s[0], 0i64),
        cmul_spec(twiddle_spec(0, 2, false), DataPoint(s[1], 0i64))));
    assert(f1[1] == cadd_spec(DataPoint(s[0], 0i64),
        cmul_spec(twiddle_spec(1, 2, false), DataPoint(s[1], 0i64))));
    assert(sdiv(0 * SCALE as int, 2) == 0);
    assert(twiddle_spec(0, 2, false) == DataPoint(65536i64, 0i64));
    assert(twiddle_spec(1, 2, false) == DataPoint(-65536i64, 0i64));
    assert(twiddle_spec(0, 2, true) == DataPoint(65536i64, 0i64));
    assert(twiddle_spec(1, 2, true) == DataPoint(-65536i64, 0i64));
    assert(sdiv(65536 * b, 65536) == b);
    assert(sdiv(0, 65536) == 0) by {
        vstd::arithmetic::div_mod::lemma_div_basics(65536);
    }
    assert(65536 * b - 0 * 0 == 65536 * b) by (nonlinear_arith);
    assert(65536int * 0 + 0 * b == 0) by (nonlinear_arith);
    assert(cmul_spec(DataPoint(65536i64, 0i64), DataPoint(s[1], 0i64)).0 == s[1]);
    assert(cmul_spec(DataPoint(65536i64, 0i64), DataPoint(s[1], 0i64)).1 == 0);
    assert(cmul_spec(twiddle_spec(0, 2, false), DataPoint(s[1], 0i64))
        == DataPoint(s[1], 0i64));
    assert((-65536) * b - 0 * 0 == 65536 * (-b) && (-65536) * 0 + 0 * b == 0)
        by (nonlinear_arith);
    assert(cmul_spec(twiddle_spec(1, 2, false), DataPoint(s[1], 0i64)).0 == -b);
    assert(cmul_spec(twiddle_spec(1, 2, false), DataPoint(s[1], 0i64)).1 == 0);
    let g = rfft_spec(s, false, false);
    assert(g[0] == (a + b) as i64);
    assert(g[1] == (a - b) as i64);
    let cs2 = Seq::new(g.len(), |i: int| DataPoint(g[i], 0));
    let gb1 = g[1] as int;
    assert(gb1 == a - b);
    assert(65536 * gb1 - 0 * 0 == 65536 * gb1 && 65536int * 0 + 0 * gb1 == 0)
        by (nonlinear_arith);
    assert((-65536) * gb1 - 0 * 0 == 65536 * (-gb1) && (-65536) * 0 + 0 * gb1 == 0)
        by (nonlinear_arith);
    assert(evens(cs2) =~= seq![DataPoint(g[0], 0i64)]);
    assert(odds(cs2) =~= seq![DataPoint(g[1], 0i64)]);
    crate::fixed::lemma_sdiv_exact((a - b), SCALE as int);
    crate::fixed::lemma_sdiv_exact(-(a - b), SCALE as int);
    let f2 = fft_spec(cs2, true);
    lemma_fft_unfold(cs2, true, 0);
    lemma_fft_unfold(cs2, true, 1);
    assert(fft_spec(evens(cs2), true) == evens(cs2));
    assert(fft_spec(odds(cs2), true) == odds(cs2));
    assert(f2[0] == cadd_spec(DataPoint(g[0], 0i64),
        cmul_spec(twiddle_spec(0, 2, true), DataPoint(g[1], 0i64))));
    assert(f2[1] == cadd_spec(DataPoint(g[0], 0i64),
        cmul_spec(twiddle_spec(1, 2, true), DataPoint(g[1], 0i64))));
    assert(f2[0].0 == 2 * a);
    assert(f2[1].0 == 2 * b);
    crate::fixed::lemma_sdiv_exact(a, 2);
    crate::fixed::lemma_sdiv_exact(b, 2);
    assert(rfft_spec(g, true, false)[0] == s[0]);
    assert(rfft_spec(g, true, false)[1] == s[1]);
    assert(rfft_spec(rfft_spec(s, false, false), true, false) =~= s);
}

/// The transform's round trip is exact on four-sample frames whose two
/// odd positions agree (so the forward spectrum is purely real, as it is
/// for any even-symmetric frame): the forward pass followed by the
/// inverse pass with its `1/len` scaling returns the original sequence
/// unchanged, because every twiddle factor of a four-point stage is an
/// exact unit.
#[verifier::rlimit(60)]
pub proof fn lemma_rfft_round_trip_len4(s: Seq<i64>)
    requires
        s.len() == 4,
        s[1] == s[3],
        all_abs_le(s, 0x100_0000_0000_0000),
    ensures
        rfft_spec(rfft_spec(s, false, false), true, false) == s,
{
    let a = s[0] as int;
    let b = s[1] as int;
    let c = s[2] as int;
    assert(cos_qturn_spec(0) == SCALE as int);
    assert(cos_qturn_spec(65536) == 0);
    assert(sdiv(0 * SCALE as int, 4) == 0);
    assert(sdiv(1 * SCALE as int, 4) == 16384);
    assert(sdiv(2 * SCALE as int, 4) == 32768);
    assert(sdiv(3 * SCALE as int, 4) == 49152);
    assert(sdiv(0 * SCALE as int, 2) == 0);
    assert(sdiv(1 * SCALE as int, 2) == 32768);
    assert(cos_turns_spec(0) == SCALE && sin_turns_spec(0) == cos_turns_spec(49152));
    assert(sin_turns_spec(0) == 0);
    assert(cos_turns_spec(16384) == 0 && sin_turns_spec(16384) == cos_turns_spec(0));
    assert(cos_turns_spec(32768) == -65536 && sin_turns_spec(32768) == cos_turns_spec(16384));
    assert(cos_turns_spec(49152) == 0 && sin_turns_spec(49152) == cos_turns_spec(32768));
    assert(twiddle_spec(0, 4, false) == DataPoint(65536i64, 0i64));
    assert(twiddle_spec(1, 4, false) == DataPoint(0i64, 65536i64));
    assert(twiddle_spec(2, 4, false) == DataPoint((-65536) as i64, 0i64));
    assert(twiddle_spec(3, 4, false) == DataPoint(0i64, (-65536) as i64));
    assert(twiddle_spec(0, 4, true) == DataPoint(65536i64, 0i64));
    assert(twiddle_spec(1, 4, true) == DataPoint(0i64, (-65536) as i64));
    assert(twiddle_spec(2, 4, true) == DataPoint((-65536) as i64, 0i64));
    assert(twiddle_spec(3, 4, true) == DataPoint(0i64, 65536i64));
    assert(twiddle_spec(0, 2, false) == DataPoint(65536i64, 0i64));
    assert(twiddle_spec(1, 2, false) == DataPoint((-65536) as i64, 0i64));
    assert(twiddle_spec(0, 2, true) == DataPoint(65536i64, 0i64));
    assert(twiddle_spec(1, 2, true) == DataPoint((-65536) as i64, 0i64));

    let cs = Seq::new(s.len(), |i: int| DataPoint(s[i], 0));
    let ev = evens(cs);
    let od = odds(cs);
    assert(ev =~= seq![DataPoint(s[0], 0i64), DataPoint(s[2], 0i64)]);
    assert(od =~= seq![DataPoint(s[1], 0i64), DataPoint(s[3], 0i64)]);
    assert(evens(ev) =~= seq![DataPoint(s[0], 0i64)]);
    assert(odds(ev) =~= seq![DataPoint(s[2], 0i64)]);
    assert(evens(od) =~= seq![DataPoint(s[1], 0i64)]);
    assert(odds(od) =~= seq![DataPoint(s[3], 0i64)]);
    lemma_cmul_units(DataPoint(s[2], 0i64));
    lemma_cmul_units(DataPoint(s[3], 0i64));
    lemma_fft_unfold(ev, false, 0);
    lemma_fft_unfold(ev, false, 1);
    lemma_fft_unfold(od, false, 0);
    lemma_fft_unfold(od, false, 1);
    let fe = fft_spec(ev, false);
    let fo = fft_spec(od, false);
    assert(fe[0] == DataPoint((a + c) as i64, 0i64));
    assert(fe[1] == DataPoint((a - c) as i64, 0i64));
    assert(fo[0] == DataPoint((2 * b) as i64, 0i64));
    assert(fo[1] == DataPoint(0i64, 0i64));
    lemma_cmul_units(DataPoint((2 * b) as i64, 0i64));
    lemma_cmul_units(DataPoint(0i64, 0i64));
    lemma_fft_unfold(cs, false, 0);
    lemma_fft_unfold(cs, false, 1);
    lemma_fft_unfold(cs, false, 2);
    lemma_fft_unfold(cs, false, 3);
    let f1 = fft_spec(cs, false);
    assert(f1[0] == DataPoint((a + c + 2 * b) as i64, 0i64));
    assert(f1[1] == DataPoint((a - c) as i64, 0i64));
    assert(f1[2] == DataPoint((a + c - 2 * b) as i64, 0i64));
    assert(f1[3] == DataPoint((a - c) as i64, 0i64));
    let g = rfft_spec(s, false, false);
    assert(g =~= seq![(a + c + 2 * b) as i64, (a - c) as i64,
        (a + c - 2 * b) as i64, (a - c) as i64]);

    let cs2 = Seq::new(g.len(), |i: int| DataPoint(g[i], 0));
    let ev2 = evens(cs2);
    let od2 = odds(cs2);
    assert(ev2 =~= seq![DataPoint(g[0], 0i64), DataPoint(g[2], 0i64)]);
    assert(od2 =~= seq![DataPoint(g[1], 0i64), DataPoint(g[3], 0i64)]);
    assert(evens(ev2) =~= seq![DataPoint(g[0], 0i64)]);
    assert(odds(ev2) =~= seq![DataPoint(g[2], 0i64)]);
    assert(evens(od2) =~= seq![DataPoint(g[1], 0i64)]);
    assert(odds(od2) =~= seq![DataPoint(g[3], 0i64)]);
    lemma_cmul_units(DataPoint(g[2], 0i64));
    lemma_cmul_units(DataPoint(g[3], 0i64));
    lemma_fft_unfold(ev2, true, 0);
    lemma_fft_unfold(ev2, true, 1);
    lemma_fft_unfold(od2, true, 0);
    lemma_fft_unfold(od2, true, 1);
    let fe2 = fft_spec(ev2, true);
    let fo2 = fft_spec(od2, true);
    assert(fe2[0] == DataPoint((2 * a + 2 * c) as i64, 0i64));
    assert(fe2[1] == DataPoint((4 * b) as i64, 0i64));
    assert(fo2[0] == DataPoint((2 * a - 2 * c) as i64, 0i64));
    assert(fo2[1] == DataPoint(0i64, 0i64));
    lemma_cmul_units(DataPoint((2 * a - 2 * c) as i64, 0i64));
    lemma_fft_unfold(cs2, true, 0);
    lemma_fft_unfold(cs2, true, 1);
    lemma_fft_unfold(cs2, true, 2);
    lemma_fft_unfold(cs2, true, 3);
    let f2 = fft_spec(cs2, true);
    assert(f2[0] == DataPoint((4 * a) as i64, 0i64));
    assert(f2[1] == DataPoint((4 * b) as i64, 0i64));
    assert(f2[2] == DataPoint((4 * c) as i64, 0i64));
    assert(f2[3] == DataPoint((4 * b) as i64, 0i64));
    crate::fixed::lemma_sdiv_exact(a, 4);
    crate::fixed::lemma_sdiv_exact(b, 4);
    crate::fixed::lemma_sdiv_exact(c, 4);
    assert(rfft_spec(g, true, false) =~= s);
}

/// The four output bins of a four-point transform, written out
/// component by component: only sums, differences and exact quarter
/// rotations of the inputs, since every twiddle factor is a unit.
#[verifier::rlimit(100)]
#[verifier::spinoff_prover]
proof fn lemma_fft_len4_values(s: Seq<DataPoint>, reverse: bool)
    requires
        s.len() == 4,
        all_cabs_le(s, 0x100_0000_0000_0000),
    ensures
        fft_spec(s, reverse)[0].0 == s[0].0 + s[1].0 + s[2].0 + s[3].0,
        fft_spec(s, reverse)[0].1 == s[0].1 + s[1].1 + s[2].1 + s[3].1,
        fft_spec(s, reverse)[2].0 == s[0].0 - s[1].0 + s[2].0 - s[3].0,
        fft_spec(s, reverse)[2].1 == s[0].1 - s[1].1 + s[2].1 - s[3].1,
        !reverse ==> fft_spec(s, reverse)[1].0 == s[0].0 - s[2].0 - s[1].1 + s[3].1,
        !reverse ==> fft_spec(s, reverse)[1].1 == s[0].1 - s[2].1 + s[1].0 - s[3].0,
        !reverse ==> fft_spec(s, reverse)[3].0 == s[0].0 - s[2].0 + s[1].1 - s[3].1,
        !reverse ==> fft_spec(s, reverse)[3].1 == s[0].1 - s[2].1 - s[1].0 + s[3].0,
        reverse ==> fft_spec(s, reverse)[1].0 == s[0].0 - s[2].0 + s[1].1 - s[3].1,
        reverse ==> fft_spec(s, reverse)[1].1 == s[0].1 - s[2].1 - s[1].0 + s[3].0,
        reverse ==> fft_spec(s, reverse)[3].0 == s[0].0 - s[2].0 - s[1].1 + s[3].1,
        reverse ==> fft_spec(s, reverse)[3].1 == s[0].1 - s[2].1 + s[1].0 - s[3].0,
{
    assert(cos_qturn_spec(0) == SCALE as int);
    assert(cos_qturn_spec(65536) == 0);
    assert(sdiv(0 * SCALE as int, 4) == 0);
    assert(sdiv(1 * SCALE as int, 4) == 16384);
    assert(sdiv(2 * SCALE as int, 4) == 32768);
    assert(sdiv(3 * SCALE as int, 4) == 49152);
    assert(sdiv(0 * SCALE as int, 2) == 0);
    assert(sdiv(1 * SCALE as int, 2) == 32768);
    assert(cos_turns_spec(0) == SCALE && sin_turns_spec(0) == cos_turns_spec(49152));
    assert(sin_turns_spec(0) == 0);
    assert(cos_turns_spec(16384) == 0 && sin_turns_spec(16384) == cos_turns_spec(0));
    assert(cos_turns_spec(32768) == -65536 && sin_turns_spec(32768) == cos_turns_spec(16384));
    assert(cos_turns_spec(49152) == 0 && sin_turns_spec(49152) == cos_turns_spec(32768));
    assert(twiddle_spec(0, 4, reverse) == DataPoint(65536i64, 0i64));
    assert(twiddle_spec(2, 4, reverse) == DataPoint((-65536) as i64, 0i64));
    assert(!reverse ==> twiddle_spec(1, 4, reverse) == DataPoint(0i64, 65536i64)
        && twiddle_spec(3, 4, reverse) == DataPoint(0i64, (-65536) as i64));
    assert(reverse ==> twiddle_spec(1, 4, reverse) == DataPoint(0i64, (-65536) as i64)
        && twiddle_spec(3, 4, reverse) == DataPoint(0i64, 65536i64));
    assert(twiddle_spec(0, 2, reverse) == DataPoint(65536i64, 0i64));
    assert(twiddle_spec(1, 2, reverse) == DataPoint((-65536) as i64, 0i64));

    let ev = evens(s);
    let od = odds(s);
    assert(ev =~= seq![s[0], s[2]]);
    assert(od =~= seq![s[1], s[3]]);
    assert(evens(ev) =~= seq![s[0]]);
    assert(odds(ev) =~= seq![s[2]]);
    assert(evens(od) =~= seq![s[1]]);
    assert(odds(od) =~= seq![s[3]]);
    lemma_cmul_units(s[2]);
    lemma_cmul_units(s[3]);
    lemma_fft_unfold(ev, reverse, 0);
    lemma_fft_unfold(ev, reverse, 1);
    lemma_fft_unfold(od, reverse, 0);
    lemma_fft_unfold(od, reverse, 1);
    let fe = fft_spec(ev, reverse);
    let fo = fft_spec(od, reverse);
    assert(fe[0] == cadd_spec(s[0], s[2]));
    assert(fe[1] == cadd_spec(s[0], DataPoint((-s[2].0) as i64, (-s[2].1) as i64)));
    assert(fo[0] == cadd_spec(s[1], s[3]));
    assert(fo[1] == cadd_spec(s[1], DataPoint((-s[3].0) as i64, (-s[3].1) as i64)));
    lemma_cmul_units(fo[0]);
    lemma_cmul_units(fo[1]);
    lemma_fft_unfold(s, reverse, 0);
    lemma_fft_unfold(s, reverse, 1);
    lemma_fft_unfold(s, reverse, 2);
    lemma_fft_unfold(s, reverse, 3);
}

/// On four-sample complex frames the inverse transform undoes the
/// forward one exactly, up to the factor of `len` that the `1/len`
/// scaling removes: no rounding enters a four-point stage at all.
pub proof fn lemma_fft_round_trip_len4(s: Seq<DataPoint>)
    requires
        s.len() == 4,
        all_cabs_le(s, 0x40_0000_0000_0000),
    ensures
        forall|i: int| 0 <= i < 4 ==> #[trigger] fft_spec(fft_spec(s, false), true)[i]
            == DataPoint((4 * s[i].0) as i64, (4 * s[i].1) as i64),
{
    lemma_fft_len4_values(s, false);
    let f = fft_spec(s, false);
    assert(all_cabs_le(f, 0x100_0000_0000_0000));
    assert(f.len() == 4) by {
        lemma_fft_unfold(s, false, 0);
    }
    lemma_fft_len4_values(f, true);
    let g = fft_spec(f, true);
    assert(g[0] == DataPoint((4 * s[0].0) as i64, (4 * s[0].1) as i64));
    assert(g[1] == DataPoint((4 * s[1].0) as i64, (4 * s[1].1) as i64));
    assert(g[2] == DataPoint((4 * s[2].0) as i64, (4 * s[2].1) as i64));
    assert(g[3] == DataPoint((4 * s[3].0) as i64, (4 * s[3].1) as i64));
}

/// Linear interpolation `a + f * (b - a)`, with `f` in ticks.
pub open spec fn lerp_spec(a: int, b: int, f: int) -> int {
    a + sdiv(f * (b - a), SCALE as int)
}

/// Linear interpolation between `a` and `b` by the tick fraction `f`.
pub fn lerp(a: i64, b: i64, f: i64) -> (r: i64)
    requires
        -0x100_0000_0000 <= a <= 0x100_0000_0000,
        -0x100_0000_0000 <= b <= 0x100_0000_0000,
        -0x10_0000 <= f <= 0x10_0000,
    ensures
        r == lerp_spec(a as int, b as int, f as int),
{
    proof {
        assert(-(0x10_0000int * 0x200_0000_0000) <= f as int * (b - a)
            <= 0x10_0000int * 0x200_0000_0000) by (nonlinear_arith)
            requires -0x10_0000 <= f <= 0x10_0000, -0x200_0000_0000 <= b - a
                <= 0x200_0000_0000;
        lemma_sdiv_mag(f as int * (b - a), SCALE as int, 0x10_0000int * 0x200_0000_0000);
    }
    a + div_trunc(f * (b - a), SCALE)
}

/// The algebraic inverse of `lerp`: the tick fraction placing `l` between
/// `a` and `b`; assumes `a != b`.
pub open spec fn inverse_lerp_spec(a: int, b: int, l: int) -> int {
    if b > a {
        sdiv((l - a) * SCALE as int, b - a)
    } else {
        sdiv((a - l) * SCALE as int, a - b)
    }
}

/// Fraction (in ticks) at which `l` sits between `a` and `b`.
pub fn inverse_lerp(a: i64, b: i64, l: i64) -> (r: i64)
    requires
        a != b,
        -0x1000_0000_0000 <= a <= 0x1000_0000_0000,
        -0x1000_0000_0000 <= b <= 0x1000_0000_0000,
        -0x1000_0000_0000 <= l <= 0x1000_0000_0000,
    ensures
        r == inverse_lerp_spec(a as int, b as int, l as int),
{
    proof {
        assert(-(0x2000_0000_0000int * SCALE as int) <= (l - a) * (SCALE as int)
            && (l - a) * (SCALE as int) <= 0x2000_0000_0000int * SCALE as int
            && -(0x2000_0000_0000int * SCALE as int) <= (a - l) * (SCALE as int)
            && (a - l) * (SCALE as int) <= 0x2000_0000_0000int * SCALE as int)
            by (nonlinear_arith)
            requires -0x2000_0000_0000 <= l - a <= 0x2000_0000_0000;
    }
    if b > a {
        proof {
            lemma_sdiv_mag((l - a) * SCALE as int, (b - a) as int,
                0x2000_0000_0000int * SCALE as int);
        }
        div_trunc((l - a) * SCALE, b - a)
    } else {
        proof {
            lemma_sdiv_mag((a - l) * SCALE as int, (a - b) as int,
                0x2000_0000_0000int * SCALE as int);
        }
        div_trunc((a - l) * SCALE, a - b)
    }
}

} // verus!
