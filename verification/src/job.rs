//! The analysis worker's state and logic: formant-peak extraction,
//! nearest-template classification, the temporal smoothing decision, and
//! the per-frame pipeline that ties the kernel stages together.

use vstd::prelude::*;
use std::collections::VecDeque;
use rand::Rng;
use crate::fixed::{SCALE, sdiv, div_trunc, lemma_sdiv_le, lemma_sdiv_mag};
use crate::model::{
    DataPoint, VowelEstimate, TemplateDb, default_estimates, template_peaks3,
    template_peaks4, VOWEL_COUNT, DYNAMIC_RANGE_T,
};
use crate::algorithm::{all_abs_le, iabs};

verus! {

/// Amplitude threshold a spectral bin must clear to count as a formant
/// peak (`0.1` in ticks).
pub const PEAK_THRESHOLD: i64 = 6554;

/// Confidence level (`0.5` in ticks) below which the displayed vowel is
/// frozen.
pub const HALF_AMOUNT: i64 = 32768;

/// Quefrency cutoff of the cepstral lifter.
pub const LIFTER_LEVEL: i32 = 26;

/// Lowest spectral bin the band-pass keeps.
pub const BAND_LOW: i32 = 10;

/// Highest spectral bin the band-pass keeps.
pub const BAND_HIGH: i32 = 95;

/// Index `i` is a strict interior local maximum above the threshold.
pub open spec fn is_peak(data: Seq<i64>, threshold: int, i: int) -> bool {
    &&& 1 <= i < data.len() - 1
    &&& data[i] > threshold
    &&& data[i] > data[i - 1]
    &&& data[i] > data[i + 1]
}

/// The peak indices among positions `1..i`, in scan order.
pub open spec fn peak_idxs_upto(data: Seq<i64>, threshold: int, i: int) -> Seq<int>
    decreases i,
{
    if i <= 1 {
        Seq::empty()
    } else if is_peak(data, threshold, i - 1) {
        peak_idxs_upto(data, threshold, i - 1).push(i - 1)
    } else {
        peak_idxs_upto(data, threshold, i - 1)
    }
}

/// The extracted peaks: each qualifying index paired with its amplitude
/// normalized against the first peak, which is pinned to exactly one unit.
pub open spec fn peaks_spec(data: Seq<i64>, threshold: int) -> Seq<DataPoint> {
    let idxs = peak_idxs_upto(data, threshold, data.len() - 1);
    Seq::new(idxs.len(), |j: int|
        if j == 0 {
            DataPoint(idxs[0] as i64, SCALE)
        } else {
            DataPoint(idxs[j] as i64, sdiv(data[idxs[j]] * SCALE as int, data[idxs[0]] as int) as i64)
        })
}

/// Every index in `peak_idxs_upto` is a peak position inside `1..i`.
pub proof fn lemma_peak_idxs_range(data: Seq<i64>, threshold: int, i: int)
    ensures
        forall|j: int| 0 <= j < peak_idxs_upto(data, threshold, i).len()
            ==> is_peak(data, threshold, #[trigger] peak_idxs_upto(data, threshold, i)[j])
                && 1 <= peak_idxs_upto(data, threshold, i)[j] < i,
    decreases i,
{
    if i <= 1 {
    } else {
        lemma_peak_idxs_range(data, threshold, i - 1);
        let prev = peak_idxs_upto(data, threshold, i - 1);
        if is_peak(data, threshold, i - 1) {
            assert forall|j: int| 0 <= j < prev.push(i - 1).len()
                implies is_peak(data, threshold, #[trigger] prev.push(i - 1)[j])
                    && 1 <= prev.push(i - 1)[j] < i by {
                if j < prev.len() {
                    assert(prev.push(i - 1)[j] == prev[j]);
                } else {
                    assert(prev.push(i - 1)[j] == i - 1);
                }
            }
        }
    }
}

/// One entry of the peak history: indices and tick amplitudes within the
/// ranges the classifier's arithmetic assumes.
pub open spec fn peak_entry_ok(e: Seq<DataPoint>) -> bool {
    forall|j: int| 0 <= j < e.len()
        ==> 0 <= (#[trigger] e[j]).0 <= 0x4000_0000 && 0 <= e[j].1 <= 0x1_0000_0000
}

/// Extracts the formant peaks of a classification-ready frame: strict
/// interior local maxima above `threshold`, the first normalized to one
/// unit and fixing the scale for the rest.
pub fn get_peaks(data: &Vec<i64>, threshold: i64) -> (r: Vec<DataPoint>)
    requires
        threshold >= 1,
        data@.len() <= 0x4000_0000,
        all_abs_le(data@, SCALE as int),
    ensures
        r@ == peaks_spec(data@, threshold as int),
        peak_entry_ok(r@),
{
    let n = data.len();
    let mut out: Vec<DataPoint> = Vec::new();
    let mut div_base: i64 = 1;
    if n < 2 {
        proof {
            assert(peak_idxs_upto(data@, threshold as int, n as int - 1) =~= Seq::empty());
            assert(out@ =~= peaks_spec(data@, threshold as int));
        }
        return out;
    }
    let mut i: usize = 1;
    while i < n - 1
        invariant
            1 <= i <= n - 1,
            2 <= n == data@.len() <= 0x4000_0000,
            threshold >= 1,
            all_abs_le(data@, SCALE as int),
            out@.len() == peak_idxs_upto(data@, threshold as int, i as int).len(),
            forall|j: int| 0 <= j < out@.len() ==> (#[trigger] out@[j]).0
                == peak_idxs_upto(data@, threshold as int, i as int)[j],
            forall|j: int| 1 <= j < out@.len() ==> (#[trigger] out@[j]).1
                == sdiv(data@[peak_idxs_upto(data@, threshold as int, i as int)[j]]
                    * SCALE as int,
                    data@[peak_idxs_upto(data@, threshold as int, i as int)[0]] as int),
            out@.len() > 0 ==> out@[0].1 == SCALE && div_base
                == data@[peak_idxs_upto(data@, threshold as int, i as int)[0]],
            peak_entry_ok(out@),
            div_base >= 1,
        decreases n - i,
    {
        let x = data[i];
        if x > threshold && x > data[i - 1] && x > data[i + 1] {
            if out.len() > 0 {
                proof {
                    assert((x as int) * (SCALE as int) <= (SCALE as int) * (SCALE as int)
                        && 0 <= (x as int) * (SCALE as int)) by (nonlinear_arith)
                        requires 1 <= x <= SCALE;
                    lemma_sdiv_le(x as int * SCALE as int, div_base as int,
                        0x1_0000_0000int);
                    assert(x as int * SCALE as int <= 0x1_0000_0000int * div_base)
                        by (nonlinear_arith)
                        requires 1 <= div_base, 0 <= x as int * SCALE as int <= 0x1_0000_0000;
                }
                let amp = div_trunc(x * SCALE, div_base);
                out.push(DataPoint(i as i64, amp));
            } else {
                out.push(DataPoint(i as i64, SCALE));
                div_base = x;
            }
        }
        proof {
            lemma_peak_idxs_range(data@, threshold as int, i as int);
            lemma_peak_idxs_range(data@, threshold as int, i as int + 1);
        }
        i = i + 1;
    }
    proof {
        assert(out@ =~= peaks_spec(data@, threshold as int));
    }
    out
}

/// Distance accumulated over the first `k` peaks: position difference
/// weighted by `1/255`, amplitude difference taken signed and at full
/// weight.
pub open spec fn dist_sum(tpl: Seq<DataPoint>, obs: Seq<DataPoint>, k: int) -> int
    decreases k,
{
    if k <= 0 {
        0
    } else {
        dist_sum(tpl, obs, k - 1)
            + sdiv(iabs(tpl[k - 1].0 - obs[k - 1].0) * SCALE as int, 255)
            + (tpl[k - 1].1 - obs[k - 1].1)
    }
}

/// The matching-arity template of vowel `v` (three- or four-peak table).
pub open spec fn template_for(arity: int, v: int) -> Seq<DataPoint> {
    if arity == 3 {
        template_peaks3(v)
    } else {
        template_peaks4(v)
    }
}

/// Per-vowel template distances of an observed peak run, in label order.
pub open spec fn distances_spec(obs: Seq<DataPoint>) -> Seq<int> {
    Seq::new(VOWEL_COUNT as nat, |v: int|
        dist_sum(template_for(obs.len() as int, v), obs, obs.len() as int))
}

proof fn lemma_dist_sum_bound(tpl: Seq<DataPoint>, obs: Seq<DataPoint>, k: int)
    requires
        peak_entry_ok(tpl),
        peak_entry_ok(obs),
        0 <= k <= tpl.len(),
        k <= obs.len(),
    ensures
        -(k * 0x100_0000_0000) <= dist_sum(tpl, obs, k) <= k * 0x100_0000_0000,
    decreases k,
{
    if k <= 0 {
    } else {
        lemma_dist_sum_bound(tpl, obs, k - 1);
        assert(0 <= iabs(tpl[k - 1].0 - obs[k - 1].0) <= 0x8000_0000);
        assert(iabs(tpl[k - 1].0 - obs[k - 1].0) * (SCALE as int)
            <= 0x8000_0000int * 0x1_0000
            && 0 <= iabs(tpl[k - 1].0 - obs[k - 1].0) * (SCALE as int))
            by (nonlinear_arith)
            requires 0 <= iabs(tpl[k - 1].0 - obs[k - 1].0) <= 0x8000_0000;
        lemma_sdiv_mag(iabs(tpl[k - 1].0 - obs[k - 1].0) * SCALE as int, 255,
            0x8000_0000_0000);
        lemma_sdiv_le(iabs(tpl[k - 1].0 - obs[k - 1].0) * SCALE as int, 255,
            0x8000_0000_0000);
        let t = sdiv(iabs(tpl[k - 1].0 - obs[k - 1].0) * SCALE as int, 255);
        let ad = tpl[k - 1].1 - obs[k - 1].1;
        assert(0 <= t <= 0x8000_0000_0000int / 255);
        assert(-0x1_0000_0000 <= ad <= 0x1_0000_0000);
        assert(dist_sum(tpl, obs, k) == dist_sum(tpl, obs, k - 1) + t + ad);
        assert((k - 1) * 0x100_0000_0000 + 0x100_0000_0000 == k * 0x100_0000_0000)
            by (nonlinear_arith);
    }
}

/// Scores an observed (averaged) peak run against every vowel's
/// matching-arity template; empty for an arity the table does not hold.
pub fn get_distance_from_db(db: &TemplateDb, data: &Vec<DataPoint>) -> (r: Vec<i64>)
    requires
        db.wf(),
        peak_entry_ok(data@),
    ensures
        data@.len() == 3 || data@.len() == 4 ==> r@.len() == VOWEL_COUNT
            && forall|v: int| 0 <= v < VOWEL_COUNT ==> #[trigger] r@[v]
                == distances_spec(data@)[v],
        !(data@.len() == 3 || data@.len() == 4) ==> r@ == Seq::<i64>::empty(),
{
    let mut out: Vec<i64> = Vec::new();
    let arity = data.len();
    if arity != 3 && arity != 4 {
        return out;
    }
    let mut v: usize = 0;
    while v < VOWEL_COUNT
        invariant
            v <= VOWEL_COUNT,
            db.wf(),
            peak_entry_ok(data@),
            data@.len() == 3 || data@.len() == 4,
            arity == data@.len(),
            out@.len() == v,
            forall|q: int| 0 <= q < v ==> #[trigger] out@[q] == distances_spec(data@)[q],
        decreases VOWEL_COUNT - v,
    {
        let tpl: &crate::model::Phoneme = if arity == 3 { &db.peak3[v] } else { &db.peak4[v] };
        proof {
            if arity == 3 {
                assert(db.peak3@[v as int].0@ == template_peaks3(v as int));
            } else {
                assert(db.peak4@[v as int].0@ == template_peaks4(v as int));
            }
            assert(tpl.0@ == template_for(arity as int, v as int));
            assert(peak_entry_ok(tpl.0@));
        }
        let mut dist: i64 = 0;
        let mut j: usize = 0;
        while j < arity
            invariant
                j <= arity,
                arity == data@.len(),
                data@.len() == 3 || data@.len() == 4,
                peak_entry_ok(data@),
                peak_entry_ok(tpl.0@),
                tpl.0@.len() == arity,
                dist == dist_sum(tpl.0@, data@, j as int),
                -(j * 0x100_0000_0000) <= dist <= j * 0x100_0000_0000,
            decreases arity - j,
        {
            let tp = tpl.0[j];
            let op = data[j];
            let didx = if tp.0 >= op.0 { tp.0 - op.0 } else { op.0 - tp.0 };
            proof {
                assert(didx == iabs(tp.0 - op.0));
                assert(didx * (SCALE as int) <= 0x8000_0000int * 0x1_0000
                    && 0 <= didx * (SCALE as int)) by (nonlinear_arith)
                    requires 0 <= didx <= 0x8000_0000;
                lemma_sdiv_mag(didx as int * SCALE as int, 255, 0x8000_0000_0000);
                lemma_dist_sum_bound(tpl.0@, data@, j as int + 1);
            }
            let term = div_trunc(didx * SCALE, 255);
            dist = dist + term + (tp.1 - op.1);
            j = j + 1;
        }
        out.push(dist);
        v = v + 1;
    }
    out
}

/// Positional sum of the first coordinates at column `j` over the first
/// `k` history entries.
pub open spec fn col0_sum(log: Seq<Seq<DataPoint>>, j: int, k: int) -> int
    decreases k,
{
    if k <= 0 {
        0
    } else {
        col0_sum(log, j, k - 1) + log[k - 1][j].0
    }
}

/// Positional sum of the second coordinates at column `j` over the first
/// `k` history entries.
pub open spec fn col1_sum(log: Seq<Seq<DataPoint>>, j: int, k: int) -> int
    decreases k,
{
    if k <= 0 {
        0
    } else {
        col1_sum(log, j, k - 1) + log[k - 1][j].1
    }
}

/// The positional average of a non-empty peak history: each coordinate
/// summed over the entries and divided by the entry count.
pub open spec fn peaks_avg_spec(log: Seq<Seq<DataPoint>>) -> Seq<DataPoint> {
    Seq::new(log[0].len(), |j: int| DataPoint(
        sdiv(col0_sum(log, j, log.len() as int), log.len() as int) as i64,
        sdiv(col1_sum(log, j, log.len() as int), log.len() as int) as i64,
    ))
}

/// All entries of a history have length `w` and in-range coordinates.
pub open spec fn log_ok(log: Seq<Seq<DataPoint>>, w: int) -> bool {
    forall|i: int| 0 <= i < log.len()
        ==> (#[trigger] log[i]).len() == w && peak_entry_ok(log[i])
}

proof fn lemma_col_sum_bounds(log: Seq<Seq<DataPoint>>, w: int, j: int, k: int)
    requires
        log_ok(log, w),
        0 <= j < w,
        0 <= k <= log.len(),
    ensures
        0 <= col0_sum(log, j, k) <= k * 0x4000_0000,
        0 <= col1_sum(log, j, k) <= k * 0x1_0000_0000,
    decreases k,
{
    if k <= 0 {
    } else {
        lemma_col_sum_bounds(log, w, j, k - 1);
        assert((k - 1) * 0x4000_0000 + 0x4000_0000 == k * 0x4000_0000) by (nonlinear_arith);
        assert((k - 1) * 0x1_0000_0000 + 0x1_0000_0000 == k * 0x1_0000_0000)
            by (nonlinear_arith);
    }
}

/// View of a history as a sequence of peak-run sequences.
pub open spec fn log_view(l: Seq<Vec<DataPoint>>) -> Seq<Seq<DataPoint>> {
    Seq::new(l.len(), |i: int| l[i]@)
}

/// Positionally averages the entries of a non-empty peak history.
fn peaks_average(log: &VecDeque<Vec<DataPoint>>, width: usize) -> (r: Vec<DataPoint>)
    requires
        1 <= log@.len() <= 3,
        log_ok(log_view(log@), width as int),
        1 <= width <= 4,
    ensures
        r@ == peaks_avg_spec(log_view(log@)),
        r@.len() == width,
        peak_entry_ok(r@),
{
    let len = log.len();
    let mut out: Vec<DataPoint> = Vec::new();
    let ghost lv = log_view(log@);
    let mut j: usize = 0;
    while j < width
        invariant
            j <= width,
            1 <= width <= 4,
            1 <= len == log@.len() <= 3,
            lv == log_view(log@),
            log_ok(lv, width as int),
            out@.len() == j,
            forall|q: int| 0 <= q < j ==> #[trigger] out@[q] == peaks_avg_spec(lv)[q],
            peak_entry_ok(out@),
        decreases width - j,
    {
        let mut s0: i64 = 0;
        let mut s1: i64 = 0;
        let mut i: usize = 0;
        while i < len
            invariant
                i <= len,
                j < width,
                1 <= width <= 4,
                1 <= len == log@.len() <= 3,
                lv == log_view(log@),
                log_ok(lv, width as int),
                s0 == col0_sum(lv, j as int, i as int),
                s1 == col1_sum(lv, j as int, i as int),
                0 <= s0 <= i * 0x4000_0000,
                0 <= s1 <= i * 0x1_0000_0000,
            decreases len - i,
        {
            proof {
                lemma_col_sum_bounds(lv, width as int, j as int, i as int + 1);
                assert(lv[i as int] == log@[i as int]@);
            }
            let entry: &Vec<DataPoint> = &log[i];
            s0 = s0 + entry[j].0;
            s1 = s1 + entry[j].1;
            i = i + 1;
        }
        proof {
            lemma_sdiv_le(s0 as int, len as int, 0x4000_0000int);
            lemma_sdiv_le(s1 as int, len as int, 0x1_0000_0000int);
            assert(s0 <= 0x4000_0000int * len && s1 <= 0x1_0000_0000int * len)
                by (nonlinear_arith)
                requires 1 <= len <= 3, 0 <= s0 <= len * 0x4000_0000,
                    0 <= s1 <= len * 0x1_0000_0000;
        }
        let a0 = div_trunc(s0, len as i64);
        let a1 = div_trunc(s1, len as i64);
        out.push(DataPoint(a0, a1));
        j = j + 1;
    }
    proof {
        assert(out@ =~= peaks_avg_spec(lv));
    }
    out
}

/// Index of the smallest of the first `k` distances, earliest label
/// winning ties.
pub open spec fn argmin_upto(s: Seq<int>, k: int) -> int
    decreases k,
{
    if k <= 1 {
        0
    } else {
        let b = argmin_upto(s, k - 1);
        if s[k - 1] < s[b] {
            k - 1
        } else {
            b
        }
    }
}

/// The winner of `argmin_upto` is a valid index that no earlier index
/// beats, and no later index strictly beats.
pub proof fn lemma_argmin_char(s: Seq<int>, k: int)
    requires
        1 <= k <= s.len(),
    ensures
        0 <= argmin_upto(s, k) < k,
        forall|j: int| 0 <= j < k ==> s[argmin_upto(s, k)] <= #[trigger] s[j],
        forall|j: int| 0 <= j < argmin_upto(s, k) ==> s[argmin_upto(s, k)] < #[trigger] s[j],
    decreases k,
{
    if k <= 1 {
    } else {
        lemma_argmin_char(s, k - 1);
    }
}

/// A history after one run is recorded: appended while the capacity of
/// three is not yet reached, otherwise pushed in front with the oldest
/// entry dropped.
pub open spec fn pushed_log(log: Seq<Seq<DataPoint>>, e: Seq<DataPoint>) -> Seq<Seq<DataPoint>> {
    if log.len() < 3 {
        log.push(e)
    } else {
        seq![e] + log.drop_last()
    }
}

/// A bounded classification history after one value is recorded, with the
/// same append-then-rotate discipline.
pub open spec fn pushed_i32(log: Seq<i32>, v: i32) -> Seq<i32> {
    if log.len() < 3 {
        log.push(v)
    } else {
        seq![v] + log.drop_last()
    }
}

/// The raw classification a frame receives, given the peak histories it
/// will be averaged with: `-1` unless exactly three or four peaks are
/// found, else the nearest-template vowel of the updated history's
/// positional average.
pub open spec fn estimate_from_logs(
    data: Seq<i64>,
    log3: Seq<Seq<DataPoint>>,
    log4: Seq<Seq<DataPoint>>,
) -> int {
    let pk = peaks_spec(data, PEAK_THRESHOLD as int);
    if pk.len() == 3 {
        argmin_upto(distances_spec(peaks_avg_spec(pushed_log(log3, pk))), VOWEL_COUNT as int)
    } else if pk.len() == 4 {
        argmin_upto(distances_spec(peaks_avg_spec(pushed_log(log4, pk))), VOWEL_COUNT as int)
    } else {
        -1
    }
}

/// The hysteresis rule: a low-confidence frame keeps the previous smoothed
/// vowel; a raw classification repeated on two consecutive frames is
/// adopted; an unconfirmed change holds the previous output; with nothing
/// to hold, the supplied fallback label is used.
pub open spec fn smooth_decision(
    current: int,
    prev_smoothed: int,
    prev_estimate: int,
    amount: int,
    fallback: int,
) -> int {
    if prev_smoothed != -1 && amount < HALF_AMOUNT {
        prev_smoothed
    } else if current == prev_estimate && current != -1 {
        current
    } else if current != prev_estimate && prev_smoothed != -1 {
        prev_smoothed
    } else {
        fallback
    }
}

/// The analysis worker's whole private state: the previous frame's
/// pre-gating spectrum, the two arity-keyed peak histories, the raw and
/// smoothed classification histories, and the fixed template database.
pub struct Job {
    pub before_sample_array: Vec<i64>,
    pub peaks3_log: VecDeque<Vec<DataPoint>>,
    pub peaks4_log: VecDeque<Vec<DataPoint>>,
    pub vowel_log: VecDeque<i32>,
    pub estimate_log: VecDeque<i32>,
    pub db: TemplateDb,
}

impl Job {
    /// Structural invariant: histories hold at most three entries of the
    /// right shape, classification histories hold exactly three in-range
    /// values, and the stored spectrum is empty or one analysis frame's
    /// non-negative half.
    pub open spec fn wf(self) -> bool {
        &&& self.db.wf()
        &&& self.vowel_log@.len() == 3
        &&& self.estimate_log@.len() == 3
        &&& forall|i: int| 0 <= i < 3 ==> -1 <= #[trigger] self.vowel_log@[i] < 5
        &&& forall|i: int| 0 <= i < 3 ==> -1 <= #[trigger] self.estimate_log@[i] < 5
        &&& self.peaks3_log@.len() <= 3
        &&& self.peaks4_log@.len() <= 3
        &&& log_ok(log_view(self.peaks3_log@), 3)
        &&& log_ok(log_view(self.peaks4_log@), 4)
        &&& (self.before_sample_array@.len() == 0 || self.before_sample_array@.len() == 513)
        &&& all_abs_le(self.before_sample_array@, 0x400_0000_0000)
    }

    /// A fresh worker state: empty spectra and peak histories, and both
    /// classification histories filled with the indeterminate sentinel.
    pub fn new() -> (r: Job)
        ensures
            r.wf(),
            r.before_sample_array@ == Seq::<i64>::empty(),
            r.peaks3_log@ == Seq::<Vec<DataPoint>>::empty(),
            r.peaks4_log@ == Seq::<Vec<DataPoint>>::empty(),
            r.vowel_log@ == seq![-1i32, -1i32, -1i32],
            r.estimate_log@ == seq![-1i32, -1i32, -1i32],
    {
        let mut vowel_log: VecDeque<i32> = VecDeque::new();
        vowel_log.push_back(-1);
        vowel_log.push_back(-1);
        vowel_log.push_back(-1);
        let mut estimate_log: VecDeque<i32> = VecDeque::new();
        estimate_log.push_back(-1);
        estimate_log.push_back(-1);
        estimate_log.push_back(-1);
        proof {
            assert(vowel_log@ =~= seq![-1i32, -1i32, -1i32]);
            assert(estimate_log@ =~= seq![-1i32, -1i32, -1i32]);
        }
        Job {
            before_sample_array: Vec::new(),
            peaks3_log: VecDeque::new(),
            peaks4_log: VecDeque::new(),
            vowel_log,
            estimate_log,
            db: default_estimates(),
        }
    }

    /// Records a peak run in the history of its arity; runs of any other
    /// arity are ignored.
    fn push_peaks(&mut self, data: Vec<DataPoint>)
        requires
            old(self).wf(),
            peak_entry_ok(data@),
        ensures
            final(self).wf(),
            data@.len() == 3 ==> log_view(final(self).peaks3_log@)
                == pushed_log(log_view(old(self).peaks3_log@), data@)
                && final(self).peaks4_log@ == old(self).peaks4_log@,
            data@.len() == 4 ==> log_view(final(self).peaks4_log@)
                == pushed_log(log_view(old(self).peaks4_log@), data@)
                && final(self).peaks3_log@ == old(self).peaks3_log@,
            data@.len() != 3 && data@.len() != 4 ==> *final(self) == *old(self),
            final(self).before_sample_array@ == old(self).before_sample_array@,
            final(self).vowel_log@ == old(self).vowel_log@,
            final(self).estimate_log@ == old(self).estimate_log@,
            final(self).db == old(self).db,
    {
        let ghost e = data@;
        let n = data.len();
        if n == 3 {
            let ghost oldlv = log_view(self.peaks3_log@);
            if self.peaks3_log.len() < 3 {
                self.peaks3_log.push_back(data);
            } else {
                self.peaks3_log.push_front(data);
                let dropped = self.peaks3_log.pop_back();
            }
            proof {
                assert(log_view(self.peaks3_log@) =~= pushed_log(oldlv, e));
            }
        } else if n == 4 {
            let ghost oldlv = log_view(self.peaks4_log@);
            if self.peaks4_log.len() < 3 {
                self.peaks4_log.push_back(data);
            } else {
                self.peaks4_log.push_front(data);
                let dropped = self.peaks4_log.pop_back();
            }
            proof {
                assert(log_view(self.peaks4_log@) =~= pushed_log(oldlv, e));
            }
        }
    }

    /// Classifies one classification-ready frame and records its peak run:
    /// the sentinel unless exactly three or four peaks are found, else the
    /// vowel whose matching-arity template is nearest to the positional
    /// average of the updated history.
    pub fn estimate_vowel(&mut self, data: &Vec<i64>) -> (r: i32)
        requires
            old(self).wf(),
            data@.len() <= 0x4000_0000,
            all_abs_le(data@, SCALE as int),
        ensures
            final(self).wf(),
            r == estimate_from_logs(data@, log_view(old(self).peaks3_log@),
                log_view(old(self).peaks4_log@)),
            -1 <= r < 5,
            ({
                let pk = peaks_spec(data@, PEAK_THRESHOLD as int);
                &&& (pk.len() == 3 ==> log_view(final(self).peaks3_log@)
                    == pushed_log(log_view(old(self).peaks3_log@), pk)
                    && final(self).peaks4_log@ == old(self).peaks4_log@)
                &&& (pk.len() == 4 ==> log_view(final(self).peaks4_log@)
                    == pushed_log(log_view(old(self).peaks4_log@), pk)
                    && final(self).peaks3_log@ == old(self).peaks3_log@)
                &&& (pk.len() != 3 && pk.len() != 4 ==> *final(self) == *old(self))
            }),
            final(self).before_sample_array@ == old(self).before_sample_array@,
            final(self).vowel_log@ == old(self).vowel_log@,
            final(self).estimate_log@ == old(self).estimate_log@,
            final(self).db == old(self).db,
    {
        let peaks = get_peaks(data, PEAK_THRESHOLD);
        let m = peaks.len();
        if m != 3 && m != 4 {
            return -1;
        }
        let ghost pk = peaks@;
        self.push_peaks(peaks);
        proof {
            if m == 3 {
                let oldlv = log_view(old(self).peaks3_log@);
                assert(log_view(self.peaks3_log@).len() == self.peaks3_log@.len());
                assert(pushed_log(oldlv, pk).len() >= 1);
                assert(pushed_log(oldlv, pk).len() <= 3);
            } else {
                let oldlv = log_view(old(self).peaks4_log@);
                assert(log_view(self.peaks4_log@).len() == self.peaks4_log@.len());
                assert(pushed_log(oldlv, pk).len() >= 1);
                assert(pushed_log(oldlv, pk).len() <= 3);
            }
        }
        let avg = if m == 3 {
            peaks_average(&self.peaks3_log, 3)
        } else {
            peaks_average(&self.peaks4_log, 4)
        };
        let dv = get_distance_from_db(&self.db, &avg);
        let ghost dists = distances_spec(avg@);
        let mut min_idx: usize = 0;
        let mut i: usize = 1;
        while i < VOWEL_COUNT
            invariant
                1 <= i <= VOWEL_COUNT,
                dv@.len() == VOWEL_COUNT,
                dists.len() == VOWEL_COUNT,
                forall|q: int| 0 <= q < VOWEL_COUNT ==> #[trigger] dv@[q] == dists[q],
                min_idx < i,
                min_idx == argmin_upto(dists, i as int),
            decreases VOWEL_COUNT - i,
        {
            if dv[i] < dv[min_idx] {
                min_idx = i;
            }
            i = i + 1;
        }
        min_idx as i32
    }

    /// The hysteresis rule on its own: from the raw classification, the
    /// most recent smoothed and raw history entries, the confidence and
    /// the cold-start label, the smoothed vowel for this frame.
    pub fn smooth_step(current: i32, prev_smoothed: i32, prev_estimate: i32,
        amount: i64, fallback: i32) -> (r: i32)
        ensures
            r == smooth_decision(current as int, prev_smoothed as int,
                prev_estimate as int, amount as int, fallback as int),
    {
        if prev_smoothed != -1 && amount < HALF_AMOUNT {
            prev_smoothed
        } else if current == prev_estimate && current != -1 {
            current
        } else if current != prev_estimate && prev_smoothed != -1 {
            prev_smoothed
        } else {
            fallback
        }
    }

    /// One smoothing step: classifies the frame, then applies the
    /// hysteresis rule against the most recent smoothed and raw history
    /// entries, with `fallback` as the cold-start label. Does not record
    /// the outcome in the classification histories.
    pub fn get_vowel_with(&mut self, data: &Vec<i64>, amount: i64, fallback: i32)
        -> (r: VowelEstimate)
        requires
            old(self).wf(),
            data@.len() <= 0x4000_0000,
            all_abs_le(data@, SCALE as int),
            0 <= fallback < 5,
        ensures
            final(self).wf(),
            r.estimate == estimate_from_logs(data@, log_view(old(self).peaks3_log@),
                log_view(old(self).peaks4_log@)),
            r.vowel == smooth_decision(r.estimate as int, old(self).vowel_log@[0] as int,
                old(self).estimate_log@[0] as int, amount as int, fallback as int),
            r.amount == amount,
            -1 <= r.estimate < 5,
            -1 <= r.vowel < 5,
            final(self).before_sample_array@ == old(self).before_sample_array@,
            final(self).vowel_log@ == old(self).vowel_log@,
            final(self).estimate_log@ == old(self).estimate_log@,
            final(self).db == old(self).db,
            ({
                let pk = peaks_spec(data@, PEAK_THRESHOLD as int);
                &&& (pk.len() == 3 ==> log_view(final(self).peaks3_log@)
                    == pushed_log(log_view(old(self).peaks3_log@), pk)
                    && final(self).peaks4_log@ == old(self).peaks4_log@)
                &&& (pk.len() == 4 ==> log_view(final(self).peaks4_log@)
                    == pushed_log(log_view(old(self).peaks4_log@), pk)
                    && final(self).peaks3_log@ == old(self).peaks3_log@)
                &&& (pk.len() != 3 && pk.len() != 4 ==> *final(self) == *old(self))
            }),
    {
        let current = self.estimate_vowel(data);
        let f_vowel = self.vowel_log[0];
        let prev_estimate = self.estimate_log[0];
        let vowel = Job::smooth_step(current, f_vowel, prev_estimate, amount, fallback);
        VowelEstimate::new(current, vowel, amount)
    }

    /// Records a smoothed vowel in its bounded history.
    fn push_vowel(&mut self, vowel: i32)
        requires
            old(self).wf(),
            -1 <= vowel < 5,
        ensures
            final(self).wf(),
            final(self).vowel_log@ == pushed_i32(old(self).vowel_log@, vowel),
            final(self).estimate_log@ == old(self).estimate_log@,
            final(self).peaks3_log@ == old(self).peaks3_log@,
            final(self).peaks4_log@ == old(self).peaks4_log@,
            final(self).before_sample_array@ == old(self).before_sample_array@,
            final(self).db == old(self).db,
    {
        if self.vowel_log.len() < 3 {
            self.vowel_log.push_back(vowel);
        } else {
            self.vowel_log.push_front(vowel);
            let dropped = self.vowel_log.pop_back();
        }
        proof {
            assert(self.vowel_log@ =~= pushed_i32(old(self).vowel_log@, vowel));
        }
    }

    /// Records a raw classification in its bounded history.
    fn push_estimate(&mut self, vowel: i32)
        requires
            old(self).wf(),
            -1 <= vowel < 5,
        ensures
            final(self).wf(),
            final(self).estimate_log@ == pushed_i32(old(self).estimate_log@, vowel),
            final(self).vowel_log@ == old(self).vowel_log@,
            final(self).peaks3_log@ == old(self).peaks3_log@,
            final(self).peaks4_log@ == old(self).peaks4_log@,
            final(self).before_sample_array@ == old(self).before_sample_array@,
            final(self).db == old(self).db,
    {
        if self.estimate_log.len() < 3 {
            self.estimate_log.push_back(vowel);
        } else {
            self.estimate_log.push_front(vowel);
            let dropped = self.estimate_log.pop_back();
        }
        proof {
            assert(self.estimate_log@ =~= pushed_i32(old(self).estimate_log@, vowel));
        }
    }
}

/// Relies on rand::thread_rng and Rng::gen_range: a value sampled from the
/// non-empty range `0..5` lies within it.
#[verifier::external_body]
fn random_vowel() -> (r: i32)
    ensures
        0 <= r < 5,
{
    rand::thread_rng().gen_range(0..5)
}

/// The next "previous spectrum": the first half-spectrum (plus the shared
/// bin) of the windowed frame's magnitude transform, blended with the
/// stored spectrum when one exists. Stored before gating.
pub open spec fn stage_prev_spec(stream: Seq<i64>, prev: Seq<i64>) -> Seq<i64> {
    let s3 = crate::algorithm::rfft_spec(
        crate::algorithm::hamming_spec(stream.take(1024)), false, true).take(513);
    if prev.len() > 0 {
        crate::algorithm::smoothing_spec(s3, prev)
    } else {
        s3
    }
}

/// Log-power of one bin: `log10(x^2)` in ticks, via the decibel scale.
pub open spec fn log_power_spec(x: int) -> int {
    sdiv(crate::fixed::db_from_amp_spec(iabs(x)), 10)
}

/// The loudness compression factor: the frame level clamped into the
/// dynamic-range window `[-range, 0]` and shifted up to `[0, range]`.
pub open spec fn nrm_level_spec(level: int) -> int {
    if level + DYNAMIC_RANGE_T < 0 {
        0
    } else if level + DYNAMIC_RANGE_T > DYNAMIC_RANGE_T {
        DYNAMIC_RANGE_T as int
    } else {
        level + DYNAMIC_RANGE_T
    }
}

/// The classification-ready feature vector of one frame: band-pass, log-power,
/// normalize, cepstral round trip with liftering, quarter truncation, two
/// more normalizations around a squaring, and loudness compression.
pub open spec fn feature_spec(stream: Seq<i64>, prev: Seq<i64>) -> Seq<i64> {
    let s5 = crate::algorithm::filter_spec(stage_prev_spec(stream, prev),
        BAND_LOW as int, BAND_HIGH as int);
    let s6 = Seq::new(s5.len(), |i: int| log_power_spec(s5[i] as int) as i64);
    let s7 = crate::algorithm::normalize_spec(s6);
    let s8 = crate::algorithm::rfft_spec(s7, true, false);
    let s9 = crate::algorithm::lifter_spec(s8, LIFTER_LEVEL as int);
    let s10 = crate::algorithm::rfft_spec(s9, false, false);
    let s12 = crate::algorithm::normalize_spec(s10.take(257));
    let s13 = Seq::new(s12.len(), |i: int| sdiv(s12[i] * s12[i], SCALE as int) as i64);
    let s14 = crate::algorithm::normalize_spec(s13);
    let nrm = nrm_level_spec(crate::algorithm::rms_spec(stream));
    Seq::new(s14.len(), |i: int| sdiv(s14[i] * nrm, DYNAMIC_RANGE_T as int) as i64)
}

/// The confidence reported with a frame: where its level sits in the
/// dynamic-range window, clamped to `[0, SCALE]`.
pub open spec fn amount_spec(stream: Seq<i64>) -> int {
    let a = crate::algorithm::inverse_lerp_spec(-(DYNAMIC_RANGE_T as int), 0,
        crate::algorithm::rms_spec(stream));
    if a < 0 {
        0
    } else if a > SCALE {
        SCALE as int
    } else {
        a
    }
}

/// What one call of the frame pipeline does: a short frame is rejected
/// with the state untouched; otherwise the result record and every piece
/// of the worker state are pinned to the stage specifications, with
/// `fallback` as the cold-start vowel.
pub open spec fn executed(
    pre: Job,
    post: Job,
    stream: Seq<i64>,
    fallback: int,
    r: Option<VowelEstimate>,
) -> bool {
    if stream.len() < 1024 {
        r is None && post == pre
    } else {
        let feat = feature_spec(stream, pre.before_sample_array@);
        let est = estimate_from_logs(feat, log_view(pre.peaks3_log@),
            log_view(pre.peaks4_log@));
        let amt = amount_spec(stream);
        let vw = smooth_decision(est, pre.vowel_log@[0] as int,
            pre.estimate_log@[0] as int, amt, fallback);
        let pk = peaks_spec(feat, PEAK_THRESHOLD as int);
        &&& r == Some(VowelEstimate {
            estimate: est as i32,
            vowel: vw as i32,
            amount: amt as i64,
        })
        &&& post.before_sample_array@ == stage_prev_spec(stream, pre.before_sample_array@)
        &&& post.estimate_log@ == pushed_i32(pre.estimate_log@, est as i32)
        &&& post.vowel_log@ == pushed_i32(pre.vowel_log@, vw as i32)
        &&& (pk.len() == 3 ==> log_view(post.peaks3_log@)
            == pushed_log(log_view(pre.peaks3_log@), pk)
            && post.peaks4_log@ == pre.peaks4_log@)
        &&& (pk.len() == 4 ==> log_view(post.peaks4_log@)
            == pushed_log(log_view(pre.peaks4_log@), pk)
            && post.peaks3_log@ == pre.peaks3_log@)
        &&& (pk.len() != 3 && pk.len() != 4 ==> post.peaks3_log@ == pre.peaks3_log@
            && post.peaks4_log@ == pre.peaks4_log@)
        &&& post.db == pre.db
    }
}

fn head_copy(src: &Vec<i64>, k: usize) -> (r: Vec<i64>)
    requires
        k <= src@.len(),
    ensures
        r@ == src@.take(k as int),
{
    let mut out: Vec<i64> = Vec::new();
    let mut i: usize = 0;
    while i < k
        invariant
            i <= k <= src@.len(),
            out@.len() == i,
            forall|j: int| 0 <= j < i ==> #[trigger] out@[j] == src@[j],
        decreases k - i,
    {
        out.push(src[i]);
        i = i + 1;
    }
    proof {
        assert(out@ =~= src@.take(k as int));
    }
    out
}

fn copy_vec(src: &Vec<i64>) -> (r: Vec<i64>)
    ensures
        r@ == src@,
{
    let r = head_copy(src, src.len());
    proof {
        assert(src@.take(src@.len() as int) =~= src@);
    }
    r
}

fn log_power_map(data: &mut Vec<i64>)
    requires
        all_abs_le(old(data)@, 0x2000_0000_0000_0000),
    ensures
        final(data)@ == Seq::new(old(data)@.len(), |i: int|
            log_power_spec(old(data)@[i] as int) as i64),
        all_abs_le(final(data)@, 0x400_0000),
{
    let n = data.len();
    let ghost orig = data@;
    let mut i: usize = 0;
    while i < n
        invariant
            i <= n,
            n == orig.len() == data@.len(),
            all_abs_le(orig, 0x2000_0000_0000_0000),
            forall|k: int| i <= k < n ==> #[trigger] data@[k] == orig[k],
            forall|k: int| 0 <= k < i ==> #[trigger] data@[k]
                == log_power_spec(orig[k] as int) as i64,
            forall|k: int| 0 <= k < i ==> -0x400_0000 <= #[trigger] data@[k] <= 0x400_0000,
        decreases n - i,
    {
        let x = data[i];
        let a = if x < 0 { -x } else { x };
        let db = crate::fixed::db_from_amp(a);
        proof {
            lemma_sdiv_mag(db as int, 10, 0x2000_0000);
        }
        let y = div_trunc(db, 10);
        data.set(i, y);
        i = i + 1;
    }
    proof {
        assert(data@ =~= Seq::new(orig.len(), |i: int| log_power_spec(orig[i] as int) as i64));
    }
}

fn square_map(data: &mut Vec<i64>)
    requires
        forall|i: int| 0 <= i < old(data)@.len() ==> 0 <= #[trigger] old(data)@[i] <= SCALE,
    ensures
        final(data)@ == Seq::new(old(data)@.len(), |i: int|
            sdiv(old(data)@[i] * old(data)@[i], SCALE as int) as i64),
        forall|i: int| 0 <= i < final(data)@.len() ==> 0 <= #[trigger] final(data)@[i] <= SCALE,
{
    let n = data.len();
    let ghost orig = data@;
    let mut i: usize = 0;
    while i < n
        invariant
            i <= n,
            n == orig.len() == data@.len(),
            forall|k: int| 0 <= k < n ==> 0 <= #[trigger] orig[k] <= SCALE,
            forall|k: int| i <= k < n ==> #[trigger] data@[k] == orig[k],
            forall|k: int| 0 <= k < i ==> #[trigger] data@[k]
                == sdiv(orig[k] * orig[k], SCALE as int) as i64,
            forall|k: int| 0 <= k < i ==> 0 <= #[trigger] data@[k] <= SCALE,
        decreases n - i,
    {
        let x = data[i];
        proof {
            assert(0 <= x as int * x as int && x as int * x as int
                <= (SCALE as int) * (SCALE as int)) by (nonlinear_arith)
                requires 0 <= x <= SCALE;
            lemma_sdiv_le(x as int * x as int, SCALE as int, SCALE as int);
        }
        let y = div_trunc(x * x, SCALE);
        data.set(i, y);
        i = i + 1;
    }
    proof {
        assert(data@ =~= Seq::new(orig.len(), |i: int|
            sdiv(orig[i] * orig[i], SCALE as int) as i64));
    }
}

fn scale_map(data: &mut Vec<i64>, nrm: i64)
    requires
        forall|i: int| 0 <= i < old(data)@.len() ==> 0 <= #[trigger] old(data)@[i] <= SCALE,
        0 <= nrm <= DYNAMIC_RANGE_T,
    ensures
        final(data)@ == Seq::new(old(data)@.len(), |i: int|
            sdiv(old(data)@[i] * nrm as int, DYNAMIC_RANGE_T as int) as i64),
        forall|i: int| 0 <= i < final(data)@.len() ==> 0 <= #[trigger] final(data)@[i] <= SCALE,
{
    let n = data.len();
    let ghost orig = data@;
    let mut i: usize = 0;
    while i < n
        invariant
            i <= n,
            n == orig.len() == data@.len(),
            0 <= nrm <= DYNAMIC_RANGE_T,
            forall|k: int| 0 <= k < n ==> 0 <= #[trigger] orig[k] <= SCALE,
            forall|k: int| i <= k < n ==> #[trigger] data@[k] == orig[k],
            forall|k: int| 0 <= k < i ==> #[trigger] data@[k]
                == sdiv(orig[k] * nrm as int, DYNAMIC_RANGE_T as int) as i64,
            forall|k: int| 0 <= k < i ==> 0 <= #[trigger] data@[k] <= SCALE,
        decreases n - i,
    {
        let x = data[i];
        proof {
            assert(0 <= x as int * nrm as int
                && x as int * nrm as int <= (SCALE as int) * (DYNAMIC_RANGE_T as int))
                by (nonlinear_arith)
                requires 0 <= x <= SCALE, 0 <= nrm <= DYNAMIC_RANGE_T;
            lemma_sdiv_le(x as int * nrm as int, DYNAMIC_RANGE_T as int, SCALE as int);
        }
        let y = div_trunc(x * nrm, DYNAMIC_RANGE_T);
        data.set(i, y);
        i = i + 1;
    }
    proof {
        assert(data@ =~= Seq::new(orig.len(), |i: int|
            sdiv(orig[i] * nrm as int, DYNAMIC_RANGE_T as int) as i64));
    }
}

/// Runs the numeric half of one analysis pass: from raw samples and the
/// stored previous spectrum to the classification-ready feature vector,
/// the next stored spectrum, and the confidence amount.
#[verifier::rlimit(100)]
#[verifier::spinoff_prover]
fn analyze_frame(stream: &Vec<i64>, prev: &Vec<i64>) -> (r: (Vec<i64>, Vec<i64>, i64))
    requires
        1024 <= stream@.len() <= 0x40_0000,
        all_abs_le(stream@, crate::algorithm::SAMPLE_MAX as int),
        prev@.len() == 0 || prev@.len() == 513,
        all_abs_le(prev@, 0x400_0000_0000),
    ensures
        r.0@ == feature_spec(stream@, prev@),
        all_abs_le(r.0@, SCALE as int),
        r.0@.len() <= 0x4000_0000,
        r.1@ == stage_prev_spec(stream@, prev@),
        r.1@.len() == 513,
        all_abs_le(r.1@, 0x400_0000_0000),
        r.2 == amount_spec(stream@),
        0 <= r.2 <= SCALE,
{
    let level = crate::algorithm::rms(stream);
    let mut data = head_copy(stream, crate::FFT_SAMPLES);
    proof {
        assert(all_abs_le(data@, crate::algorithm::SAMPLE_MAX as int));
        crate::algorithm::lemma_hamming_bound(data@, crate::algorithm::SAMPLE_MAX as int);
    }
    crate::algorithm::hamming(&mut data);
    proof {
        crate::algorithm::lemma_growth_values();
    }
    crate::algorithm::rfft(&mut data, false, true);
    let ghost s2 = data@;
    data.truncate(513);
    proof {
        assert(data@ =~= s2.take(513));
        assert(all_abs_le(data@, 0x400_0000_0000)) by {
            assert(forall|i: int| 0 <= i < 513 ==> data@[i] == s2[i]);
        }
    }
    if prev.len() > 0 {
        crate::algorithm::smoothing(&mut data, prev);
        proof {
            crate::algorithm::lemma_smoothing_bound(s2.take(513), prev@, 0x400_0000_0000);
        }
    }
    let new_prev = copy_vec(&data);
    let ghost s4 = data@;
    proof {
        assert(s4 == stage_prev_spec(stream@, prev@));
        assert(all_abs_le(s4, 0x400_0000_0000));
    }
    crate::algorithm::filter(&mut data, BAND_LOW, BAND_HIGH);
    proof {
        crate::algorithm::lemma_filter_bound(s4, BAND_LOW as int, BAND_HIGH as int,
            0x400_0000_0000);
    }
    log_power_map(&mut data);
    proof {
        crate::algorithm::lemma_normalize_abs(data@);
    }
    crate::algorithm::normalize(&mut data);
    let ghost s7 = data@;
    proof {
        assert(all_abs_le(s7, crate::algorithm::FFT_VAL_MAX as int));
    }
    crate::algorithm::rfft(&mut data, true, false);
    proof {
        crate::algorithm::lemma_rfft_rev_bound(s7);
        crate::algorithm::lemma_lifter_bound(data@, LIFTER_LEVEL as int,
            crate::algorithm::FFT_VAL_MAX as int);
    }
    crate::algorithm::lifter(&mut data, LIFTER_LEVEL);
    crate::algorithm::rfft(&mut data, false, false);
    let ghost s10 = data@;
    data.truncate(257);
    proof {
        assert(data@ =~= s10.take(257));
        assert(all_abs_le(data@, 0x1000_0000_0000)) by {
            assert(forall|i: int| 0 <= i < 257 ==> data@[i] == s10[i]);
        }
        crate::algorithm::lemma_normalize_abs(data@);
    }
    crate::algorithm::normalize(&mut data);
    square_map(&mut data);
    proof {
        crate::algorithm::lemma_normalize_abs(data@);
    }
    crate::algorithm::normalize(&mut data);
    let nrm_rms = if level + DYNAMIC_RANGE_T < 0 {
        0
    } else if level + DYNAMIC_RANGE_T > DYNAMIC_RANGE_T {
        DYNAMIC_RANGE_T
    } else {
        level + DYNAMIC_RANGE_T
    };
    scale_map(&mut data, nrm_rms);
    let raw_amount = crate::algorithm::inverse_lerp(-DYNAMIC_RANGE_T, 0, level);
    let amount = if raw_amount < 0 {
        0
    } else if raw_amount > SCALE {
        SCALE
    } else {
        raw_amount
    };
    proof {
        assert(data@ == feature_spec(stream@, prev@));
        assert(amount as int == amount_spec(stream@));
        assert(all_abs_le(data@, SCALE as int));
    }
    (data, new_prev, amount)
}

impl Job {
    /// One full analysis pass with an explicit cold-start vowel, so the
    /// whole frame is deterministic: level, window, transform, blend,
    /// band-pass, log-power, cepstral liftering, feature shaping, then
    /// classification and smoothing, recording every history.
    pub fn execute_seeded(&mut self, stream: &Vec<i64>, fallback: i32)
        -> (r: Option<VowelEstimate>)
        requires
            old(self).wf(),
            stream@.len() <= 0x40_0000,
            all_abs_le(stream@, crate::algorithm::SAMPLE_MAX as int),
            0 <= fallback < 5,
        ensures
            final(self).wf(),
            executed(*old(self), *final(self), stream@, fallback as int, r),
            r is Some ==> 0 <= r.unwrap().amount <= SCALE
                && -1 <= r.unwrap().estimate < 5 && -1 <= r.unwrap().vowel < 5,
    {
        if stream.len() < crate::FFT_SAMPLES {
            return None;
        }
        let parts = analyze_frame(stream, &self.before_sample_array);
        let feature = parts.0;
        let amount = parts.2;
        self.before_sample_array = parts.1;
        let current_vowel = self.get_vowel_with(&feature, amount, fallback);
        self.push_estimate(current_vowel.estimate);
        self.push_vowel(current_vowel.vowel);
        Some(current_vowel)
    }

    /// One full analysis pass, drawing the cold-start vowel at random as
    /// the bootstrap behaviour asks.
    pub fn execute(&mut self, stream: &Vec<i64>) -> (r: Option<VowelEstimate>)
        requires
            old(self).wf(),
            stream@.len() <= 0x40_0000,
            all_abs_le(stream@, crate::algorithm::SAMPLE_MAX as int),
        ensures
            final(self).wf(),
            exists|fb: int| 0 <= fb < 5
                && #[trigger] executed(*old(self), *final(self), stream@, fb, r),
            r is None <==> stream@.len() < 1024,
            r is Some ==> 0 <= r.unwrap().amount <= SCALE
                && -1 <= r.unwrap().estimate < 5 && -1 <= r.unwrap().vowel < 5,
    {
        let fb = random_vowel();
        let r = self.execute_seeded(stream, fb);
        proof {
            assert(executed(*old(self), *self, stream@, fb as int, r));
        }
        r
    }
}

/// Value of one 16-bit little-endian sample, wrapped and recentred, in
/// ticks (`SCALE / 32768 == 2` ticks per unit of the 16-bit scale).
pub open spec fn sample16_spec(b0: int, b1: int) -> int {
    2 * ((b0 + 256 * b1 + 32768) % 65536 - 32768)
}

/// Decodes packed 16-bit little-endian samples into tick values.
pub fn read_16_bit_samples(stream: &Vec<u8>) -> (r: Vec<i64>)
    requires
        stream@.len() % 2 == 0,
        stream@.len() <= 0x4000_0000,
    ensures
        r@.len() == stream@.len() / 2,
        forall|i: int| 0 <= i < r@.len() ==> #[trigger] r@[i]
            == sample16_spec(stream@[2 * i] as int, stream@[2 * i + 1] as int),
        all_abs_le(r@, 65536),
{
    let half = stream.len() / 2;
    let mut out: Vec<i64> = Vec::new();
    let mut k: usize = 0;
    while k < half
        invariant
            k <= half,
            half == stream@.len() / 2,
            stream@.len() % 2 == 0,
            stream@.len() <= 0x4000_0000,
            out@.len() == k,
            forall|i: int| 0 <= i < k ==> #[trigger] out@[i]
                == sample16_spec(stream@[2 * i] as int, stream@[2 * i + 1] as int),
            all_abs_le(out@, 65536),
        decreases half - k,
    {
        let b0 = stream[2 * k] as i64;
        let b1 = stream[2 * k + 1] as i64;
        let u = b0 + 256 * b1;
        let v = (u + 32768) % 65536;
        out.push(2 * (v - 32768));
        k = k + 1;
    }
    out
}

/// What travels between the producer and the worker: an input frame to
/// analyse, a finished estimate, or the shutdown request.
pub enum JobMessage {
    InputData(Vec<i64>),
    OutputData(VowelEstimate),
    Shutdown,
}

/// Index of the first message that is not an input frame (queue length if
/// every message is one): the worker stops there.
pub open spec fn first_stop(msgs: Seq<JobMessage>) -> int
    decreases msgs.len(),
{
    if msgs.len() == 0 {
        0
    } else if !(msgs[0] is InputData) {
        0
    } else {
        1 + first_stop(msgs.drop_first())
    }
}

/// How many results the worker emits for a queue: one per input frame of
/// at least the analysis length, counting only frames ahead of the first
/// non-input message.
pub open spec fn emitted_count(msgs: Seq<JobMessage>) -> int
    decreases msgs.len(),
{
    if msgs.len() == 0 {
        0
    } else {
        match msgs[0] {
            JobMessage::InputData(d) => (if d@.len() >= 1024 {
                1int
            } else {
                0int
            }) + emitted_count(msgs.drop_first()),
            _ => 0,
        }
    }
}

/// Results contributed by the first `k` messages, were they all processed.
pub open spec fn valid_in_prefix(msgs: Seq<JobMessage>, k: int) -> int
    decreases k,
{
    if k <= 0 {
        0
    } else {
        valid_in_prefix(msgs, k - 1) + (match msgs[k - 1] {
            JobMessage::InputData(d) => if d@.len() >= 1024 {
                1int
            } else {
                0int
            },
            _ => 0,
        })
    }
}

/// The stop index is within the queue, everything before it is an input
/// frame, and the message there (if any) is not.
pub proof fn lemma_first_stop_char(msgs: Seq<JobMessage>)
    ensures
        0 <= first_stop(msgs) <= msgs.len(),
        forall|j: int| 0 <= j < first_stop(msgs) ==> (#[trigger] msgs[j]) is InputData,
        first_stop(msgs) < msgs.len() ==> !(msgs[first_stop(msgs)] is InputData),
    decreases msgs.len(),
{
    if msgs.len() == 0 || !(msgs[0] is InputData) {
    } else {
        lemma_first_stop_char(msgs.drop_first());
        assert forall|j: int| 0 <= j < first_stop(msgs)
            implies (#[trigger] msgs[j]) is InputData by {
            if j >= 1 {
                assert(msgs.drop_first()[j - 1] == msgs[j]);
            }
        }
        if first_stop(msgs) < msgs.len() {
            assert(msgs.drop_first()[first_stop(msgs) - 1] == msgs[first_stop(msgs)]);
        }
    }
}

/// The worker's output count is settled by the messages ahead of the
/// first stop alone.
pub proof fn lemma_emitted_is_prefix(msgs: Seq<JobMessage>)
    ensures
        emitted_count(msgs) == valid_in_prefix(msgs, first_stop(msgs)),
    decreases msgs.len(),
{
    if msgs.len() == 0 || !(msgs[0] is InputData) {
    } else {
        lemma_emitted_is_prefix(msgs.drop_first());
        lemma_first_stop_char(msgs.drop_first());
        lemma_valid_prefix_shift(msgs, first_stop(msgs.drop_first()));
        assert(first_stop(msgs) == 1 + first_stop(msgs.drop_first()));
        assert(valid_in_prefix(msgs, 0) == 0);
        assert(emitted_count(msgs) == valid_in_prefix(msgs, 1)
            + emitted_count(msgs.drop_first()));
    }
}

proof fn lemma_valid_prefix_shift(msgs: Seq<JobMessage>, k: int)
    requires
        msgs.len() >= 1,
        0 <= k <= msgs.len() - 1,
    ensures
        valid_in_prefix(msgs, k + 1) == valid_in_prefix(msgs, 1)
            + valid_in_prefix(msgs.drop_first(), k),
    decreases k,
{
    if k == 0 {
    } else {
        lemma_valid_prefix_shift(msgs, k - 1);
        assert(msgs.drop_first()[k - 1] == msgs[k]);
    }
}

/// Once a non-input message (such as the shutdown request) stands in the
/// queue, nothing submitted behind it is ever answered: extending the
/// queue past the stop changes the output count not at all.
pub proof fn lemma_no_results_after_stop(msgs: Seq<JobMessage>, extra: Seq<JobMessage>)
    requires
        first_stop(msgs) < msgs.len(),
    ensures
        emitted_count(msgs + extra) == emitted_count(msgs),
    decreases msgs.len(),
{
    lemma_first_stop_char(msgs);
    assert((msgs + extra)[0] == msgs[0]);
    if !(msgs[0] is InputData) {
    } else {
        assert((msgs + extra).drop_first() =~= msgs.drop_first() + extra);
        lemma_no_results_after_stop(msgs.drop_first(), extra);
    }
}

/// What one worker iteration decided: send a finished estimate on, take
/// the next message, or leave the loop.
pub enum WorkerStep {
    Emit(VowelEstimate),
    Continue,
    Stop,
}

/// One iteration of the worker loop: an input frame is analysed (a short
/// one silently skipped), and any other message — the shutdown request,
/// or an estimate echoed onto the wrong channel — stops the worker.
pub fn worker_step(job: &mut Job, msg: JobMessage) -> (r: WorkerStep)
    requires
        old(job).wf(),
        msg matches JobMessage::InputData(d) ==> d@.len() <= 0x40_0000
            && all_abs_le(d@, crate::algorithm::SAMPLE_MAX as int),
    ensures
        final(job).wf(),
        match msg {
            JobMessage::InputData(d) => {
                &&& (d@.len() < 1024 ==> r is Continue && *final(job) == *old(job))
                &&& (d@.len() >= 1024 ==> (r matches WorkerStep::Emit(v)
                    && (exists|fb: int| 0 <= fb < 5
                        && #[trigger] executed(*old(job), *final(job), d@, fb, Some(v)))
                    && 0 <= v.amount <= SCALE && -1 <= v.estimate < 5 && -1 <= v.vowel < 5))
            },
            _ => r is Stop && *final(job) == *old(job),
        },
{
    match msg {
        JobMessage::InputData(d) => {
            let out = job.execute(&d);
            match out {
                Some(v) => WorkerStep::Emit(v),
                None => WorkerStep::Continue,
            }
        },
        _ => WorkerStep::Stop,
    }
}

/// Drains a queue of messages exactly as the background worker does:
/// frames are analysed in order and their results collected, until the
/// first message that is not an input frame stops the loop. Short frames
/// are skipped without a result.
pub fn run_worker(job: &mut Job, inbox: &Vec<JobMessage>) -> (out: Vec<VowelEstimate>)
    requires
        old(job).wf(),
        forall|i: int| 0 <= i < inbox@.len()
            ==> (#[trigger] inbox@[i] matches JobMessage::InputData(d)
                ==> d@.len() <= 0x40_0000
                    && all_abs_le(d@, crate::algorithm::SAMPLE_MAX as int)),
    ensures
        final(job).wf(),
        out@.len() == emitted_count(inbox@),
        forall|k: int| 0 <= k < out@.len() ==> 0 <= (#[trigger] out@[k]).amount <= SCALE
            && -1 <= out@[k].estimate < 5 && -1 <= out@[k].vowel < 5,
{
    let n = inbox.len();
    let mut out: Vec<VowelEstimate> = Vec::new();
    let mut i: usize = 0;
    proof {
        lemma_first_stop_char(inbox@);
        lemma_emitted_is_prefix(inbox@);
    }
    while i < n
        invariant
            job.wf(),
            n == inbox@.len(),
            0 <= i <= n,
            i <= first_stop(inbox@),
            emitted_count(inbox@) == valid_in_prefix(inbox@, first_stop(inbox@)),
            0 <= first_stop(inbox@) <= n,
            forall|j: int| 0 <= j < first_stop(inbox@)
                ==> (#[trigger] inbox@[j]) is InputData,
            first_stop(inbox@) < n ==> !(inbox@[first_stop(inbox@)] is InputData),
            forall|j: int| 0 <= j < inbox@.len()
                ==> (#[trigger] inbox@[j] matches JobMessage::InputData(d)
                    ==> d@.len() <= 0x40_0000
                        && all_abs_le(d@, crate::algorithm::SAMPLE_MAX as int)),
            out@.len() == valid_in_prefix(inbox@, i as int),
            forall|k: int| 0 <= k < out@.len() ==> 0 <= (#[trigger] out@[k]).amount <= SCALE
                && -1 <= out@[k].estimate < 5 && -1 <= out@[k].vowel < 5,
        decreases n - i,
    {
        match &inbox[i] {
            JobMessage::InputData(d) => {
                let r = job.execute(d);
                match r {
                    Some(v) => {
                        out.push(v);
                    },
                    None => {
                    },
                }
                proof {
                    if i as int == first_stop(inbox@) {
                        assert(!(inbox@[i as int] is InputData));
                        assert(false);
                    }
                }
            },
            _ => {
                proof {
                    assert(first_stop(inbox@) <= i as int);
                    assert(out@.len() == emitted_count(inbox@));
                }
                return out;
            },
        }
        i = i + 1;
    }
    proof {
        assert(first_stop(inbox@) == n as int);
        assert(out@.len() == emitted_count(inbox@));
    }
    out
}

} // verus!
