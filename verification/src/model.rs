//! Data model: the complex working sample of the transform, the per-frame
//! vowel estimate record, and the fixed per-vowel formant template database.

use vstd::prelude::*;
use crate::fixed::{
    SCALE, sdiv, div_trunc, cos_turns, sin_turns, cos_turns_spec, sin_turns_spec,
    lemma_sdiv_mag,
};

verus! {

/// `2 * pi * SCALE`, rounded: ticks of radians per full turn.
pub const PI2T: i64 = 411775;

/// Decibel span of the loudness compression window (100 dB), in ticks.
pub const DYNAMIC_RANGE_T: i64 = 6553600;

/// Number of vowel labels the classifier distinguishes.
pub const VOWEL_COUNT: usize = 5;

/// An ordered (real, imaginary) pair in fixed-point ticks: the transform's
/// working representation. Also used as a formant peak, where the first
/// field is a plain bin index and the second a tick amplitude.
#[derive(Clone, Copy, PartialEq, Eq, Structural, Debug)]
pub struct DataPoint(pub i64, pub i64);

/// Componentwise complex sum.
pub open spec fn cadd_spec(a: DataPoint, b: DataPoint) -> DataPoint {
    DataPoint((a.0 + b.0) as i64, (a.1 + b.1) as i64)
}

/// Fixed-point complex product: the usual cross terms, rescaled by `SCALE`.
pub open spec fn cmul_spec(a: DataPoint, b: DataPoint) -> DataPoint {
    DataPoint(
        sdiv(a.0 * b.0 - a.1 * b.1, SCALE as int) as i64,
        sdiv(a.0 * b.1 + a.1 * b.0, SCALE as int) as i64,
    )
}

impl DataPoint {
    /// The additive identity.
    pub fn zero() -> (r: DataPoint)
        ensures
            r == DataPoint(0i64, 0i64),
    {
        DataPoint(0, 0)
    }

    /// Componentwise sum.
    pub fn add(self, other: DataPoint) -> (r: DataPoint)
        requires
            -0x4000_0000_0000_0000 <= self.0 + other.0 <= 0x4000_0000_0000_0000,
            -0x4000_0000_0000_0000 <= self.1 + other.1 <= 0x4000_0000_0000_0000,
        ensures
            r == cadd_spec(self, other),
    {
        DataPoint(self.0 + other.0, self.1 + other.1)
    }

    /// Fixed-point complex product.
    pub fn mul(self, other: DataPoint) -> (r: DataPoint)
        requires
            -0x2000_0000_0000_0000 <= self.0 * other.0 <= 0x2000_0000_0000_0000,
            -0x2000_0000_0000_0000 <= self.1 * other.1 <= 0x2000_0000_0000_0000,
            -0x2000_0000_0000_0000 <= self.0 * other.1 <= 0x2000_0000_0000_0000,
            -0x2000_0000_0000_0000 <= self.1 * other.0 <= 0x2000_0000_0000_0000,
        ensures
            r == cmul_spec(self, other),
    {
        proof {
            lemma_sdiv_mag(self.0 * other.0 - self.1 * other.1, SCALE as int,
                0x4000_0000_0000_0000);
            lemma_sdiv_mag(self.0 * other.1 + self.1 * other.0, SCALE as int,
                0x4000_0000_0000_0000);
        }
        let re = div_trunc(self.0 * other.0 - self.1 * other.1, SCALE);
        let im = div_trunc(self.0 * other.1 + self.1 * other.0, SCALE);
        DataPoint(re, im)
    }

    /// Complex exponential of a purely imaginary value: the unit vector at
    /// angle `self.1` tick-radians. The angle is converted to turns and the
    /// cosine and sine are taken there.
    pub fn exp(self) -> (r: DataPoint)
        requires
            self.0 == 0,
            -PI2T < self.1 < PI2T,
        ensures
            r == exp_imag_spec(self.1 as int),
    {
        if self.1 >= 0 {
            proof {
                assert(self.1 * (SCALE as int) < (SCALE as int) * (PI2T as int))
                    by (nonlinear_arith)
                    requires 0 <= self.1 < PI2T;
            }
            let t = div_trunc(self.1 * SCALE, PI2T);
            proof {
                crate::fixed::lemma_sdiv_lt(
                    self.1 * SCALE as int, PI2T as int, SCALE as int);
            }
            DataPoint(cos_turns(t), sin_turns(t))
        } else {
            proof {
                assert((-self.1) * (SCALE as int) < (SCALE as int) * (PI2T as int))
                    by (nonlinear_arith)
                    requires -PI2T < self.1 < 0;
            }
            let t = div_trunc((-self.1) * SCALE, PI2T);
            proof {
                crate::fixed::lemma_sdiv_lt(
                    (-self.1) * SCALE as int, PI2T as int, SCALE as int);
            }
            DataPoint(cos_turns(t), -sin_turns(t))
        }
    }
}

/// Unit vector at angle `theta` tick-radians (`|theta| < PI2T`): cosine and
/// sine of the corresponding fraction of a turn, with the symmetry
/// `exp(-i t) == conj(exp(i t))` applied for negative angles.
pub open spec fn exp_imag_spec(theta: int) -> DataPoint {
    if theta >= 0 {
        let t = sdiv(theta * SCALE as int, PI2T as int);
        DataPoint(cos_turns_spec(t) as i64, sin_turns_spec(t) as i64)
    } else {
        let t = sdiv((-theta) * SCALE as int, PI2T as int);
        DataPoint(cos_turns_spec(t) as i64, (-sin_turns_spec(t)) as i64)
    }
}

/// One vowel's canonical formant layout: an ordered run of (bin index,
/// tick amplitude) peaks.
#[derive(Clone, Debug, PartialEq)]
pub struct Phoneme(pub Vec<DataPoint>);

/// The per-frame output record: raw classification index, smoothed vowel
/// index (both `-1..=4`, `-1` meaning indeterminate), and the loudness
/// confidence in ticks.
#[derive(Clone, Copy, PartialEq, Eq, Structural, Debug)]
pub struct VowelEstimate {
    pub estimate: i32,
    pub vowel: i32,
    pub amount: i64,
}

impl VowelEstimate {
    /// Plain record constructor.
    pub fn new(estimate: i32, vowel: i32, amount: i64) -> (r: VowelEstimate)
        ensures
            r.estimate == estimate,
            r.vowel == vowel,
            r.amount == amount,
    {
        VowelEstimate { estimate, vowel, amount }
    }
}

/// Template peaks for three-peak articulations, in vowel order A, E, I, O, U.
pub open spec fn template_peaks3(v: int) -> Seq<DataPoint> {
    if v == 0 {
        seq![DataPoint(18, 65536), DataPoint(41, 58982), DataPoint(85, 49152)]
    } else if v == 1 {
        seq![DataPoint(21, 65536), DataPoint(60, 49152), DataPoint(84, 42598)]
    } else if v == 2 {
        seq![DataPoint(21, 65536), DataPoint(42, 72090), DataPoint(84, 65536)]
    } else if v == 3 {
        seq![DataPoint(20, 65536), DataPoint(63, 58982), DataPoint(85, 52429)]
    } else {
        seq![DataPoint(19, 65536), DataPoint(47, 42598), DataPoint(84, 45875)]
    }
}

/// Template peaks for four-peak articulations, in vowel order A, E, I, O, U.
pub open spec fn template_peaks4(v: int) -> Seq<DataPoint> {
    if v == 0 {
        seq![DataPoint(18, 65536), DataPoint(41, 58982), DataPoint(68, 45875),
            DataPoint(85, 36045)]
    } else if v == 1 {
        seq![DataPoint(22, 65536), DataPoint(43, 58982), DataPoint(66, 45875),
            DataPoint(84, 42598)]
    } else if v == 2 {
        seq![DataPoint(21, 65536), DataPoint(42, 72090), DataPoint(60, 65536),
            DataPoint(84, 72090)]
    } else if v == 3 {
        seq![DataPoint(20, 65536), DataPoint(39, 58982), DataPoint(63, 49152),
            DataPoint(85, 52429)]
    } else {
        seq![DataPoint(20, 65536), DataPoint(39, 45875), DataPoint(65, 39322),
            DataPoint(84, 49152)]
    }
}

/// The fixed classification template database: one three-peak and one
/// four-peak template per vowel, read-only for the process lifetime.
pub struct TemplateDb {
    pub peak3: Vec<Phoneme>,
    pub peak4: Vec<Phoneme>,
}

impl TemplateDb {
    /// Every vowel's template matches the fixed table.
    pub open spec fn wf(self) -> bool {
        &&& self.peak3@.len() == VOWEL_COUNT
        &&& self.peak4@.len() == VOWEL_COUNT
        &&& forall|v: int| 0 <= v < VOWEL_COUNT ==> #[trigger] self.peak3@[v].0@
            == template_peaks3(v)
        &&& forall|v: int| 0 <= v < VOWEL_COUNT ==> #[trigger] self.peak4@[v].0@
            == template_peaks4(v)
    }
}

fn phoneme3(a: DataPoint, b: DataPoint, c: DataPoint) -> (r: Phoneme)
    ensures
        r.0@ == seq![a, b, c],
{
    let mut v: Vec<DataPoint> = Vec::new();
    v.push(a);
    v.push(b);
    v.push(c);
    proof {
        assert(v@ =~= seq![a, b, c]);
    }
    Phoneme(v)
}

fn phoneme4(a: DataPoint, b: DataPoint, c: DataPoint, d: DataPoint) -> (r: Phoneme)
    ensures
        r.0@ == seq![a, b, c, d],
{
    let mut v: Vec<DataPoint> = Vec::new();
    v.push(a);
    v.push(b);
    v.push(c);
    v.push(d);
    proof {
        assert(v@ =~= seq![a, b, c, d]);
    }
    Phoneme(v)
}

/// Builds the fixed template database: the values every classification is
/// scored against.
pub fn default_estimates() -> (db: TemplateDb)
    ensures
        db.wf(),
{
    let mut peak3: Vec<Phoneme> = Vec::new();
    peak3.push(phoneme3(DataPoint(18, 65536), DataPoint(41, 58982), DataPoint(85, 49152)));
    peak3.push(phoneme3(DataPoint(21, 65536), DataPoint(60, 49152), DataPoint(84, 42598)));
    peak3.push(phoneme3(DataPoint(21, 65536), DataPoint(42, 72090), DataPoint(84, 65536)));
    peak3.push(phoneme3(DataPoint(20, 65536), DataPoint(63, 58982), DataPoint(85, 52429)));
    peak3.push(phoneme3(DataPoint(19, 65536), DataPoint(47, 42598), DataPoint(84, 45875)));
    let mut peak4: Vec<Phoneme> = Vec::new();
    peak4.push(phoneme4(DataPoint(18, 65536), DataPoint(41, 58982), DataPoint(68, 45875),
        DataPoint(85, 36045)));
    peak4.push(phoneme4(DataPoint(22, 65536), DataPoint(43, 58982), DataPoint(66, 45875),
        DataPoint(84, 42598)));
    peak4.push(phoneme4(DataPoint(21, 65536), DataPoint(42, 72090), DataPoint(60, 65536),
        DataPoint(84, 72090)));
    peak4.push(phoneme4(DataPoint(20, 65536), DataPoint(39, 58982), DataPoint(63, 49152),
        DataPoint(85, 52429)));
    peak4.push(phoneme4(DataPoint(20, 65536), DataPoint(39, 45875), DataPoint(65, 39322),
        DataPoint(84, 49152)));
    TemplateDb { peak3, peak4 }
}

/// Display letter of a vowel index, in the fixed label order.
pub fn vowel_label(i: usize) -> (c: char)
    requires
        i < VOWEL_COUNT,
    ensures
        c == (if i == 0 { 'A' } else if i == 1 { 'E' } else if i == 2 { 'I' }
            else if i == 3 { 'O' } else { 'U' }),
{
    if i == 0 { 'A' } else if i == 1 { 'E' } else if i == 2 { 'I' }
        else if i == 3 { 'O' } else { 'U' }
}

} // verus!
