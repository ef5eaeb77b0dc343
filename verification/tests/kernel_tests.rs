//! Tests of the numeric kernel: scalar helpers, array stages and the
//! radix-2 transform, all over fixed-point tick values (65536 = 1.0).

use lip_sync::algorithm::{
    fft, rms, normalize, smoothing, hamming, rfft, lifter, filter, lerp, inverse_lerp,
};
use lip_sync::fixed::{SCALE, div_trunc, isqrt, cos_turns, sin_turns, db_from_amp};
use lip_sync::model::DataPoint;
use lip_sync::job::read_16_bit_samples;

#[test]
fn div_trunc_rounds_toward_zero() {
    assert_eq!(div_trunc(7, 2), 3);
    assert_eq!(div_trunc(-7, 2), -3);
    assert_eq!(div_trunc(6, 3), 2);
    assert_eq!(div_trunc(-6, 3), -2);
}

#[test]
fn isqrt_exact_values() {
    assert_eq!(isqrt(0), 0);
    assert_eq!(isqrt(1), 1);
    assert_eq!(isqrt(3), 1);
    assert_eq!(isqrt(4), 2);
    assert_eq!(isqrt(65536 * 65536), 65536);
    assert_eq!(isqrt(65536 * 65536 - 1), 65535);
}

#[test]
fn cosine_exact_at_quarter_turns() {
    assert_eq!(cos_turns(0), SCALE);
    assert_eq!(cos_turns(16384), 0);
    assert_eq!(cos_turns(32768), -SCALE);
    assert_eq!(cos_turns(49152), 0);
    assert_eq!(sin_turns(0), 0);
    assert_eq!(sin_turns(16384), SCALE);
    assert_eq!(sin_turns(32768), 0);
    assert_eq!(sin_turns(49152), -SCALE);
}

#[test]
fn cosine_eighth_turn_near_root_half() {
    // cos(45 degrees) = 0.70711 -> 46341 ticks; the quartic comes close
    let c = cos_turns(8192);
    assert_eq!(c, 46388);
    assert!((c - 46341).abs() < 100);
}

#[test]
fn db_of_unit_amplitude_is_zero() {
    assert_eq!(db_from_amp(SCALE), 0);
}

#[test]
fn db_of_hundredfold_is_forty_decibels() {
    // 20*log10(100) = 40 dB = 2621440 ticks; small log-table rounding
    assert_eq!(db_from_amp(100 * SCALE), 2621380);
}

#[test]
fn rms_of_full_scale_frame_is_zero_db() {
    let data = vec![SCALE; 1024];
    assert_eq!(rms(&data), 0);
}

#[test]
fn normalize_maps_into_unit_range() {
    let mut data = vec![-SCALE, 0, SCALE];
    normalize(&mut data);
    assert_eq!(data, vec![0, 32768, 65536]);
    for x in data {
        assert!(0 <= x && x <= SCALE);
    }
}

#[test]
fn normalize_zero_range_is_identity() {
    let mut data = vec![0i64, 0, 0];
    normalize(&mut data);
    assert_eq!(data, vec![0, 0, 0]);
}

#[test]
fn normalize_range_is_seeded_with_zero() {
    // all-positive input still measures its range from zero
    let mut data = vec![5i64, 5, 5];
    normalize(&mut data);
    assert_eq!(data, vec![SCALE, SCALE, SCALE]);
}

#[test]
fn smoothing_averages_elementwise() {
    let mut data = vec![10i64, 20, 30];
    let before = vec![20i64, 10, 31];
    smoothing(&mut data, &before);
    assert_eq!(data, vec![15, 15, 30]);
}

#[test]
fn window_zeroes_first_and_last() {
    for n in [2usize, 3, 8, 1024] {
        let mut data = vec![SCALE; n];
        hamming(&mut data);
        assert_eq!(data[0], 0);
        assert_eq!(data[n - 1], 0);
    }
}

#[test]
fn window_interior_weights() {
    let mut data = vec![SCALE; 4];
    hamming(&mut data);
    assert_eq!(data, vec![0, 50462, 50464, 0]);
}

#[test]
fn lifter_keeps_ends_zeroes_middle() {
    let mut data: Vec<i64> = (1..=10).collect();
    lifter(&mut data, 2);
    assert_eq!(data, vec![1, 2, 3, 0, 0, 0, 0, 0, 9, 10]);
}

#[test]
fn filter_replaces_out_of_band_bins_with_minimum() {
    let mut data = vec![50i64, 40, 30, 20, 10, 60];
    filter(&mut data, 2, 4);
    assert_eq!(data, vec![10, 10, 30, 20, 10, 10]);
}

#[test]
fn filter_floors_a_zero_minimum_at_one_tick() {
    let mut data = vec![5i64, 0, 7];
    filter(&mut data, 1, 1);
    assert_eq!(data, vec![1, 0, 1]);
}

#[test]
fn lerp_and_inverse_lerp_agree() {
    assert_eq!(lerp(0, 100, SCALE / 2), 50);
    assert_eq!(lerp(100, 100, SCALE), 100);
    assert_eq!(inverse_lerp(0, 200, 50), SCALE / 4);
    assert_eq!(inverse_lerp(-100, 0, -50), SCALE / 2);
}

#[test]
fn transform_round_trip_len2_is_exact() {
    let orig = vec![-42389i64, 14606];
    let mut data = orig.clone();
    rfft(&mut data, false, false);
    rfft(&mut data, true, false);
    assert_eq!(data, orig);
}

#[test]
fn transform_round_trip_len4_symmetric_is_exact() {
    let orig = vec![51074i64, 45154, 40109, 45154];
    let mut data = orig.clone();
    rfft(&mut data, false, false);
    rfft(&mut data, true, false);
    assert_eq!(data, orig);
}

#[test]
fn transform_round_trip_len8_symmetric_within_tolerance() {
    let orig = vec![-51729i64, -26568, -44545, 4937, 39740, 4937, -44545, -26568];
    let mut data = orig.clone();
    rfft(&mut data, false, false);
    rfft(&mut data, true, false);
    for (a, b) in orig.iter().zip(data.iter()) {
        assert!((a - b).abs() <= 200, "{} vs {}", a, b);
    }
}

#[test]
fn transform_round_trip_len16_symmetric_within_tolerance() {
    let orig = vec![
        -1085i64, 1898, 25405, -10244, 43379, -32481, -47698, 3944, -56285, 3944,
        -47698, -32481, 43379, -10244, 25405, 1898,
    ];
    let mut data = orig.clone();
    rfft(&mut data, false, false);
    rfft(&mut data, true, false);
    for (a, b) in orig.iter().zip(data.iter()) {
        assert!((a - b).abs() <= 200, "{} vs {}", a, b);
    }
}

#[test]
fn transform_magnitude_mode_takes_absolute_real_part() {
    // [1, -1] transforms to [0, 2]; magnitude mode keeps both non-negative
    let mut data = vec![SCALE, -SCALE];
    rfft(&mut data, false, true);
    assert_eq!(data, vec![0, 2 * SCALE]);
    let mut signed = vec![-SCALE, SCALE];
    rfft(&mut signed, false, false);
    assert_eq!(signed, vec![0, -2 * SCALE]);
}

#[test]
fn complex_sample_arithmetic() {
    assert_eq!(DataPoint::zero(), DataPoint(0, 0));
    let a = DataPoint(2 * SCALE, SCALE);
    let b = DataPoint(SCALE, -SCALE);
    assert_eq!(a.add(b), DataPoint(3 * SCALE, 0));
    // (2 + i)(1 - i) = 3 - i
    assert_eq!(a.mul(b), DataPoint(3 * SCALE, -SCALE));
}

#[test]
fn unit_exponential_of_zero_angle() {
    let e = DataPoint(0, 0).exp();
    assert_eq!(e, DataPoint(SCALE, 0));
}

#[test]
fn unit_exponential_of_negative_angle_conjugates() {
    // pi/2 radians in ticks is about 102944: a quarter turn
    let up = DataPoint(0, 102944).exp();
    let down = DataPoint(0, -102944).exp();
    assert_eq!(up.0, down.0);
    assert_eq!(up.1, -down.1);
    assert!(up.0.abs() < 200);
    assert!((up.1 - SCALE).abs() < 200);
}

#[test]
fn decode_16_bit_samples() {
    let bytes = vec![0u8, 0, 0, 0x80, 0xff, 0x7f];
    let out = read_16_bit_samples(&bytes);
    assert_eq!(out, vec![0, -65536, 65534]);
}

#[test]
fn complex_transform_round_trip_len4_is_exact() {
    let orig = vec![
        DataPoint(1234, -555), DataPoint(-876, 12), DataPoint(65536, 7),
        DataPoint(-3, 99),
    ];
    let mut data = orig.clone();
    fft(&mut data, false);
    fft(&mut data, true);
    for (a, b) in orig.iter().zip(data.iter()) {
        assert_eq!(4 * a.0, b.0);
        assert_eq!(4 * a.1, b.1);
    }
}
