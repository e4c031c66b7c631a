use oxideav_jpeg2000::mct::{
    check_tile_components_9x7, check_tile_components_9x7_multi, clamp_to_dynamic_range,
    clamp_to_dynamic_range_i64, forward_dc_level_shift, forward_dc_level_shift_unsigned,
    forward_dc_level_shift_unsigned_i64, forward_rct, forward_rct_i64, inverse_dc_level_shift,
    inverse_dc_level_shift_unsigned, inverse_dc_level_shift_unsigned_i64, inverse_rct,
    inverse_rct_i64, reconstruct_tile_components_5x3, reconstruct_tile_components_5x3_i64,
    reconstruct_tile_components_5x3_multi, restore_component, ComponentDescriptor, InverseMctMode,
    SizComponent,
};
use oxideav_jpeg2000::Error;

/// The inverse irreversible component transform (T.800 §G.3.2).
fn inverse_ict(c0: &mut [f32], c1: &mut [f32], c2: &mut [f32]) -> Result<(), Error> {
    if c0.len() != c1.len() || c1.len() != c2.len() {
        return Err(Error::InvalidMarkerLength);
    }
    for i in 0..c0.len() {
        let (y0, y1, y2) = (c0[i], c1[i], c2[i]);
        c0[i] = y0 + 1.402 * y2;
        c1[i] = y0 - 0.34413 * y1 - 0.71414 * y2;
        c2[i] = y0 + 1.772 * y1;
    }
    Ok(())
}

/// The forward irreversible component transform (T.800 §G.3.1).
fn forward_ict(c0: &mut [f32], c1: &mut [f32], c2: &mut [f32]) -> Result<(), Error> {
    if c0.len() != c1.len() || c1.len() != c2.len() {
        return Err(Error::InvalidMarkerLength);
    }
    for i in 0..c0.len() {
        let (r, g, b) = (c0[i], c1[i], c2[i]);
        c0[i] = 0.299 * r + 0.587 * g + 0.114 * b;
        c1[i] = -0.16875 * r - 0.331260 * g + 0.5 * b;
        c2[i] = 0.5 * r - 0.41869 * g - 0.08131 * b;
    }
    Ok(())
}

/// Rounds a component and hands it to the library.
fn finish(src: &[f32], dst: &mut [i32], d: ComponentDescriptor) -> Result<(), Error> {
    for (s, o) in src.iter().zip(dst.iter_mut()) {
        *o = s.round_ties_even() as i32;
    }
    restore_component(dst, d)
}

#[allow(clippy::too_many_arguments)]
fn reconstruct_tile_components_9x7(
    c0: &mut [f32],
    c1: &mut [f32],
    c2: &mut [f32],
    out0: &mut [i32],
    out1: &mut [i32],
    out2: &mut [i32],
    descriptors: &[ComponentDescriptor],
    mode: InverseMctMode,
) -> Result<(), Error> {
    let lens = [c0.len(), c1.len(), c2.len()];
    let out_lens = [out0.len(), out1.len(), out2.len()];
    check_tile_components_9x7(&lens, &out_lens, descriptors, mode)?;
    if mode == InverseMctMode::Ict {
        inverse_ict(c0, c1, c2)?;
    }
    finish(c0, out0, descriptors[0])?;
    finish(c1, out1, descriptors[1])?;
    finish(c2, out2, descriptors[2])
}

fn reconstruct_tile_components_9x7_multi(
    components: &mut [&mut [f32]],
    outputs: &mut [&mut [i32]],
    descriptors: &[ComponentDescriptor],
    mode: InverseMctMode,
) -> Result<(), Error> {
    let lens: Vec<usize> = components.iter().map(|c| c.len()).collect();
    let out_lens: Vec<usize> = outputs.iter().map(|o| o.len()).collect();
    check_tile_components_9x7_multi(&lens, &out_lens, descriptors, mode)?;
    if mode == InverseMctMode::Ict {
        if let [c0, c1, c2, ..] = components {
            inverse_ict(c0, c1, c2)?;
        }
    }
    for ((src, dst), d) in components.iter().zip(outputs.iter_mut()).zip(descriptors) {
        finish(src, dst, *d)?;
    }
    Ok(())
}

#[test]
fn forward_rct_matches_g_2_1_worked_example() {
    let mut c0 = [200_i32];
    let mut c1 = [100_i32];
    let mut c2 = [50_i32];
    forward_rct(&mut c0, &mut c1, &mut c2).unwrap();
    assert_eq!(c0[0], 112);
    assert_eq!(c1[0], -50);
    assert_eq!(c2[0], 100);
}

#[test]
fn inverse_rct_matches_g_2_2_worked_example() {
    let mut c0 = [112_i32];
    let mut c1 = [-50_i32];
    let mut c2 = [100_i32];
    inverse_rct(&mut c0, &mut c1, &mut c2).unwrap();
    assert_eq!(c0[0], 200);
    assert_eq!(c1[0], 100);
    assert_eq!(c2[0], 50);
}

#[test]
fn rct_roundtrips_unit_axes() {
    for k in 0_i32..=255_i32 {
        let (mut a, mut b, mut c) = ([k], [k], [k]);
        forward_rct(&mut a, &mut b, &mut c).unwrap();
        assert_eq!(a[0], k);
        assert_eq!(b[0], 0);
        assert_eq!(c[0], 0);
        inverse_rct(&mut a, &mut b, &mut c).unwrap();
        assert_eq!(a[0], k);
        assert_eq!(b[0], k);
        assert_eq!(c[0], k);

        let (mut a, mut b, mut c) = ([k], [0_i32], [0_i32]);
        forward_rct(&mut a, &mut b, &mut c).unwrap();
        inverse_rct(&mut a, &mut b, &mut c).unwrap();
        assert_eq!(a[0], k);
        assert_eq!(b[0], 0);
        assert_eq!(c[0], 0);

        let (mut a, mut b, mut c) = ([0_i32], [k], [0_i32]);
        forward_rct(&mut a, &mut b, &mut c).unwrap();
        inverse_rct(&mut a, &mut b, &mut c).unwrap();
        assert_eq!(a[0], 0);
        assert_eq!(b[0], k);
        assert_eq!(c[0], 0);

        let (mut a, mut b, mut c) = ([0_i32], [0_i32], [k]);
        forward_rct(&mut a, &mut b, &mut c).unwrap();
        inverse_rct(&mut a, &mut b, &mut c).unwrap();
        assert_eq!(a[0], 0);
        assert_eq!(b[0], 0);
        assert_eq!(c[0], k);
    }
}

#[test]
fn rct_roundtrips_full_8bit_cube_diagonal_slice() {
    for r in (0_i32..=255_i32).step_by(17) {
        for g in (0_i32..=255_i32).step_by(17) {
            for b in (0_i32..=255_i32).step_by(17) {
                let (mut a, mut bm, mut cm) = ([r], [g], [b]);
                forward_rct(&mut a, &mut bm, &mut cm).unwrap();
                inverse_rct(&mut a, &mut bm, &mut cm).unwrap();
                assert_eq!(
                    (a[0], bm[0], cm[0]),
                    (r, g, b),
                    "RCT roundtrip diverged at (R,G,B) = ({}, {}, {})",
                    r,
                    g,
                    b
                );
            }
        }
    }
}

#[test]
fn inverse_rct_floor_division_handles_negative_sums() {
    let mut c0 = [10_i32];
    let mut c1 = [0_i32];
    let mut c2 = [-1_i32];
    inverse_rct(&mut c0, &mut c1, &mut c2).unwrap();
    assert_eq!(c1[0], 11);
    let mut c0 = [10_i32];
    let mut c1 = [-2_i32];
    let mut c2 = [-2_i32];
    inverse_rct(&mut c0, &mut c1, &mut c2).unwrap();
    assert_eq!(c1[0], 11);
    let mut c0 = [10_i32];
    let mut c1 = [-3_i32];
    let mut c2 = [-2_i32];
    inverse_rct(&mut c0, &mut c1, &mut c2).unwrap();
    assert_eq!(c1[0], 12);
}

#[test]
fn ict_roundtrips_8bit_axes_within_tolerance() {
    const TOL: f32 = 5e-3;
    for k in (0_u32..=255_u32).step_by(32) {
        let k = k as f32;
        let (mut a, mut b, mut c) = ([k], [k], [k]);
        forward_ict(&mut a, &mut b, &mut c).unwrap();
        inverse_ict(&mut a, &mut b, &mut c).unwrap();
        assert!((a[0] - k).abs() < TOL, "I0 drift at k = {}: {}", k, a[0]);
        assert!((b[0] - k).abs() < TOL, "I1 drift at k = {}: {}", k, b[0]);
        assert!((c[0] - k).abs() < TOL, "I2 drift at k = {}: {}", k, c[0]);
    }
    let mut c0 = [200.0_f32];
    let mut c1 = [100.0_f32];
    let mut c2 = [50.0_f32];
    forward_ict(&mut c0, &mut c1, &mut c2).unwrap();
    inverse_ict(&mut c0, &mut c1, &mut c2).unwrap();
    assert!((c0[0] - 200.0).abs() < TOL);
    assert!((c1[0] - 100.0).abs() < TOL);
    assert!((c2[0] - 50.0).abs() < TOL);
}

#[test]
fn forward_ict_red_matches_y_cb_cr_601_textbook() {
    let mut c0 = [255.0_f32];
    let mut c1 = [0.0_f32];
    let mut c2 = [0.0_f32];
    forward_ict(&mut c0, &mut c1, &mut c2).unwrap();
    assert!((c0[0] - 76.245).abs() < 1e-3, "Y0 = {}", c0[0]);
    assert!((c1[0] - (-43.03125)).abs() < 1e-3, "Y1 = {}", c1[0]);
    assert!((c2[0] - 127.5).abs() < 1e-3, "Y2 = {}", c2[0]);
}

#[test]
fn length_mismatch_returns_invalid_marker_length() {
    let mut a = [0_i32; 4];
    let mut b = [0_i32; 3];
    let mut c = [0_i32; 4];
    assert_eq!(
        inverse_rct(&mut a, &mut b, &mut c),
        Err(Error::InvalidMarkerLength)
    );
    assert_eq!(
        forward_rct(&mut a, &mut b, &mut c),
        Err(Error::InvalidMarkerLength)
    );

    let mut a = [0.0_f32; 4];
    let mut b = [0.0_f32; 4];
    let mut c = [0.0_f32; 5];
    assert_eq!(
        inverse_ict(&mut a, &mut b, &mut c),
        Err(Error::InvalidMarkerLength)
    );
    assert_eq!(
        forward_ict(&mut a, &mut b, &mut c),
        Err(Error::InvalidMarkerLength)
    );
}

#[test]
fn inverse_dc_level_shift_unsigned_8bit() {
    let mut s = [-128_i32, -1, 0, 1, 127];
    inverse_dc_level_shift_unsigned(&mut s, 8).unwrap();
    assert_eq!(s, [0_i32, 127, 128, 129, 255]);
}

#[test]
fn inverse_dc_level_shift_unsigned_12bit() {
    let mut s = [-2048_i32, -1, 0, 2047];
    inverse_dc_level_shift_unsigned(&mut s, 12).unwrap();
    assert_eq!(s, [0_i32, 2047, 2048, 4095]);
}

#[test]
fn inverse_dc_level_shift_rejects_invalid_precision() {
    let mut s = [0_i32; 4];
    assert_eq!(
        inverse_dc_level_shift_unsigned(&mut s, 0),
        Err(Error::InvalidSamplePrecision)
    );
    assert_eq!(
        inverse_dc_level_shift_unsigned(&mut s, 32),
        Err(Error::InvalidSamplePrecision)
    );
    assert!(inverse_dc_level_shift_unsigned(&mut s, 31).is_ok());
    assert!(inverse_dc_level_shift_unsigned(&mut s, 1).is_ok());
}

#[test]
fn empty_inputs_are_a_noop() {
    let mut a: [i32; 0] = [];
    let mut b: [i32; 0] = [];
    let mut c: [i32; 0] = [];
    assert!(inverse_rct(&mut a, &mut b, &mut c).is_ok());
    assert!(forward_rct(&mut a, &mut b, &mut c).is_ok());

    let mut a: [f32; 0] = [];
    let mut b: [f32; 0] = [];
    let mut c: [f32; 0] = [];
    assert!(inverse_ict(&mut a, &mut b, &mut c).is_ok());
    assert!(forward_ict(&mut a, &mut b, &mut c).is_ok());
}

#[test]
fn forward_dc_level_shift_unsigned_8bit() {
    let mut s = [0_i32, 127, 128, 129, 255];
    forward_dc_level_shift_unsigned(&mut s, 8).unwrap();
    assert_eq!(s, [-128_i32, -1, 0, 1, 127]);
}

#[test]
fn forward_dc_level_shift_unsigned_12bit() {
    let mut s = [0_i32, 2047, 2048, 4095];
    forward_dc_level_shift_unsigned(&mut s, 12).unwrap();
    assert_eq!(s, [-2048_i32, -1, 0, 2047]);
}

#[test]
fn forward_dc_level_shift_rejects_invalid_precision() {
    let mut s = [0_i32; 4];
    assert_eq!(
        forward_dc_level_shift_unsigned(&mut s, 0),
        Err(Error::InvalidSamplePrecision)
    );
    assert_eq!(
        forward_dc_level_shift_unsigned(&mut s, 32),
        Err(Error::InvalidSamplePrecision)
    );
    assert!(forward_dc_level_shift_unsigned(&mut s, 1).is_ok());
    assert!(forward_dc_level_shift_unsigned(&mut s, 31).is_ok());
}

#[test]
fn dc_level_shift_round_trip_8bit_full_range() {
    let mut s: Vec<i32> = (0..256_i32).collect();
    let original = s.clone();
    forward_dc_level_shift_unsigned(&mut s, 8).unwrap();
    assert_eq!(s[0], -128);
    assert_eq!(s[255], 127);
    inverse_dc_level_shift_unsigned(&mut s, 8).unwrap();
    assert_eq!(s, original);
}

#[test]
fn dc_level_shift_round_trip_12bit_stride() {
    let mut s: Vec<i32> = (0..4096_i32).step_by(7).collect();
    let original = s.clone();
    forward_dc_level_shift_unsigned(&mut s, 12).unwrap();
    inverse_dc_level_shift_unsigned(&mut s, 12).unwrap();
    assert_eq!(s, original);
}

#[test]
fn dc_level_shift_i64_round_trip_32bit() {
    let mut s: Vec<i64> = vec![
        0,
        1,
        i64::from(i32::MAX) + 1,
        (1_i64 << 32) - 1,
    ];
    let original = s.clone();
    forward_dc_level_shift_unsigned_i64(&mut s, 32).unwrap();
    assert_eq!(s[0], -(1_i64 << 31));
    assert_eq!(s[2], 0);
    assert_eq!(s[3], (1_i64 << 31) - 1);
    inverse_dc_level_shift_unsigned_i64(&mut s, 32).unwrap();
    assert_eq!(s, original);
}

#[test]
fn dc_level_shift_i64_round_trip_38bit() {
    let span: i64 = (1_i64 << 38) - 1;
    let mut s: Vec<i64> = vec![0, 1, 1_i64 << 37, span];
    let original = s.clone();
    forward_dc_level_shift_unsigned_i64(&mut s, 38).unwrap();
    assert_eq!(s[0], -(1_i64 << 37));
    assert_eq!(s[2], 0);
    assert_eq!(s[3], (1_i64 << 37) - 1);
    inverse_dc_level_shift_unsigned_i64(&mut s, 38).unwrap();
    assert_eq!(s, original);
}

#[test]
fn dc_level_shift_i64_rejects_invalid_precision() {
    let mut s = [0_i64; 4];
    assert_eq!(
        forward_dc_level_shift_unsigned_i64(&mut s, 0),
        Err(Error::InvalidSamplePrecision)
    );
    assert_eq!(
        forward_dc_level_shift_unsigned_i64(&mut s, 39),
        Err(Error::InvalidSamplePrecision)
    );
    assert_eq!(
        inverse_dc_level_shift_unsigned_i64(&mut s, 0),
        Err(Error::InvalidSamplePrecision)
    );
    assert_eq!(
        inverse_dc_level_shift_unsigned_i64(&mut s, 39),
        Err(Error::InvalidSamplePrecision)
    );
    assert!(forward_dc_level_shift_unsigned_i64(&mut s, 1).is_ok());
    assert!(forward_dc_level_shift_unsigned_i64(&mut s, 38).is_ok());
    assert!(inverse_dc_level_shift_unsigned_i64(&mut s, 1).is_ok());
    assert!(inverse_dc_level_shift_unsigned_i64(&mut s, 38).is_ok());
}

#[test]
fn dc_level_shift_signed_dispatcher_is_noop() {
    let original = vec![-128_i32, -1, 0, 1, 127];
    let mut s = original.clone();
    forward_dc_level_shift(&mut s, 8, true).unwrap();
    assert_eq!(s, original);
    inverse_dc_level_shift(&mut s, 8, true).unwrap();
    assert_eq!(s, original);

    let original = vec![-2048_i32, -1, 0, 2047];
    let mut s = original.clone();
    forward_dc_level_shift(&mut s, 12, true).unwrap();
    assert_eq!(s, original);
    inverse_dc_level_shift(&mut s, 12, true).unwrap();
    assert_eq!(s, original);
}

#[test]
fn dc_level_shift_unsigned_dispatcher_round_trips_8bit() {
    let mut s: Vec<i32> = (0..256_i32).collect();
    let original = s.clone();
    forward_dc_level_shift(&mut s, 8, false).unwrap();
    inverse_dc_level_shift(&mut s, 8, false).unwrap();
    assert_eq!(s, original);
}

#[test]
fn dc_level_shift_signed_dispatcher_validates_precision() {
    let mut s = [0_i32; 4];
    assert_eq!(
        forward_dc_level_shift(&mut s, 0, true),
        Err(Error::InvalidSamplePrecision)
    );
    assert_eq!(
        forward_dc_level_shift(&mut s, 39, true),
        Err(Error::InvalidSamplePrecision)
    );
    assert_eq!(
        inverse_dc_level_shift(&mut s, 0, true),
        Err(Error::InvalidSamplePrecision)
    );
    assert_eq!(
        inverse_dc_level_shift(&mut s, 39, true),
        Err(Error::InvalidSamplePrecision)
    );
    assert!(forward_dc_level_shift(&mut s, 8, true).is_ok());
    assert!(forward_dc_level_shift(&mut s, 38, true).is_ok());
}

#[test]
fn clamp_dynamic_range_unsigned_8bit() {
    let mut s = [-10_i32, 0, 1, 254, 255, 256, 1_000_000];
    clamp_to_dynamic_range(&mut s, 8, false).unwrap();
    assert_eq!(s, [0_i32, 0, 1, 254, 255, 255, 255]);
}

#[test]
fn clamp_dynamic_range_unsigned_12bit() {
    let mut s = [-1_i32, 0, 4095, 4096, i32::MAX];
    clamp_to_dynamic_range(&mut s, 12, false).unwrap();
    assert_eq!(s, [0_i32, 0, 4095, 4095, 4095]);
}

#[test]
fn clamp_dynamic_range_signed_8bit() {
    let mut s = [-200_i32, -128, 0, 127, 200];
    clamp_to_dynamic_range(&mut s, 8, true).unwrap();
    assert_eq!(s, [-128_i32, -128, 0, 127, 127]);
}

#[test]
fn clamp_dynamic_range_signed_16bit() {
    let mut s = [-40_000_i32, -32_768, 0, 32_767, 40_000];
    clamp_to_dynamic_range(&mut s, 16, true).unwrap();
    assert_eq!(s, [-32_768_i32, -32_768, 0, 32_767, 32_767]);
}

#[test]
fn clamp_dynamic_range_unsigned_31bit_upper_bound() {
    let mut s = [-1_i32, 0, i32::MAX];
    clamp_to_dynamic_range(&mut s, 31, false).unwrap();
    assert_eq!(s, [0_i32, 0, i32::MAX]);
}

#[test]
fn clamp_dynamic_range_rejects_invalid_precision() {
    let mut s = [0_i32; 4];
    assert_eq!(
        clamp_to_dynamic_range(&mut s, 0, false),
        Err(Error::InvalidSamplePrecision)
    );
    assert_eq!(
        clamp_to_dynamic_range(&mut s, 32, false),
        Err(Error::InvalidSamplePrecision)
    );
    assert!(clamp_to_dynamic_range(&mut s, 1, false).is_ok());
    assert!(clamp_to_dynamic_range(&mut s, 31, true).is_ok());
}

#[test]
fn clamp_dynamic_range_i64_unsigned_8bit_matches_i32() {
    let mut s = [-10_i64, 0, 1, 254, 255, 256, 1_000_000];
    clamp_to_dynamic_range_i64(&mut s, 8, false).unwrap();
    assert_eq!(s, [0_i64, 0, 1, 254, 255, 255, 255]);
}

#[test]
fn clamp_dynamic_range_i64_signed_12bit() {
    let mut s = [-3_000_i64, -2_048, -1, 0, 2_047, 2_048, 10_000];
    clamp_to_dynamic_range_i64(&mut s, 12, true).unwrap();
    assert_eq!(s, [-2_048_i64, -2_048, -1, 0, 2_047, 2_047, 2_047]);
}

#[test]
fn clamp_dynamic_range_i64_unsigned_32bit() {
    let span: i64 = (1_i64 << 32) - 1;
    let mut s = [
        -1_i64,
        0,
        1,
        (1_i64 << 31),
        span,
        span + 1,
        i64::MAX,
    ];
    clamp_to_dynamic_range_i64(&mut s, 32, false).unwrap();
    assert_eq!(s, [0_i64, 0, 1, 1_i64 << 31, span, span, span]);
}

#[test]
fn clamp_dynamic_range_i64_signed_32bit() {
    let lo: i64 = -(1_i64 << 31);
    let hi: i64 = (1_i64 << 31) - 1;
    let mut s = [lo - 1, lo, -1, 0, hi, hi + 1, i64::MAX];
    clamp_to_dynamic_range_i64(&mut s, 32, true).unwrap();
    assert_eq!(s, [lo, lo, -1, 0, hi, hi, hi]);
}

#[test]
fn clamp_dynamic_range_i64_unsigned_38bit_upper_bound() {
    let span: i64 = (1_i64 << 38) - 1;
    let mut s = [-1_i64, 0, span, span + 1, i64::MAX];
    clamp_to_dynamic_range_i64(&mut s, 38, false).unwrap();
    assert_eq!(s, [0_i64, 0, span, span, span]);
}

#[test]
fn clamp_dynamic_range_i64_signed_38bit_upper_bound() {
    let lo: i64 = -(1_i64 << 37);
    let hi: i64 = (1_i64 << 37) - 1;
    let mut s = [i64::MIN, lo - 1, lo, 0, hi, hi + 1, i64::MAX];
    clamp_to_dynamic_range_i64(&mut s, 38, true).unwrap();
    assert_eq!(s, [lo, lo, lo, 0, hi, hi, hi]);
}

#[test]
fn clamp_dynamic_range_i64_unsigned_1bit() {
    let mut s = [-5_i64, 0, 1, 2, i64::MAX];
    clamp_to_dynamic_range_i64(&mut s, 1, false).unwrap();
    assert_eq!(s, [0_i64, 0, 1, 1, 1]);
}

#[test]
fn clamp_dynamic_range_i64_in_range_passthrough() {
    let original = [0_i64, 1, 100, 1_000, 65_535, 1_i64 << 36];
    let mut s = original;
    clamp_to_dynamic_range_i64(&mut s, 38, false).unwrap();
    assert_eq!(s, original);
}

#[test]
fn clamp_dynamic_range_i64_empty_slice_ok() {
    let mut s: [i64; 0] = [];
    assert!(clamp_to_dynamic_range_i64(&mut s, 32, false).is_ok());
    assert!(clamp_to_dynamic_range_i64(&mut s, 38, true).is_ok());
}

#[test]
fn clamp_dynamic_range_i64_rejects_invalid_precision() {
    let mut s = [0_i64; 4];
    assert_eq!(
        clamp_to_dynamic_range_i64(&mut s, 0, false),
        Err(Error::InvalidSamplePrecision)
    );
    assert_eq!(
        clamp_to_dynamic_range_i64(&mut s, 39, false),
        Err(Error::InvalidSamplePrecision)
    );
    assert_eq!(
        clamp_to_dynamic_range_i64(&mut s, 255, true),
        Err(Error::InvalidSamplePrecision)
    );
    assert!(clamp_to_dynamic_range_i64(&mut s, 1, false).is_ok());
    assert!(clamp_to_dynamic_range_i64(&mut s, 38, true).is_ok());
}

#[test]
fn clamp_dynamic_range_i64_composes_with_inverse_level_shift_32bit() {
    let span: i64 = (1_i64 << 32) - 1;
    let mut s: Vec<i64> = vec![
        -(1_i64 << 31),
        0,
        (1_i64 << 31) - 1,
        (1_i64 << 31),
        -(1_i64 << 31) - 100,
    ];
    inverse_dc_level_shift_unsigned_i64(&mut s, 32).unwrap();
    assert_eq!(s[0], 0);
    assert_eq!(s[2], span);
    clamp_to_dynamic_range_i64(&mut s, 32, false).unwrap();
    assert_eq!(s, vec![0_i64, 1_i64 << 31, span, span, 0]);
}

fn d_unsigned(p: u8) -> ComponentDescriptor {
    ComponentDescriptor {
        precision_bits: p,
        is_signed: false,
    }
}

fn d_signed(p: u8) -> ComponentDescriptor {
    ComponentDescriptor {
        precision_bits: p,
        is_signed: true,
    }
}

#[test]
fn descriptor_from_siz_component_preserves_precision_and_signedness() {
    let c = SizComponent {
        precision_bits: 12,
        is_signed: true,
        h_separation: 1,
        v_separation: 2,
    };
    let d = ComponentDescriptor::from_siz_component(&c);
    assert_eq!(d.precision_bits, 12);
    assert!(d.is_signed);
}

#[test]
fn thread_5x3_rct_unsigned_8bit_recovers_g_2_1_example() {
    let mut c0 = [-16_i32];
    let mut c1 = [-50_i32];
    let mut c2 = [100_i32];
    let descs = [d_unsigned(8), d_unsigned(8), d_unsigned(8)];
    reconstruct_tile_components_5x3(&mut c0, &mut c1, &mut c2, &descs, InverseMctMode::Rct)
        .unwrap();
    assert_eq!(c0[0], 200);
    assert_eq!(c1[0], 100);
    assert_eq!(c2[0], 50);
}

#[test]
fn thread_5x3_rct_unsigned_8bit_recovers_grayscale_diagonal() {
    for k in 0_i32..=255_i32 {
        let mut c0 = [k - 128];
        let mut c1 = [0_i32];
        let mut c2 = [0_i32];
        let descs = [d_unsigned(8), d_unsigned(8), d_unsigned(8)];
        reconstruct_tile_components_5x3(&mut c0, &mut c1, &mut c2, &descs, InverseMctMode::Rct)
            .unwrap();
        assert_eq!(c0[0], k, "diagonal k={}: c0", k);
        assert_eq!(c1[0], k, "diagonal k={}: c1", k);
        assert_eq!(c2[0], k, "diagonal k={}: c2", k);
    }
}

#[test]
fn thread_5x3_none_mode_independent_per_component_level_shift() {
    let mut c0 = [0_i32, 100, -50];
    let mut c1 = [0_i32, 100, -50];
    let mut c2 = [0_i32, 100, -50];
    let descs = [d_unsigned(8), d_unsigned(10), d_unsigned(12)];
    reconstruct_tile_components_5x3(&mut c0, &mut c1, &mut c2, &descs, InverseMctMode::NoMct)
        .unwrap();
    assert_eq!(c0, [128_i32, 228, 78]);
    assert_eq!(c1, [512_i32, 612, 462]);
    assert_eq!(c2, [2048_i32, 2148, 1998]);
}

#[test]
fn thread_5x3_none_mode_signed_component_clamps_only() {
    let mut c0 = [-200_i32, -128, 0, 127, 200];
    let mut c1 = c0;
    let mut c2 = c0;
    let descs = [d_signed(8), d_signed(8), d_signed(8)];
    reconstruct_tile_components_5x3(&mut c0, &mut c1, &mut c2, &descs, InverseMctMode::NoMct)
        .unwrap();
    assert_eq!(c0, [-128_i32, -128, 0, 127, 127]);
    assert_eq!(c1, c0);
    assert_eq!(c2, c0);
}

#[test]
fn thread_5x3_none_mode_clamps_overshoot() {
    let mut c0 = [200_i32, -200, 0, 127];
    let mut c1 = c0;
    let mut c2 = c0;
    let descs = [d_unsigned(8), d_unsigned(8), d_unsigned(8)];
    reconstruct_tile_components_5x3(&mut c0, &mut c1, &mut c2, &descs, InverseMctMode::NoMct)
        .unwrap();
    assert_eq!(c0, [255_i32, 0, 128, 255]);
    assert_eq!(c1, c0);
    assert_eq!(c2, c0);
}

#[test]
fn thread_5x3_rct_rejects_unequal_precision() {
    let mut c0 = [0_i32];
    let mut c1 = [0_i32];
    let mut c2 = [0_i32];
    let descs = [d_unsigned(8), d_unsigned(10), d_unsigned(8)];
    assert_eq!(
        reconstruct_tile_components_5x3(&mut c0, &mut c1, &mut c2, &descs, InverseMctMode::Rct,),
        Err(Error::InvalidComponentCount)
    );
}

#[test]
fn thread_5x3_rct_rejects_mixed_signedness() {
    let mut c0 = [0_i32];
    let mut c1 = [0_i32];
    let mut c2 = [0_i32];
    let descs = [d_unsigned(8), d_unsigned(8), d_signed(8)];
    assert_eq!(
        reconstruct_tile_components_5x3(&mut c0, &mut c1, &mut c2, &descs, InverseMctMode::Rct,),
        Err(Error::InvalidComponentCount)
    );
}

#[test]
fn thread_5x3_rejects_ict_mode() {
    let mut c0 = [0_i32];
    let mut c1 = [0_i32];
    let mut c2 = [0_i32];
    let descs = [d_unsigned(8), d_unsigned(8), d_unsigned(8)];
    assert_eq!(
        reconstruct_tile_components_5x3(&mut c0, &mut c1, &mut c2, &descs, InverseMctMode::Ict,),
        Err(Error::NotImplemented)
    );
}

#[test]
fn thread_5x3_rejects_mismatched_slice_lengths() {
    let mut c0 = [0_i32; 4];
    let mut c1 = [0_i32; 3];
    let mut c2 = [0_i32; 4];
    let descs = [d_unsigned(8); 3];
    assert_eq!(
        reconstruct_tile_components_5x3(
            &mut c0,
            &mut c1,
            &mut c2,
            &descs,
            InverseMctMode::NoMct,
        ),
        Err(Error::InvalidMarkerLength)
    );
}

#[test]
fn thread_5x3_rejects_non_three_descriptors() {
    let mut c0 = [0_i32];
    let mut c1 = [0_i32];
    let mut c2 = [0_i32];
    let descs = [d_unsigned(8); 2];
    assert_eq!(
        reconstruct_tile_components_5x3(
            &mut c0,
            &mut c1,
            &mut c2,
            &descs,
            InverseMctMode::NoMct,
        ),
        Err(Error::InvalidMarkerLength)
    );
}

#[test]
fn thread_5x3_rejects_out_of_range_precision() {
    let mut c0 = [0_i32];
    let mut c1 = [0_i32];
    let mut c2 = [0_i32];
    let descs = [d_unsigned(8), d_unsigned(32), d_unsigned(8)];
    assert_eq!(
        reconstruct_tile_components_5x3(
            &mut c0,
            &mut c1,
            &mut c2,
            &descs,
            InverseMctMode::NoMct,
        ),
        Err(Error::InvalidSamplePrecision)
    );
}

#[test]
fn thread_5x3_multi_rct_three_components_matches_fixed_arity() {
    let mut c0 = [-16_i32];
    let mut c1 = [-50_i32];
    let mut c2 = [100_i32];
    let descs = [d_unsigned(8), d_unsigned(8), d_unsigned(8)];
    let mut comps: [&mut [i32]; 3] = [&mut c0, &mut c1, &mut c2];
    reconstruct_tile_components_5x3_multi(&mut comps, &descs, InverseMctMode::Rct).unwrap();
    assert_eq!(c0[0], 200);
    assert_eq!(c1[0], 100);
    assert_eq!(c2[0], 50);
}

#[test]
fn thread_5x3_multi_rct_four_components_alpha_passthrough() {
    let mut c0 = [-16_i32];
    let mut c1 = [-50_i32];
    let mut c2 = [100_i32];
    let mut c3 = [0_i32];
    let descs = [d_unsigned(8), d_unsigned(8), d_unsigned(8), d_unsigned(10)];
    let mut comps: [&mut [i32]; 4] = [&mut c0, &mut c1, &mut c2, &mut c3];
    reconstruct_tile_components_5x3_multi(&mut comps, &descs, InverseMctMode::Rct).unwrap();
    assert_eq!(c0[0], 200);
    assert_eq!(c1[0], 100);
    assert_eq!(c2[0], 50);
    assert_eq!(c3[0], 512);
}

#[test]
fn thread_5x3_multi_none_single_component() {
    let mut c0 = [0_i32, 100, -200, 200];
    let descs = [d_unsigned(8)];
    let mut comps: [&mut [i32]; 1] = [&mut c0];
    reconstruct_tile_components_5x3_multi(&mut comps, &descs, InverseMctMode::NoMct).unwrap();
    assert_eq!(c0, [128_i32, 228, 0, 255]);
}

#[test]
fn thread_5x3_multi_none_two_components() {
    let mut c0 = [0_i32, 100];
    let mut c1 = [0_i32, 100];
    let descs = [d_unsigned(8), d_unsigned(12)];
    let mut comps: [&mut [i32]; 2] = [&mut c0, &mut c1];
    reconstruct_tile_components_5x3_multi(&mut comps, &descs, InverseMctMode::NoMct).unwrap();
    assert_eq!(c0, [128_i32, 228]);
    assert_eq!(c1, [2048_i32, 2148]);
}

#[test]
fn thread_5x3_multi_rct_rejects_fewer_than_three() {
    let mut c0 = [0_i32];
    let mut c1 = [0_i32];
    let descs = [d_unsigned(8), d_unsigned(8)];
    let mut comps: [&mut [i32]; 2] = [&mut c0, &mut c1];
    assert_eq!(
        reconstruct_tile_components_5x3_multi(&mut comps, &descs, InverseMctMode::Rct),
        Err(Error::InvalidComponentCount)
    );
}

#[test]
fn thread_5x3_multi_rct_rejects_unequal_precision_on_first_three() {
    let mut c0 = [0_i32];
    let mut c1 = [0_i32];
    let mut c2 = [0_i32];
    let mut c3 = [0_i32];
    let descs = [d_unsigned(8), d_unsigned(10), d_unsigned(8), d_unsigned(8)];
    let mut comps: [&mut [i32]; 4] = [&mut c0, &mut c1, &mut c2, &mut c3];
    assert_eq!(
        reconstruct_tile_components_5x3_multi(&mut comps, &descs, InverseMctMode::Rct),
        Err(Error::InvalidComponentCount)
    );
}

#[test]
fn thread_5x3_multi_rejects_ict_mode() {
    let mut c0 = [0_i32];
    let mut c1 = [0_i32];
    let mut c2 = [0_i32];
    let descs = [d_unsigned(8); 3];
    let mut comps: [&mut [i32]; 3] = [&mut c0, &mut c1, &mut c2];
    assert_eq!(
        reconstruct_tile_components_5x3_multi(&mut comps, &descs, InverseMctMode::Ict),
        Err(Error::NotImplemented)
    );
}

#[test]
fn thread_5x3_multi_rejects_empty() {
    let descs: [ComponentDescriptor; 0] = [];
    let mut comps: [&mut [i32]; 0] = [];
    assert_eq!(
        reconstruct_tile_components_5x3_multi(&mut comps, &descs, InverseMctMode::NoMct),
        Err(Error::InvalidMarkerLength)
    );
}

#[test]
fn thread_5x3_multi_rejects_count_mismatch() {
    let mut c0 = [0_i32];
    let mut c1 = [0_i32];
    let descs = [d_unsigned(8); 3];
    let mut comps: [&mut [i32]; 2] = [&mut c0, &mut c1];
    assert_eq!(
        reconstruct_tile_components_5x3_multi(&mut comps, &descs, InverseMctMode::NoMct),
        Err(Error::InvalidMarkerLength)
    );
}

#[test]
fn thread_5x3_multi_rejects_ragged_lengths() {
    let mut c0 = [0_i32, 0];
    let mut c1 = [0_i32];
    let mut c2 = [0_i32, 0];
    let descs = [d_unsigned(8); 3];
    let mut comps: [&mut [i32]; 3] = [&mut c0, &mut c1, &mut c2];
    assert_eq!(
        reconstruct_tile_components_5x3_multi(&mut comps, &descs, InverseMctMode::Rct),
        Err(Error::InvalidMarkerLength)
    );
}

#[test]
fn thread_5x3_multi_rejects_out_of_range_precision() {
    let mut c0 = [0_i32];
    let mut c1 = [0_i32];
    let mut c2 = [0_i32];
    let mut c3 = [0_i32];
    let descs = [d_unsigned(8), d_unsigned(8), d_unsigned(8), d_unsigned(32)];
    let mut comps: [&mut [i32]; 4] = [&mut c0, &mut c1, &mut c2, &mut c3];
    assert_eq!(
        reconstruct_tile_components_5x3_multi(&mut comps, &descs, InverseMctMode::Rct),
        Err(Error::InvalidSamplePrecision)
    );
}

#[test]
fn thread_5x3_multi_none_five_components() {
    let mut planes: Vec<Vec<i32>> = (0..5).map(|_| vec![0_i32, 300, -300]).collect();
    let descs = [d_unsigned(8); 5];
    {
        let mut comps: Vec<&mut [i32]> = planes.iter_mut().map(|p| p.as_mut_slice()).collect();
        reconstruct_tile_components_5x3_multi(&mut comps, &descs, InverseMctMode::NoMct)
            .unwrap();
    }
    for p in &planes {
        assert_eq!(p.as_slice(), [128_i32, 255, 0]);
    }
}

#[test]
fn forward_rct_i64_matches_g_2_1_worked_example() {
    let mut c0 = [200_i64];
    let mut c1 = [100_i64];
    let mut c2 = [50_i64];
    forward_rct_i64(&mut c0, &mut c1, &mut c2).unwrap();
    assert_eq!(c0[0], 112);
    assert_eq!(c1[0], -50);
    assert_eq!(c2[0], 100);
}

#[test]
fn inverse_rct_i64_matches_g_2_2_worked_example() {
    let mut c0 = [112_i64];
    let mut c1 = [-50_i64];
    let mut c2 = [100_i64];
    inverse_rct_i64(&mut c0, &mut c1, &mut c2).unwrap();
    assert_eq!(c0[0], 200);
    assert_eq!(c1[0], 100);
    assert_eq!(c2[0], 50);
}

#[test]
fn inverse_rct_i64_matches_i32_on_narrow_inputs() {
    let y0 = [-16_i32, 0, 7, -7, 100, -100, i16::MAX as i32];
    let y1 = [-50_i32, 1, -1, 3, -3, 99, -99];
    let y2 = [100_i32, -1, 1, -3, 3, -99, 99];
    let mut a32 = y0;
    let mut b32 = y1;
    let mut c32 = y2;
    inverse_rct(&mut a32, &mut b32, &mut c32).unwrap();
    let mut a64: Vec<i64> = y0.iter().map(|&v| v as i64).collect();
    let mut b64: Vec<i64> = y1.iter().map(|&v| v as i64).collect();
    let mut c64: Vec<i64> = y2.iter().map(|&v| v as i64).collect();
    inverse_rct_i64(&mut a64, &mut b64, &mut c64).unwrap();
    for i in 0..y0.len() {
        assert_eq!(a64[i], a32[i] as i64, "i={}: I0", i);
        assert_eq!(b64[i], b32[i] as i64, "i={}: I1", i);
        assert_eq!(c64[i], c32[i] as i64, "i={}: I2", i);
    }
}

#[test]
fn rct_i64_roundtrips_wide_38bit_probes() {
    let half = 1_i64 << 37;
    let i0 = [half - 1, -half, 0, half - 1, -half, 123_456_789_012];
    let i1 = [-half, half - 1, half - 1, 0, -1, -987_654_321_098];
    let i2 = [half - 1, -half, -half, 1, half - 1, 5];
    let (mut a, mut b, mut c) = (i0, i1, i2);
    forward_rct_i64(&mut a, &mut b, &mut c).unwrap();
    inverse_rct_i64(&mut a, &mut b, &mut c).unwrap();
    assert_eq!(a, i0);
    assert_eq!(b, i1);
    assert_eq!(c, i2);
}

#[test]
fn rct_i64_rejects_mismatched_lengths() {
    let mut c0 = [0_i64; 2];
    let mut c1 = [0_i64; 3];
    let mut c2 = [0_i64; 2];
    assert_eq!(
        forward_rct_i64(&mut c0, &mut c1, &mut c2),
        Err(Error::InvalidMarkerLength)
    );
    assert_eq!(
        inverse_rct_i64(&mut c0, &mut c1, &mut c2),
        Err(Error::InvalidMarkerLength)
    );
}

#[test]
fn thread_5x3_i64_rct_unsigned_8bit_matches_i32_fixed_arity() {
    let mut c0 = [-16_i64];
    let mut c1 = [-50_i64];
    let mut c2 = [100_i64];
    let descs = [d_unsigned(8), d_unsigned(8), d_unsigned(8)];
    reconstruct_tile_components_5x3_i64(&mut c0, &mut c1, &mut c2, &descs, InverseMctMode::Rct)
        .unwrap();
    assert_eq!(c0[0], 200);
    assert_eq!(c1[0], 100);
    assert_eq!(c2[0], 50);
}

#[test]
fn thread_5x3_i64_rct_unsigned_36bit_round_trip() {
    let originals = [
        [1_i64 << 35, (1 << 36) - 1, 0],
        [(1_i64 << 34) + 7, 1, (1 << 36) - 1],
        [12_345_678_901_i64, (1 << 35) - 1, 1 << 33],
    ];
    let mut c0 = originals[0];
    let mut c1 = originals[1];
    let mut c2 = originals[2];
    forward_dc_level_shift_unsigned_i64(&mut c0, 36).unwrap();
    forward_dc_level_shift_unsigned_i64(&mut c1, 36).unwrap();
    forward_dc_level_shift_unsigned_i64(&mut c2, 36).unwrap();
    forward_rct_i64(&mut c0, &mut c1, &mut c2).unwrap();
    let descs = [d_unsigned(36), d_unsigned(36), d_unsigned(36)];
    reconstruct_tile_components_5x3_i64(&mut c0, &mut c1, &mut c2, &descs, InverseMctMode::Rct)
        .unwrap();
    assert_eq!(c0, originals[0]);
    assert_eq!(c1, originals[1]);
    assert_eq!(c2, originals[2]);
}

#[test]
fn thread_5x3_i64_none_mode_38bit_level_shift_and_clamp() {
    let half = 1_i64 << 37;
    let top = (1_i64 << 38) - 1;
    let mut c0 = [0_i64, half, -half - 5];
    let mut c1 = c0;
    let mut c2 = c0;
    let descs = [d_unsigned(38), d_unsigned(38), d_unsigned(38)];
    reconstruct_tile_components_5x3_i64(
        &mut c0,
        &mut c1,
        &mut c2,
        &descs,
        InverseMctMode::NoMct,
    )
    .unwrap();
    assert_eq!(c0, [half, top, 0]);
    assert_eq!(c1, c0);
    assert_eq!(c2, c0);
}

#[test]
fn thread_5x3_i64_none_mode_signed_clamps_only() {
    let half = 1_i64 << 31;
    let mut c0 = [-half - 1, -half, 0, half - 1, half];
    let mut c1 = c0;
    let mut c2 = c0;
    let descs = [d_signed(32), d_signed(32), d_signed(32)];
    reconstruct_tile_components_5x3_i64(
        &mut c0,
        &mut c1,
        &mut c2,
        &descs,
        InverseMctMode::NoMct,
    )
    .unwrap();
    assert_eq!(c0, [-half, -half, 0, half - 1, half - 1]);
    assert_eq!(c1, c0);
    assert_eq!(c2, c0);
}

#[test]
fn thread_5x3_i64_rct_rejects_unequal_precision_and_signedness() {
    let mut c0 = [0_i64];
    let mut c1 = [0_i64];
    let mut c2 = [0_i64];
    let descs = [d_unsigned(36), d_unsigned(38), d_unsigned(36)];
    assert_eq!(
        reconstruct_tile_components_5x3_i64(
            &mut c0,
            &mut c1,
            &mut c2,
            &descs,
            InverseMctMode::Rct,
        ),
        Err(Error::InvalidComponentCount)
    );
    let descs = [d_unsigned(36), d_unsigned(36), d_signed(36)];
    assert_eq!(
        reconstruct_tile_components_5x3_i64(
            &mut c0,
            &mut c1,
            &mut c2,
            &descs,
            InverseMctMode::Rct,
        ),
        Err(Error::InvalidComponentCount)
    );
}

#[test]
fn thread_5x3_i64_rejects_ict_mode() {
    let mut c0 = [0_i64];
    let mut c1 = [0_i64];
    let mut c2 = [0_i64];
    let descs = [d_unsigned(36), d_unsigned(36), d_unsigned(36)];
    assert_eq!(
        reconstruct_tile_components_5x3_i64(
            &mut c0,
            &mut c1,
            &mut c2,
            &descs,
            InverseMctMode::Ict,
        ),
        Err(Error::NotImplemented)
    );
}

#[test]
fn thread_5x3_i64_rejects_shape_mismatches() {
    let mut c0 = [0_i64; 4];
    let mut c1 = [0_i64; 3];
    let mut c2 = [0_i64; 4];
    let descs = [d_unsigned(36); 3];
    assert_eq!(
        reconstruct_tile_components_5x3_i64(
            &mut c0,
            &mut c1,
            &mut c2,
            &descs,
            InverseMctMode::NoMct,
        ),
        Err(Error::InvalidMarkerLength)
    );
    let mut c1 = [0_i64; 4];
    let two = [d_unsigned(36); 2];
    assert_eq!(
        reconstruct_tile_components_5x3_i64(
            &mut c0,
            &mut c1,
            &mut c2,
            &two,
            InverseMctMode::NoMct,
        ),
        Err(Error::InvalidMarkerLength)
    );
}

#[test]
fn thread_5x3_i64_precision_window_is_table_a11() {
    let mut c0 = [0_i64];
    let mut c1 = [0_i64];
    let mut c2 = [0_i64];
    let descs = [d_unsigned(8), d_unsigned(32), d_unsigned(38)];
    reconstruct_tile_components_5x3_i64(
        &mut c0,
        &mut c1,
        &mut c2,
        &descs,
        InverseMctMode::NoMct,
    )
    .unwrap();
    assert_eq!(c0[0], 128);
    assert_eq!(c1[0], 1_i64 << 31);
    assert_eq!(c2[0], 1_i64 << 37);
    for bad in [0_u8, 39, 255] {
        let mut c0 = [0_i64];
        let mut c1 = [0_i64];
        let mut c2 = [0_i64];
        let descs = [d_unsigned(8), d_unsigned(bad), d_unsigned(8)];
        assert_eq!(
            reconstruct_tile_components_5x3_i64(
                &mut c0,
                &mut c1,
                &mut c2,
                &descs,
                InverseMctMode::NoMct,
            ),
            Err(Error::InvalidSamplePrecision),
            "precision {} must reject",
            bad
        );
    }
}

#[test]
fn thread_9x7_ict_unsigned_8bit_recovers_rgb_sample() {
    let mut c0 = [72.0_f32];
    let mut c1 = [-28.0_f32];
    let mut c2 = [-78.0_f32];
    forward_ict(&mut c0, &mut c1, &mut c2).unwrap();
    let mut o0 = [0_i32];
    let mut o1 = [0_i32];
    let mut o2 = [0_i32];
    let descs = [d_unsigned(8), d_unsigned(8), d_unsigned(8)];
    reconstruct_tile_components_9x7(
        &mut c0,
        &mut c1,
        &mut c2,
        &mut o0,
        &mut o1,
        &mut o2,
        &descs,
        InverseMctMode::Ict,
    )
    .unwrap();
    assert!((o0[0] - 200).abs() <= 1, "I0 = {} (want ~200)", o0[0]);
    assert!((o1[0] - 100).abs() <= 1, "I1 = {} (want ~100)", o1[0]);
    assert!((o2[0] - 50).abs() <= 1, "I2 = {} (want ~50)", o2[0]);
}

#[test]
fn thread_9x7_none_mode_round_then_level_shift_then_clamp() {
    let mut c0 = [0.0_f32, 0.4, -0.6, 100.0, -200.0];
    let mut c1 = c0;
    let mut c2 = c0;
    let mut o0 = [0_i32; 5];
    let mut o1 = [0_i32; 5];
    let mut o2 = [0_i32; 5];
    let descs = [d_unsigned(8), d_unsigned(8), d_unsigned(8)];
    reconstruct_tile_components_9x7(
        &mut c0,
        &mut c1,
        &mut c2,
        &mut o0,
        &mut o1,
        &mut o2,
        &descs,
        InverseMctMode::NoMct,
    )
    .unwrap();
    assert_eq!(o0, [128_i32, 128, 127, 228, 0]);
    assert_eq!(o1, o0);
    assert_eq!(o2, o0);
}

#[test]
fn thread_9x7_ict_rejects_unequal_precision() {
    let mut c0 = [0.0_f32];
    let mut c1 = [0.0_f32];
    let mut c2 = [0.0_f32];
    let mut o0 = [0_i32];
    let mut o1 = [0_i32];
    let mut o2 = [0_i32];
    let descs = [d_unsigned(8), d_unsigned(8), d_unsigned(10)];
    assert_eq!(
        reconstruct_tile_components_9x7(
            &mut c0,
            &mut c1,
            &mut c2,
            &mut o0,
            &mut o1,
            &mut o2,
            &descs,
            InverseMctMode::Ict,
        ),
        Err(Error::InvalidComponentCount)
    );
}

#[test]
fn thread_9x7_rejects_rct_mode() {
    let mut c0 = [0.0_f32];
    let mut c1 = [0.0_f32];
    let mut c2 = [0.0_f32];
    let mut o0 = [0_i32];
    let mut o1 = [0_i32];
    let mut o2 = [0_i32];
    let descs = [d_unsigned(8); 3];
    assert_eq!(
        reconstruct_tile_components_9x7(
            &mut c0,
            &mut c1,
            &mut c2,
            &mut o0,
            &mut o1,
            &mut o2,
            &descs,
            InverseMctMode::Rct,
        ),
        Err(Error::NotImplemented)
    );
}

#[test]
fn thread_9x7_rejects_output_length_mismatch() {
    let mut c0 = [0.0_f32; 4];
    let mut c1 = [0.0_f32; 4];
    let mut c2 = [0.0_f32; 4];
    let mut o0 = [0_i32; 4];
    let mut o1 = [0_i32; 3];
    let mut o2 = [0_i32; 4];
    let descs = [d_unsigned(8); 3];
    assert_eq!(
        reconstruct_tile_components_9x7(
            &mut c0,
            &mut c1,
            &mut c2,
            &mut o0,
            &mut o1,
            &mut o2,
            &descs,
            InverseMctMode::NoMct,
        ),
        Err(Error::InvalidMarkerLength)
    );
}

#[test]
fn thread_9x7_saturates_pathological_f32_input() {
    let mut c0 = [1e30_f32, -1e30, 0.0];
    let mut c1 = [0.0_f32, 0.0, 0.0];
    let mut c2 = [0.0_f32, 0.0, 0.0];
    let mut o0 = [0_i32; 3];
    let mut o1 = [0_i32; 3];
    let mut o2 = [0_i32; 3];
    let descs = [d_unsigned(8); 3];
    reconstruct_tile_components_9x7(
        &mut c0,
        &mut c1,
        &mut c2,
        &mut o0,
        &mut o1,
        &mut o2,
        &descs,
        InverseMctMode::NoMct,
    )
    .unwrap();
    assert_eq!(o0, [0_i32, 0, 128]);
    assert_eq!(o1, [128_i32, 128, 128]);
    assert_eq!(o2, [128_i32, 128, 128]);
}

#[test]
fn thread_9x7_multi_ict_three_components_matches_fixed_arity() {
    let mut a0 = [72.0_f32];
    let mut a1 = [-28.0_f32];
    let mut a2 = [-78.0_f32];
    forward_ict(&mut a0, &mut a1, &mut a2).unwrap();
    let descs = [d_unsigned(8), d_unsigned(8), d_unsigned(8)];

    let (mut f0, mut f1, mut f2) = (a0, a1, a2);
    let mut r0 = [0_i32];
    let mut r1 = [0_i32];
    let mut r2 = [0_i32];
    reconstruct_tile_components_9x7(
        &mut f0,
        &mut f1,
        &mut f2,
        &mut r0,
        &mut r1,
        &mut r2,
        &descs,
        InverseMctMode::Ict,
    )
    .unwrap();

    let (mut m0, mut m1, mut m2) = (a0, a1, a2);
    let mut o0 = [0_i32];
    let mut o1 = [0_i32];
    let mut o2 = [0_i32];
    {
        let mut comps: [&mut [f32]; 3] = [&mut m0, &mut m1, &mut m2];
        let mut outs: [&mut [i32]; 3] = [&mut o0, &mut o1, &mut o2];
        reconstruct_tile_components_9x7_multi(
            &mut comps,
            &mut outs,
            &descs,
            InverseMctMode::Ict,
        )
        .unwrap();
    }
    assert_eq!((o0[0], o1[0], o2[0]), (r0[0], r1[0], r2[0]));
    assert!((o0[0] - 200).abs() <= 1, "I0 = {} (want ~200)", o0[0]);
    assert!((o1[0] - 100).abs() <= 1, "I1 = {} (want ~100)", o1[0]);
    assert!((o2[0] - 50).abs() <= 1, "I2 = {} (want ~50)", o2[0]);
}

#[test]
fn thread_9x7_multi_ict_four_components_alpha_passthrough() {
    let mut a0 = [72.0_f32];
    let mut a1 = [-28.0_f32];
    let mut a2 = [-78.0_f32];
    forward_ict(&mut a0, &mut a1, &mut a2).unwrap();
    let mut a3 = [0.25_f32];
    let descs = [d_unsigned(8), d_unsigned(8), d_unsigned(8), d_unsigned(10)];
    let mut o0 = [0_i32];
    let mut o1 = [0_i32];
    let mut o2 = [0_i32];
    let mut o3 = [0_i32];
    {
        let mut comps: [&mut [f32]; 4] = [&mut a0, &mut a1, &mut a2, &mut a3];
        let mut outs: [&mut [i32]; 4] = [&mut o0, &mut o1, &mut o2, &mut o3];
        reconstruct_tile_components_9x7_multi(
            &mut comps,
            &mut outs,
            &descs,
            InverseMctMode::Ict,
        )
        .unwrap();
    }
    assert!((o0[0] - 200).abs() <= 1, "I0 = {} (want ~200)", o0[0]);
    assert!((o1[0] - 100).abs() <= 1, "I1 = {} (want ~100)", o1[0]);
    assert!((o2[0] - 50).abs() <= 1, "I2 = {} (want ~50)", o2[0]);
    assert_eq!(o3[0], 512);
}

#[test]
fn thread_9x7_multi_none_single_component() {
    let mut c0 = [0.0_f32, 0.4, -0.6, 100.0, -200.0];
    let mut o0 = [0_i32; 5];
    let descs = [d_unsigned(8)];
    {
        let mut comps: [&mut [f32]; 1] = [&mut c0];
        let mut outs: [&mut [i32]; 1] = [&mut o0];
        reconstruct_tile_components_9x7_multi(
            &mut comps,
            &mut outs,
            &descs,
            InverseMctMode::NoMct,
        )
        .unwrap();
    }
    assert_eq!(o0, [128_i32, 128, 127, 228, 0]);
}

#[test]
fn thread_9x7_multi_none_two_components() {
    let mut c0 = [0.0_f32, 100.0];
    let mut c1 = [0.0_f32, 100.0];
    let mut o0 = [0_i32; 2];
    let mut o1 = [0_i32; 2];
    let descs = [d_unsigned(8), d_unsigned(12)];
    {
        let mut comps: [&mut [f32]; 2] = [&mut c0, &mut c1];
        let mut outs: [&mut [i32]; 2] = [&mut o0, &mut o1];
        reconstruct_tile_components_9x7_multi(
            &mut comps,
            &mut outs,
            &descs,
            InverseMctMode::NoMct,
        )
        .unwrap();
    }
    assert_eq!(o0, [128_i32, 228]);
    assert_eq!(o1, [2048_i32, 2148]);
}

#[test]
fn thread_9x7_multi_none_five_components() {
    let mut planes: Vec<Vec<f32>> = (0..5).map(|_| vec![0.0_f32, 300.0, -300.0]).collect();
    let mut outs_storage: Vec<Vec<i32>> = (0..5).map(|_| vec![0_i32; 3]).collect();
    let descs = [d_unsigned(8); 5];
    {
        let mut comps: Vec<&mut [f32]> = planes.iter_mut().map(|p| p.as_mut_slice()).collect();
        let mut outs: Vec<&mut [i32]> =
            outs_storage.iter_mut().map(|p| p.as_mut_slice()).collect();
        reconstruct_tile_components_9x7_multi(
            &mut comps,
            &mut outs,
            &descs,
            InverseMctMode::NoMct,
        )
        .unwrap();
    }
    for o in &outs_storage {
        assert_eq!(o.as_slice(), [128_i32, 255, 0]);
    }
}

#[test]
fn thread_9x7_multi_ict_rejects_fewer_than_three() {
    let mut c0 = [0.0_f32];
    let mut c1 = [0.0_f32];
    let mut o0 = [0_i32];
    let mut o1 = [0_i32];
    let descs = [d_unsigned(8), d_unsigned(8)];
    let mut comps: [&mut [f32]; 2] = [&mut c0, &mut c1];
    let mut outs: [&mut [i32]; 2] = [&mut o0, &mut o1];
    assert_eq!(
        reconstruct_tile_components_9x7_multi(
            &mut comps,
            &mut outs,
            &descs,
            InverseMctMode::Ict
        ),
        Err(Error::InvalidComponentCount)
    );
}

#[test]
fn thread_9x7_multi_ict_rejects_unequal_precision_on_first_three() {
    let mut c0 = [0.0_f32];
    let mut c1 = [0.0_f32];
    let mut c2 = [0.0_f32];
    let mut c3 = [0.0_f32];
    let mut o0 = [0_i32];
    let mut o1 = [0_i32];
    let mut o2 = [0_i32];
    let mut o3 = [0_i32];
    let descs = [d_unsigned(8), d_unsigned(10), d_unsigned(8), d_unsigned(8)];
    let mut comps: [&mut [f32]; 4] = [&mut c0, &mut c1, &mut c2, &mut c3];
    let mut outs: [&mut [i32]; 4] = [&mut o0, &mut o1, &mut o2, &mut o3];
    assert_eq!(
        reconstruct_tile_components_9x7_multi(
            &mut comps,
            &mut outs,
            &descs,
            InverseMctMode::Ict
        ),
        Err(Error::InvalidComponentCount)
    );
}

#[test]
fn thread_9x7_multi_ict_rejects_mixed_signedness_on_first_three() {
    let mut c0 = [0.0_f32];
    let mut c1 = [0.0_f32];
    let mut c2 = [0.0_f32];
    let mut o0 = [0_i32];
    let mut o1 = [0_i32];
    let mut o2 = [0_i32];
    let descs = [d_unsigned(8), d_signed(8), d_unsigned(8)];
    let mut comps: [&mut [f32]; 3] = [&mut c0, &mut c1, &mut c2];
    let mut outs: [&mut [i32]; 3] = [&mut o0, &mut o1, &mut o2];
    assert_eq!(
        reconstruct_tile_components_9x7_multi(
            &mut comps,
            &mut outs,
            &descs,
            InverseMctMode::Ict
        ),
        Err(Error::InvalidComponentCount)
    );
}

#[test]
fn thread_9x7_multi_rejects_rct_mode() {
    let mut c0 = [0.0_f32];
    let mut c1 = [0.0_f32];
    let mut c2 = [0.0_f32];
    let mut o0 = [0_i32];
    let mut o1 = [0_i32];
    let mut o2 = [0_i32];
    let descs = [d_unsigned(8); 3];
    let mut comps: [&mut [f32]; 3] = [&mut c0, &mut c1, &mut c2];
    let mut outs: [&mut [i32]; 3] = [&mut o0, &mut o1, &mut o2];
    assert_eq!(
        reconstruct_tile_components_9x7_multi(
            &mut comps,
            &mut outs,
            &descs,
            InverseMctMode::Rct
        ),
        Err(Error::NotImplemented)
    );
}

#[test]
fn thread_9x7_multi_rejects_empty() {
    let descs: [ComponentDescriptor; 0] = [];
    let mut comps: [&mut [f32]; 0] = [];
    let mut outs: [&mut [i32]; 0] = [];
    assert_eq!(
        reconstruct_tile_components_9x7_multi(
            &mut comps,
            &mut outs,
            &descs,
            InverseMctMode::NoMct
        ),
        Err(Error::InvalidMarkerLength)
    );
}

#[test]
fn thread_9x7_multi_rejects_count_mismatch() {
    let mut c0 = [0.0_f32];
    let mut c1 = [0.0_f32];
    let mut o0 = [0_i32];
    let mut o1 = [0_i32];

    let descs3 = [d_unsigned(8); 3];
    let mut comps: [&mut [f32]; 2] = [&mut c0, &mut c1];
    let mut outs: [&mut [i32]; 2] = [&mut o0, &mut o1];
    assert_eq!(
        reconstruct_tile_components_9x7_multi(
            &mut comps,
            &mut outs,
            &descs3,
            InverseMctMode::NoMct
        ),
        Err(Error::InvalidMarkerLength)
    );

    let descs2 = [d_unsigned(8); 2];
    let mut comps: [&mut [f32]; 2] = [&mut c0, &mut c1];
    let mut outs1: [&mut [i32]; 1] = [&mut o0];
    assert_eq!(
        reconstruct_tile_components_9x7_multi(
            &mut comps,
            &mut outs1,
            &descs2,
            InverseMctMode::NoMct
        ),
        Err(Error::InvalidMarkerLength)
    );
}

#[test]
fn thread_9x7_multi_rejects_ragged_lengths() {
    let mut c0 = [0.0_f32, 0.0];
    let mut c1 = [0.0_f32];
    let mut c2 = [0.0_f32, 0.0];
    let mut o0 = [0_i32; 2];
    let mut o1 = [0_i32];
    let mut o2 = [0_i32; 2];
    let descs = [d_unsigned(8); 3];
    let mut comps: [&mut [f32]; 3] = [&mut c0, &mut c1, &mut c2];
    let mut outs: [&mut [i32]; 3] = [&mut o0, &mut o1, &mut o2];
    assert_eq!(
        reconstruct_tile_components_9x7_multi(
            &mut comps,
            &mut outs,
            &descs,
            InverseMctMode::Ict
        ),
        Err(Error::InvalidMarkerLength)
    );

    let mut c0 = [0.0_f32, 0.0];
    let mut c1 = [0.0_f32, 0.0];
    let mut c2 = [0.0_f32, 0.0];
    let mut o0 = [0_i32; 2];
    let mut o1 = [0_i32];
    let mut o2 = [0_i32; 2];
    let mut comps: [&mut [f32]; 3] = [&mut c0, &mut c1, &mut c2];
    let mut outs: [&mut [i32]; 3] = [&mut o0, &mut o1, &mut o2];
    assert_eq!(
        reconstruct_tile_components_9x7_multi(
            &mut comps,
            &mut outs,
            &descs,
            InverseMctMode::Ict
        ),
        Err(Error::InvalidMarkerLength)
    );
}

#[test]
fn thread_9x7_multi_rejects_out_of_range_precision() {
    let mut c0 = [0.0_f32];
    let mut c1 = [0.0_f32];
    let mut c2 = [0.0_f32];
    let mut c3 = [0.0_f32];
    let mut o0 = [0_i32];
    let mut o1 = [0_i32];
    let mut o2 = [0_i32];
    let mut o3 = [0_i32];
    let descs = [d_unsigned(8), d_unsigned(8), d_unsigned(8), d_unsigned(32)];
    let mut comps: [&mut [f32]; 4] = [&mut c0, &mut c1, &mut c2, &mut c3];
    let mut outs: [&mut [i32]; 4] = [&mut o0, &mut o1, &mut o2, &mut o3];
    assert_eq!(
        reconstruct_tile_components_9x7_multi(
            &mut comps,
            &mut outs,
            &descs,
            InverseMctMode::Ict
        ),
        Err(Error::InvalidSamplePrecision)
    );
}

#[test]
fn thread_9x7_multi_saturates_pathological_f32_input() {
    let mut c0 = [1e30_f32, -1e30, 0.0];
    let mut o0 = [0_i32; 3];
    let descs = [d_unsigned(8)];
    {
        let mut comps: [&mut [f32]; 1] = [&mut c0];
        let mut outs: [&mut [i32]; 1] = [&mut o0];
        reconstruct_tile_components_9x7_multi(
            &mut comps,
            &mut outs,
            &descs,
            InverseMctMode::NoMct,
        )
        .unwrap();
    }
    assert_eq!(o0, [0_i32, 0, 128]);
}
