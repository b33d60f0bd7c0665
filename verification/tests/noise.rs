use filmfx::fixed::isqrt;
use filmfx::fixed::SCALE;
use filmfx::grain::get_noise_mask;
use filmfx::grain::noise_from_samples;
use filmfx::grain::resample_rows;

#[test]
fn isqrt_exact_values() {
    assert_eq!(isqrt(0), 0);
    assert_eq!(isqrt(15), 3);
    assert_eq!(isqrt(16), 4);
    assert_eq!(isqrt(0x1_0000_0000_0000), 0x100_0000);
    assert_eq!(isqrt(u64::MAX), 0xffff_ffff);
}

#[test]
fn noise_value_from_fixed_samples() {
    // (65535 + 65535 + 65535 + 65535) * 2 / 65536 truncates to 7
    assert_eq!(noise_from_samples(65535, 65535, 65535, 65535, 2), 7);
    // a negative sum truncates toward zero
    assert_eq!(noise_from_samples(-65536, 65535, 0, 0, 11350), 0);
    assert_eq!(noise_from_samples(-65536, -65536, -65536, -65536, 3), -12);
    assert_eq!(noise_from_samples(0, 0, 0, 0, 12345), 0);
}

#[test]
fn noise_mask_all_bands_disabled_is_zero() {
    let mask = get_noise_mask(6, 5, 0, -65536, 0);
    assert_eq!(mask.len(), 6 * 5 * 4);
    assert!(mask.iter().all(|&v| v == 0));
}

#[test]
fn noise_mask_fine_band_layout_and_bounds() {
    // intensity 0.04 in fixed point
    let iq: i64 = 2621;
    let mask = get_noise_mask(16, 16, iq, 0, 0);
    assert_eq!(mask.len(), 16 * 16 * 4);
    let k = (isqrt(3 * iq as u64 * 65536) / 2) as i64;
    for p in 0..256 {
        assert_eq!(mask[4 * p + 3], SCALE);
        for c in 0..3 {
            assert!(mask[4 * p + c].abs() <= 4 * k);
        }
    }
}

#[test]
fn noise_mask_fine_band_empirical_variance() {
    // intensity 0.04: the samples' empirical variance should come out
    // near 0.04 over 64 * 64 * 3 draws
    let iq: i64 = 2621;
    let intensity = iq as f64 / 65536.0;
    let mask = get_noise_mask(64, 64, iq, 0, 0);
    let mut sum = 0.0f64;
    let mut sum_sq = 0.0f64;
    let mut n = 0.0f64;
    for p in 0..64 * 64 {
        for c in 0..3 {
            let v = mask[4 * p + c] as f64 / 65536.0;
            sum += v;
            sum_sq += v * v;
            n += 1.0;
        }
    }
    let mean = sum / n;
    let var = sum_sq / n - mean * mean;
    assert!(mean.abs() < 0.02, "mean {} too far from zero", mean);
    assert!((var - intensity).abs() < 0.01, "variance {} too far from {}", var, intensity);
}

#[test]
fn noise_mask_medium_band_layout() {
    let mask = get_noise_mask(8, 6, 0, 6554, 0);
    assert_eq!(mask.len(), 8 * 6 * 4);
    for p in 0..8 * 6 {
        assert_eq!(mask[4 * p + 3], SCALE);
    }
}

#[test]
fn resample_rows_ramps_between_sources() {
    // one row of two pixels, widened to four: the half-pixel-centre
    // bilinear filter gives the exact ramp 8000, 6000, 2000, 0
    let src: Vec<i64> = vec![8000, 8000, 8000, 65536, 0, 0, 0, 65536];
    let out = resample_rows(&src, 2, 1, 4);
    assert_eq!(out.len(), 16);
    for c in 0..3 {
        assert_eq!(out[c], 8000);
        assert_eq!(out[4 + c], 6000);
        assert_eq!(out[8 + c], 2000);
        assert_eq!(out[12 + c], 0);
    }
    assert_eq!(out[3], 65536);
    assert_eq!(out[7], 65536);
    assert_eq!(out[11], 65536);
    assert_eq!(out[15], 65536);
}
