use filmfx::blur::gauss_blur;
use filmfx::errors::EffectError;
use filmfx::mask::color_blurred_mask;
use filmfx::mask::create_brightness_mask;

#[test]
fn brightness_mask_bright_pixel() {
    let img: Vec<u8> = vec![10, 10, 10, 255];
    let mask = create_brightness_mask(&img, 5).unwrap();
    assert_eq!(mask, vec![255, 255, 255, 255]);
}

#[test]
fn brightness_mask_dark_pixel() {
    let img: Vec<u8> = vec![10, 10, 10, 255];
    let mask = create_brightness_mask(&img, 200).unwrap();
    assert_eq!(mask, vec![0, 0, 0, 255]);
}

#[test]
fn brightness_mask_exact_threshold_is_below() {
    // luminance of (100, 100, 100) is exactly 100: strict comparison keeps it dark
    let img: Vec<u8> = vec![100, 100, 100, 31];
    let mask = create_brightness_mask(&img, 100).unwrap();
    assert_eq!(mask, vec![0, 0, 0, 31]);
}

#[test]
fn brightness_mask_binary_output() {
    let img: Vec<u8> = vec![1, 2, 3, 4, 200, 220, 240, 9, 128, 128, 128, 0];
    let mask = create_brightness_mask(&img, 127).unwrap();
    for p in 0..3 {
        let v = mask[4 * p];
        assert!(v == 0 || v == 255);
        assert_eq!(mask[4 * p + 1], v);
        assert_eq!(mask[4 * p + 2], v);
        assert_eq!(mask[4 * p + 3], img[4 * p + 3]);
    }
}

#[test]
fn brightness_mask_rejects_ragged_buffer() {
    let img: Vec<u8> = vec![1, 2, 3];
    assert_eq!(create_brightness_mask(&img, 10), Err(EffectError::InvalidBufferLength));
}

#[test]
fn tint_carries_colour_and_alpha() {
    let mask: Vec<u8> = vec![0, 128, 255];
    let out = color_blurred_mask(&mask, 10, 20, 30);
    assert_eq!(out, vec![10, 20, 30, 0, 10, 20, 30, 128, 10, 20, 30, 255]);
}

#[test]
fn blur_constant_image_is_fixed_point() {
    let img: Vec<u8> = vec![77; 12];
    // standard deviation 1.5 in fixed point
    let out = gauss_blur(&img, 4, 3, 98304).unwrap();
    assert_eq!(out, vec![77; 12]);
}

#[test]
fn blur_rejects_zero_radius() {
    let img: Vec<u8> = vec![0; 12];
    assert_eq!(gauss_blur(&img, 4, 3, 0), Err(EffectError::InvalidParameter));
}

#[test]
fn blur_rejects_wrong_length() {
    let img: Vec<u8> = vec![0; 13];
    assert_eq!(gauss_blur(&img, 4, 3, 65536), Err(EffectError::InvalidBufferLength));
    assert_eq!(gauss_blur(&img, 0, 3, 65536), Err(EffectError::InvalidBufferLength));
}

#[test]
fn blur_impulse_spreads_symmetrically() {
    // a lone bright pixel in the middle of a 9 x 9 black image, blurred
    // with standard deviation 1 (box radii 0, 0, 1)
    let mut img: Vec<u8> = vec![0; 81];
    img[4 * 9 + 4] = 255;
    let out = gauss_blur(&img, 9, 9, 65536).unwrap();
    for y in 0..9usize {
        for x in 0..9usize {
            // symmetric in both axes about the impulse
            assert_eq!(out[y * 9 + x], out[y * 9 + (8 - x)]);
            assert_eq!(out[y * 9 + x], out[(8 - y) * 9 + x]);
            let expect = if (3..=5).contains(&x) && (3..=5).contains(&y) { 28 } else { 0 };
            assert_eq!(out[y * 9 + x], expect);
        }
    }
    // total mass approximately conserved: 9 * 28 = 252 of the impulse 255
    let total: u32 = out.iter().map(|&v| v as u32).sum();
    assert_eq!(total, 252);
}
