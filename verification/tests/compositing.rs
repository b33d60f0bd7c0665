use filmfx::compose::lighten_overlay_image;
use filmfx::compose::overlay_grain_mask;
use filmfx::compose::overlay_halation;
use filmfx::errors::EffectError;

#[test]
fn halation_premultiplied_max() {
    let mut base: Vec<u8> = vec![100, 0, 0, 255];
    let mask: Vec<u8> = vec![0, 0, 200, 128];
    overlay_halation(&mut base, &mask).unwrap();
    // B channel: max(255 * 0, 128 * 200) / 255 = 25600 / 255 -> 100
    assert_eq!(base, vec![100, 0, 100, 255]);
}

#[test]
fn halation_transparent_mask_keeps_opaque_base() {
    let mut base: Vec<u8> = vec![12, 34, 56, 255, 200, 100, 0, 255];
    let mask: Vec<u8> = vec![90, 90, 90, 0, 7, 8, 9, 0];
    overlay_halation(&mut base, &mask).unwrap();
    assert_eq!(base, vec![12, 34, 56, 255, 200, 100, 0, 255]);
}

#[test]
fn halation_opaque_white_mask_wins_everywhere() {
    let mut base: Vec<u8> = vec![12, 34, 56, 78, 0, 0, 0, 0];
    let mask: Vec<u8> = vec![255, 255, 255, 255, 255, 255, 255, 255];
    overlay_halation(&mut base, &mask).unwrap();
    assert_eq!(base, vec![255; 8]);
}

#[test]
fn halation_rejects_bad_buffers() {
    let mut base: Vec<u8> = vec![0; 5];
    assert_eq!(overlay_halation(&mut base, &vec![0; 5]), Err(EffectError::InvalidBufferLength));
    let mut base: Vec<u8> = vec![0; 4];
    assert_eq!(overlay_halation(&mut base, &vec![0; 8]), Err(EffectError::DimensionMismatch));
    assert_eq!(base, vec![0; 4]);
}

#[test]
fn grain_shifts_colours_and_keeps_alpha() {
    let mut img: Vec<u8> = vec![100, 200, 50, 77];
    // +0.1, -0.1 and 0 in fixed point
    let mask: Vec<i64> = vec![6554, -6554, 0, 999];
    overlay_grain_mask(&mut img, &mask).unwrap();
    // 100 + 255 * 0.1000061 = 125.5 -> 125; 200 - 25.5 -> 174.49 -> 174
    assert_eq!(img, vec![125, 174, 50, 77]);
}

#[test]
fn grain_clamps_to_byte_range() {
    let mut img: Vec<u8> = vec![250, 5, 128, 9];
    let mask: Vec<i64> = vec![65536, -65536, 0, 0];
    overlay_grain_mask(&mut img, &mask).unwrap();
    assert_eq!(img, vec![255, 0, 128, 9]);
}

#[test]
fn grain_rejects_bad_buffers() {
    let mut img: Vec<u8> = vec![0; 6];
    assert_eq!(overlay_grain_mask(&mut img, &vec![0; 6]), Err(EffectError::InvalidBufferLength));
    let mut img: Vec<u8> = vec![0; 8];
    assert_eq!(overlay_grain_mask(&mut img, &vec![0; 4]), Err(EffectError::DimensionMismatch));
    assert_eq!(img, vec![0; 8]);
}

#[test]
fn lighten_blends_unpremultiplied_max() {
    let mut base: Vec<u8> = vec![100, 0, 0, 255];
    let overlay: Vec<u8> = vec![0, 0, 200, 128];
    lighten_overlay_image(&mut base, &overlay).unwrap();
    // the un-premultiplied lighten keeps the overlay's straight B of 200,
    // where the premultiplied max stores only 100
    assert_eq!(base, vec![100, 0, 200, 255]);
}

#[test]
fn lighten_copies_overlay_where_base_is_clear() {
    let mut base: Vec<u8> = vec![10, 20, 30, 0];
    let overlay: Vec<u8> = vec![1, 2, 3, 200];
    lighten_overlay_image(&mut base, &overlay).unwrap();
    assert_eq!(base, vec![1, 2, 3, 200]);
}

#[test]
fn lighten_keeps_base_where_overlay_is_clear() {
    let mut base: Vec<u8> = vec![10, 20, 30, 99, 0, 0, 0, 0];
    let overlay: Vec<u8> = vec![200, 200, 200, 0, 5, 6, 7, 0];
    lighten_overlay_image(&mut base, &overlay).unwrap();
    assert_eq!(base, vec![10, 20, 30, 99, 0, 0, 0, 0]);
}

#[test]
fn lighten_rejects_bad_buffers() {
    let mut base: Vec<u8> = vec![0; 7];
    assert_eq!(lighten_overlay_image(&mut base, &vec![0; 7]), Err(EffectError::InvalidBufferLength));
    let mut base: Vec<u8> = vec![0; 8];
    assert_eq!(lighten_overlay_image(&mut base, &vec![0; 12]), Err(EffectError::DimensionMismatch));
}
