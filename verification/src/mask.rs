//! Brightness masking and mask tinting.
//!
//! `create_brightness_mask` classifies every pixel of an RGBA image by its
//! sRGB luminance `0.2126 R + 0.7152 G + 0.0722 B`; the comparison against
//! the threshold is carried out exactly, over integers, by scaling both
//! sides by 10000. `color_blurred_mask` repackages a single-channel alpha
//! mask as an RGBA image of one constant colour.

use crate::errors::EffectError;
use vstd::prelude::*;

verus! {

/// Whether a pixel's luminance strictly exceeds the threshold:
/// `0.2126 R + 0.7152 G + 0.0722 B > threshold`, both sides scaled by
/// 10000 so the comparison is exact. A luminance exactly equal to the
/// threshold is below it.
pub open spec fn luminance_above(r: u8, g: u8, b: u8, threshold: u8) -> bool {
    2126 * r + 7152 * g + 722 * b > 10000 * threshold
}

/// The mask channel written for one pixel: full white above the
/// threshold, black otherwise.
pub open spec fn mask_value(r: u8, g: u8, b: u8, threshold: u8) -> u8 {
    if luminance_above(r, g, b, threshold) {
        255
    } else {
        0
    }
}

/// Output pixel `p` of the brightness mask: R, G and B all carry the
/// pixel's mask value — 255 or 0 — and the source alpha is kept.
pub open spec fn brightness_pixel_ok(img: Seq<u8>, mask: Seq<u8>, threshold: u8, p: int) -> bool {
    &&& mask[4 * p] == mask_value(img[4 * p], img[4 * p + 1], img[4 * p + 2], threshold)
    &&& mask[4 * p + 1] == mask[4 * p]
    &&& mask[4 * p + 2] == mask[4 * p]
    &&& mask[4 * p + 3] == img[4 * p + 3]
}

/// Binary brightness mask of an RGBA image: in every output pixel R, G
/// and B are 255 where the source pixel's luminance strictly exceeds
/// `threshold` and 0 where it does not, and the source alpha is kept.
pub fn create_brightness_mask(img_data: &Vec<u8>, threshold: u8) -> (result: Result<
    Vec<u8>,
    EffectError,
>)
    ensures
        img_data.len() % 4 != 0 ==> result == Err::<Vec<u8>, EffectError>(
            EffectError::InvalidBufferLength,
        ),
        img_data.len() % 4 == 0 ==> (result matches Ok(mask) && {
            &&& mask.len() == img_data.len()
            &&& forall|p: int|
                0 <= p < img_data.len() / 4 ==> #[trigger] brightness_pixel_ok(
                    img_data@,
                    mask@,
                    threshold,
                    p,
                )
        }),
{
    if img_data.len() % 4 != 0 {
        return Err(EffectError::InvalidBufferLength);
    }
    let pixels: usize = img_data.len() / 4;
    let mut mask: Vec<u8> = Vec::new();
    let mut p: usize = 0;
    while p < pixels
        invariant
            p <= pixels,
            pixels == img_data.len() / 4,
            img_data.len() % 4 == 0,
            mask.len() == 4 * p,
            forall|i: int|
                0 <= i < p ==> #[trigger] brightness_pixel_ok(img_data@, mask@, threshold, i),
        decreases pixels - p,
    {
        let r = img_data[4 * p];
        let g = img_data[4 * p + 1];
        let b = img_data[4 * p + 2];
        let a = img_data[4 * p + 3];
        let lum_scaled: u32 = 2126 * r as u32 + 7152 * g as u32 + 722 * b as u32;
        let v: u8 = if lum_scaled > 10000 * threshold as u32 {
            255
        } else {
            0
        };
        let ghost mask_before = mask@;
        mask.push(v);
        mask.push(v);
        mask.push(v);
        mask.push(a);
        proof {
            assert(v == mask_value(img_data@[4 * p as int], img_data@[4 * p + 1], img_data@[4 * p + 2], threshold));
            assert(brightness_pixel_ok(img_data@, mask@, threshold, p as int));
            assert forall|i: int|
                0 <= i < p as int implies #[trigger] brightness_pixel_ok(
                img_data@,
                mask@,
                threshold,
                i,
            ) by {
                assert(brightness_pixel_ok(img_data@, mask_before, threshold, i));
            }
        }
        p = p + 1;
    }
    Ok(mask)
}

/// Output pixel `i` of the tinted mask: the constant colour in R, G and
/// B, and the mask's value, unchanged, in the alpha channel.
pub open spec fn tinted_pixel_ok(
    mask: Seq<u8>,
    out: Seq<u8>,
    r: u8,
    g: u8,
    b: u8,
    i: int,
) -> bool {
    &&& out[4 * i] == r
    &&& out[4 * i + 1] == g
    &&& out[4 * i + 2] == b
    &&& out[4 * i + 3] == mask[i]
}

/// Tint an alpha mask: every output pixel carries the constant colour
/// `(r, g, b)` and the mask's value, unchanged, as its alpha.
pub fn color_blurred_mask(blur_mask: &Vec<u8>, r: u8, g: u8, b: u8) -> (out: Vec<u8>)
    requires
        4 * blur_mask.len() <= usize::MAX,
    ensures
        out.len() == 4 * blur_mask.len(),
        forall|i: int|
            0 <= i < blur_mask.len() ==> #[trigger] tinted_pixel_ok(blur_mask@, out@, r, g, b, i),
{
    let mut out: Vec<u8> = Vec::new();
    let mut i: usize = 0;
    while i < blur_mask.len()
        invariant
            i <= blur_mask.len(),
            4 * blur_mask.len() <= usize::MAX,
            out.len() == 4 * i,
            forall|j: int| 0 <= j < i ==> #[trigger] tinted_pixel_ok(blur_mask@, out@, r, g, b, j),
        decreases blur_mask.len() - i,
    {
        let ghost out_before = out@;
        out.push(r);
        out.push(g);
        out.push(b);
        out.push(blur_mask[i]);
        proof {
            assert(tinted_pixel_ok(blur_mask@, out@, r, g, b, i as int));
            assert forall|j: int|
                0 <= j < i as int implies #[trigger] tinted_pixel_ok(blur_mask@, out@, r, g, b, j) by {
                assert(tinted_pixel_ok(blur_mask@, out_before, r, g, b, j));
            }
        }
        i = i + 1;
    }
    out
}

} // verus!
