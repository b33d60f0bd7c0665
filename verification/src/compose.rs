//! Pixel-wise compositing operators: the premultiplied max-overlay used
//! for halation, the additive grain overlay, and the un-premultiplied
//! lighten blend.
//!
//! The 8-bit channels stand for the rational values `c / 255`, and every
//! formula below is the exact integer form of the corresponding rational
//! one, with the final conversion back to 8 bits truncating (flooring)
//! after the scale by 255 — one convention, used throughout.

use crate::errors::EffectError;
use vstd::prelude::*;

verus! {

/// Premultiplied max-overlay of one colour channel: both channels are
/// premultiplied by their alphas and the larger product is kept, stored
/// directly as the output channel. In rationals:
/// `floor(255 * max((ba/255)*(bc/255), (ma/255)*(mc/255)))`.
pub open spec fn halation_channel(ba: u8, ma: u8, bc: u8, mc: u8) -> u8 {
    let bca = ba * bc;
    let mca = ma * mc;
    ((if bca >= mca {
        bca
    } else {
        mca
    }) / 255) as u8
}

/// The standard "over" composite of two alphas,
/// `a = ba/255 + (ma/255) * (1 - ba/255)`, scaled back to 8 bits with a
/// flooring division.
pub open spec fn over_alpha(ba: u8, ma: u8) -> u8 {
    ((255 * ba + ma * (255 - ba)) / 255) as u8
}

/// Output pixel `p` of the halation overlay: each colour channel the
/// premultiplied max of base and mask, the alpha the "over" composite.
pub open spec fn halation_pixel_ok(base0: Seq<u8>, mask: Seq<u8>, out: Seq<u8>, p: int) -> bool {
    &&& out[4 * p] == halation_channel(base0[4 * p + 3], mask[4 * p + 3], base0[4 * p], mask[4 * p])
    &&& out[4 * p + 1] == halation_channel(
        base0[4 * p + 3],
        mask[4 * p + 3],
        base0[4 * p + 1],
        mask[4 * p + 1],
    )
    &&& out[4 * p + 2] == halation_channel(
        base0[4 * p + 3],
        mask[4 * p + 3],
        base0[4 * p + 2],
        mask[4 * p + 2],
    )
    &&& out[4 * p + 3] == over_alpha(base0[4 * p + 3], mask[4 * p + 3])
}

/// The product of two bytes stays under `255 * 255`.
proof fn lemma_byte_mul_bound(a: int, b: int)
    requires
        0 <= a <= 255,
        0 <= b <= 255,
    ensures
        0 <= a * b <= 65025,
{
    vstd::arithmetic::mul::lemma_mul_upper_bound(a, 255, b, 255);
    vstd::arithmetic::mul::lemma_mul_nonnegative(a, b);
}

/// Exact integer form of one premultiplied max-overlay channel.
fn halation_channel_exec(ba: u8, ma: u8, bc: u8, mc: u8) -> (v: u8)
    ensures
        v == halation_channel(ba, ma, bc, mc),
{
    proof {
        lemma_byte_mul_bound(ba as int, bc as int);
        lemma_byte_mul_bound(ma as int, mc as int);
    }
    let bca: u32 = ba as u32 * bc as u32;
    let mca: u32 = ma as u32 * mc as u32;
    let top: u32 = if bca >= mca {
        bca
    } else {
        mca
    };
    (top / 255) as u8
}

/// Exact integer form of the "over" alpha composite.
fn over_alpha_exec(ba: u8, ma: u8) -> (v: u8)
    ensures
        v == over_alpha(ba, ma),
{
    proof {
        lemma_byte_mul_bound(ma as int, 255 - ba as int);
    }
    let x: u32 = 255 * ba as u32 + ma as u32 * (255 - ba as u32);
    (x / 255) as u8
}

/// Premultiplied max-overlay ("lighten") of a halation mask onto a base
/// image, pixel by pixel, in place. Both buffers are interleaved RGBA;
/// they must have the same length, a multiple of 4. On an error nothing
/// is written.
pub fn overlay_halation(base: &mut Vec<u8>, halation_mask: &Vec<u8>) -> (result: Result<
    (),
    EffectError,
>)
    ensures
        old(base).len() % 4 != 0 ==> result == Err::<(), EffectError>(
            EffectError::InvalidBufferLength,
        ) && final(base)@ == old(base)@,
        old(base).len() % 4 == 0 && halation_mask.len() != old(base).len() ==> result == Err::<
            (),
            EffectError,
        >(EffectError::DimensionMismatch) && final(base)@ == old(base)@,
        old(base).len() % 4 == 0 && halation_mask.len() == old(base).len() ==> result == Ok::<
            (),
            EffectError,
        >(()) && final(base).len() == old(base).len() && forall|p: int|
            0 <= p < old(base).len() / 4 ==> #[trigger] halation_pixel_ok(
                old(base)@,
                halation_mask@,
                final(base)@,
                p,
            ),
{
    if base.len() % 4 != 0 {
        return Err(EffectError::InvalidBufferLength);
    }
    if halation_mask.len() != base.len() {
        return Err(EffectError::DimensionMismatch);
    }
    let pixels: usize = base.len() / 4;
    let mut p: usize = 0;
    while p < pixels
        invariant
            p <= pixels,
            pixels == old(base).len() / 4,
            old(base).len() % 4 == 0,
            base.len() == old(base).len(),
            halation_mask.len() == old(base).len(),
            forall|i: int|
                0 <= i < p ==> #[trigger] halation_pixel_ok(
                    old(base)@,
                    halation_mask@,
                    base@,
                    i,
                ),
            forall|k: int| 4 * p <= k < old(base).len() ==> base@[k] == old(base)@[k],
        decreases pixels - p,
    {
        let ba = base[4 * p + 3];
        let ma = halation_mask[4 * p + 3];
        let ghost base_before = base@;
        let r = halation_channel_exec(ba, ma, base[4 * p], halation_mask[4 * p]);
        let g = halation_channel_exec(ba, ma, base[4 * p + 1], halation_mask[4 * p + 1]);
        let b = halation_channel_exec(ba, ma, base[4 * p + 2], halation_mask[4 * p + 2]);
        let a = over_alpha_exec(ba, ma);
        base[4 * p] = r;
        base[4 * p + 1] = g;
        base[4 * p + 2] = b;
        base[4 * p + 3] = a;
        proof {
            assert(halation_pixel_ok(old(base)@, halation_mask@, base@, p as int));
            assert forall|i: int|
                0 <= i < p as int implies #[trigger] halation_pixel_ok(
                old(base)@,
                halation_mask@,
                base@,
                i,
            ) by {
                assert(halation_pixel_ok(old(base)@, halation_mask@, base_before, i));
            }
        }
        p = p + 1;
    }
    Ok(())
}

/// A fully transparent halation mask pixel leaves the base pixel's alpha
/// exactly unchanged, and — where the base pixel is opaque — its colour
/// channels too. (On a base pixel that is not opaque the stored colour
/// becomes its premultiplied form, so only opaque bases pass through
/// untouched.)
pub proof fn lemma_halation_transparent_mask(base0: Seq<u8>, mask: Seq<u8>, out: Seq<u8>, p: int)
    requires
        halation_pixel_ok(base0, mask, out, p),
        mask[4 * p + 3] == 0,
    ensures
        out[4 * p + 3] == base0[4 * p + 3],
        base0[4 * p + 3] == 255 ==> out[4 * p] == base0[4 * p] && out[4 * p + 1] == base0[4 * p
            + 1] && out[4 * p + 2] == base0[4 * p + 2],
{
    let ba = base0[4 * p + 3];
    assert(255 * ba + 0 * (255 - ba) == ba * 255) by (nonlinear_arith);
    vstd::arithmetic::div_mod::lemma_div_by_multiple(ba as int, 255);
    if ba == 255 {
        lemma_transparent_channel(base0[4 * p], mask[4 * p]);
        lemma_transparent_channel(base0[4 * p + 1], mask[4 * p + 1]);
        lemma_transparent_channel(base0[4 * p + 2], mask[4 * p + 2]);
    }
}

proof fn lemma_transparent_channel(bc: u8, mc: u8)
    ensures
        halation_channel(255, 0, bc, mc) == bc,
{
    assert(255 * bc >= 0 * mc) by (nonlinear_arith);
    assert(bc * 255 / 255 == bc) by {
        vstd::arithmetic::div_mod::lemma_div_by_multiple(bc as int, 255);
    }
    assert(255 * bc == bc * 255) by (nonlinear_arith);
}

/// An opaque white halation mask pixel forces opaque white, whatever the
/// base pixel holds.
pub proof fn lemma_halation_opaque_white(base0: Seq<u8>, mask: Seq<u8>, out: Seq<u8>, p: int)
    requires
        halation_pixel_ok(base0, mask, out, p),
        mask[4 * p] == 255,
        mask[4 * p + 1] == 255,
        mask[4 * p + 2] == 255,
        mask[4 * p + 3] == 255,
    ensures
        out[4 * p] == 255,
        out[4 * p + 1] == 255,
        out[4 * p + 2] == 255,
        out[4 * p + 3] == 255,
{
    let ba = base0[4 * p + 3];
    lemma_white_channel(ba, base0[4 * p]);
    lemma_white_channel(ba, base0[4 * p + 1]);
    lemma_white_channel(ba, base0[4 * p + 2]);
    assert(255 * ba + 255 * (255 - ba) == 255 * 255) by (nonlinear_arith);
    assert(255 * 255 == 65025);
    assert(65025int / 255 == 255);
}

proof fn lemma_white_channel(ba: u8, bc: u8)
    ensures
        halation_channel(ba, 255, bc, 255) == 255,
{
    assert(ba * bc <= 255 * 255) by (nonlinear_arith)
        requires
            ba <= 255,
            bc <= 255,
    ;
    assert(255 * 255 == 65025);
    assert(65025int / 255 == 255);
}

/// One grain-composited channel. The noise value is the fixed-point
/// number `q / SCALE`; in rationals the result is
/// `floor(255 * clamp(c/255 + q/SCALE, 0, 1))`, i.e. the channel moves by
/// 255 times the noise value, clamped to the byte range, then floored.
pub open spec fn grain_channel(c: u8, q: int) -> u8 {
    let x = c * 65536 + 255 * q;
    if x <= 0 {
        0
    } else if x >= 255 * 65536 {
        255
    } else {
        (x / 65536) as u8
    }
}

/// Output pixel `p` of the grain overlay: R, G and B shifted by the
/// noise mask's values, alpha untouched.
pub open spec fn grain_pixel_ok(img0: Seq<u8>, noise: Seq<i64>, out: Seq<u8>, p: int) -> bool {
    &&& out[4 * p] == grain_channel(img0[4 * p], noise[4 * p] as int)
    &&& out[4 * p + 1] == grain_channel(img0[4 * p + 1], noise[4 * p + 1] as int)
    &&& out[4 * p + 2] == grain_channel(img0[4 * p + 2], noise[4 * p + 2] as int)
    &&& out[4 * p + 3] == img0[4 * p + 3]
}

/// Exact integer form of one grain channel.
fn grain_channel_exec(c: u8, q: i64) -> (v: u8)
    ensures
        v == grain_channel(c, q as int),
{
    let x: i128 = c as i128 * 65536 + 255 * q as i128;
    if x <= 0 {
        0
    } else if x >= 255 * 65536 {
        255
    } else {
        (x as u64 / 65536) as u8
    }
}

/// Additive grain overlay: shift each colour channel of the image by the
/// noise mask's corresponding fixed-point value, clamped to the byte
/// range; leave every alpha untouched. The mask has one `i64` per
/// channel, same layout and length as the image. On an error nothing is
/// written.
pub fn overlay_grain_mask(image: &mut Vec<u8>, grain_mask: &Vec<i64>) -> (result: Result<
    (),
    EffectError,
>)
    ensures
        old(image).len() % 4 != 0 ==> result == Err::<(), EffectError>(
            EffectError::InvalidBufferLength,
        ) && final(image)@ == old(image)@,
        old(image).len() % 4 == 0 && grain_mask.len() != old(image).len() ==> result == Err::<
            (),
            EffectError,
        >(EffectError::DimensionMismatch) && final(image)@ == old(image)@,
        old(image).len() % 4 == 0 && grain_mask.len() == old(image).len() ==> result == Ok::<
            (),
            EffectError,
        >(()) && final(image).len() == old(image).len() && forall|p: int|
            0 <= p < old(image).len() / 4 ==> #[trigger] grain_pixel_ok(
                old(image)@,
                grain_mask@,
                final(image)@,
                p,
            ),
{
    if image.len() % 4 != 0 {
        return Err(EffectError::InvalidBufferLength);
    }
    if grain_mask.len() != image.len() {
        return Err(EffectError::DimensionMismatch);
    }
    let pixels: usize = image.len() / 4;
    let mut p: usize = 0;
    while p < pixels
        invariant
            p <= pixels,
            pixels == old(image).len() / 4,
            old(image).len() % 4 == 0,
            image.len() == old(image).len(),
            grain_mask.len() == old(image).len(),
            forall|i: int|
                0 <= i < p ==> #[trigger] grain_pixel_ok(old(image)@, grain_mask@, image@, i),
            forall|k: int| 4 * p <= k < old(image).len() ==> image@[k] == old(image)@[k],
        decreases pixels - p,
    {
        let ghost image_before = image@;
        let r = grain_channel_exec(image[4 * p], grain_mask[4 * p]);
        let g = grain_channel_exec(image[4 * p + 1], grain_mask[4 * p + 1]);
        let b = grain_channel_exec(image[4 * p + 2], grain_mask[4 * p + 2]);
        image[4 * p] = r;
        image[4 * p + 1] = g;
        image[4 * p + 2] = b;
        proof {
            assert(grain_pixel_ok(old(image)@, grain_mask@, image@, p as int));
            assert forall|i: int|
                0 <= i < p as int implies #[trigger] grain_pixel_ok(
                old(image)@,
                grain_mask@,
                image@,
                i,
            ) by {
                assert(grain_pixel_ok(old(image)@, grain_mask@, image_before, i));
            }
        }
        p = p + 1;
    }
    Ok(())
}

/// One lighten-blended colour channel, for two pixels that both have
/// non-zero alpha. Both stored channels are read as premultiplied; they
/// are un-premultiplied, the larger straight colour is kept, the three
/// premultiplied contributions are summed and un-premultiplied by the
/// final alpha:
/// `255 * ((1-oa)*bc + (1-ba)*oc + max(oa*bc, ba*oc)) / (255*ba + oa*(255-ba))`,
/// clamped to 255.
pub open spec fn lighten_channel(ba: u8, oa: u8, bc: u8, oc: u8) -> u8 {
    let top = (255 - oa) * bc + (255 - ba) * oc + (if oa * bc >= ba * oc {
        oa * bc
    } else {
        ba * oc
    });
    let bottom = 255 * ba + oa * (255 - ba);
    if 255 * top / bottom >= 255 {
        255
    } else {
        (255 * top / bottom) as u8
    }
}

/// Output pixel `p` of the lighten blend: where both alphas are nonzero
/// the channels blend and the alphas composite; where only the overlay
/// has alpha its pixel is copied verbatim; otherwise the base pixel
/// stays.
pub open spec fn lighten_pixel_ok(base0: Seq<u8>, over: Seq<u8>, out: Seq<u8>, p: int) -> bool {
    let ba = base0[4 * p + 3];
    let oa = over[4 * p + 3];
    if ba > 0 && oa > 0 {
        &&& out[4 * p] == lighten_channel(ba, oa, base0[4 * p], over[4 * p])
        &&& out[4 * p + 1] == lighten_channel(ba, oa, base0[4 * p + 1], over[4 * p + 1])
        &&& out[4 * p + 2] == lighten_channel(ba, oa, base0[4 * p + 2], over[4 * p + 2])
        &&& out[4 * p + 3] == over_alpha(ba, oa)
    } else if oa > 0 {
        &&& out[4 * p] == over[4 * p]
        &&& out[4 * p + 1] == over[4 * p + 1]
        &&& out[4 * p + 2] == over[4 * p + 2]
        &&& out[4 * p + 3] == oa
    } else {
        &&& out[4 * p] == base0[4 * p]
        &&& out[4 * p + 1] == base0[4 * p + 1]
        &&& out[4 * p + 2] == base0[4 * p + 2]
        &&& out[4 * p + 3] == ba
    }
}

/// Exact integer form of one lighten-blended channel.
fn lighten_channel_exec(ba: u8, oa: u8, bc: u8, oc: u8) -> (v: u8)
    requires
        ba > 0,
    ensures
        v == lighten_channel(ba, oa, bc, oc),
{
    proof {
        lemma_byte_mul_bound(oa as int, bc as int);
        lemma_byte_mul_bound(ba as int, oc as int);
        lemma_byte_mul_bound(255 - oa as int, bc as int);
        lemma_byte_mul_bound(255 - ba as int, oc as int);
        lemma_byte_mul_bound(oa as int, 255 - ba as int);
    }
    let obc: u32 = oa as u32 * bc as u32;
    let boc: u32 = ba as u32 * oc as u32;
    let top: u32 = (255 - oa as u32) * bc as u32 + (255 - ba as u32) * oc as u32 + (if obc >= boc {
        obc
    } else {
        boc
    });
    let bottom: u32 = 255 * ba as u32 + oa as u32 * (255 - ba as u32);
    let q: u32 = 255 * top / bottom;
    if q >= 255 {
        255
    } else {
        q as u8
    }
}

/// Un-premultiplied lighten blend of an overlay onto a base image, pixel
/// by pixel, in place. Both buffers are interleaved RGBA of equal
/// length, a multiple of 4. On an error nothing is written.
pub fn lighten_overlay_image(base: &mut Vec<u8>, overlay: &Vec<u8>) -> (result: Result<
    (),
    EffectError,
>)
    ensures
        old(base).len() % 4 != 0 ==> result == Err::<(), EffectError>(
            EffectError::InvalidBufferLength,
        ) && final(base)@ == old(base)@,
        old(base).len() % 4 == 0 && overlay.len() != old(base).len() ==> result == Err::<
            (),
            EffectError,
        >(EffectError::DimensionMismatch) && final(base)@ == old(base)@,
        old(base).len() % 4 == 0 && overlay.len() == old(base).len() ==> result == Ok::<
            (),
            EffectError,
        >(()) && final(base).len() == old(base).len() && forall|p: int|
            0 <= p < old(base).len() / 4 ==> #[trigger] lighten_pixel_ok(
                old(base)@,
                overlay@,
                final(base)@,
                p,
            ),
{
    if base.len() % 4 != 0 {
        return Err(EffectError::InvalidBufferLength);
    }
    if overlay.len() != base.len() {
        return Err(EffectError::DimensionMismatch);
    }
    let pixels: usize = base.len() / 4;
    let mut p: usize = 0;
    while p < pixels
        invariant
            p <= pixels,
            pixels == old(base).len() / 4,
            old(base).len() % 4 == 0,
            base.len() == old(base).len(),
            overlay.len() == old(base).len(),
            forall|i: int|
                0 <= i < p ==> #[trigger] lighten_pixel_ok(old(base)@, overlay@, base@, i),
            forall|k: int| 4 * p <= k < old(base).len() ==> base@[k] == old(base)@[k],
        decreases pixels - p,
    {
        let ba = base[4 * p + 3];
        let oa = overlay[4 * p + 3];
        let ghost base_before = base@;
        if ba > 0 && oa > 0 {
            let r = lighten_channel_exec(ba, oa, base[4 * p], overlay[4 * p]);
            let g = lighten_channel_exec(ba, oa, base[4 * p + 1], overlay[4 * p + 1]);
            let b = lighten_channel_exec(ba, oa, base[4 * p + 2], overlay[4 * p + 2]);
            let a = over_alpha_exec(ba, oa);
            base[4 * p] = r;
            base[4 * p + 1] = g;
            base[4 * p + 2] = b;
            base[4 * p + 3] = a;
        } else if oa > 0 {
            let r = overlay[4 * p];
            let g = overlay[4 * p + 1];
            let b = overlay[4 * p + 2];
            base[4 * p] = r;
            base[4 * p + 1] = g;
            base[4 * p + 2] = b;
            base[4 * p + 3] = oa;
        }
        proof {
            assert(lighten_pixel_ok(old(base)@, overlay@, base@, p as int));
            assert forall|i: int|
                0 <= i < p as int implies #[trigger] lighten_pixel_ok(
                old(base)@,
                overlay@,
                base@,
                i,
            ) by {
                assert(lighten_pixel_ok(old(base)@, overlay@, base_before, i));
            }
        }
        p = p + 1;
    }
    Ok(())
}

} // verus!
