//! Procedural film grain: a floating mask of zero-mean noise, built from
//! up to three spatial-frequency bands and composited additively by
//! `crate::compose::overlay_grain_mask`.
//!
//! Noise values are fixed-point numbers with denominator
//! [`crate::fixed::SCALE`]. One channel of one band is the sum of four
//! independent uniform samples from `[-1, 1)`, scaled by
//! `sqrt(3 * intensity) / 2` so that the channel's variance equals the
//! band's intensity parameter (up to fixed-point quantisation). The
//! medium and large bands are generated at half and quarter resolution
//! and brought back to full size by a smoothing bilinear resampling
//! filter with half-pixel-centre coordinates.

use rand::Rng;
use vstd::arithmetic::div_mod::*;
use vstd::arithmetic::mul::*;
use vstd::prelude::*;

verus! {

#[verifier::external_type_specification]
#[verifier::external_body]
pub struct ExThreadRng(rand::rngs::ThreadRng);

/// Relies on rand::thread_rng: a fresh handle to the thread-local
/// generator. Nothing is assumed about it beyond its type.
#[verifier::external_body]
fn fresh_rng() -> rand::rngs::ThreadRng {
    rand::thread_rng()
}

/// Relies on Rng::gen_range over the constant range -65536..65536: a
/// draw, uniform over that range, from the thread-local generator. Of a
/// random value only its range can be promised.
#[verifier::external_body]
fn sample_unit(rng: &mut rand::rngs::ThreadRng) -> (s: i32)
    ensures
        -65536 <= s < 65536,
{
    rng.gen_range(-65536..65536)
}

/// Largest accepted fixed-point band intensity (`SCALE * SCALE`, an
/// intensity of 65536).
pub const MAX_INTENSITY_Q: i64 = 0x1_0000_0000;

/// Largest accepted mask dimension.
pub const MAX_MASK_DIM: usize = 0x4000;

/// The fixed-point factor `sqrt(3 * intensity) / 2` a band's samples are
/// scaled by. Four uniform samples from `[-1, 1)` sum to variance `4/3`,
/// so this factor gives the channel a variance of `intensity`.
pub open spec fn band_factor(iq: int) -> int {
    crate::fixed::sqrt_floor((3 * iq * 65536) as nat) as int / 2
}

fn band_factor_exec(iq: i64) -> (k: i64)
    requires
        1 <= iq <= MAX_INTENSITY_Q,
    ensures
        k == band_factor(iq as int),
        0 <= k <= 0x100_0000,
{
    let n: u64 = 3 * (iq as u64) * 65536;
    let s = crate::fixed::isqrt(n);
    proof {
        crate::fixed::lemma_sqrt_floor_bounds(n as nat);
        assert(s <= 0x200_0000) by (nonlinear_arith)
            requires
                s * s <= n,
                n <= 0x3_0000_0000_0000,
        ;
    }
    (s / 2) as i64
}

/// The factor of an accepted intensity stays within `[0, 2^24]`.
proof fn lemma_band_factor_range(iq: int)
    requires
        1 <= iq <= MAX_INTENSITY_Q,
    ensures
        0 <= band_factor(iq) <= 0x100_0000,
{
    let n = (3 * iq * 65536) as nat;
    crate::fixed::lemma_sqrt_floor_bounds(n);
    let s = crate::fixed::sqrt_floor(n);
    assert(n <= 0x3_0000_0000_0000) by (nonlinear_arith)
        requires
            1 <= iq <= 0x1_0000_0000,
            n == 3 * iq * 65536,
    ;
    assert(s <= 0x200_0000) by (nonlinear_arith)
        requires
            s * s <= n,
            n <= 0x3_0000_0000_0000,
    ;
    lemma_div_is_ordered(s as int, 0x200_0000, 2);
    lemma_div_pos_is_pos(s as int, 2);
}

/// The noise value a band writes for one channel: the sum of four
/// uniform fixed-point samples, scaled by the band's factor, the
/// division truncating toward zero.
pub open spec fn noise_value(s0: int, s1: int, s2: int, s3: int, k: int) -> int {
    crate::fixed::trunc_div((s0 + s1 + s2 + s3) * k, 65536)
}

/// Deterministic core of the sampler: the noise value of four given
/// samples, with its magnitude bounded by four times the factor.
pub fn noise_from_samples(s0: i32, s1: i32, s2: i32, s3: i32, k: i64) -> (q: i64)
    requires
        -65536 <= s0 < 65536,
        -65536 <= s1 < 65536,
        -65536 <= s2 < 65536,
        -65536 <= s3 < 65536,
        0 <= k <= 0x100_0000,
    ensures
        q == noise_value(s0 as int, s1 as int, s2 as int, s3 as int, k as int),
        -4 * k <= q <= 4 * k,
{
    let sum: i64 = s0 as i64 + s1 as i64 + s2 as i64 + s3 as i64;
    proof {
        lemma_mul_inequality(sum as int, 262144int, k as int);
        lemma_mul_inequality(-262144int, sum as int, k as int);
        lemma_mul_nonnegative(262144int, k as int);
    }
    let prod: i64 = sum * k;
    proof {
        assert(262144int * k == (4 * k) * 65536int) by (nonlinear_arith);
        lemma_div_by_multiple(4 * (k as int), 65536);
    }
    if prod >= 0 {
        proof {
            lemma_div_is_ordered(prod as int, 262144int * k, 65536);
            lemma_div_pos_is_pos(prod as int, 65536);
        }
        ((prod as u64) / 65536) as i64
    } else {
        proof {
            lemma_div_is_ordered(-prod as int, 262144int * k, 65536);
            lemma_div_pos_is_pos(-prod as int, 65536);
        }
        -(((-prod) as u64 / 65536) as i64)
    }
}

/// One noise value drawn from the generator: four fresh samples, scaled.
/// What holds of every outcome: the magnitude stays within four times
/// the factor.
fn normal_approx_noise(rng: &mut rand::rngs::ThreadRng, k: i64) -> (q: i64)
    requires
        0 <= k <= 0x100_0000,
    ensures
        -4 * k <= q <= 4 * k,
{
    let s0 = sample_unit(rng);
    let s1 = sample_unit(rng);
    let s2 = sample_unit(rng);
    let s3 = sample_unit(rng);
    noise_from_samples(s0, s1, s2, s3, k)
}

/// Pixel `p` of a noise band of factor `k`: three colour channels within
/// `[-4k, 4k]` and a full-opacity alpha.
pub open spec fn band_pixel_ok(mask: Seq<i64>, k: int, p: int) -> bool {
    &&& -4 * k <= mask[4 * p] <= 4 * k
    &&& -4 * k <= mask[4 * p + 1] <= 4 * k
    &&& -4 * k <= mask[4 * p + 2] <= 4 * k
    &&& mask[4 * p + 3] == 65536
}

/// One full-opacity noise band of the given intensity at `width x
/// height` resolution, every colour channel drawn independently.
fn gen_noise_mask(rng: &mut rand::rngs::ThreadRng, width: usize, height: usize, iq: i64) -> (mask:
    Vec<i64>)
    requires
        1 <= width <= MAX_MASK_DIM,
        1 <= height <= MAX_MASK_DIM,
        1 <= iq <= MAX_INTENSITY_Q,
    ensures
        mask.len() == width * height * 4,
        forall|p: int|
            0 <= p < width * height ==> #[trigger] band_pixel_ok(
                mask@,
                band_factor(iq as int),
                p,
            ),
{
    let k = band_factor_exec(iq);
    proof {
        assert(width * height <= 0x1000_0000) by (nonlinear_arith)
            requires
                width <= 0x4000,
                height <= 0x4000,
        ;
    }
    let pixels: usize = width * height;
    let mut mask: Vec<i64> = Vec::new();
    let mut p: usize = 0;
    while p < pixels
        invariant
            p <= pixels,
            pixels == width * height,
            pixels <= 0x1000_0000,
            0 <= k <= 0x100_0000,
            k == band_factor(iq as int),
            mask.len() == 4 * p,
            forall|i: int| 0 <= i < p ==> #[trigger] band_pixel_ok(mask@, k as int, i),
        decreases pixels - p,
    {
        let r = normal_approx_noise(rng, k);
        let g = normal_approx_noise(rng, k);
        let b = normal_approx_noise(rng, k);
        let ghost mask_before = mask@;
        mask.push(r);
        mask.push(g);
        mask.push(b);
        mask.push(65536);
        proof {
            assert(band_pixel_ok(mask@, k as int, p as int));
            assert forall|i: int| 0 <= i < p as int implies #[trigger] band_pixel_ok(
                mask@,
                k as int,
                i,
            ) by {
                assert(band_pixel_ok(mask_before, k as int, i));
            }
        }
        p = p + 1;
    }
    mask
}

/// Every element of the buffer lies within `[-b, b]`.
pub open spec fn abs_bounded(s: Seq<i64>, b: int) -> bool {
    forall|i: int| 0 <= i < s.len() ==> -b <= #[trigger] s[i] <= b
}

/// The three colour channels of pixel `p` lie within `[-b, b]`.
pub open spec fn colour_pixel_bounded(s: Seq<i64>, b: int, p: int) -> bool {
    &&& -b <= s[4 * p] <= b
    &&& -b <= s[4 * p + 1] <= b
    &&& -b <= s[4 * p + 2] <= b
}

/// Flat cap on every value that enters or leaves the resampler.
pub const RESAMPLE_CAP: i64 = 0x400_0000;

/// Integer position of the source sample left of output position `x`,
/// for an axis resampled from `sn` to `dn` samples with half-pixel
/// centres: the source coordinate is `(x + 1/2) * sn / dn - 1/2`, written
/// as the fraction `((2x + 1) sn - dn) / (2 dn)` and clamped at the left
/// edge.
pub open spec fn coord_base(x: int, sn: int, dn: int) -> int {
    let num = (2 * x + 1) * sn - dn;
    if num <= 0 {
        0
    } else {
        num / (2 * dn)
    }
}

/// Numerator (over `2 dn`) of the interpolation weight toward the next
/// source sample.
pub open spec fn coord_frac(x: int, sn: int, dn: int) -> int {
    let num = (2 * x + 1) * sn - dn;
    if num <= 0 {
        0
    } else {
        num % (2 * dn)
    }
}

/// Linear interpolation `v0 + (v1 - v0) * frac / den`, evaluated as one
/// fraction with the division truncating toward zero.
pub open spec fn lerp(v0: int, v1: int, frac: int, den: int) -> int {
    crate::fixed::trunc_div(v0 * (den - frac) + v1 * frac, den)
}

/// Interpolation never leaves the interval its two endpoints lie in.
proof fn lemma_lerp_bound(v0: int, v1: int, frac: int, den: int, b: int)
    requires
        0 <= frac <= den,
        1 <= den,
        0 <= b,
        -b <= v0 <= b,
        -b <= v1 <= b,
    ensures
        -b <= lerp(v0, v1, frac, den) <= b,
{
    let x = v0 * (den - frac) + v1 * frac;
    assert(-(b * den) <= x <= b * den) by (nonlinear_arith)
        requires
            x == v0 * (den - frac) + v1 * frac,
            0 <= frac <= den,
            1 <= den,
            0 <= b,
            -b <= v0 <= b,
            -b <= v1 <= b,
    ;
    lemma_mul_is_commutative(b, den);
    lemma_div_by_multiple(b, den);
    if x >= 0 {
        lemma_div_is_ordered(x, b * den, den);
        lemma_div_pos_is_pos(x, den);
    } else {
        lemma_div_is_ordered(-x, b * den, den);
        lemma_div_pos_is_pos(-x, den);
    }
}

/// Division truncating toward zero, as Rust's `/` does on signed values.
fn div_trunc(a: i64, d: i64) -> (q: i64)
    requires
        1 <= d,
        -0x4000_0000_0000_0000 <= a <= 0x4000_0000_0000_0000,
    ensures
        q == crate::fixed::trunc_div(a as int, d as int),
{
    if a >= 0 {
        proof {
            lemma_div_nonincreasing(a as int, d as int);
            lemma_div_pos_is_pos(a as int, d as int);
        }
        ((a as u64) / (d as u64)) as i64
    } else {
        proof {
            lemma_div_nonincreasing(-a as int, d as int);
            lemma_div_pos_is_pos(-a as int, d as int);
        }
        -((((-a) as u64) / (d as u64)) as i64)
    }
}

/// Exact integer interpolation between two capped values.
fn lerp_exec(v0: i64, v1: i64, frac: i64, den: i64) -> (r: i64)
    requires
        0 <= frac <= den,
        1 <= den <= 0x8000,
        -RESAMPLE_CAP <= v0 <= RESAMPLE_CAP,
        -RESAMPLE_CAP <= v1 <= RESAMPLE_CAP,
    ensures
        r == lerp(v0 as int, v1 as int, frac as int, den as int),
        -RESAMPLE_CAP <= r <= RESAMPLE_CAP,
{
    proof {
        assert(-0x400_0000i64 * 0x8000 <= v0 * (den - frac) <= 0x400_0000i64 * 0x8000)
            by (nonlinear_arith)
            requires
                -0x400_0000 <= v0 <= 0x400_0000,
                0 <= den - frac <= 0x8000,
        ;
        assert(-0x400_0000i64 * 0x8000 <= v1 * frac <= 0x400_0000i64 * 0x8000) by (nonlinear_arith)
            requires
                -0x400_0000 <= v1 <= 0x400_0000,
                0 <= frac <= 0x8000,
        ;
    }
    let x: i64 = v0 * (den - frac) + v1 * frac;
    let r = div_trunc(x, den);
    proof {
        lemma_lerp_bound(v0 as int, v1 as int, frac as int, den as int, RESAMPLE_CAP as int);
    }
    r
}

/// Base position and weight numerator for output position `x` of one
/// resampled axis, with the base strictly inside the source axis.
fn coord_parts(x: usize, sn: usize, dn: usize) -> (parts: (usize, usize))
    requires
        1 <= sn <= MAX_MASK_DIM,
        1 <= dn <= MAX_MASK_DIM,
        x < dn,
    ensures
        parts.0 == coord_base(x as int, sn as int, dn as int),
        parts.1 == coord_frac(x as int, sn as int, dn as int),
        parts.0 < sn,
        parts.1 <= 2 * dn,
{
    proof {
        assert((2 * x as int + 1) * sn as int <= 0x8000 * 0x4000) by (nonlinear_arith)
            requires
                (x as int) < dn as int,
                dn as int <= 0x4000,
                sn as int <= 0x4000,
        ;
        assert((2 * x as int + 1) * sn as int >= 0) by (nonlinear_arith)
            requires
                x as int >= 0,
                sn as int >= 1,
        ;
    }
    let num: i64 = (2 * x as i64 + 1) * sn as i64 - dn as i64;
    if num <= 0 {
        (0, 0)
    } else {
        let den: u64 = 2 * dn as u64;
        let b = ((num as u64) / den) as usize;
        let f = ((num as u64) % den) as usize;
        proof {
            assert(num < (2 * dn as int) * (sn as int)) by (nonlinear_arith)
                requires
                    num == (2 * x as int + 1) * sn as int - dn as int,
                    (x as int) < dn as int,
                    sn as int >= 1,
                    dn as int >= 1,
            ;
            lemma_multiply_divide_lt(num as int, 2 * dn as int, sn as int);
            lemma_mod_division_less_than_divisor(num as int, 2 * dn as int);
            lemma_div_pos_is_pos(num as int, 2 * dn as int);
            lemma_mod_bound(num as int, 2 * dn as int);
        }
        (b, f)
    }
}

/// Channel `c` of output pixel `(row, x)` of a horizontal resample from
/// `sw` to `dw` columns: the interpolation of the two horizontally
/// nearest source samples of the same row and channel.
pub open spec fn hsample(src: Seq<i64>, sw: int, dw: int, row: int, x: int, c: int) -> int {
    let i0 = coord_base(x, sw, dw);
    let i1 = if i0 + 1 < sw {
        i0 + 1
    } else {
        sw - 1
    };
    lerp(
        src[(row * sw + i0) * 4 + c] as int,
        src[(row * sw + i1) * 4 + c] as int,
        coord_frac(x, sw, dw),
        2 * dw,
    )
}

/// The four channels of output pixel `(row, x)` of a horizontal
/// resample.
pub open spec fn hpixel_ok(
    src: Seq<i64>,
    out: Seq<i64>,
    sw: int,
    dw: int,
    row: int,
    x: int,
) -> bool {
    &&& out[(row * dw + x) * 4] == hsample(src, sw, dw, row, x, 0)
    &&& out[(row * dw + x) * 4 + 1] == hsample(src, sw, dw, row, x, 1)
    &&& out[(row * dw + x) * 4 + 2] == hsample(src, sw, dw, row, x, 2)
    &&& out[(row * dw + x) * 4 + 3] == hsample(src, sw, dw, row, x, 3)
}

/// Resample every row of an RGBA buffer from `sw` to `dw` columns with
/// the half-pixel-centre bilinear filter.
pub fn resample_rows(src: &Vec<i64>, sw: usize, sh: usize, dw: usize) -> (out: Vec<i64>)
    requires
        1 <= sw <= MAX_MASK_DIM,
        1 <= sh <= MAX_MASK_DIM,
        1 <= dw <= MAX_MASK_DIM,
        src.len() == sw * sh * 4,
        abs_bounded(src@, RESAMPLE_CAP as int),
    ensures
        out.len() == dw * sh * 4,
        abs_bounded(out@, RESAMPLE_CAP as int),
        forall|row: int, x: int|
            0 <= row < sh && 0 <= x < dw ==> #[trigger] hpixel_ok(
                src@,
                out@,
                sw as int,
                dw as int,
                row,
                x,
            ),
{
    let ghost s = src@;
    let mut out: Vec<i64> = Vec::new();
    let mut row: usize = 0;
    while row < sh
        invariant
            row <= sh,
            1 <= sw <= MAX_MASK_DIM,
            1 <= sh <= MAX_MASK_DIM,
            1 <= dw <= MAX_MASK_DIM,
            src.len() == sw * sh * 4,
            abs_bounded(src@, RESAMPLE_CAP as int),
            s == src@,
            out.len() == row * dw * 4,
            abs_bounded(out@, RESAMPLE_CAP as int),
            forall|rr: int, xx: int|
                0 <= rr < row && 0 <= xx < dw ==> #[trigger] hpixel_ok(
                    s,
                    out@,
                    sw as int,
                    dw as int,
                    rr,
                    xx,
                ),
        decreases sh - row,
    {
        let mut x: usize = 0;
        proof {
            assert(row * dw * 4 + dw * 4 <= 0x4000 * 0x4000 * 4) by (nonlinear_arith)
                requires
                    row < sh <= 0x4000,
                    dw <= 0x4000,
            ;
        }
        while x < dw
            invariant
                x <= dw,
                row < sh,
                1 <= sw <= MAX_MASK_DIM,
                1 <= sh <= MAX_MASK_DIM,
                1 <= dw <= MAX_MASK_DIM,
                src.len() == sw * sh * 4,
                abs_bounded(src@, RESAMPLE_CAP as int),
                s == src@,
                out.len() == row * dw * 4 + x * 4,
                row * dw * 4 + dw * 4 <= 0x4000 * 0x4000 * 4,
                abs_bounded(out@, RESAMPLE_CAP as int),
                forall|rr: int, xx: int|
                    0 <= rr < row && 0 <= xx < dw ==> #[trigger] hpixel_ok(
                        s,
                        out@,
                        sw as int,
                        dw as int,
                        rr,
                        xx,
                    ),
                forall|xx: int|
                    0 <= xx < x ==> #[trigger] hpixel_ok(
                        s,
                        out@,
                        sw as int,
                        dw as int,
                        row as int,
                        xx,
                    ),
            decreases dw - x,
        {
            let parts = coord_parts(x, sw, dw);
            let i0: usize = parts.0;
            let f: usize = parts.1;
            let i1: usize = if i0 + 1 < sw {
                i0 + 1
            } else {
                sw - 1
            };
            proof {
                assert((row * sw + i0) * 4 + 3 < sw * sh * 4 && (row * sw + i1) * 4 + 3 < sw * sh
                    * 4 && (row * sw + i0) >= 0 && (row * sw + i1) >= 0) by (nonlinear_arith)
                    requires
                        row < sh,
                        i0 < sw,
                        i1 < sw,
                        0 <= i0,
                        0 <= i1,
                        1 <= sw,
                        1 <= sh,
                ;
            }
            let base0: usize = (row * sw + i0) * 4;
            let base1: usize = (row * sw + i1) * 4;
            let ghost out_before = out@;
            let v0 = lerp_exec(src[base0], src[base1], f as i64, 2 * dw as i64);
            out.push(v0);
            let v1 = lerp_exec(src[base0 + 1], src[base1 + 1], f as i64, 2 * dw as i64);
            out.push(v1);
            let v2 = lerp_exec(src[base0 + 2], src[base1 + 2], f as i64, 2 * dw as i64);
            out.push(v2);
            let v3 = lerp_exec(src[base0 + 3], src[base1 + 3], f as i64, 2 * dw as i64);
            out.push(v3);
            proof {
                assert((row as int * dw as int + x as int) * 4 == row as int * dw as int * 4 + x as int
                    * 4) by (nonlinear_arith);
                assert(hpixel_ok(s, out@, sw as int, dw as int, row as int, x as int));
                assert forall|rr: int, xx: int|
                    0 <= rr < row as int && 0 <= xx < dw as int implies #[trigger] hpixel_ok(
                    s,
                    out@,
                    sw as int,
                    dw as int,
                    rr,
                    xx,
                ) by {
                    assert(hpixel_ok(s, out_before, sw as int, dw as int, rr, xx));
                    assert((rr * dw as int + xx) * 4 + 3 < out_before.len()) by (nonlinear_arith)
                        requires
                            0 <= rr < row as int,
                            0 <= xx < dw as int,
                            out_before.len() == row as int * dw as int * 4 + x as int * 4,
                            0 <= x as int,
                    ;
                }
                assert forall|xx: int| 0 <= xx < x as int + 1 implies #[trigger] hpixel_ok(
                    s,
                    out@,
                    sw as int,
                    dw as int,
                    row as int,
                    xx,
                ) by {
                    if xx < x as int {
                        assert(hpixel_ok(s, out_before, sw as int, dw as int, row as int, xx));
                        assert((row as int * dw as int + xx) * 4 + 3 < out_before.len())
                            by (nonlinear_arith)
                            requires
                                0 <= xx < x as int,
                                out_before.len() == row as int * dw as int * 4 + x as int * 4,
                                0 <= row as int,
                                0 <= dw as int,
                        ;
                    }
                }
            }
            x = x + 1;
        }
        proof {
            assert(row as int * (dw as int) * 4 + dw as int * 4 == (row as int + 1) * (dw as int)
                * 4) by (nonlinear_arith);
        }
        row = row + 1;
    }
    proof {
        assert(out.len() == sh * dw * 4);
        assert(sh as int * (dw as int) * 4 == dw as int * (sh as int) * 4) by (nonlinear_arith);
    }
    out
}

/// Channel `c` of output pixel `(y, x)` of a vertical resample from `sh`
/// to `dh` rows of width `w`: the interpolation of the two vertically
/// nearest source samples of the same column and channel.
pub open spec fn vsample(src: Seq<i64>, w: int, sh: int, dh: int, y: int, x: int, c: int) -> int {
    let j0 = coord_base(y, sh, dh);
    let j1 = if j0 + 1 < sh {
        j0 + 1
    } else {
        sh - 1
    };
    lerp(
        src[(j0 * w + x) * 4 + c] as int,
        src[(j1 * w + x) * 4 + c] as int,
        coord_frac(y, sh, dh),
        2 * dh,
    )
}

/// The four channels of output pixel `(y, x)` of a vertical resample.
pub open spec fn vpixel_ok(src: Seq<i64>, out: Seq<i64>, w: int, sh: int, dh: int, y: int, x: int) -> bool {
    &&& out[(y * w + x) * 4] == vsample(src, w, sh, dh, y, x, 0)
    &&& out[(y * w + x) * 4 + 1] == vsample(src, w, sh, dh, y, x, 1)
    &&& out[(y * w + x) * 4 + 2] == vsample(src, w, sh, dh, y, x, 2)
    &&& out[(y * w + x) * 4 + 3] == vsample(src, w, sh, dh, y, x, 3)
}

/// Resample every column of an RGBA buffer from `sh` to `dh` rows with
/// the half-pixel-centre bilinear filter.
pub fn resample_cols(src: &Vec<i64>, w: usize, sh: usize, dh: usize) -> (out: Vec<i64>)
    requires
        1 <= w <= MAX_MASK_DIM,
        1 <= sh <= MAX_MASK_DIM,
        1 <= dh <= MAX_MASK_DIM,
        src.len() == w * sh * 4,
        abs_bounded(src@, RESAMPLE_CAP as int),
    ensures
        out.len() == w * dh * 4,
        abs_bounded(out@, RESAMPLE_CAP as int),
        forall|y: int, x: int|
            0 <= y < dh && 0 <= x < w ==> #[trigger] vpixel_ok(
                src@,
                out@,
                w as int,
                sh as int,
                dh as int,
                y,
                x,
            ),
{
    let ghost s = src@;
    let mut out: Vec<i64> = Vec::new();
    let mut y: usize = 0;
    while y < dh
        invariant
            y <= dh,
            1 <= w <= MAX_MASK_DIM,
            1 <= sh <= MAX_MASK_DIM,
            1 <= dh <= MAX_MASK_DIM,
            src.len() == w * sh * 4,
            abs_bounded(src@, RESAMPLE_CAP as int),
            s == src@,
            out.len() == y * w * 4,
            abs_bounded(out@, RESAMPLE_CAP as int),
            forall|yy: int, xx: int|
                0 <= yy < y && 0 <= xx < w ==> #[trigger] vpixel_ok(
                    s,
                    out@,
                    w as int,
                    sh as int,
                    dh as int,
                    yy,
                    xx,
                ),
        decreases dh - y,
    {
        let parts = coord_parts(y, sh, dh);
        let j0: usize = parts.0;
        let f: usize = parts.1;
        let j1: usize = if j0 + 1 < sh {
            j0 + 1
        } else {
            sh - 1
        };
        let mut x: usize = 0;
        proof {
            assert(y * w * 4 + w * 4 <= 0x4000 * 0x4000 * 4) by (nonlinear_arith)
                requires
                    y < dh <= 0x4000,
                    w <= 0x4000,
            ;
        }
        while x < w
            invariant
                x <= w,
                y < dh,
                1 <= w <= MAX_MASK_DIM,
                1 <= sh <= MAX_MASK_DIM,
                1 <= dh <= MAX_MASK_DIM,
                src.len() == w * sh * 4,
                abs_bounded(src@, RESAMPLE_CAP as int),
                s == src@,
                j0 == coord_base(y as int, sh as int, dh as int),
                f == coord_frac(y as int, sh as int, dh as int),
                j0 < sh,
                f <= 2 * dh,
                j1 == (if j0 + 1 < sh as int {
                    j0 + 1
                } else {
                    sh as int - 1
                }),
                out.len() == y * w * 4 + x * 4,
                y * w * 4 + w * 4 <= 0x4000 * 0x4000 * 4,
                abs_bounded(out@, RESAMPLE_CAP as int),
                forall|yy: int, xx: int|
                    0 <= yy < y && 0 <= xx < w ==> #[trigger] vpixel_ok(
                        s,
                        out@,
                        w as int,
                        sh as int,
                        dh as int,
                        yy,
                        xx,
                    ),
                forall|xx: int|
                    0 <= xx < x ==> #[trigger] vpixel_ok(
                        s,
                        out@,
                        w as int,
                        sh as int,
                        dh as int,
                        y as int,
                        xx,
                    ),
            decreases w - x,
        {
            proof {
                assert((j0 * w + x) * 4 + 3 < w * sh * 4 && (j1 * w + x) * 4 + 3 < w * sh * 4 && (
                j0 * w + x) >= 0 && (j1 * w + x) >= 0) by (nonlinear_arith)
                    requires
                        j0 < sh,
                        j1 < sh,
                        0 <= j0,
                        0 <= j1,
                        x < w,
                        1 <= w,
                        1 <= sh,
                ;
            }
            let base0: usize = (j0 * w + x) * 4;
            let base1: usize = (j1 * w + x) * 4;
            let ghost out_before = out@;
            let v0 = lerp_exec(src[base0], src[base1], f as i64, 2 * dh as i64);
            out.push(v0);
            let v1 = lerp_exec(src[base0 + 1], src[base1 + 1], f as i64, 2 * dh as i64);
            out.push(v1);
            let v2 = lerp_exec(src[base0 + 2], src[base1 + 2], f as i64, 2 * dh as i64);
            out.push(v2);
            let v3 = lerp_exec(src[base0 + 3], src[base1 + 3], f as i64, 2 * dh as i64);
            out.push(v3);
            proof {
                assert((y as int * w as int + x as int) * 4 == y as int * w as int * 4 + x as int
                    * 4) by (nonlinear_arith);
                assert(vpixel_ok(s, out@, w as int, sh as int, dh as int, y as int, x as int));
                assert forall|yy: int, xx: int|
                    0 <= yy < y as int && 0 <= xx < w as int implies #[trigger] vpixel_ok(
                    s,
                    out@,
                    w as int,
                    sh as int,
                    dh as int,
                    yy,
                    xx,
                ) by {
                    assert(vpixel_ok(s, out_before, w as int, sh as int, dh as int, yy, xx));
                    assert((yy * w as int + xx) * 4 + 3 < out_before.len()) by (nonlinear_arith)
                        requires
                            0 <= yy < y as int,
                            0 <= xx < w as int,
                            out_before.len() == y as int * w as int * 4 + x as int * 4,
                            0 <= x as int,
                    ;
                }
                assert forall|xx: int| 0 <= xx < x as int + 1 implies #[trigger] vpixel_ok(
                    s,
                    out@,
                    w as int,
                    sh as int,
                    dh as int,
                    y as int,
                    xx,
                ) by {
                    if xx < x as int {
                        assert(vpixel_ok(s, out_before, w as int, sh as int, dh as int, y as int, xx));
                        assert((y as int * w as int + xx) * 4 + 3 < out_before.len())
                            by (nonlinear_arith)
                            requires
                                0 <= xx < x as int,
                                out_before.len() == y as int * w as int * 4 + x as int * 4,
                                0 <= y as int,
                                0 <= w as int,
                        ;
                    }
                }
            }
            x = x + 1;
        }
        proof {
            assert(y as int * (w as int) * 4 + w as int * 4 == (y as int + 1) * (w as int) * 4)
                by (nonlinear_arith);
        }
        y = y + 1;
    }
    proof {
        assert(dh as int * (w as int) * 4 == w as int * (dh as int) * 4) by (nonlinear_arith);
    }
    out
}

/// Both coordinate parts stay inside their ranges.
proof fn lemma_coord_range(x: int, sn: int, dn: int)
    requires
        0 <= x < dn,
        1 <= sn,
        1 <= dn,
    ensures
        0 <= coord_base(x, sn, dn) < sn,
        0 <= coord_frac(x, sn, dn) < 2 * dn,
{
    let num = (2 * x + 1) * sn - dn;
    if num > 0 {
        assert(num < (2 * dn) * sn) by (nonlinear_arith)
            requires
                num == (2 * x + 1) * sn - dn,
                x < dn,
                sn >= 1,
                dn >= 1,
        ;
        lemma_multiply_divide_lt(num, 2 * dn, sn);
        lemma_div_pos_is_pos(num, 2 * dn);
        lemma_mod_bound(num, 2 * dn);
    }
}

/// A horizontal resample keeps every colour channel within the bound its
/// sources respect.
proof fn lemma_hresample_colour_bound(
    src: Seq<i64>,
    out: Seq<i64>,
    sw: int,
    sh: int,
    dw: int,
    b: int,
)
    requires
        1 <= sw,
        1 <= sh,
        1 <= dw,
        0 <= b,
        src.len() == sw * sh * 4,
        out.len() == dw * sh * 4,
        forall|p: int| 0 <= p < sw * sh ==> #[trigger] colour_pixel_bounded(src, b, p),
        forall|row: int, x: int|
            0 <= row < sh && 0 <= x < dw ==> #[trigger] hpixel_ok(src, out, sw, dw, row, x),
    ensures
        forall|p: int| 0 <= p < dw * sh ==> #[trigger] colour_pixel_bounded(out, b, p),
{
    assert forall|p: int| 0 <= p < dw * sh implies #[trigger] colour_pixel_bounded(out, b, p) by {
        let row = p / dw;
        let x = p % dw;
        lemma_fundamental_div_mod(p, dw);
        lemma_mod_division_less_than_divisor(p, dw);
        lemma_div_pos_is_pos(p, dw);
        lemma_multiply_divide_lt(p, dw, sh);
        lemma_mul_is_commutative(dw, row);
        assert(row * dw + x == p);
        assert(hpixel_ok(src, out, sw, dw, row, x));
        lemma_coord_range(x, sw, dw);
        let i0 = coord_base(x, sw, dw);
        let i1 = if i0 + 1 < sw {
            i0 + 1
        } else {
            sw - 1
        };
        let f = coord_frac(x, sw, dw);
        assert(0 <= row * sw + i0 < sw * sh && 0 <= row * sw + i1 < sw * sh) by (nonlinear_arith)
            requires
                0 <= row < sh,
                0 <= i0 < sw,
                0 <= i1 < sw,
                1 <= sw,
        ;
        assert(colour_pixel_bounded(src, b, row * sw + i0));
        assert(colour_pixel_bounded(src, b, row * sw + i1));
        lemma_lerp_bound(
            src[(row * sw + i0) * 4] as int,
            src[(row * sw + i1) * 4] as int,
            f,
            2 * dw,
            b,
        );
        lemma_lerp_bound(
            src[(row * sw + i0) * 4 + 1] as int,
            src[(row * sw + i1) * 4 + 1] as int,
            f,
            2 * dw,
            b,
        );
        lemma_lerp_bound(
            src[(row * sw + i0) * 4 + 2] as int,
            src[(row * sw + i1) * 4 + 2] as int,
            f,
            2 * dw,
            b,
        );
    }
}

/// A vertical resample keeps every colour channel within the bound its
/// sources respect.
proof fn lemma_vresample_colour_bound(
    src: Seq<i64>,
    out: Seq<i64>,
    w: int,
    sh: int,
    dh: int,
    b: int,
)
    requires
        1 <= w,
        1 <= sh,
        1 <= dh,
        0 <= b,
        src.len() == w * sh * 4,
        out.len() == w * dh * 4,
        forall|p: int| 0 <= p < w * sh ==> #[trigger] colour_pixel_bounded(src, b, p),
        forall|y: int, x: int|
            0 <= y < dh && 0 <= x < w ==> #[trigger] vpixel_ok(src, out, w, sh, dh, y, x),
    ensures
        forall|p: int| 0 <= p < w * dh ==> #[trigger] colour_pixel_bounded(out, b, p),
{
    assert forall|p: int| 0 <= p < w * dh implies #[trigger] colour_pixel_bounded(out, b, p) by {
        let y = p / w;
        let x = p % w;
        lemma_fundamental_div_mod(p, w);
        lemma_mod_division_less_than_divisor(p, w);
        lemma_div_pos_is_pos(p, w);
        lemma_mul_is_commutative(w, dh);
        lemma_multiply_divide_lt(p, w, dh);
        lemma_mul_is_commutative(w, y);
        assert(y * w + x == p);
        assert(vpixel_ok(src, out, w, sh, dh, y, x));
        lemma_coord_range(y, sh, dh);
        let j0 = coord_base(y, sh, dh);
        let j1 = if j0 + 1 < sh {
            j0 + 1
        } else {
            sh - 1
        };
        let f = coord_frac(y, sh, dh);
        assert(0 <= j0 * w + x < w * sh && 0 <= j1 * w + x < w * sh) by (nonlinear_arith)
            requires
                0 <= j0 < sh,
                0 <= j1 < sh,
                0 <= x < w,
                1 <= w,
        ;
        assert(colour_pixel_bounded(src, b, j0 * w + x));
        assert(colour_pixel_bounded(src, b, j1 * w + x));
        lemma_lerp_bound(src[(j0 * w + x) * 4] as int, src[(j1 * w + x) * 4] as int, f, 2 * dh, b);
        lemma_lerp_bound(
            src[(j0 * w + x) * 4 + 1] as int,
            src[(j1 * w + x) * 4 + 1] as int,
            f,
            2 * dh,
            b,
        );
        lemma_lerp_bound(
            src[(j0 * w + x) * 4 + 2] as int,
            src[(j1 * w + x) * 4 + 2] as int,
            f,
            2 * dh,
            b,
        );
    }
}

/// A noise band's values all fit under the resampler's flat cap, and its
/// colour channels under `4k`.
proof fn lemma_band_bounds(mask: Seq<i64>, k: int, n: int)
    requires
        mask.len() == n * 4,
        0 <= n,
        0 <= k <= 0x100_0000,
        forall|p: int| 0 <= p < n ==> #[trigger] band_pixel_ok(mask, k, p),
    ensures
        abs_bounded(mask, RESAMPLE_CAP as int),
        forall|p: int| 0 <= p < n ==> #[trigger] colour_pixel_bounded(mask, 4 * k, p),
{
    assert forall|i: int| 0 <= i < mask.len() implies -(RESAMPLE_CAP as int) <= #[trigger] mask[i]
        <= RESAMPLE_CAP as int by {
        let p = i / 4;
        let c = i % 4;
        lemma_fundamental_div_mod(i, 4);
        lemma_mod_division_less_than_divisor(i, 4);
        lemma_div_pos_is_pos(i, 4);
        lemma_mul_is_commutative(4, n);
        lemma_multiply_divide_lt(i, 4, n);
        assert(band_pixel_ok(mask, k, p));
        assert(i == 4 * p + c);
    }
    assert forall|p: int| 0 <= p < n implies #[trigger] colour_pixel_bounded(mask, 4 * k, p) by {
        assert(band_pixel_ok(mask, k, p));
    }
}

/// A buffer of `n` zeroes.
fn zero_vec(n: usize) -> (v: Vec<i64>)
    ensures
        v.len() == n,
        forall|i: int| 0 <= i < n ==> v@[i] == 0,
{
    let mut v: Vec<i64> = Vec::new();
    let mut i: usize = 0;
    while i < n
        invariant
            i <= n,
            v.len() == i,
            forall|j: int| 0 <= j < i ==> v@[j] == 0,
        decreases n - i,
    {
        v.push(0);
        i = i + 1;
    }
    v
}

/// Pixel `p` after the bands are summed: each colour channel the sum of
/// the three bands' channels, the alpha set to full opacity.
pub open spec fn sum_pixel_ok(
    acc0: Seq<i64>,
    med: Seq<i64>,
    large: Seq<i64>,
    acc: Seq<i64>,
    p: int,
) -> bool {
    &&& acc[4 * p] == acc0[4 * p] + med[4 * p] + large[4 * p]
    &&& acc[4 * p + 1] == acc0[4 * p + 1] + med[4 * p + 1] + large[4 * p + 1]
    &&& acc[4 * p + 2] == acc0[4 * p + 2] + med[4 * p + 2] + large[4 * p + 2]
    &&& acc[4 * p + 3] == 65536
}

/// Sum the medium and large bands into the accumulator, pixel by pixel,
/// and pin every alpha at full opacity.
fn add_bands(acc: &mut Vec<i64>, med: &Vec<i64>, large: &Vec<i64>)
    requires
        old(acc).len() % 4 == 0,
        med.len() == old(acc).len(),
        large.len() == old(acc).len(),
        abs_bounded(old(acc)@, RESAMPLE_CAP as int),
        abs_bounded(med@, RESAMPLE_CAP as int),
        abs_bounded(large@, RESAMPLE_CAP as int),
    ensures
        final(acc).len() == old(acc).len(),
        forall|p: int|
            0 <= p < old(acc).len() / 4 ==> #[trigger] sum_pixel_ok(
                old(acc)@,
                med@,
                large@,
                final(acc)@,
                p,
            ),
{
    let pixels: usize = acc.len() / 4;
    let mut p: usize = 0;
    while p < pixels
        invariant
            p <= pixels,
            pixels == old(acc).len() / 4,
            old(acc).len() % 4 == 0,
            acc.len() == old(acc).len(),
            med.len() == old(acc).len(),
            large.len() == old(acc).len(),
            abs_bounded(old(acc)@, RESAMPLE_CAP as int),
            abs_bounded(med@, RESAMPLE_CAP as int),
            abs_bounded(large@, RESAMPLE_CAP as int),
            forall|i: int|
                0 <= i < p ==> #[trigger] sum_pixel_ok(old(acc)@, med@, large@, acc@, i),
            forall|k: int| 4 * p <= k < old(acc).len() ==> acc@[k] == old(acc)@[k],
        decreases pixels - p,
    {
        let ghost acc_before = acc@;
        let r: i64 = acc[4 * p] + med[4 * p] + large[4 * p];
        let g: i64 = acc[4 * p + 1] + med[4 * p + 1] + large[4 * p + 1];
        let b: i64 = acc[4 * p + 2] + med[4 * p + 2] + large[4 * p + 2];
        acc[4 * p] = r;
        acc[4 * p + 1] = g;
        acc[4 * p + 2] = b;
        acc[4 * p + 3] = 65536;
        proof {
            assert(sum_pixel_ok(old(acc)@, med@, large@, acc@, p as int));
            assert forall|i: int|
                0 <= i < p as int implies #[trigger] sum_pixel_ok(
                old(acc)@,
                med@,
                large@,
                acc@,
                i,
            ) by {
                assert(sum_pixel_ok(old(acc)@, med@, large@, acc_before, i));
            }
        }
        p = p + 1;
    }
}

/// The largest magnitude one band can contribute to a channel; a band
/// whose intensity is not positive contributes exactly zero.
pub open spec fn noise_bound(iq: int) -> int {
    if iq > 0 {
        4 * band_factor(iq)
    } else {
        0
    }
}

proof fn lemma_noise_bound_nonneg(iq: int)
    ensures
        noise_bound(iq) >= 0,
{
    if iq > 0 {
        lemma_div_pos_is_pos(crate::fixed::sqrt_floor((3 * iq * 65536) as nat) as int, 2);
    }
}

/// Pixel `p` of a finished noise mask: full-opacity alpha, and each
/// colour channel within the sum of the three bands' bounds.
pub open spec fn noise_mask_pixel_ok(mask: Seq<i64>, fq: int, mq: int, lq: int, p: int) -> bool {
    let b = noise_bound(fq) + noise_bound(mq) + noise_bound(lq);
    &&& -b <= mask[4 * p] <= b
    &&& -b <= mask[4 * p + 1] <= b
    &&& -b <= mask[4 * p + 2] <= b
    &&& mask[4 * p + 3] == 65536
}

/// One band, generated at `1/factor` of the mask's resolution and
/// brought up to full size by the separable bilinear resample.
fn gen_upsampled_band(
    rng: &mut rand::rngs::ThreadRng,
    width: usize,
    height: usize,
    iq: i64,
    factor: usize,
) -> (out: Vec<i64>)
    requires
        1 <= width <= MAX_MASK_DIM,
        1 <= height <= MAX_MASK_DIM,
        1 <= iq <= MAX_INTENSITY_Q,
        1 <= factor <= 4,
    ensures
        out.len() == width * height * 4,
        abs_bounded(out@, RESAMPLE_CAP as int),
        forall|p: int|
            0 <= p < width * height ==> #[trigger] colour_pixel_bounded(
                out@,
                4 * band_factor(iq as int),
                p,
            ),
{
    let sw: usize = if width / factor == 0 {
        1
    } else {
        width / factor
    };
    let sh: usize = if height / factor == 0 {
        1
    } else {
        height / factor
    };
    proof {
        lemma_div_nonincreasing(width as int, factor as int);
        lemma_div_nonincreasing(height as int, factor as int);
    }
    let band = gen_noise_mask(rng, sw, sh, iq);
    let ghost k = band_factor(iq as int);
    proof {
        lemma_band_factor_range(iq as int);
        lemma_band_bounds(band@, k, sw as int * sh as int);
        assert(band.len() == (sw as int * sh as int) * 4) by (nonlinear_arith)
            requires
                band.len() == sw as int * sh as int * 4,
        ;
    }
    let mid = resample_rows(&band, sw, sh, width);
    proof {
        lemma_hresample_colour_bound(
            band@,
            mid@,
            sw as int,
            sh as int,
            width as int,
            4 * k,
        );
    }
    let out = resample_cols(&mid, width, sh, height);
    proof {
        lemma_vresample_colour_bound(
            mid@,
            out@,
            width as int,
            sh as int,
            height as int,
            4 * k,
        );
        assert(out.len() == width * height * 4) by (nonlinear_arith)
            requires
                out.len() == width as int * height as int * 4,
        ;
    }
    out
}

/// Build the additive grain mask for a `width x height` image: up to
/// three noise bands — full, half and quarter resolution, the coarser
/// two smoothly upsampled — summed per channel, with the alpha fixed at
/// full opacity. A band whose intensity is not positive is skipped
/// entirely and contributes exactly zero; when no band is active the
/// whole mask is zero.
pub fn get_noise_mask(
    width: usize,
    height: usize,
    fine_q: i64,
    medium_q: i64,
    large_q: i64,
) -> (mask: Vec<i64>)
    requires
        width <= MAX_MASK_DIM,
        height <= MAX_MASK_DIM,
        fine_q <= MAX_INTENSITY_Q,
        medium_q <= MAX_INTENSITY_Q,
        large_q <= MAX_INTENSITY_Q,
    ensures
        mask.len() == width * height * 4,
        fine_q <= 0 && medium_q <= 0 && large_q <= 0 ==> forall|i: int|
            0 <= i < mask@.len() ==> mask@[i] == 0,
        width >= 1 && height >= 1 && (fine_q > 0 || medium_q > 0 || large_q > 0) ==> forall|p: int|
            0 <= p < width * height ==> #[trigger] noise_mask_pixel_ok(
                mask@,
                fine_q as int,
                medium_q as int,
                large_q as int,
                p,
            ),
{
    proof {
        assert(width * height <= 0x1000_0000) by (nonlinear_arith)
            requires
                width <= 0x4000,
                height <= 0x4000,
        ;
        lemma_noise_bound_nonneg(fine_q as int);
        lemma_noise_bound_nonneg(medium_q as int);
        lemma_noise_bound_nonneg(large_q as int);
    }
    if width == 0 || height == 0 {
        let empty: Vec<i64> = Vec::new();
        return empty;
    }
    let pixels: usize = width * height;
    if fine_q <= 0 && medium_q <= 0 && large_q <= 0 {
        return zero_vec(pixels * 4);
    }
    let mut rng = fresh_rng();
    let ghost fb = noise_bound(fine_q as int);
    let ghost mb = noise_bound(medium_q as int);
    let ghost lb = noise_bound(large_q as int);
    let mut acc: Vec<i64> = if fine_q > 0 {
        gen_noise_mask(&mut rng, width, height, fine_q)
    } else {
        zero_vec(pixels * 4)
    };
    proof {
        if fine_q > 0 {
            lemma_band_factor_range(fine_q as int);
            lemma_band_bounds(acc@, band_factor(fine_q as int), pixels as int);
        } else {
            assert(acc@.len() == pixels as int * 4) by (nonlinear_arith)
                requires
                    acc@.len() == 4 * pixels as int,
            ;
            assert forall|i: int|
                0 <= i < acc@.len() implies -(RESAMPLE_CAP as int) <= #[trigger] acc@[i]
                <= RESAMPLE_CAP as int by {}
            assert forall|p: int|
                0 <= p < pixels as int implies #[trigger] colour_pixel_bounded(acc@, fb, p) by {
                assert(acc@[4 * p] == 0 && acc@[4 * p + 1] == 0 && acc@[4 * p + 2] == 0);
            }
        }
    }
    if medium_q > 0 || large_q > 0 {
        let ghost acc0 = acc@;
        let med: Vec<i64> = if medium_q > 0 {
            gen_upsampled_band(&mut rng, width, height, medium_q, 2)
        } else {
            zero_vec(pixels * 4)
        };
        let lg: Vec<i64> = if large_q > 0 {
            gen_upsampled_band(&mut rng, width, height, large_q, 4)
        } else {
            zero_vec(pixels * 4)
        };
        proof {
            if medium_q <= 0 {
                assert forall|i: int|
                    0 <= i < med@.len() implies -(RESAMPLE_CAP as int) <= #[trigger] med@[i]
                    <= RESAMPLE_CAP as int by {}
            }
            if large_q <= 0 {
                assert forall|i: int|
                    0 <= i < lg@.len() implies -(RESAMPLE_CAP as int) <= #[trigger] lg@[i]
                    <= RESAMPLE_CAP as int by {}
            }
        }
        add_bands(&mut acc, &med, &lg);
        proof {
            assert forall|p: int|
                0 <= p < width * height implies #[trigger] noise_mask_pixel_ok(
                acc@,
                fine_q as int,
                medium_q as int,
                large_q as int,
                p,
            ) by {
                assert(sum_pixel_ok(acc0, med@, lg@, acc@, p));
                assert(colour_pixel_bounded(acc0, fb, p));
                if medium_q > 0 {
                    assert(colour_pixel_bounded(med@, mb, p));
                } else {
                    assert(med@[4 * p] == 0 && med@[4 * p + 1] == 0 && med@[4 * p + 2] == 0);
                }
                if large_q > 0 {
                    assert(colour_pixel_bounded(lg@, lb, p));
                } else {
                    assert(lg@[4 * p] == 0 && lg@[4 * p + 1] == 0 && lg@[4 * p + 2] == 0);
                }
            }
        }
    } else {
        proof {
            assert forall|p: int|
                0 <= p < width * height implies #[trigger] noise_mask_pixel_ok(
                acc@,
                fine_q as int,
                medium_q as int,
                large_q as int,
                p,
            ) by {
                assert(band_pixel_ok(acc@, band_factor(fine_q as int), p));
            }
        }
    }
    acc
}

} // verus!
