//! Separable box blur with border replication, and a Gaussian blur
//! approximated by three successive box blurs, the classic
//! fast-Gaussian-by-boxes construction.
//!
//! A pass works on "lines": a horizontal pass treats each row of a
//! row-major `width x height` buffer as a line, a vertical pass each
//! column. A line is addressed by a start index and a stride, so one
//! verified kernel serves both passes. Within one line the kernel keeps a
//! sliding window sum of the `2 * radius + 1` samples around each position,
//! replicating the first and last sample beyond the borders, and writes
//! `round(sum / (2 * radius + 1))` — rounding, exactly, by adding `radius`
//! before the flooring division.

use vstd::arithmetic::div_mod::*;
use vstd::arithmetic::mul::*;
use vstd::prelude::*;

verus! {

/// Widths, heights and line lengths are capped so that every index and
/// window sum fits comfortably in the machine integers used below.
pub const MAX_DIM: usize = 0x1000_0000;

/// Largest box radius a single pass accepts.
pub const MAX_RADIUS: usize = 0x10_0000;

/// Index of element `t` of the line that starts at `start` and advances by
/// `stride`.
pub open spec fn line_idx(start: int, stride: int, t: int) -> int {
    start + t * stride
}

/// Sample `j` of a line of `count` samples, with the border replicated:
/// positions left of the line read its first sample, positions right of it
/// read its last.
pub open spec fn clamped_sample(s: Seq<u8>, start: int, stride: int, count: int, j: int) -> u8 {
    if j < 0 {
        s[line_idx(start, stride, 0)]
    } else if j >= count {
        s[line_idx(start, stride, count - 1)]
    } else {
        s[line_idx(start, stride, j)]
    }
}

/// Sum of the `n` border-replicated samples at positions `j .. j + n`.
pub open spec fn run_sum(s: Seq<u8>, start: int, stride: int, count: int, j: int, n: nat) -> int
    decreases n,
{
    if n == 0 {
        0
    } else {
        clamped_sample(s, start, stride, count, j) + run_sum(
            s,
            start,
            stride,
            count,
            j + 1,
            (n - 1) as nat,
        )
    }
}

/// The box-filter window sum of radius `r` centred on position `c`.
pub open spec fn window_sum(s: Seq<u8>, start: int, stride: int, count: int, c: int, r: int) -> int {
    run_sum(s, start, stride, count, c - r, (2 * r + 1) as nat)
}

/// One blurred sample: the window sum averaged over the window width, with
/// the quotient rounded to the nearest integer. `window + r` before the
/// flooring division rounds exactly, because a window of odd width never
/// averages to an exact half.
pub open spec fn box_out(s: Seq<u8>, start: int, stride: int, count: int, c: int, r: int) -> u8 {
    ((window_sum(s, start, stride, count, c, r) + r) / (2 * r + 1)) as u8
}

/// Whether buffer index `k` lies on the given line.
pub open spec fn on_line(k: int, start: int, stride: int, count: int) -> bool {
    start <= k && (k - start) % stride == 0 && (k - start) / stride < count
}

proof fn lemma_run_sum_snoc(s: Seq<u8>, start: int, stride: int, count: int, j: int, n: nat)
    ensures
        run_sum(s, start, stride, count, j, n + 1) == run_sum(s, start, stride, count, j, n)
            + clamped_sample(s, start, stride, count, j + n),
    decreases n,
{
    if n == 0 {
        assert(run_sum(s, start, stride, count, j + 1, 0) == 0);
    } else {
        lemma_run_sum_snoc(s, start, stride, count, j + 1, (n - 1) as nat);
    }
}

proof fn lemma_run_sum_bounds(s: Seq<u8>, start: int, stride: int, count: int, j: int, n: nat)
    ensures
        0 <= run_sum(s, start, stride, count, j, n) <= 255 * n,
    decreases n,
{
    if n > 0 {
        lemma_run_sum_bounds(s, start, stride, count, j + 1, (n - 1) as nat);
    }
}

/// A run that ends at position 0 or earlier reads the replicated first
/// sample throughout.
proof fn lemma_run_sum_all_first(s: Seq<u8>, start: int, stride: int, count: int, j: int, n: nat)
    requires
        j + n <= 1,
        count >= 1,
    ensures
        run_sum(s, start, stride, count, j, n) == n * clamped_sample(s, start, stride, count, 0),
    decreases n,
{
    let f = clamped_sample(s, start, stride, count, 0);
    if n == 0 {
        assert(0nat * f == 0) by (nonlinear_arith);
    } else {
        lemma_run_sum_all_first(s, start, stride, count, j + 1, (n - 1) as nat);
        assert(clamped_sample(s, start, stride, count, j) == f);
        assert(f + (n - 1) * f == n * f) by (nonlinear_arith);
    }
}

/// Element `t` of a line lies inside the buffer.
proof fn lemma_line_idx_bounds(start: int, stride: int, count: int, len: int, t: int)
    requires
        1 <= stride,
        0 <= t < count,
        0 <= start,
        start + (count - 1) * stride < len,
    ensures
        0 <= line_idx(start, stride, t) < len,
{
    lemma_mul_inequality(t, count - 1, stride);
    lemma_mul_nonnegative(t, stride);
}

/// `line_idx(t)` is on the line, and position recovery by division is exact.
proof fn lemma_on_line_idx(start: int, stride: int, count: int, t: int)
    requires
        1 <= stride,
        0 <= t < count,
    ensures
        on_line(line_idx(start, stride, t), start, stride, count),
        (line_idx(start, stride, t) - start) / stride == t,
{
    lemma_fundamental_div_mod_converse(t * stride, stride, t, 0);
}

/// Every buffer index on the line is `line_idx` of a unique position.
proof fn lemma_on_line_inverse(k: int, start: int, stride: int, count: int)
    requires
        1 <= stride,
        on_line(k, start, stride, count),
    ensures
        0 <= (k - start) / stride < count,
        k == line_idx(start, stride, (k - start) / stride),
{
    lemma_fundamental_div_mod(k - start, stride);
    lemma_div_pos_is_pos(k - start, stride);
    lemma_mul_is_commutative(stride, (k - start) / stride);
}

/// Rounded average of a window sum: `(sum + r) / (2r + 1)`, shown to fit
/// in a byte whenever the sum is a sum of at most `2r + 1` bytes.
fn round_div_box(sum: u64, radius: u64) -> (v: u8)
    requires
        radius <= MAX_RADIUS,
        sum <= 255 * (2 * radius + 1),
    ensures
        v == ((sum + radius) / (2 * radius + 1)) as u8,
        v == (sum + radius) as int / (2 * radius + 1) as int,
{
    let den: u64 = 2 * radius + 1;
    proof {
        lemma_div_is_ordered((sum + radius) as int, (255 * (2 * radius + 1) + radius) as int, den as int);
        lemma_fundamental_div_mod_converse(
            (255 * (2 * radius + 1) + radius) as int,
            den as int,
            255,
            radius as int,
        );
        lemma_div_pos_is_pos((sum + radius) as int, den as int);
    }
    ((sum + radius) / den) as u8
}

/// Read the border-replicated sample at position `p` (already clamped into
/// `0 .. count`) of a line.
fn line_sample(input: &Vec<u8>, start: usize, stride: usize, count: usize, p: usize) -> (v: u8)
    requires
        1 <= stride,
        1 <= count,
        p < count,
        start + (count - 1) * stride < input.len(),
    ensures
        v == input@[line_idx(start as int, stride as int, p as int)],
{
    proof {
        lemma_line_idx_bounds(start as int, stride as int, count as int, input.len() as int, p as int);
        lemma_mul_inequality(p as int, count as int - 1, stride as int);
        lemma_mul_nonnegative(p as int, stride as int);
    }
    input[start + p * stride]
}

/// Blur one line of `count` samples in place of the same line of `out`,
/// leaving every other index of `out` untouched.
fn blur_line(input: &Vec<u8>, out: &mut Vec<u8>, start: usize, stride: usize, count: usize, radius: usize)
    requires
        old(out).len() == input.len(),
        1 <= stride,
        1 <= count <= MAX_DIM,
        radius <= MAX_RADIUS,
        start + (count - 1) * stride < input.len(),
    ensures
        final(out).len() == input.len(),
        forall|t: int|
            0 <= t < count ==> final(out)@[line_idx(start as int, stride as int, t)] == box_out(
                input@,
                start as int,
                stride as int,
                count as int,
                t,
                radius as int,
            ),
        forall|k: int|
            0 <= k < input.len() && !on_line(k, start as int, stride as int, count as int)
                ==> final(out)@[k] == old(out)@[k],
{
    let ghost s = input@;
    let ghost gstart = start as int;
    let ghost gstride = stride as int;
    let ghost gcount = count as int;
    let ghost r = radius as int;

    // Window sum centred on position 0: `radius + 1` copies of the first
    // sample, then the samples at positions 1 ..= radius.
    let first: u8 = line_sample(input, start, stride, count, 0);
    let rp: u64 = radius as u64 + 1;
    proof {
        assert(first as u64 * rp <= 255 * rp) by (nonlinear_arith)
            requires
                first <= 255,
                rp >= 1,
        ;
    }
    let mut sum: u64 = first as u64 * rp;
    proof {
        lemma_run_sum_all_first(s, gstart, gstride, gcount, -r, (r + 1) as nat);
        assert((r + 1) * clamped_sample(s, gstart, gstride, gcount, 0) == sum) by (nonlinear_arith)
            requires
                sum == first * (r + 1),
                clamped_sample(s, gstart, gstride, gcount, 0) == first,
                r >= 0,
        ;
    }
    let mut j: usize = 1;
    while j <= radius
        invariant
            1 <= j <= radius + 1,
            radius <= MAX_RADIUS,
            1 <= count <= MAX_DIM,
            1 <= stride,
            start + (count - 1) * stride < input.len(),
            s == input@,
            gstart == start as int,
            gstride == stride as int,
            gcount == count as int,
            r == radius as int,
            sum == run_sum(s, gstart, gstride, gcount, -r, (r + j) as nat),
            sum <= 255 * (r + j),
        decreases radius + 1 - j,
    {
        let p: usize = if j >= count {
            count - 1
        } else {
            j
        };
        let v = line_sample(input, start, stride, count, p);
        proof {
            assert(clamped_sample(s, gstart, gstride, gcount, j as int) == v);
            lemma_run_sum_snoc(s, gstart, gstride, gcount, -r, (r + j) as nat);
            assert(-r + (r + j) == j as int);
        }
        sum = sum + v as u64;
        j = j + 1;
    }
    assert(sum == window_sum(s, gstart, gstride, gcount, 0, r));

    let mut c: usize = 0;
    while c < count
        invariant
            0 <= c <= count,
            radius <= MAX_RADIUS,
            1 <= count <= MAX_DIM,
            1 <= stride,
            start + (count - 1) * stride < input.len(),
            out.len() == input.len(),
            s == input@,
            gstart == start as int,
            gstride == stride as int,
            gcount == count as int,
            r == radius as int,
            c < count ==> sum == window_sum(s, gstart, gstride, gcount, c as int, r),
            forall|t: int|
                0 <= t < c ==> out@[line_idx(gstart, gstride, t)] == box_out(
                    s,
                    gstart,
                    gstride,
                    gcount,
                    t,
                    r,
                ),
            forall|k: int|
                0 <= k < input.len() && !on_line(k, gstart, gstride, c as int) ==> out@[k] == old(
                    out,
                )@[k],
        decreases count - c,
    {
        proof {
            lemma_run_sum_bounds(s, gstart, gstride, gcount, c - r, (2 * r + 1) as nat);
        }
        let v = round_div_box(sum, radius as u64);
        proof {
            lemma_line_idx_bounds(gstart, gstride, gcount, input.len() as int, c as int);
            lemma_mul_inequality(c as int, gcount - 1, gstride);
            lemma_mul_nonnegative(c as int, gstride);
        }
        let idx: usize = start + c * stride;
        let ghost out_before = out@;
        out[idx] = v;
        proof {
            assert(out@ == out_before.update(idx as int, v));
            assert(out@[line_idx(gstart, gstride, c as int)] == box_out(s, gstart, gstride, gcount, c as int, r));
            lemma_on_line_idx(gstart, gstride, c as int + 1, c as int);
            assert forall|k: int|
                0 <= k < input.len() && !on_line(k, gstart, gstride, c as int + 1) implies out@[k]
                == old(out)@[k] by {
                if k == idx as int {
                    assert(on_line(k, gstart, gstride, c as int + 1));
                }
                assert(!on_line(k, gstart, gstride, c as int));
                assert(out_before[k] == old(out)@[k]);
                assert(out@[k] == out_before[k]);
            }
            assert forall|t: int|
                0 <= t < c as int + 1 implies out@[line_idx(gstart, gstride, t)] == box_out(
                s,
                gstart,
                gstride,
                gcount,
                t,
                r,
            ) by {
                lemma_line_idx_bounds(gstart, gstride, gcount, input.len() as int, t);
                if t < c as int {
                    lemma_on_line_idx(gstart, gstride, gcount, t);
                    lemma_on_line_idx(gstart, gstride, gcount, c as int);
                    if line_idx(gstart, gstride, t) == line_idx(gstart, gstride, c as int) {
                        assert(t == c as int);
                    }
                    assert(out_before[line_idx(gstart, gstride, t)] == box_out(s, gstart, gstride, gcount, t, r));
                    assert(out@[line_idx(gstart, gstride, t)] == out_before[line_idx(gstart, gstride, t)]);
                }
            }
        }
        // Slide the window one position to the right.
        if c + 1 < count {
            let p_add: usize = if c + 1 + radius >= count {
                count - 1
            } else {
                c + 1 + radius
            };
            let v_add = line_sample(input, start, stride, count, p_add);
            let p_sub: usize = if c <= radius {
                0
            } else {
                c - radius
            };
            let v_sub = line_sample(input, start, stride, count, p_sub);
            proof {
                assert(clamped_sample(s, gstart, gstride, gcount, c + 1 + r) == v_add);
                assert(clamped_sample(s, gstart, gstride, gcount, c - r) == v_sub);
                lemma_run_sum_snoc(s, gstart, gstride, gcount, c - r, (2 * r + 1) as nat);
                assert(run_sum(s, gstart, gstride, gcount, c - r, (2 * r + 2) as nat)
                    == clamped_sample(s, gstart, gstride, gcount, c - r) + run_sum(
                    s,
                    gstart,
                    gstride,
                    gcount,
                    c - r + 1,
                    (2 * r + 1) as nat,
                ));
                lemma_run_sum_bounds(s, gstart, gstride, gcount, c - r + 1, (2 * r + 1) as nat);
            }
            sum = sum + v_add as u64 - v_sub as u64;
            assert(sum == window_sum(s, gstart, gstride, gcount, c + 1, r));
        }
        c = c + 1;
    }
}

/// Row `k / w`, position `k % w`, of a horizontal pass over a row-major
/// buffer of width `w`.
pub open spec fn hpass_at(s: Seq<u8>, w: int, r: int, k: int) -> u8 {
    box_out(s, (k / w) * w, 1, w, k % w, r)
}

/// One horizontal box-blur pass: every row blurred as a stride-1 line.
pub open spec fn blur_h(s: Seq<u8>, w: int, r: int) -> Seq<u8> {
    Seq::new(s.len(), |k: int| hpass_at(s, w, r, k))
}

/// Column `k % w`, position `k / w`, of a vertical pass over a row-major
/// buffer of width `w` and height `h`.
pub open spec fn vpass_at(s: Seq<u8>, w: int, h: int, r: int, k: int) -> u8 {
    box_out(s, k % w, w, h, k / w, r)
}

/// One vertical box-blur pass: every column blurred as a stride-`w` line.
pub open spec fn blur_v(s: Seq<u8>, w: int, h: int, r: int) -> Seq<u8> {
    Seq::new(s.len(), |k: int| vpass_at(s, w, h, r, k))
}

/// One full box-blur pass: horizontal, then vertical.
pub open spec fn box_blur_spec(s: Seq<u8>, w: int, h: int, r: int) -> Seq<u8> {
    blur_v(blur_h(s, w, r), w, h, r)
}

fn blur_rows(input: &Vec<u8>, width: usize, height: usize, radius: usize) -> (out: Vec<u8>)
    requires
        1 <= width <= MAX_DIM,
        1 <= height <= MAX_DIM,
        input.len() == width * height,
        radius <= MAX_RADIUS,
    ensures
        out@ == blur_h(input@, width as int, radius as int),
        out.len() == input.len(),
{
    let ghost s = input@;
    let ghost w = width as int;
    let ghost r = radius as int;
    let mut out: Vec<u8> = vec![0u8; input.len()];
    let mut row: usize = 0;
    while row < height
        invariant
            row <= height,
            1 <= width <= MAX_DIM,
            1 <= height <= MAX_DIM,
            radius <= MAX_RADIUS,
            input.len() == width * height,
            out.len() == input.len(),
            s == input@,
            w == width as int,
            r == radius as int,
            forall|k: int| 0 <= k < row * w ==> out@[k] == hpass_at(s, w, r, k),
        decreases height - row,
    {
        proof {
            lemma_mul_inequality(row as int + 1, height as int, w);
            lemma_mul_is_distributive_add_other_way(w, row as int, 1);
            lemma_mul_nonnegative(row as int, w);
            assert(row as int * w + w <= input.len());
        }
        let start: usize = row * width;
        let ghost out_prev = out@;
        blur_line(input, &mut out, start, 1, width, radius);
        proof {
            assert forall|k: int| 0 <= k < (row as int + 1) * w implies out@[k] == hpass_at(
                s,
                w,
                r,
                k,
            ) by {
                if k < row as int * w {
                    assert(!on_line(k, start as int, 1, w));
                    assert(out@[k] == out_prev[k]);
                } else {
                    let t = k - row as int * w;
                    assert(line_idx(start as int, 1, t) == k);
                    assert(out@[line_idx(start as int, 1, t)] == box_out(s, start as int, 1, w, t, r));
                    lemma_fundamental_div_mod_converse(k, w, row as int, t);
                }
            }
        }
        row = row + 1;
    }
    proof {
        assert(out@ =~= blur_h(s, w, r));
    }
    out
}

fn blur_cols(input: &Vec<u8>, width: usize, height: usize, radius: usize) -> (out: Vec<u8>)
    requires
        1 <= width <= MAX_DIM,
        1 <= height <= MAX_DIM,
        input.len() == width * height,
        radius <= MAX_RADIUS,
    ensures
        out@ == blur_v(input@, width as int, height as int, radius as int),
        out.len() == input.len(),
{
    let ghost s = input@;
    let ghost w = width as int;
    let ghost h = height as int;
    let ghost r = radius as int;
    let mut out: Vec<u8> = vec![0u8; input.len()];
    let mut col: usize = 0;
    while col < width
        invariant
            col <= width,
            1 <= width <= MAX_DIM,
            1 <= height <= MAX_DIM,
            radius <= MAX_RADIUS,
            input.len() == width * height,
            out.len() == input.len(),
            s == input@,
            w == width as int,
            h == height as int,
            r == radius as int,
            forall|k: int|
                0 <= k < input.len() && k % w < col ==> out@[k] == vpass_at(s, w, h, r, k),
        decreases width - col,
    {
        proof {
            // col + (height - 1) * width < width * height
            lemma_mul_is_distributive_sub_other_way(w, h, 1);
            lemma_mul_is_commutative(w, h);
            assert(col as int + (h - 1) * w < w * h);
        }
        let ghost out_prev = out@;
        blur_line(input, &mut out, col, width, height, radius);
        proof {
            assert forall|k: int|
                0 <= k < input.len() && k % w < col as int + 1 implies out@[k] == vpass_at(
                s,
                w,
                h,
                r,
                k,
            ) by {
                lemma_fundamental_div_mod(k, w);
                lemma_mod_division_less_than_divisor(k, w);
                let q = k / w;
                let m = k % w;
                if m == col as int {
                    // k lies on this column's line at position q
                    assert(k == line_idx(col as int, w, q)) by {
                        lemma_mul_is_commutative(w, q);
                    }
                    assert(0 <= q < h) by {
                        lemma_div_pos_is_pos(k, w);
                        lemma_multiply_divide_lt(k, w, h);
                    }
                    assert(out@[line_idx(col as int, w, q)] == box_out(s, col as int, w, h, q, r));
                } else {
                    assert(!on_line(k, col as int, w, h)) by {
                        if on_line(k, col as int, w, h) {
                            let t = (k - col as int) / w;
                            lemma_on_line_inverse(k, col as int, w, h);
                            lemma_fundamental_div_mod_converse(k, w, t, col as int);
                        }
                    }
                    assert(out@[k] == out_prev[k]);
                }
            }
        }
        col = col + 1;
    }
    proof {
        assert forall|k: int| 0 <= k < input.len() implies out@[k] == vpass_at(s, w, h, r, k) by {
            lemma_mod_division_less_than_divisor(k, w);
            lemma_fundamental_div_mod(k, w);
            assert(k % w < w);
        }
        assert(out@ =~= blur_v(s, w, h, r));
    }
    out
}

/// One box-blur pass over a row-major `width x height` buffer: a horizontal
/// sliding-window pass over every row, then a vertical one over every
/// column of the horizontal result.
pub fn box_blur(input: &Vec<u8>, width: usize, height: usize, radius: usize) -> (out: Vec<u8>)
    requires
        1 <= width <= MAX_DIM,
        1 <= height <= MAX_DIM,
        input.len() == width * height,
        radius <= MAX_RADIUS,
    ensures
        out@ == box_blur_spec(input@, width as int, height as int, radius as int),
        out.len() == input.len(),
{
    let mid = blur_rows(input, width, height, radius);
    let out = blur_cols(&mid, width, height, radius);
    out
}

proof fn lemma_run_sum_constant(
    s: Seq<u8>,
    start: int,
    stride: int,
    count: int,
    v: u8,
    j: int,
    n: nat,
)
    requires
        count >= 1,
        forall|t: int| 0 <= t < count ==> s[line_idx(start, stride, t)] == v,
    ensures
        run_sum(s, start, stride, count, j, n) == n * v,
    decreases n,
{
    if n == 0 {
        assert(0nat * v == 0) by (nonlinear_arith);
    } else {
        lemma_run_sum_constant(s, start, stride, count, v, j + 1, (n - 1) as nat);
        assert(clamped_sample(s, start, stride, count, j) == v);
        assert(v + (n - 1) * v == n * v) by (nonlinear_arith);
    }
}

proof fn lemma_box_out_constant(s: Seq<u8>, start: int, stride: int, count: int, v: u8, c: int, r: int)
    requires
        count >= 1,
        r >= 0,
        forall|t: int| 0 <= t < count ==> s[line_idx(start, stride, t)] == v,
    ensures
        box_out(s, start, stride, count, c, r) == v,
{
    lemma_run_sum_constant(s, start, stride, count, v, c - r, (2 * r + 1) as nat);
    assert(window_sum(s, start, stride, count, c, r) == (2 * r + 1) * v);
    lemma_fundamental_div_mod_converse((2 * r + 1) * v + r, 2 * r + 1, v as int, r);
}

proof fn lemma_box_blur_pass_constant(s: Seq<u8>, w: int, h: int, r: int, v: u8)
    requires
        1 <= w,
        1 <= h,
        s.len() == w * h,
        r >= 0,
        forall|k: int| 0 <= k < s.len() ==> s[k] == v,
    ensures
        box_blur_spec(s, w, h, r) == s,
{
    let sh = blur_h(s, w, r);
    assert forall|k: int| 0 <= k < s.len() implies sh[k] == v by {
        let start = (k / w) * w;
        lemma_div_pos_is_pos(k, w);
        lemma_multiply_divide_lt(k, w, h);
        lemma_mul_nonnegative(k / w, w);
        assert forall|t: int| 0 <= t < w implies s[line_idx(start, 1, t)] == v by {
            assert(line_idx(start, 1, t) == start + t);
            assert((k / w) * w + t < w * h) by (nonlinear_arith)
                requires
                    k / w < h,
                    0 <= t < w,
                    w >= 1,
            ;
        }
        lemma_box_out_constant(s, start, 1, w, v, k % w, r);
    }
    let sv = blur_v(sh, w, h, r);
    assert forall|k: int| 0 <= k < s.len() implies sv[k] == v by {
        let col = k % w;
        lemma_fundamental_div_mod(k, w);
        lemma_mod_division_less_than_divisor(k, w);
        assert forall|t: int| 0 <= t < h implies sh[line_idx(col, w, t)] == v by {
            assert(0 <= col + t * w < w * h) by (nonlinear_arith)
                requires
                    0 <= col < w,
                    0 <= t < h,
                    w >= 1,
            ;
        }
        lemma_box_out_constant(sh, col, w, h, v, k / w, r);
    }
    assert(sv =~= s);
}

proof fn lemma_radius_lower_nonneg(q: int)
    requires
        q >= 0,
    ensures
        radius_lower(q) >= 0,
{
    let n = (4 * q * q + 0x1_0000_0000) as nat;
    crate::fixed::lemma_sqrt_floor_bounds(n);
    let s = crate::fixed::sqrt_floor(n);
    assert(4 * q * q >= 0) by (nonlinear_arith)
        requires
            q >= 0,
    ;
    assert(s >= 65536) by (nonlinear_arith)
        requires
            (s + 1) * (s + 1) > n,
            n >= 0x1_0000_0000,
    ;
    lemma_div_is_ordered(65536, s as int, 65536);
    assert(width_floor(q) >= 1);
}

/// A constant-colour buffer is a fixed point of the blur: every window of
/// the sliding box sums `2r + 1` copies of the same value, so the rounded
/// average gives that value back, in each of the three passes.
pub proof fn lemma_gauss_blur_constant(s: Seq<u8>, w: int, h: int, q: int, v: u8)
    requires
        1 <= w,
        1 <= h,
        s.len() == w * h,
        q >= 0,
        forall|k: int| 0 <= k < s.len() ==> s[k] == v,
    ensures
        gauss_blur_spec(s, w, h, q) == s,
{
    lemma_radius_lower_nonneg(q);
    lemma_box_blur_pass_constant(s, w, h, box_radius(q, 0), v);
    lemma_box_blur_pass_constant(s, w, h, box_radius(q, 1), v);
    lemma_box_blur_pass_constant(s, w, h, box_radius(q, 2), v);
}

proof fn lemma_run_sum_impulse(
    s: Seq<u8>,
    start: int,
    stride: int,
    count: int,
    p: int,
    v: u8,
    j: int,
    n: nat,
)
    requires
        0 <= p < count,
        forall|t: int|
            0 <= t < count ==> s[line_idx(start, stride, t)] == (if t == p {
                v
            } else {
                0
            }),
        j < 0 ==> p > 0,
        j + n > count ==> p < count - 1,
    ensures
        run_sum(s, start, stride, count, j, n) == if j <= p < j + n {
            v as int
        } else {
            0
        },
    decreases n,
{
    if n > 0 {
        lemma_run_sum_impulse(s, start, stride, count, p, v, j + 1, (n - 1) as nat);
        if j < 0 {
            assert(clamped_sample(s, start, stride, count, j) == s[line_idx(start, stride, 0)]);
        } else if j >= count {
            assert(clamped_sample(s, start, stride, count, j) == s[line_idx(start, stride, count - 1)]);
        }
    }
}

/// The rounded share of an impulse of value `v` that each position inside
/// a box window of radius `r` receives.
pub open spec fn impulse_share(v: int, r: int) -> int {
    (v + r) / (2 * r + 1)
}

/// One box-blur pass on a line that is zero but for one impulse of value
/// `v` at position `p`, lying at least `r` samples from either border:
/// every position within `r` of `p` receives the impulse's rounded share
/// and every other position stays zero.
proof fn lemma_box_out_impulse(
    s: Seq<u8>,
    start: int,
    stride: int,
    count: int,
    p: int,
    v: u8,
    r: int,
    c: int,
)
    requires
        0 <= r <= p,
        p + r < count,
        forall|t: int|
            0 <= t < count ==> s[line_idx(start, stride, t)] == (if t == p {
                v
            } else {
                0
            }),
        0 <= c < count,
    ensures
        box_out(s, start, stride, count, c, r) == (if p - r <= c <= p + r {
            impulse_share(v as int, r) as u8
        } else {
            0u8
        }),
        0 <= impulse_share(v as int, r) <= v,
{
    lemma_run_sum_impulse(s, start, stride, count, p, v, c - r, (2 * r + 1) as nat);
    assert(v + r < (2 * r + 1) * (v + 1)) by (nonlinear_arith)
        requires
            r >= 0,
            v >= 0,
    ;
    lemma_multiply_divide_lt(v + r, 2 * r + 1, v + 1);
    lemma_div_pos_is_pos(v + r, 2 * r + 1);
    if p - r <= c <= p + r {
        assert(window_sum(s, start, stride, count, c, r) == v as int);
    } else {
        assert(window_sum(s, start, stride, count, c, r) == 0);
        lemma_basic_div_specific_divisor(2 * r + 1);
        assert((0 + r) / (2 * r + 1) == 0);
    }
}

/// One full box-blur pass on a `w x h` image that is black but for one
/// impulse of value `v` at `(px, py)`, lying at least `r` pixels from
/// every border: the energy spreads symmetrically, onto exactly the
/// `(2r + 1) x (2r + 1)` square centred on the impulse, every pixel of
/// the square receiving the same doubly rounded share; and each of the
/// two rounding steps loses at most `r` of the mass its window carries.
pub proof fn lemma_box_blur_impulse(
    s: Seq<u8>,
    w: int,
    h: int,
    px: int,
    py: int,
    v: u8,
    r: int,
    k: int,
)
    requires
        1 <= w,
        1 <= h,
        s.len() == w * h,
        0 <= r <= px,
        px + r < w,
        r <= py,
        py + r < h,
        forall|i: int|
            0 <= i < s.len() ==> s[i] == (if i == py * w + px {
                v
            } else {
                0
            }),
        0 <= k < s.len(),
    ensures
        box_blur_spec(s, w, h, r)[k] == (if px - r <= k % w <= px + r && py - r <= k / w <= py
            + r {
            impulse_share(impulse_share(v as int, r), r) as u8
        } else {
            0u8
        }),
        v - r <= (2 * r + 1) * impulse_share(v as int, r) <= v + r,
        impulse_share(v as int, r) - r <= (2 * r + 1) * impulse_share(impulse_share(v as int, r), r)
            <= impulse_share(v as int, r) + r,
{
    let sh = blur_h(s, w, r);
    let share1 = impulse_share(v as int, r);
    assert(v + r < (2 * r + 1) * (v + 1)) by (nonlinear_arith)
        requires
            r >= 0,
            v >= 0,
    ;
    lemma_multiply_divide_lt(v + r, 2 * r + 1, v + 1);
    lemma_div_pos_is_pos(v + r, 2 * r + 1);
    assert(0 <= share1 <= v);

    // The horizontal pass turns row `py` into a run of `share1` and leaves
    // every other row black.
    assert forall|k2: int| 0 <= k2 < s.len() implies sh[k2] == (if k2 / w == py && px - r <= k2 % w
        <= px + r {
        share1 as u8
    } else {
        0u8
    }) by {
        let row = k2 / w;
        let c = k2 % w;
        lemma_fundamental_div_mod(k2, w);
        lemma_mod_division_less_than_divisor(k2, w);
        lemma_div_pos_is_pos(k2, w);
        lemma_multiply_divide_lt(k2, w, h);
        lemma_mul_nonnegative(row, w);
        let start = row * w;
        if row == py {
            assert forall|t: int| 0 <= t < w implies s[line_idx(start, 1, t)] == (if t == px {
                v
            } else {
                0u8
            }) by {
                assert(line_idx(start, 1, t) == py * w + t);
                assert(0 <= py * w + t < w * h) by (nonlinear_arith)
                    requires
                        0 <= py < h,
                        0 <= t < w,
                        1 <= w,
                ;
            }
            lemma_box_out_impulse(s, start, 1, w, px, v, r, c);
        } else {
            assert forall|t: int| 0 <= t < w implies s[line_idx(start, 1, t)] == 0u8 by {
                assert(line_idx(start, 1, t) == row * w + t);
                assert(0 <= row * w + t < w * h) by (nonlinear_arith)
                    requires
                        0 <= row < h,
                        0 <= t < w,
                        1 <= w,
                ;
                lemma_fundamental_div_mod_converse(row * w + t, w, row, t);
                lemma_fundamental_div_mod_converse(py * w + px, w, py, px);
                assert(row * w + t != py * w + px);
            }
            lemma_box_out_constant(s, start, 1, w, 0u8, c, r);
        }
    }

    // The vertical pass then spreads that run down each of its columns.
    let col = k % w;
    let y = k / w;
    lemma_fundamental_div_mod(k, w);
    lemma_mod_division_less_than_divisor(k, w);
    lemma_div_pos_is_pos(k, w);
    lemma_multiply_divide_lt(k, w, h);
    assert forall|t: int| 0 <= t < h implies sh[line_idx(col, w, t)] == (if t == py && px - r <= col
        <= px + r {
        share1 as u8
    } else {
        0u8
    }) by {
        assert(line_idx(col, w, t) == col + t * w);
        assert(0 <= col + t * w < w * h) by (nonlinear_arith)
            requires
                0 <= col < w,
                0 <= t < h,
                1 <= w,
        ;
        lemma_mul_is_commutative(t, w);
        lemma_fundamental_div_mod_converse(col + t * w, w, t, col);
    }
    if px - r <= col <= px + r {
        lemma_box_out_impulse(sh, col, w, h, py, share1 as u8, r, y);
    } else {
        assert forall|t: int| 0 <= t < h implies sh[line_idx(col, w, t)] == 0u8 by {}
        lemma_box_out_constant(sh, col, w, h, 0u8, y, r);
    }
    assert(box_blur_spec(s, w, h, r)[k] == box_out(sh, col, w, h, y, r));

    // Mass accounting for each rounding step.
    lemma_fundamental_div_mod(v + r, 2 * r + 1);
    lemma_mod_bound(v + r, 2 * r + 1);
    lemma_fundamental_div_mod(share1 + r, 2 * r + 1);
    lemma_mod_bound(share1 + r, 2 * r + 1);
}

/// Largest accepted fixed-point blur radius: `MAX_RADIUS_Q / SCALE`, i.e.
/// a standard deviation of 4096 pixels.
pub const MAX_RADIUS_Q: u32 = 0x1000_0000;

/// Floor of the ideal box width `sqrt(12 * variance / 3 + 1)` for a blur
/// whose standard deviation is the fixed-point number `q / SCALE`, so that
/// the variance is `q * q / SCALE^2` and the width is
/// `sqrt(4 * q * q + SCALE^2) / SCALE`.
pub open spec fn width_floor(q: int) -> int {
    crate::fixed::sqrt_floor((4 * q * q + 0x1_0000_0000) as nat) as int / 65536
}

/// The ideal width rounded down to an odd box width.
pub open spec fn width_lower(q: int) -> int {
    let wf = width_floor(q);
    if wf % 2 == 0 {
        wf - 1
    } else {
        wf
    }
}

/// Radius of the narrower of the two candidate boxes.
pub open spec fn radius_lower(q: int) -> int {
    (width_lower(q) - 1) / 2
}

/// How many of the three boxes use the narrower radius: the closed-form
/// count `round((3 * (wl^2 + 4 wl + 3) - 12 * variance) / (4 wl + 4))`,
/// scaled by `SCALE^2` to stay integral, clamped into `0 ..= 3`.
pub open spec fn lower_box_count(q: int) -> int {
    let wl = width_lower(q);
    let a = 3 * (wl * wl + 4 * wl + 3) * 0x1_0000_0000 - 12 * q * q;
    let b = (4 * wl + 4) * 0x1_0000_0000;
    if a <= 0 {
        0
    } else if (2 * a + b) / (2 * b) > 3 {
        3
    } else {
        (2 * a + b) / (2 * b)
    }
}

/// Radius of box `i` (of 3): the first `lower_box_count` boxes are
/// narrower by one.
pub open spec fn box_radius(q: int, i: int) -> int {
    if i < lower_box_count(q) {
        radius_lower(q)
    } else {
        radius_lower(q) + 1
    }
}

/// The three box radii whose successive box blurs approximate a Gaussian
/// blur of standard deviation `radius_q / SCALE`.
pub fn box_radii(radius_q: u32) -> (radii: Vec<usize>)
    requires
        1 <= radius_q <= MAX_RADIUS_Q,
    ensures
        radii@.len() == 3,
        forall|i: int| 0 <= i < 3 ==> radii@[i] == box_radius(radius_q as int, i),
        forall|i: int| 0 <= i < 3 ==> radii@[i] <= 0x4000,
{
    let q: u64 = radius_q as u64;
    proof {
        assert(4 * q * q + 0x1_0000_0000 < 0x0800_0000_0000_0000) by (nonlinear_arith)
            requires
                q <= 0x1000_0000,
        ;
    }
    let n_sq: u64 = 4 * q * q + 0x1_0000_0000;
    let s = crate::fixed::isqrt(n_sq);
    proof {
        crate::fixed::lemma_sqrt_floor_bounds(n_sq as nat);
        assert(s >= 65536) by (nonlinear_arith)
            requires
                (s + 1) * (s + 1) > n_sq,
                n_sq >= 0x1_0000_0000,
        ;
        assert(s < 0x4000_0000) by (nonlinear_arith)
            requires
                s * s <= n_sq,
                n_sq < 0x0800_0000_0000_0000,
        ;
        lemma_multiply_divide_lt(s as int, 65536, 0x4000);
        lemma_div_pos_is_pos(s as int, 65536);
        lemma_div_is_ordered(65536, s as int, 65536);
    }
    let wf: u64 = s / 65536;
    assert(1 <= wf < 0x4000);
    let wl: u64 = if wf % 2 == 0 {
        wf - 1
    } else {
        wf
    };
    assert(wl == width_lower(radius_q as int));
    let rl: u64 = (wl - 1) / 2;
    assert(rl == radius_lower(radius_q as int) && rl < 0x2000);

    let wl_w: u128 = wl as u128;
    proof {
        assert(12u128 * (q as u128) * (q as u128) <= 0x3000_0000_0000_0000u128) by (nonlinear_arith)
            requires
                q <= 0x1000_0000,
        ;
        assert(wl_w * wl_w < 0x1000_0000u128) by (nonlinear_arith)
            requires
                wl_w < 0x4000,
        ;
    }
    let lhs: u128 = 12 * (q as u128) * (q as u128);
    let rhs: u128 = 3 * (wl_w * wl_w + 4 * wl_w + 3) * 0x1_0000_0000;
    let m: u64 = if rhs <= lhs {
        0
    } else {
        let a: u128 = rhs - lhs;
        let b: u128 = (4 * wl_w + 4) * 0x1_0000_0000;
        let mm: u128 = (2 * a + b) / (2 * b);
        proof {
            lemma_div_pos_is_pos((2 * a + b) as int, (2 * b) as int);
        }
        if mm > 3 {
            3
        } else {
            mm as u64
        }
    };
    assert(m == lower_box_count(radius_q as int));

    let rl_us: usize = rl as usize;
    let rh_us: usize = rl_us + 1;
    let mut radii: Vec<usize> = Vec::new();
    radii.push(if 0 < m {
        rl_us
    } else {
        rh_us
    });
    radii.push(if 1 < m {
        rl_us
    } else {
        rh_us
    });
    radii.push(if 2 < m {
        rl_us
    } else {
        rh_us
    });
    radii
}

/// Three successive box blurs with the radii derived from `q`.
pub open spec fn gauss_blur_spec(s: Seq<u8>, w: int, h: int, q: int) -> Seq<u8> {
    box_blur_spec(
        box_blur_spec(box_blur_spec(s, w, h, box_radius(q, 0)), w, h, box_radius(q, 1)),
        w,
        h,
        box_radius(q, 2),
    )
}

/// Gaussian blur of a single-channel row-major `width x height` buffer,
/// approximated by three box blurs. The standard deviation is the
/// fixed-point number `radius_q / SCALE` and must be positive; the borders
/// are replicated. The input buffer is left untouched.
pub fn gauss_blur(input: &Vec<u8>, width: usize, height: usize, radius_q: u32) -> (result: Result<
    Vec<u8>,
    crate::errors::EffectError,
>)
    requires
        width <= MAX_DIM,
        height <= MAX_DIM,
        radius_q <= MAX_RADIUS_Q,
    ensures
        radius_q == 0 ==> result == Err::<Vec<u8>, crate::errors::EffectError>(
            crate::errors::EffectError::InvalidParameter,
        ),
        radius_q >= 1 && (width == 0 || height == 0 || input.len() != width * height) ==> result
            == Err::<Vec<u8>, crate::errors::EffectError>(
            crate::errors::EffectError::InvalidBufferLength,
        ),
        radius_q >= 1 && width >= 1 && height >= 1 && input.len() == width * height ==> (result
            matches Ok(out) && out@ == gauss_blur_spec(
            input@,
            width as int,
            height as int,
            radius_q as int,
        )),
{
    if radius_q == 0 {
        return Err(crate::errors::EffectError::InvalidParameter);
    }
    if width == 0 || height == 0 {
        return Err(crate::errors::EffectError::InvalidBufferLength);
    }
    proof {
        assert(width as u64 * height as u64 <= MAX_DIM as u64 * MAX_DIM as u64) by (nonlinear_arith)
            requires
                width as u64 <= MAX_DIM as u64,
                height as u64 <= MAX_DIM as u64,
        ;
    }
    if input.len() as u64 != width as u64 * height as u64 {
        return Err(crate::errors::EffectError::InvalidBufferLength);
    }
    let radii = box_radii(radius_q);
    let pass1 = box_blur(input, width, height, radii[0]);
    let pass2 = box_blur(&pass1, width, height, radii[1]);
    let pass3 = box_blur(&pass2, width, height, radii[2]);
    Ok(pass3)
}

} // verus!
