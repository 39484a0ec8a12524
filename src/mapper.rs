//! Coordinate mapping: from fixed-point boxes in the padded canvas back to
//! pixel boxes in the original image.
use vstd::prelude::*;
use crate::letterbox::{width_bound, Letterbox};
use crate::FIXED_ONE;

verus! {

/// `n / d` rounded to the nearest integer, halves away from zero.
pub open spec fn round_div(n: int, d: int) -> int
    recommends d > 0,
{
    if n >= 0 {
        (2 * n + d) / (2 * d)
    } else {
        -((-2 * n + d) / (2 * d))
    }
}

/// `v` saturated to the range of `i32`.
pub open spec fn saturate_i32(v: int) -> i32 {
    if v < i32::MIN as int {
        i32::MIN
    } else if v > i32::MAX as int {
        i32::MAX
    } else {
        v as i32
    }
}

/// Numerator of the letterbox scale `min(target_w / orig_w, target_h / orig_h)`.
pub open spec fn scale_num(orig_w: nat, orig_h: nat, target_w: nat, target_h: nat) -> nat {
    if width_bound(orig_w, orig_h, target_w, target_h) { target_w } else { target_h }
}

/// Denominator of the letterbox scale.
pub open spec fn scale_den(orig_w: nat, orig_h: nat, target_w: nat, target_h: nat) -> nat {
    if width_bound(orig_w, orig_h, target_w, target_h) { orig_w } else { orig_h }
}

/// A normalized center coordinate `v / FIXED_ONE` of a canvas side of length
/// `side`, with the letterbox offset `off` removed and divided by the scale
/// `num / den`: `((v / FIXED_ONE) * side - off) / (num / den)`, rounded.
pub open spec fn map_center(v: int, side: nat, off: nat, num: nat, den: nat) -> i32 {
    saturate_i32(round_div((v * side - off * FIXED_ONE) * den, FIXED_ONE * num))
}

/// A normalized extent `v / FIXED_ONE` of a canvas side of length `side`,
/// divided by the scale `num / den`, rounded.
pub open spec fn map_extent(v: int, side: nat, num: nat, den: nat) -> i32 {
    saturate_i32(round_div(v * side * den, FIXED_ONE * num))
}

/// The pixel box `[x_center, y_center, width, height]` in the original image
/// of a fixed-point center-format box `b` in a `target_w x target_h` canvas
/// that an `orig_w x orig_h` image was letterboxed into with offsets
/// `(x_off, y_off)`.
pub open spec fn map_box(
    b: [i32; 4],
    orig_w: nat,
    orig_h: nat,
    target_w: nat,
    target_h: nat,
    x_off: nat,
    y_off: nat,
) -> [i32; 4] {
    let num = scale_num(orig_w, orig_h, target_w, target_h);
    let den = scale_den(orig_w, orig_h, target_w, target_h);
    [
        map_center(b[0] as int, target_w, x_off, num, den),
        map_center(b[1] as int, target_h, y_off, num, den),
        map_extent(b[2] as int, target_w, num, den),
        map_extent(b[3] as int, target_h, num, den),
    ]
}

const BOUND: i128 = 0x10_0000_0000_0000_0000_0000_0000;

/// Divides `n` by `d`, rounding to the nearest integer with halves away from zero.
fn round_div_exec(n: i128, d: i128) -> (r: i128)
    requires
        0 < d < BOUND,
        -BOUND < n < BOUND,
    ensures
        r == round_div(n as int, d as int),
{
    if n >= 0 {
        (2 * n + d) / (2 * d)
    } else {
        let m: i128 = -n;
        let q: i128 = (2 * m + d) / (2 * d);
        -q
    }
}

/// Saturates `v` to the range of `i32`.
fn saturate_exec(v: i128) -> (r: i32)
    ensures
        r == saturate_i32(v as int),
{
    if v < i32::MIN as i128 {
        i32::MIN
    } else if v > i32::MAX as i128 {
        i32::MAX
    } else {
        v as i32
    }
}

proof fn lemma_center_bounds(v: int, side: nat, off: nat, den: nat)
    requires
        i32::MIN <= v <= i32::MAX,
        side <= u32::MAX,
        off <= u32::MAX,
        den <= u32::MAX,
    ensures
        -0x1_0000_0000_0000_0000 < v * side < 0x1_0000_0000_0000_0000,
        0 <= off * FIXED_ONE < 0x1_0000_0000_0000_0000,
        -BOUND < (v * side - off * FIXED_ONE) * den < BOUND,
{
    assert(-0x8000_0000 * 0x1_0000_0000 <= v * side <= 0x8000_0000 * 0x1_0000_0000) by (nonlinear_arith)
        requires
            i32::MIN <= v <= i32::MAX,
            0 <= side <= u32::MAX,
    {
    }
    assert(0 <= off * FIXED_ONE <= 0x1_0000_0000 * 0x10_0000) by (nonlinear_arith)
        requires
            0 <= off <= u32::MAX,
    {
    }
    let w = v * side - off * FIXED_ONE;
    assert(-0x2_0000_0000_0000_0000 < w < 0x2_0000_0000_0000_0000);
    assert(-BOUND < w * den < BOUND) by (nonlinear_arith)
        requires
            -0x2_0000_0000_0000_0000 < w < 0x2_0000_0000_0000_0000,
            0 <= den <= u32::MAX,
    {
    }
}

proof fn lemma_den_bound(num: nat)
    requires
        0 < num <= u32::MAX,
    ensures
        0 < FIXED_ONE * num < BOUND,
{
    assert(0 < FIXED_ONE * num <= 0x10_0000 * 0x1_0000_0000) by (nonlinear_arith)
        requires
            0 < num <= u32::MAX,
    {
    }
}

/// Maps one center coordinate back into the original image.
pub fn map_center_exec(v: i32, side: u32, off: u32, num: u32, den: u32) -> (r: i32)
    requires
        num > 0,
    ensures
        r == map_center(v as int, side as nat, off as nat, num as nat, den as nat),
{
    proof {
        lemma_center_bounds(v as int, side as nat, off as nat, den as nat);
        lemma_den_bound(num as nat);
    }
    let n: i128 = ((v as i128) * (side as i128) - (off as i128) * (FIXED_ONE as i128)) * (den as i128);
    let d: i128 = (FIXED_ONE as i128) * (num as i128);
    saturate_exec(round_div_exec(n, d))
}

/// Maps one extent back into the original image.
pub fn map_extent_exec(v: i32, side: u32, num: u32, den: u32) -> (r: i32)
    requires
        num > 0,
    ensures
        r == map_extent(v as int, side as nat, num as nat, den as nat),
{
    proof {
        lemma_center_bounds(v as int, side as nat, 0, den as nat);
        lemma_den_bound(num as nat);
    }
    let n: i128 = (v as i128) * (side as i128) * (den as i128);
    let d: i128 = (FIXED_ONE as i128) * (num as i128);
    saturate_exec(round_div_exec(n, d))
}

/// Rounding to the nearest integer is off by at most one half:
/// `|n / d - round_div(n, d)| <= 1 / 2`.
pub proof fn lemma_round_div_close(n: int, d: int)
    requires
        d > 0,
    ensures
        -d <= 2 * n - 2 * d * round_div(n, d) <= d,
{
    if n >= 0 {
        let q = (2 * n + d) / (2 * d);
        vstd::arithmetic::div_mod::lemma_fundamental_div_mod(2 * n + d, 2 * d);
        vstd::arithmetic::div_mod::lemma_mod_bound(2 * n + d, 2 * d);
        assert(2 * n + d == 2 * d * q + (2 * n + d) % (2 * d));
    } else {
        let q = (-2 * n + d) / (2 * d);
        vstd::arithmetic::div_mod::lemma_fundamental_div_mod(-2 * n + d, 2 * d);
        vstd::arithmetic::div_mod::lemma_mod_bound(-2 * n + d, 2 * d);
        assert(-2 * n + d == 2 * d * q + (-2 * n + d) % (2 * d));
        assert(2 * d * round_div(n, d) == -(2 * d * q)) by (nonlinear_arith)
            requires
                round_div(n, d) == -q,
        {
        }
    }
}

proof fn lemma_cancel(t: int, a: int, b: int)
    requires
        t > 0,
        -(b * t) <= a * t <= b * t,
    ensures
        -b <= a <= b,
{
    assert(-b <= a <= b) by (nonlinear_arith)
        requires
            t > 0,
            -(b * t) <= a * t <= b * t,
    {
    }
}

/// The exact pixel value `v * orig / FIXED_ONE` of a normalized `v` on a
/// side of `orig` pixels lies within the range of `i32`.
pub open spec fn fits_i32_fixed(v: int, orig: nat) -> bool {
    -((FIXED_ONE as int) * (i32::MAX as int)) <= v * orig <= (FIXED_ONE as int) * (i32::MAX as int)
}

/// One coordinate of the round trip through an unpadded canvas: a value
/// `v / FIXED_ONE` of a canvas side `side` (with `side * den == num * orig`)
/// maps back within half a pixel of `v * orig / FIXED_ONE`.
proof fn lemma_coordinate_round_trip(v: int, side: nat, num: nat, den: nat, orig: nat)
    requires
        fits_i32_fixed(v, orig),
        num > 0,
        side * den == num * orig,
    ensures
        -(FIXED_ONE as int) <= 2 * FIXED_ONE * (map_center(v, side, 0, num, den) as int) - 2 * v * orig <= FIXED_ONE,
        map_center(v, side, 0, num, den) == map_extent(v, side, num, den),
{
    let one = FIXED_ONE as int;
    let n = (v * side - 0 * one) * den;
    let d = one * num;
    assert(n == num * (v * orig)) by (nonlinear_arith)
        requires
            n == (v * side - 0 * one) * den,
            side * den == num * orig,
    {
    }
    lemma_round_div_close(n, d);
    let r = round_div(n, d);
    assert((2 * v * orig - 2 * one * r) * num == 2 * n - 2 * d * r) by (nonlinear_arith)
        requires
            n == num * (v * orig),
            d == one * num,
    {
    }
    lemma_cancel(num as int, 2 * v * orig - 2 * one * r, one);
    let m = i32::MAX as int;
    assert(r <= m) by (nonlinear_arith)
        requires
            -one <= 2 * v * orig - 2 * one * r,
            v * orig <= one * m,
            one == 1_000_000,
    {
    }
    assert(r >= -m) by (nonlinear_arith)
        requires
            2 * v * orig - 2 * one * r <= one,
            v * orig >= -(one * m),
            one == 1_000_000,
    {
    }
}

/// With no letterbox padding (the canvas has the aspect ratio of the image),
/// both offsets are zero and a box given in normalized units maps back
/// within one pixel of the same box in the image's pixels: each mapped
/// value `m` satisfies `|m - v * side / FIXED_ONE| <= 1 / 2`, where `side` is
/// the image width for `x_center` and `width` and the height otherwise.
/// The only condition is that each exact pixel value fits in an `i32`, the
/// type of the result.
pub proof fn lemma_unpadded_round_trip(orig_w: u32, orig_h: u32, target_w: u32, target_h: u32, b: [i32; 4])
    requires
        orig_w > 0,
        orig_h > 0,
        target_w > 0,
        target_h > 0,
        (target_w as int) * (orig_h as int) == (target_h as int) * (orig_w as int),
        fits_i32_fixed(b[0] as int, orig_w as nat),
        fits_i32_fixed(b[1] as int, orig_h as nat),
        fits_i32_fixed(b[2] as int, orig_w as nat),
        fits_i32_fixed(b[3] as int, orig_h as nat),
    ensures
        ({
            let g = Letterbox::spec_of(orig_w as nat, orig_h as nat, target_w as nat, target_h as nat);
            &&& g.resized_w == target_w
            &&& g.resized_h == target_h
            &&& g.x_offset == 0
            &&& g.y_offset == 0
        }),
        ({
            let m = map_box(b, orig_w as nat, orig_h as nat, target_w as nat, target_h as nat, 0, 0);
            let one = FIXED_ONE as int;
            &&& -one <= 2 * one * (m[0] as int) - 2 * (b[0] as int) * (orig_w as int) <= one
            &&& -one <= 2 * one * (m[1] as int) - 2 * (b[1] as int) * (orig_h as int) <= one
            &&& -one <= 2 * one * (m[2] as int) - 2 * (b[2] as int) * (orig_w as int) <= one
            &&& -one <= 2 * one * (m[3] as int) - 2 * (b[3] as int) * (orig_h as int) <= one
        }),
{
    let (ow, oh, tw, th) = (orig_w as nat, orig_h as nat, target_w as nat, target_h as nat);
    assert(width_bound(ow, oh, tw, th));
    assert((oh * tw) / ow == th) by {
        assert(oh * tw == th * ow) by (nonlinear_arith)
            requires
                tw * oh == th * ow,
        {
        }
        vstd::arithmetic::div_mod::lemma_div_by_multiple(th as int, ow as int);
    }
    assert(th * ow == tw * oh) by (nonlinear_arith)
        requires
            tw * oh == th * ow,
    {
    }
    lemma_coordinate_round_trip(b[0] as int, tw, tw, ow, ow);
    lemma_coordinate_round_trip(b[1] as int, th, tw, ow, oh);
    lemma_coordinate_round_trip(b[2] as int, tw, tw, ow, ow);
    lemma_coordinate_round_trip(b[3] as int, th, tw, ow, oh);
}

} // verus!
