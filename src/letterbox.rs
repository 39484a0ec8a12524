//! Letterbox geometry: uniform scaling into a target canvas plus centering.
use vstd::prelude::*;

verus! {

/// Which side bounds the uniform scale: true when
/// `target_w / orig_w <= target_h / orig_h`, i.e. the scale is `target_w / orig_w`;
/// otherwise it is `target_h / orig_h`.
pub open spec fn width_bound(orig_w: nat, orig_h: nat, target_w: nat, target_h: nat) -> bool {
    target_w * orig_h <= target_h * orig_w
}

/// The resized width: `floor(orig_w * scale)` with
/// `scale = min(target_w / orig_w, target_h / orig_h)`.
pub open spec fn resized_w(orig_w: nat, orig_h: nat, target_w: nat, target_h: nat) -> nat
    recommends orig_w > 0, orig_h > 0,
{
    if width_bound(orig_w, orig_h, target_w, target_h) {
        target_w
    } else {
        (orig_w * target_h) / orig_h
    }
}

/// The resized height: `floor(orig_h * scale)`.
pub open spec fn resized_h(orig_w: nat, orig_h: nat, target_w: nat, target_h: nat) -> nat
    recommends orig_w > 0, orig_h > 0,
{
    if width_bound(orig_w, orig_h, target_w, target_h) {
        (orig_h * target_w) / orig_w
    } else {
        target_h
    }
}

/// Placement of a resized image inside the padded canvas.
#[derive(Clone, Copy, Debug, PartialEq, Eq, Structural)]
pub struct Letterbox {
    pub resized_w: u32,
    pub resized_h: u32,
    pub x_offset: u32,
    pub y_offset: u32,
}

impl Letterbox {
    /// The placement that preprocessing computes for an image of
    /// `orig_w x orig_h` in a `target_w x target_h` canvas.
    pub open spec fn spec_of(orig_w: nat, orig_h: nat, target_w: nat, target_h: nat) -> Letterbox {
        let rw = resized_w(orig_w, orig_h, target_w, target_h);
        let rh = resized_h(orig_w, orig_h, target_w, target_h);
        Letterbox {
            resized_w: rw as u32,
            resized_h: rh as u32,
            x_offset: ((target_w - rw) / 2) as u32,
            y_offset: ((target_h - rh) / 2) as u32,
        }
    }
}

proof fn lemma_resized_fits(orig_w: nat, orig_h: nat, target_w: nat, target_h: nat)
    requires
        orig_w > 0,
        orig_h > 0,
    ensures
        resized_w(orig_w, orig_h, target_w, target_h) <= target_w,
        resized_h(orig_w, orig_h, target_w, target_h) <= target_h,
{
    if width_bound(orig_w, orig_h, target_w, target_h) {
        assert((orig_h * target_w) / orig_w <= target_h) by (nonlinear_arith)
            requires
                target_w * orig_h <= target_h * orig_w,
                orig_w > 0,
        {
            assert(orig_h * target_w == target_w * orig_h);
            assert((target_h * orig_w) / orig_w == target_h);
            vstd::arithmetic::div_mod::lemma_div_is_ordered(
                (orig_h * target_w) as int,
                (target_h * orig_w) as int,
                orig_w as int,
            );
        }
    } else {
        assert((orig_w * target_h) / orig_h <= target_w) by (nonlinear_arith)
            requires
                target_w * orig_h > target_h * orig_w,
                orig_h > 0,
        {
            assert((target_w * orig_h) / orig_h == target_w);
            vstd::arithmetic::div_mod::lemma_div_is_ordered(
                (orig_w * target_h) as int,
                (target_w * orig_h) as int,
                orig_h as int,
            );
        }
    }
}

/// Computes where an `orig_w x orig_h` image lands in a `target_w x target_h`
/// canvas: scaled by `min(target_w / orig_w, target_h / orig_h)`, each side
/// rounded down, and centered with integer offsets.
///
/// The resized region keeps the aspect ratio of the original up to the
/// rounding of one side, and lies entirely inside the canvas.
pub fn letterbox_geometry(orig_w: u32, orig_h: u32, target_w: u32, target_h: u32) -> (r: Letterbox)
    requires
        orig_w > 0,
        orig_h > 0,
    ensures
        r == Letterbox::spec_of(orig_w as nat, orig_h as nat, target_w as nat, target_h as nat),
        r.resized_w <= target_w,
        r.resized_h <= target_h,
        r.x_offset + r.resized_w <= target_w,
        r.y_offset + r.resized_h <= target_h,
        2 * r.x_offset <= target_w - r.resized_w < 2 * r.x_offset + 2,
        2 * r.y_offset <= target_h - r.resized_h < 2 * r.y_offset + 2,
        -(orig_h as int) < (r.resized_w as int) * (orig_h as int) - (r.resized_h as int) * (orig_w as int) < orig_w as int,
{
    let ghost (ow, oh, tw, th) = (orig_w as nat, orig_h as nat, target_w as nat, target_h as nat);
    proof {
        lemma_resized_fits(ow, oh, tw, th);
    }
    proof {
        vstd::arithmetic::mul::lemma_mul_upper_bound(tw as int, u32::MAX as int, oh as int, u32::MAX as int);
        vstd::arithmetic::mul::lemma_mul_upper_bound(th as int, u32::MAX as int, ow as int, u32::MAX as int);
        vstd::arithmetic::mul::lemma_mul_upper_bound(oh as int, u32::MAX as int, tw as int, u32::MAX as int);
        vstd::arithmetic::mul::lemma_mul_upper_bound(ow as int, u32::MAX as int, th as int, u32::MAX as int);
    }
    let a: u64 = (target_w as u64) * (orig_h as u64);
    let b: u64 = (target_h as u64) * (orig_w as u64);
    let rw: u32;
    let rh: u32;
    if a <= b {
        rw = target_w;
        let q: u64 = ((orig_h as u64) * (target_w as u64)) / (orig_w as u64);
        assert(q == resized_h(ow, oh, tw, th));
        rh = q as u32;
        proof {
            let p = oh * tw;
            assert(rh == p / ow);
            vstd::arithmetic::div_mod::lemma_fundamental_div_mod(p as int, ow as int);
            assert(0 <= p % ow < ow) by {
                vstd::arithmetic::div_mod::lemma_mod_bound(p as int, ow as int);
            }
            let qq: int = (p / ow) as int;
            let rr: int = (p % ow) as int;
            let (xi, yi, ai, bi, ti) = (rw as int, rh as int, ow as int, oh as int, tw as int);
            assert(xi * bi - yi * ai == rr) by (nonlinear_arith)
                requires
                    p as int == bi * ti,
                    p as int == ai * qq + rr,
                    xi == ti,
                    yi == qq,
            {
            }
        }
    } else {
        rh = target_h;
        let q: u64 = ((orig_w as u64) * (target_h as u64)) / (orig_h as u64);
        assert(q == resized_w(ow, oh, tw, th));
        rw = q as u32;
        proof {
            let p = ow * th;
            assert(rw == p / oh);
            vstd::arithmetic::div_mod::lemma_fundamental_div_mod(p as int, oh as int);
            assert(0 <= p % oh < oh) by {
                vstd::arithmetic::div_mod::lemma_mod_bound(p as int, oh as int);
            }
            let qq: int = (p / oh) as int;
            let rr: int = (p % oh) as int;
            let (xi, yi, ai, bi, ti) = (rh as int, rw as int, oh as int, ow as int, th as int);
            assert(xi * bi - yi * ai == rr) by (nonlinear_arith)
                requires
                    p as int == bi * ti,
                    p as int == ai * qq + rr,
                    xi == ti,
                    yi == qq,
            {
            }
        }
    }
    Letterbox {
        resized_w: rw,
        resized_h: rh,
        x_offset: (target_w - rw) / 2,
        y_offset: (target_h - rh) / 2,
    }
}

/// Whether the width bounds the letterbox scale, that is
/// `target_w / orig_w <= target_h / orig_h`.
pub fn scale_from_width(orig_w: u32, orig_h: u32, target_w: u32, target_h: u32) -> (r: bool)
    ensures
        r == width_bound(orig_w as nat, orig_h as nat, target_w as nat, target_h as nat),
{
    proof {
        vstd::arithmetic::mul::lemma_mul_upper_bound(target_w as int, u32::MAX as int, orig_h as int, u32::MAX as int);
        vstd::arithmetic::mul::lemma_mul_upper_bound(target_h as int, u32::MAX as int, orig_w as int, u32::MAX as int);
    }
    (target_w as u64) * (orig_h as u64) <= (target_h as u64) * (orig_w as u64)
}

} // verus!
