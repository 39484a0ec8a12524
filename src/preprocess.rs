//! Letterbox preprocessing: each image is scaled uniformly, centered on a
//! canvas filled with the mean color, and laid out channel-first.
use vstd::prelude::*;
use crate::config::{PipelineError, PreprocessConfig};
use crate::letterbox::{letterbox_geometry, Letterbox};
use crate::FIXED_ONE;

verus! {

/// A decoded 8-bit RGB image, rows top to bottom, three bytes per pixel.
#[derive(Clone, Debug)]
pub struct RawImage {
    pub width: u32,
    pub height: u32,
    pub data: Vec<u8>,
}

impl RawImage {
    pub open spec fn wf(&self) -> bool {
        self.data.len() == 3 * (self.width as int) * (self.height as int)
    }
}

/// The pixels, three bytes each, of `src` (`src_w x src_h`, RGB) resampled
/// to `dst_w x dst_h` by nearest-neighbour sampling.
pub uninterp spec fn resized_pixels(src: Seq<u8>, src_w: u32, src_h: u32, dst_w: u32, dst_h: u32) -> Seq<u8>;

/// Relies on fast_image_resize's `Resizer::resize` with nearest-neighbour
/// sampling on `U8x3` images: the destination buffer of `dst_w x dst_h`
/// pixels that it fills. `Image::from_vec_u8` fails only on a short buffer
/// (three-byte pixels are always aligned), and `resize` fails only on
/// differing pixel types or an invalid crop box, neither of which occurs here;
/// with a zero side it leaves the destination as it is.
#[verifier::external_body]
fn resize_rgb(src: &RawImage, dst_w: u32, dst_h: u32) -> (r: Vec<u8>)
    requires
        src.wf(),
    ensures
        r@ == resized_pixels(src.data@, src.width, src.height, dst_w, dst_h),
        r.len() == 3 * (dst_w as int) * (dst_h as int),
{
    let pt = fast_image_resize::PixelType::U8x3;
    let from = fast_image_resize::images::Image::from_vec_u8(src.width, src.height, src.data.clone(), pt).unwrap();
    let mut to = fast_image_resize::images::Image::new(dst_w, dst_h, pt);
    let options = fast_image_resize::ResizeOptions::new().resize_alg(fast_image_resize::ResizeAlg::Nearest);
    fast_image_resize::Resizer::new().resize(&from, &mut to, &options).unwrap();
    to.into_vec()
}

/// Relies on image's `ImageBuffer::from_pixel` for `Rgb<u8>`: a
/// `width x height` buffer in which every pixel is `fill`.
#[verifier::external_body]
fn filled_canvas(width: u32, height: u32, fill: [u8; 3]) -> (r: Vec<u8>)
    requires
        3 * (width as int) * (height as int) <= usize::MAX,
    ensures
        r.len() == 3 * (width as int) * (height as int),
        forall|i: int| 0 <= i < r.len() ==> r[i] == fill[i % 3],
{
    image::RgbImage::from_pixel(width, height, image::Rgb(fill)).into_raw()
}

/// Relies on image's `imageops::overlay` for `Rgb<u8>` buffers, which copies
/// every pixel of `top` that falls inside `canvas` to position
/// `(x + column, y + row)` and leaves the other pixels of `canvas` as they were.
#[verifier::external_body]
fn overlay_rgb(canvas: &mut Vec<u8>, cw: u32, ch: u32, top: &Vec<u8>, tw: u32, th: u32, x: u32, y: u32)
    requires
        old(canvas).len() == 3 * (cw as int) * (ch as int),
        top.len() == 3 * (tw as int) * (th as int),
        x + tw <= cw,
        y + th <= ch,
    ensures
        final(canvas).len() == old(canvas).len(),
        forall|r: int, c: int, k: int|
            0 <= r < ch && 0 <= c < cw && 0 <= k < 3 ==> #[trigger] final(canvas)[3 * (r * cw + c) + k] == if x <= c < x + tw && y <= r < y + th {
                top[3 * ((r - y) * tw + (c - x)) + k]
            } else {
                old(canvas)[3 * (r * cw + c) + k]
            },
{
    let mut bottom = image::RgbImage::from_raw(cw, ch, std::mem::take(canvas)).unwrap();
    let upper = image::ImageBuffer::<image::Rgb<u8>, &[u8]>::from_raw(tw, th, top.as_slice()).unwrap();
    image::imageops::overlay(&mut bottom, &upper, x as i64, y as i64);
    *canvas = bottom.into_raw();
}

/// A mean in units of `1 / FIXED_ONE` scaled to byte range, truncated and
/// saturated at 255.
pub open spec fn fill_value(mean: u32) -> u8 {
    let v = (mean as int) * 255 / (FIXED_ONE as int);
    if v > 255 { 255 } else { v as u8 }
}

/// The padding color of `cfg`: its mean in byte range.
pub open spec fn fill_color(cfg: PreprocessConfig) -> [u8; 3] {
    [fill_value(cfg.mean[0]), fill_value(cfg.mean[1]), fill_value(cfg.mean[2])]
}

/// Channel `k` of the canvas pixel at row `r`, column `c`: taken from the
/// resized image where it was placed, the padding color elsewhere.
pub open spec fn canvas_pixel(resized: Seq<u8>, g: Letterbox, fill: [u8; 3], r: int, c: int, k: int) -> u8 {
    if g.x_offset <= c < g.x_offset + g.resized_w && g.y_offset <= r < g.y_offset + g.resized_h {
        resized[3 * ((r - g.y_offset) * g.resized_w + (c - g.x_offset)) + k]
    } else {
        fill[k]
    }
}

/// The letterboxed channel-first planes of `img` under `cfg`: entry
/// `k * (height * width) + r * width + c` is channel `k` of canvas pixel
/// `(r, c)`.
pub open spec fn letterboxed(img: RawImage, cfg: PreprocessConfig, planes: Seq<u8>) -> bool {
    let g = Letterbox::spec_of(img.width as nat, img.height as nat, cfg.width as nat, cfg.height as nat);
    let resized = resized_pixels(img.data@, img.width, img.height, g.resized_w, g.resized_h);
    let hw = (cfg.height as int) * (cfg.width as int);
    &&& planes.len() == 3 * hw
    &&& forall|k: int, r: int, c: int|
        0 <= k < 3 && 0 <= r < cfg.height && 0 <= c < cfg.width ==> #[trigger] planes[k * hw + r * cfg.width + c]
            == canvas_pixel(resized, g, fill_color(cfg), r, c, k)
}

fn fill_value_exec(mean: u32) -> (r: u8)
    ensures
        r == fill_value(mean),
{
    let v: u64 = (mean as u64) * 255 / (FIXED_ONE as u64);
    if v > 255 { 255 } else { v as u8 }
}

proof fn lemma_row_major(r: int, c: int, w: int, h: int)
    requires
        0 <= r < h,
        0 <= c < w,
    ensures
        0 <= r * w + c < h * w,
{
    assert(0 <= r * w + c < h * w) by (nonlinear_arith)
        requires
            0 <= r < h,
            0 <= c < w,
    {
    }
}

/// Reorders a row-major RGB buffer of `w x h` pixels into three planes,
/// one per channel.
fn to_channel_first(canvas: &Vec<u8>, w: u32, h: u32) -> (out: Vec<u8>)
    requires
        canvas.len() == 3 * (w as int) * (h as int),
    ensures
        out.len() == canvas.len(),
        forall|k: int, r: int, c: int|
            0 <= k < 3 && 0 <= r < h && 0 <= c < w ==> #[trigger] out[k * ((h as int) * (w as int)) + r * w + c]
                == canvas[3 * (r * w + c) + k],
{
    proof {
        assert(3 * (w as int) * (h as int) == 3 * ((h as int) * (w as int))) by (nonlinear_arith);
    }
    let hw: usize = (h as usize) * (w as usize);
    let n: usize = canvas.len();
    assert(n == 3 * hw);
    let mut out: Vec<u8> = Vec::new();
    let mut i: usize = 0;
    while i < n
        invariant
            n == canvas.len(),
            n == 3 * hw,
            hw == (h as int) * (w as int),
            i <= n,
            out.len() == i,
            forall|j: int| 0 <= j < i ==> #[trigger] out[j] == canvas[3 * (j % hw as int) + j / hw as int],
        decreases n - i,
    {
        assert(hw > 0);
        proof {
            let ii = i as int;
            let hh = hw as int;
            vstd::arithmetic::div_mod::lemma_fundamental_div_mod(ii, hh);
            vstd::arithmetic::div_mod::lemma_mod_bound(ii, hh);
            let qq = ii / hh;
            let rr = ii % hh;
            assert(qq < 3) by (nonlinear_arith)
                requires
                    ii == hh * qq + rr,
                    0 <= rr < hh,
                    ii < 3 * hh,
            {
            }
            assert(qq >= 0) by (nonlinear_arith)
                requires
                    ii == hh * qq + rr,
                    0 <= rr < hh,
                    ii >= 0,
            {
            }
            assert(3 * rr + qq < 3 * hh);
        }
        out.push(canvas[3 * (i % hw) + i / hw]);
        i = i + 1;
    }
    proof {
        assert forall|k: int, r: int, c: int|
            0 <= k < 3 && 0 <= r < h && 0 <= c < w implies #[trigger] out[k * ((h as int) * (w as int)) + r * w + c]
                == canvas[3 * (r * w + c) + k] by {
            let rem = r * w + c;
            lemma_row_major(r, c, w as int, h as int);
            let j = k * (hw as int) + rem;
            assert(0 <= k * (hw as int) <= 2 * (hw as int)) by (nonlinear_arith)
                requires
                    0 <= k < 3,
                    hw >= 0,
            {
            }
            vstd::arithmetic::div_mod::lemma_fundamental_div_mod_converse(j, hw as int, k, rem);
        }
    }
    out
}

/// The preprocessed batch: one channel-first plane set per image and the
/// offsets at which each resized image was placed, in input order.
#[derive(Clone, Debug)]
pub struct PaddedBatch {
    pub planes: Vec<Vec<u8>>,
    pub offsets: Vec<(u32, u32)>,
}

/// The offsets of the letterbox placement of `img` under `cfg`.
pub open spec fn offsets_of(img: RawImage, cfg: PreprocessConfig) -> (u32, u32) {
    let g = Letterbox::spec_of(img.width as nat, img.height as nat, cfg.width as nat, cfg.height as nat);
    (g.x_offset, g.y_offset)
}

/// An image with no pixels along some side.
pub open spec fn degenerate(img: RawImage) -> bool {
    img.width == 0 || img.height == 0
}

/// The letterbox preprocessor.
#[derive(Clone, Copy, Debug)]
pub struct Processor {
    pub config: PreprocessConfig,
}

impl Processor {
    pub fn new(config: PreprocessConfig) -> (r: Self)
        ensures
            r.config == config,
    {
        Self { config }
    }

    /// Letterboxes one image: scaled by `min(width / orig_w, height / orig_h)`
    /// with each side rounded down, centered on a canvas of the mean color,
    /// and laid out channel-first. Returns the planes and the offsets of the
    /// placement. Fails exactly when the image has no pixels.
    pub fn letterbox_image(&self, x: &RawImage) -> (r: Result<(Vec<u8>, (u32, u32)), PipelineError>)
        requires
            self.config.wf(),
            x.wf(),
        ensures
            !degenerate(*x) ==> r is Ok,
            match r {
                Ok((planes, off)) => {
                    &&& !degenerate(*x)
                    &&& letterboxed(*x, self.config, planes@)
                    &&& off == offsets_of(*x, self.config)
                },
                Err(e) => degenerate(*x) && e == PipelineError::InvalidInput,
            },
    {
        if x.width == 0 || x.height == 0 {
            return Err(PipelineError::InvalidInput);
        }
        let cfg = self.config;
        let g = letterbox_geometry(x.width, x.height, cfg.width, cfg.height);
        let resized = resize_rgb(x, g.resized_w, g.resized_h);
        let fill: [u8; 3] = [fill_value_exec(cfg.mean[0]), fill_value_exec(cfg.mean[1]), fill_value_exec(cfg.mean[2])];
        let mut canvas = filled_canvas(cfg.width, cfg.height, fill);
        let ghost blank = canvas@;
        overlay_rgb(&mut canvas, cfg.width, cfg.height, &resized, g.resized_w, g.resized_h, g.x_offset, g.y_offset);
        let planes = to_channel_first(&canvas, cfg.width, cfg.height);
        assert(resized@ == resized_pixels(x.data@, x.width, x.height, g.resized_w, g.resized_h));
        proof {
            let w = cfg.width as int;
            let h = cfg.height as int;
            assert(3 * w * h == 3 * (h * w)) by (nonlinear_arith);
            assert forall|k: int, r: int, c: int|
                0 <= k < 3 && 0 <= r < h && 0 <= c < w implies #[trigger] planes@[k * (h * w) + r * w + c]
                    == canvas_pixel(resized@, g, fill_color(cfg), r, c, k) by {
                assert(planes@[k * (h * w) + r * w + c] == canvas@[3 * (r * w + c) + k]);
                lemma_row_major(r, c, w, h);
                let i = 3 * (r * w + c) + k;
                assert(3 * (r * w + c) + k < 3 * w * h) by (nonlinear_arith)
                    requires
                        0 <= r * w + c < h * w,
                        0 <= k < 3,
                {
                }
                vstd::arithmetic::div_mod::lemma_fundamental_div_mod_converse(i, 3, r * w + c, k);
                assert(blank[i] == fill[k]);
                assert(fill[k] == fill_color(cfg)[k]);
            }
            assert(letterboxed(*x, cfg, planes@));
        }
        Ok((planes, (g.x_offset, g.y_offset)))
    }

    /// Letterboxes a non-empty batch of images, keeping their order. Fails
    /// with `InvalidInput` exactly when the batch is empty or an image has no
    /// pixels.
    pub fn preprocess(&self, xs: &Vec<RawImage>) -> (r: Result<PaddedBatch, PipelineError>)
        requires
            self.config.wf(),
            forall|i: int| 0 <= i < xs.len() ==> (#[trigger] xs[i]).wf(),
        ensures
            xs.len() > 0 && (forall|i: int| 0 <= i < xs.len() ==> !degenerate(#[trigger] xs[i])) ==> r is Ok,
            match r {
                Ok(b) => {
                    &&& xs.len() > 0
                    &&& b.planes.len() == xs.len()
                    &&& b.offsets.len() == xs.len()
                    &&& forall|i: int| 0 <= i < xs.len() ==> {
                        &&& !degenerate(#[trigger] xs[i])
                        &&& letterboxed(xs[i], self.config, b.planes[i]@)
                        &&& b.offsets[i] == offsets_of(xs[i], self.config)
                    }
                },
                Err(e) => {
                    &&& (xs.len() == 0 || exists|i: int| 0 <= i < xs.len() && degenerate(#[trigger] xs[i]))
                    &&& e == PipelineError::InvalidInput
                },
            },
    {
        if xs.len() == 0 {
            return Err(PipelineError::InvalidInput);
        }
        let mut i: usize = 0;
        while i < xs.len()
            invariant
                i <= xs.len(),
                forall|j: int| 0 <= j < i ==> !degenerate(#[trigger] xs[j]),
            decreases xs.len() - i,
        {
            if xs[i].width == 0 || xs[i].height == 0 {
                return Err(PipelineError::InvalidInput);
            }
            i = i + 1;
        }
        let mut planes: Vec<Vec<u8>> = Vec::new();
        let mut offsets: Vec<(u32, u32)> = Vec::new();
        let mut i: usize = 0;
        while i < xs.len()
            invariant
                self.config.wf(),
                forall|j: int| 0 <= j < xs.len() ==> (#[trigger] xs[j]).wf(),
                forall|j: int| 0 <= j < xs.len() ==> !degenerate(#[trigger] xs[j]),
                i <= xs.len(),
                planes.len() == i,
                offsets.len() == i,
                forall|j: int| 0 <= j < i ==> {
                    &&& letterboxed(#[trigger] xs[j], self.config, planes[j]@)
                    &&& offsets[j] == offsets_of(xs[j], self.config)
                },
            decreases xs.len() - i,
        {
            match self.letterbox_image(&xs[i]) {
                Ok((p, off)) => {
                    planes.push(p);
                    offsets.push(off);
                },
                Err(e) => {
                    return Err(e);
                },
            }
            i = i + 1;
        }
        Ok(PaddedBatch { planes, offsets })
    }
}

} // verus!
