//! Camera frames: what a `camera` node's texture shows of the newest
//! capture.
//!
//! A frame is a tightly packed RGBA8 colour plane with an optional depth
//! plane, which may be smaller than the colour plane. A node shows the
//! colour, the depth as grey, or the colour with depth as alpha, optionally
//! mirrored left to right.
use vstd::prelude::*;

use vstd::arithmetic::div_mod::{
    lemma_fundamental_div_mod, lemma_fundamental_div_mod_converse, lemma_mod_pos_bound,
    lemma_multiply_divide_lt,
};
use vstd::arithmetic::mul::lemma_mul_strict_inequality;

use crate::args::{parse_u32, parse_uint_spec};
use crate::text::{chars_of, split_once_char, split_once_char_exec, strip_prefix, strip_prefix_exec};

verus! {

/// Depth in device units (millimetres for the sensors expected); 0 means
/// unknown.
#[derive(Clone, Debug)]
pub struct DepthPlane {
    pub width: u32,
    pub height: u32,
    /// Row-major samples.
    pub data: Vec<u16>,
    /// Value shown at full brightness (or full alpha).
    pub range: u16,
}

/// One captured frame: tightly packed RGBA8 plus an optional depth plane.
#[derive(Clone, Debug)]
pub struct Frame {
    pub width: u32,
    pub height: u32,
    pub rgba: Vec<u8>,
    pub depth: Option<DepthPlane>,
}

/// What a camera node shows.
#[derive(Clone, Copy, Debug, PartialEq, Eq, Structural)]
pub enum Output {
    /// The colour plane, opaque.
    Colour,
    /// The depth plane as grey, opaque.
    Depth,
    /// The colour plane with depth as alpha.
    ColourDepthAlpha,
}

/// `v`, or 1 in place of 0.
pub open spec fn at_least_one(v: int) -> int {
    if v == 0 {
        1
    } else {
        v
    }
}

/// The depth column under colour column `x`.
pub open spec fn depth_col(frame: Frame, d: DepthPlane, x: int) -> int {
    x * d.width / at_least_one(frame.width as int)
}

/// The depth row under colour row `y`.
pub open spec fn depth_row(frame: Frame, d: DepthPlane, y: int) -> int {
    y * d.height / at_least_one(frame.height as int)
}

/// Index of the depth sample under colour pixel (`x`, `y`).
pub open spec fn depth_index(frame: Frame, d: DepthPlane, x: int, y: int) -> int {
    depth_row(frame, d, y) * d.width + depth_col(frame, d, x)
}

/// The depth sample under colour pixel (`x`, `y`) can be read: its index is
/// a sample of the plane and fits in a `u32`.
pub open spec fn depth_readable(frame: Frame, x: int, y: int) -> bool {
    match frame.depth {
        None => true,
        Some(d) => depth_index(frame, d, x, y) < d.data@.len() && depth_index(frame, d, x, y) <= u32::MAX,
    }
}

/// A depth sample scaled to 0..=255: 0 stays 0 (unknown), `range` and beyond
/// are 255.
pub open spec fn scale_depth(v: u16, range: u16) -> u8 {
    if v == 0 {
        0
    } else {
        let m: int = if v < range {
            v as int
        } else {
            range as int
        };
        (m * 255 / at_least_one(range as int)) as u8
    }
}

/// Depth at colour pixel (`x`, `y`) scaled to 0..=255, or 255 (near) when
/// the frame has no depth, so that depth as alpha degrades to plain colour.
pub open spec fn depth_at(frame: Frame, x: int, y: int) -> u8 {
    match frame.depth {
        None => 255,
        Some(d) => scale_depth(d.data@[depth_index(frame, d, x, y)], d.range),
    }
}

proof fn lemma_scaled_below(x: int, f: int, d: int)
    requires
        0 <= x < f,
        0 <= d,
    ensures
        0 <= x * d / f,
        d > 0 ==> x * d / f < d,
        d == 0 ==> x * d / f == 0,
{
    assert(0 <= x * d) by (nonlinear_arith)
        requires
            0 <= x,
            0 <= d,
    ;
    assert(0 <= x * d / f) by (nonlinear_arith)
        requires
            0 <= x * d,
            0 < f,
    ;
    if d > 0 {
        lemma_mul_strict_inequality(x, f, d);
        assert(f * d == d * f) by (nonlinear_arith);
        lemma_multiply_divide_lt(x * d, f, d);
    } else {
        assert(x * d == 0);
    }
}

/// Depth at colour pixel (`x`, `y`), scaled to 0..=255, or 255 without a
/// depth plane.
pub fn depth8(frame: &Frame, x: u32, y: u32) -> (r: u8)
    requires
        x < frame.width,
        y < frame.height,
        depth_readable(*frame, x as int, y as int),
    ensures
        r == depth_at(*frame, x as int, y as int),
{
    match &frame.depth {
        None => 255,
        Some(d) => {
            proof {
                lemma_scaled_below(x as int, frame.width as int, d.width as int);
                lemma_scaled_below(y as int, frame.height as int, d.height as int);
                assert(x as int * d.width as int <= u64::MAX) by (nonlinear_arith)
                    requires
                        x <= u32::MAX,
                        d.width <= u32::MAX,
                ;
                assert(y as int * d.height as int <= u64::MAX) by (nonlinear_arith)
                    requires
                        y <= u32::MAX,
                        d.height <= u32::MAX,
                ;
            }
            let dx = (x as u64 * d.width as u64 / frame.width as u64) as u32;
            let dy = (y as u64 * d.height as u64 / frame.height as u64) as u32;
            proof {
                assert(0 <= dy as int * d.width as int) by (nonlinear_arith)
                    requires
                        0 <= dy,
                        0 <= d.width,
                ;
            }
            let i = dy * d.width + dx;
            let v = d.data[i as usize];
            if v == 0 {
                return 0;
            }
            let m: u32 = if v < d.range {
                v as u32
            } else {
                d.range as u32
            };
            let r: u32 = if d.range == 0 {
                1
            } else {
                d.range as u32
            };
            ((m * 255) / r) as u8
        },
    }
}

/// Everything a frame must hold for [`compose`] to read it: the pixel count
/// times four fits in a `u32`, the colour plane covers every pixel it reads,
/// and every depth sample it reads exists.
pub open spec fn composable(frame: Frame, output: Output) -> bool {
    let n = frame.width * frame.height;
    &&& n * 4 <= u32::MAX
    &&& (output != Output::Depth && n > 0) ==> frame.rgba@.len() >= n * 4 - 1
    &&& output != Output::Colour ==> forall|x: int, y: int|
        0 <= x < frame.width && 0 <= y < frame.height ==> #[trigger] depth_readable(frame, x, y)
}

/// The colour column that colour pixel column `x` shows.
pub open spec fn source_col(frame: Frame, mirror: bool, x: int) -> int {
    if mirror {
        frame.width - 1 - x
    } else {
        x
    }
}

/// Channel `c` (red, green, blue, alpha) of pixel `q`, counted row by row.
pub open spec fn pixel_byte(frame: Frame, output: Output, mirror: bool, q: int, c: int) -> u8 {
    let w = frame.width as int;
    let x = q % w;
    let y = q / w;
    let sx = source_col(frame, mirror, x);
    let src = (y * w + sx) * 4;
    match output {
        Output::Colour => if c < 3 {
            frame.rgba@[src + c]
        } else {
            255
        },
        Output::Depth => if c < 3 {
            depth_at(frame, sx, y)
        } else {
            255
        },
        Output::ColourDepthAlpha => if c < 3 {
            frame.rgba@[src + c]
        } else {
            depth_at(frame, sx, y)
        },
    }
}

/// The texture a node shows of `frame`: width, height and RGBA8 pixels.
pub fn compose(frame: &Frame, output: Output, mirror: bool) -> (r: (u32, u32, Vec<u8>))
    requires
        composable(*frame, output),
    ensures
        r.0 == frame.width,
        r.1 == frame.height,
        r.2@.len() == frame.width * frame.height * 4,
        forall|q: int, c: int|
            0 <= q < frame.width * frame.height && 0 <= c < 4 ==> r.2@[4 * q + c] == #[trigger] pixel_byte(
                *frame,
                output,
                mirror,
                q,
                c,
            ),
{
    let w = frame.width;
    let h = frame.height;
    let n = w * h;
    let mut out: Vec<u8> = Vec::new();
    let mut q: u32 = 0;
    while q < n
        invariant
            composable(*frame, output),
            n == w * h,
            w == frame.width,
            h == frame.height,
            q <= n,
            out@.len() == 4 * q,
            forall|p: int, c: int|
                0 <= p < q && 0 <= c < 4 ==> out@[4 * p + c] == #[trigger] pixel_byte(*frame, output, mirror, p, c),
        decreases n - q,
    {
        proof {
            let qi = q as int;
            let wi = w as int;
            assert(wi > 0) by (nonlinear_arith)
                requires
                    qi < wi * h,
                    qi >= 0,
                    wi >= 0,
                    h >= 0,
            ;
            lemma_fundamental_div_mod(qi, wi);
            lemma_mod_pos_bound(qi, wi);
            assert(qi / wi >= 0) by (nonlinear_arith)
                requires
                    qi >= 0,
                    wi > 0,
            ;
            assert(qi / wi < h) by (nonlinear_arith)
                requires
                    qi < wi * h,
                    wi > 0,
                    qi == wi * (qi / wi) + qi % wi,
                    qi % wi >= 0,
            ;
        }
        let x = q % w;
        let y = q / w;
        let sx = if mirror {
            w - 1 - x
        } else {
            x
        };
        proof {
            assert(y as int * w as int + x == q) by (nonlinear_arith)
                requires
                    q == w * y + x,
            ;
            assert((y as int) * (w as int) + (sx as int) < n) by (nonlinear_arith)
                requires
                    sx < w,
                    y < h,
                    n == w * h,
            ;
        }
        let src = ((q - x + sx) * 4) as usize;
        assert(src == (y as int * w as int + sx as int) * 4);
        let ghost base = out@;
        match output {
            Output::Colour => {
                out.push(frame.rgba[src]);
                out.push(frame.rgba[src + 1]);
                out.push(frame.rgba[src + 2]);
                out.push(255);
            },
            Output::Depth => {
                let d = depth8(frame, sx, y);
                out.push(d);
                out.push(d);
                out.push(d);
                out.push(255);
            },
            Output::ColourDepthAlpha => {
                let d = depth8(frame, sx, y);
                out.push(frame.rgba[src]);
                out.push(frame.rgba[src + 1]);
                out.push(frame.rgba[src + 2]);
                out.push(d);
            },
        }
        proof {
            let qi = q as int;
            assert(x as int == qi % (w as int));
            assert(y as int == qi / (w as int));
            assert(out@[4 * qi] == pixel_byte(*frame, output, mirror, qi, 0));
            assert(out@[4 * qi + 1] == pixel_byte(*frame, output, mirror, qi, 1));
            assert(out@[4 * qi + 2] == pixel_byte(*frame, output, mirror, qi, 2));
            assert(out@[4 * qi + 3] == pixel_byte(*frame, output, mirror, qi, 3));
            assert forall|p: int, c: int| 0 <= p < q + 1 && 0 <= c < 4 implies out@[4 * p + c]
                == #[trigger] pixel_byte(*frame, output, mirror, p, c) by {
                if p < qi {
                    assert(out@[4 * p + c] == base[4 * p + c]);
                } else {
                    assert(p == qi);
                }
            }
        }
        q = q + 1;
    }
    (w, h, out)
}

/// Mirroring swaps columns and nothing else: every channel of pixel
/// (`x`, `y`) of a mirrored picture, the depth shown or used as alpha
/// included, is that channel of pixel (`width - 1 - x`, `y`) of the same
/// picture unmirrored.
pub proof fn law_mirror_swaps_columns(frame: Frame, output: Output, x: int, y: int, c: int)
    requires
        0 <= x < frame.width,
        0 <= y < frame.height,
        0 <= c < 4,
    ensures
        pixel_byte(frame, output, true, y * frame.width + x, c) == pixel_byte(
            frame,
            output,
            false,
            y * frame.width + (frame.width - 1 - x),
            c,
        ),
{
    let w = frame.width as int;
    lemma_fundamental_div_mod_converse(y * w + x, w, y, x);
    lemma_fundamental_div_mod_converse(y * w + (w - 1 - x), w, y, w - 1 - x);
}

/// The three outputs agree where they overlap: colour with depth as alpha
/// has the colour output's colour channels, and its alpha is the grey of the
/// depth output at the same pixel.
pub proof fn law_outputs_agree(frame: Frame, mirror: bool, q: int, c: int)
    requires
        0 <= c < 3,
    ensures
        pixel_byte(frame, Output::ColourDepthAlpha, mirror, q, c) == pixel_byte(frame, Output::Colour, mirror, q, c),
        pixel_byte(frame, Output::ColourDepthAlpha, mirror, q, 3) == pixel_byte(frame, Output::Depth, mirror, q, c),
{
}

/// Width and height of a synthetic device: `synthetic:WxH`, else 640×360.
pub open spec fn synthetic_size_spec(device: Seq<char>) -> (u32, u32) {
    match strip_prefix(device, "synthetic:"@) {
        Some(rest) => match split_once_char(rest, 'x') {
            Some((a, b)) => match (parse_uint_spec(a, u32::MAX as nat), parse_uint_spec(b, u32::MAX as nat)) {
                (Some(w), Some(h)) => (w as u32, h as u32),
                _ => (640, 360),
            },
            None => (640, 360),
        },
        None => (640, 360),
    }
}

/// Size of the test picture a synthetic device draws.
pub fn synthetic_size(device: &str) -> (r: (u32, u32))
    ensures
        r == synthetic_size_spec(device@),
{
    let d = chars_of(device);
    match strip_prefix_exec(&d, "synthetic:") {
        Some(rest) => match split_once_char_exec(&rest, 'x') {
            Some((a, b)) => match (parse_u32(&a), parse_u32(&b)) {
                (Some(w), Some(h)) => (w, h),
                _ => (640, 360),
            },
            None => (640, 360),
        },
        None => (640, 360),
    }
}

/// The device a camera node reads: a non-empty override replaces the one the
/// graph names.
pub fn chosen_device(device: &str, overridden: Option<&str>) -> (r: String)
    ensures
        r@ == match overridden {
            Some(o) => if o@.len() > 0 {
                o@
            } else {
                device@
            },
            None => device@,
        },
{
    match overridden {
        Some(o) => if chars_of(o).len() > 0 {
            o.to_string()
        } else {
            device.to_string()
        },
        None => device.to_string(),
    }
}

} // verus!
