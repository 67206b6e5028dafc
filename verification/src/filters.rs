//! The image-filter pipeline: pure transforms on decoded images. Each filter
//! is a function of its input image alone and can run concurrently with any
//! other.

use vstd::prelude::*;

use crate::colors::{bias_match, spec_parse_hex_color};
use crate::img::{
    gray_of_rgb, image_gray, image_rgb, luma, to_gray, to_rgb, GrayImage, Image, RgbImage,
};
use crate::skeleton::skel_spec;

verus! {

/// A fixed threshold applied to gray pixels: white at or above it, black
/// below.
pub open spec fn thresh_seq(s: Seq<u8>, threshold: u8) -> Seq<u8> {
    Seq::new(
        s.len(),
        |i: int|
            if s[i] >= threshold {
                255u8
            } else {
                0u8
            },
    )
}

/// The truncating RGB average of pixel `i` of an RGB byte sequence.
pub open spec fn rgb_avg(s: Seq<u8>, i: int) -> int {
    (s[3 * i] + s[3 * i + 1] + s[3 * i + 2]) / 3
}

/// White where the truncating RGB average lies in `[min, max]`, black
/// elsewhere.
pub open spec fn avg_mask(s: Seq<u8>, n: int, min: u8, max: u8) -> Seq<u8> {
    Seq::new(
        n as nat,
        |i: int|
            if min <= rgb_avg(s, i) <= max {
                255u8
            } else {
                0u8
            },
    )
}

/// Every byte replaced by its complement.
pub open spec fn invert_seq(s: Seq<u8>) -> Seq<u8> {
    Seq::new(s.len(), |i: int| (255 - s[i]) as u8)
}

/// Inverting twice gives the original bytes back, exactly.
pub proof fn lemma_invert_involution(s: Seq<u8>)
    ensures
        invert_seq(invert_seq(s)) == s,
{
    assert(invert_seq(invert_seq(s)) =~= s);
}

/// White where the pixel matches the target within the per-channel bias,
/// black elsewhere.
pub open spec fn keep_seq(s: Seq<u8>, n: int, target: (u8, u8, u8), bias: (u8, u8, u8)) -> Seq<
    u8,
> {
    Seq::new(
        n as nat,
        |i: int|
            if bias_match(
                seq![s[3 * i], s[3 * i + 1], s[3 * i + 2]],
                seq![target.0, target.1, target.2],
                seq![bias.0, bias.1, bias.2],
            ) {
                255u8
            } else {
                0u8
            },
    )
}

/// Whether the pixel's predicate holds somewhere in the 3 by 3 window around
/// `(x, y)`, clipped to the image: a zero byte when probing for background,
/// a non-zero byte when probing for foreground.
pub open spec fn window_has(s: Seq<u8>, w: int, h: int, x: int, y: int, bg: bool) -> bool {
    exists|q: (int, int)|
        {
            &&& 0 <= q.0 < w
            &&& 0 <= q.1 < h
            &&& -1 <= q.0 - x <= 1
            &&& -1 <= q.1 - y <= 1
            &&& #[trigger] cell_is(s, w, q, bg)
        }
}

/// Whether a cell's byte is background (zero) or foreground (non-zero).
pub open spec fn cell_is(s: Seq<u8>, w: int, q: (int, int), bg: bool) -> bool {
    if bg {
        s[q.1 * w + q.0] == 0
    } else {
        s[q.1 * w + q.0] > 0
    }
}

/// Dilation with the 3 by 3 square element: white within one step of a
/// foreground pixel, black elsewhere.
pub open spec fn dilate_seq(s: Seq<u8>, w: int, h: int) -> Seq<u8> {
    Seq::new(
        s.len(),
        |i: int|
            if window_has(s, w, h, i % w, i / w, false) {
                255u8
            } else {
                0u8
            },
    )
}

/// Erosion with the 3 by 3 square element: black within one step of a
/// background pixel, white elsewhere.
pub open spec fn erode_seq(s: Seq<u8>, w: int, h: int) -> Seq<u8> {
    Seq::new(
        s.len(),
        |i: int|
            if window_has(s, w, h, i % w, i / w, true) {
                0u8
            } else {
                255u8
            },
    )
}

proof fn lemma_divmod(w: int, h: int, i: int)
    requires
        w > 0,
        0 <= i < w * h,
    ensures
        0 <= i % w < w,
        0 <= i / w < h,
        (i / w) * w + i % w == i,
{
    assert(0 <= i % w < w && 0 <= i / w < h && (i / w) * w + i % w == i) by (nonlinear_arith)
        requires
            w > 0,
            0 <= i < w * h,
    ;
}

/// Probes the clipped 3 by 3 window around `(x, y)` for a background or
/// foreground byte.
#[verifier::loop_isolation(false)]
fn window_probe(g: &GrayImage, x: u32, y: u32, bg: bool) -> (r: bool)
    requires
        g.valid(),
        x < g.width,
        y < g.height,
    ensures
        r == window_has(g.data@, g.width as int, g.height as int, x as int, y as int, bg),
{
    let ghost s = g.data@;
    let ghost ww = g.width as int;
    let ghost hh = g.height as int;
    let xs: u32 = if x > 0 {
        x - 1
    } else {
        0
    };
    let ys: u32 = if y > 0 {
        y - 1
    } else {
        0
    };
    let xe: u32 = if x + 1 < g.width {
        x + 1
    } else {
        g.width - 1
    };
    let ye: u32 = if y + 1 < g.height {
        y + 1
    } else {
        g.height - 1
    };
    let mut yy: u32 = ys;
    while yy <= ye
        invariant
            ys <= yy <= ye + 1,
            forall|q: (int, int)|
                0 <= q.0 < ww && 0 <= q.1 < hh && -1 <= q.0 - x <= 1 && -1 <= q.1 - y <= 1 && q.1
                    < yy ==> !#[trigger] cell_is(s, ww, q, bg),
        decreases ye + 1 - yy,
    {
        let mut xx: u32 = xs;
        while xx <= xe
            invariant
                xs <= xx <= xe + 1,
                ys <= yy <= ye,
                forall|q: (int, int)|
                    0 <= q.0 < ww && 0 <= q.1 < hh && -1 <= q.0 - x <= 1 && -1 <= q.1 - y <= 1
                        && q.1 < yy ==> !#[trigger] cell_is(s, ww, q, bg),
                forall|q: (int, int)|
                    0 <= q.0 < ww && 0 <= q.1 < hh && -1 <= q.0 - x <= 1 && -1 <= q.1 - y <= 1
                        && q.1 == yy && q.0 < xx ==> !#[trigger] cell_is(s, ww, q, bg),
            decreases xe + 1 - xx,
        {
            let v = g.get_px(xx, yy);
            let hit = if bg {
                v == 0
            } else {
                v > 0
            };
            if hit {
                proof {
                    assert(cell_is(s, ww, (xx as int, yy as int), bg));
                }
                return true;
            }
            xx = xx + 1;
        }
        yy = yy + 1;
    }
    false
}

/// Binarizes with a fixed threshold: the image is reduced to grayscale, then
/// each pixel becomes white at or above the threshold and black below it.
pub fn binarize(img: &Image, threshold_val: u8) -> (r: Image)
    requires
        img.valid(),
    ensures
        r matches Image::Gray(g) && g.valid() && g.width == img.spec_width() && g.height
            == img.spec_height() && g.data@ == thresh_seq(image_gray(*img), threshold_val),
{
    let gray = to_gray(img);
    let n = gray.data.len();
    let mut data: Vec<u8> = Vec::new();
    let mut i: usize = 0;
    while i < n
        invariant
            0 <= i <= n,
            n == gray.data@.len(),
            data@.len() == i,
            forall|j: int| 0 <= j < i ==> data@[j] == thresh_seq(gray.data@, threshold_val)[j],
        decreases n - i,
    {
        let v = gray.data[i];
        data.push(
            if v >= threshold_val {
                255
            } else {
                0
            },
        );
        i = i + 1;
    }
    proof {
        assert(data@ =~= thresh_seq(gray.data@, threshold_val));
    }
    Image::Gray(GrayImage { width: gray.width, height: gray.height, data })
}

/// Binarizes by RGB average: white where the truncating per-pixel average of
/// the three channels lies in `[min, max]`, black elsewhere.
pub fn binarize_rgb_avg(img: &Image, min: u8, max: u8) -> (r: Image)
    requires
        img.valid(),
    ensures
        r matches Image::Gray(g) && g.valid() && g.width == img.spec_width() && g.height
            == img.spec_height() && g.data@ == avg_mask(
            image_rgb(*img),
            img.spec_width() * img.spec_height(),
            min,
            max,
        ),
{
    let rgb = to_rgb(img);
    let ghost n = (rgb.width * rgb.height) as int;
    let len = rgb.data.len();
    let count: usize = len / 3;
    proof {
        assert(len / 3 == n) by (nonlinear_arith)
            requires
                len == 3 * n,
                n >= 0,
        ;
    }
    let mut data: Vec<u8> = Vec::new();
    let mut i: usize = 0;
    while i < count
        invariant
            0 <= i <= count,
            count == n,
            len == rgb.data@.len(),
            rgb.data@.len() == 3 * n,
            data@.len() == i,
            forall|j: int| 0 <= j < i ==> data@[j] == avg_mask(rgb.data@, n, min, max)[j],
        decreases count - i,
    {
        let sum: u16 = rgb.data[3 * i] as u16 + rgb.data[3 * i + 1] as u16 + rgb.data[3 * i
            + 2] as u16;
        let avg: u8 = (sum / 3) as u8;
        data.push(
            if avg >= min && avg <= max {
                255
            } else {
                0
            },
        );
        i = i + 1;
    }
    proof {
        assert(data@ =~= avg_mask(rgb.data@, n, min, max));
    }
    Image::Gray(GrayImage { width: rgb.width, height: rgb.height, data })
}

/// Reduces the image to a single luma channel.
pub fn grayscale(img: &Image) -> (r: Image)
    requires
        img.valid(),
    ensures
        r matches Image::Gray(g) && g.valid() && g.width == img.spec_width() && g.height
            == img.spec_height() && g.data@ == image_gray(*img),
{
    Image::Gray(to_gray(img))
}

/// Inverts every channel of every pixel: an involution.
pub fn invert(img: &Image) -> (r: Image)
    requires
        img.valid(),
    ensures
        r.valid(),
        r is Gray <==> img is Gray,
        r.spec_width() == img.spec_width(),
        r.spec_height() == img.spec_height(),
        r.spec_data() == invert_seq(img.spec_data()),
{
    let src: &Vec<u8> = match img {
        Image::Gray(g) => &g.data,
        Image::Rgb(c) => &c.data,
    };
    let n = src.len();
    let mut data: Vec<u8> = Vec::new();
    let mut i: usize = 0;
    while i < n
        invariant
            0 <= i <= n,
            n == src@.len(),
            data@.len() == i,
            forall|j: int| 0 <= j < i ==> data@[j] == invert_seq(src@)[j],
        decreases n - i,
    {
        data.push(255 - src[i]);
        i = i + 1;
    }
    proof {
        assert(data@ =~= invert_seq(src@));
    }
    match img {
        Image::Gray(g) => Image::Gray(GrayImage { width: g.width, height: g.height, data }),
        Image::Rgb(c) => Image::Rgb(RgbImage { width: c.width, height: c.height, data }),
    }
}

/// Removes noise with a median filter of the given window radius, on the
/// grayscale image. The radius is bounded so that the filter's window area
/// fits 32 bits.
pub fn denoise(img: &Image, radius: u32) -> (r: Image)
    requires
        img.valid(),
        img.spec_width() + radius <= i32::MAX,
        img.spec_height() + radius <= i32::MAX,
        radius <= 32767,
    ensures
        r matches Image::Gray(g) && g.valid() && g.width == img.spec_width() && g.height
            == img.spec_height() && g.data@ == crate::codec::median_of(
            image_gray(*img),
            img.spec_width(),
            img.spec_height(),
            radius,
        ),
{
    let gray = to_gray(img);
    Image::Gray(crate::codec::median_gray(&gray, radius))
}

/// Grows foreground regions by one step of 3 by 3 dilation, on the grayscale
/// image.
pub fn dilate_filter(img: &Image) -> (r: Image)
    requires
        img.valid(),
    ensures
        r matches Image::Gray(g) && g.valid() && g.width == img.spec_width() && g.height
            == img.spec_height() && g.data@ == dilate_seq(
            image_gray(*img),
            img.spec_width() as int,
            img.spec_height() as int,
        ),
{
    morph(img, false)
}

/// Shrinks foreground regions by one step of 3 by 3 erosion, on the
/// grayscale image.
pub fn erode_filter(img: &Image) -> (r: Image)
    requires
        img.valid(),
    ensures
        r matches Image::Gray(g) && g.valid() && g.width == img.spec_width() && g.height
            == img.spec_height() && g.data@ == erode_seq(
            image_gray(*img),
            img.spec_width() as int,
            img.spec_height() as int,
        ),
{
    morph(img, true)
}

/// One morphology step on the grayscale image: erosion probes the window for
/// background, dilation for foreground.
#[verifier::loop_isolation(false)]
fn morph(img: &Image, erode: bool) -> (r: Image)
    requires
        img.valid(),
    ensures
        r matches Image::Gray(g) && g.valid() && g.width == img.spec_width() && g.height
            == img.spec_height() && g.data@ == (if erode {
            erode_seq(image_gray(*img), img.spec_width() as int, img.spec_height() as int)
        } else {
            dilate_seq(image_gray(*img), img.spec_width() as int, img.spec_height() as int)
        }),
{
    let gray = to_gray(img);
    let ghost s = gray.data@;
    let ghost ww = gray.width as int;
    let ghost hh = gray.height as int;
    let w = gray.width;
    let n = gray.data.len();
    let mut data: Vec<u8> = Vec::new();
    let mut i: usize = 0;
    while i < n
        invariant
            0 <= i <= n,
            n == s.len(),
            s.len() == ww * hh,
            data@.len() == i,
            forall|j: int|
                0 <= j < i ==> data@[j] == (if erode {
                    erode_seq(s, ww, hh)[j]
                } else {
                    dilate_seq(s, ww, hh)[j]
                }),
        decreases n - i,
    {
        proof {
            assert(ww > 0) by (nonlinear_arith)
                requires
                    ww * hh > i >= 0,
                    hh >= 0,
            ;
            lemma_divmod(ww, hh, i as int);
        }
        let x: u32 = (i % (w as usize)) as u32;
        let y: u32 = (i / (w as usize)) as u32;
        let hit = window_probe(&gray, x, y, erode);
        let v: u8 = if erode {
            if hit {
                0
            } else {
                255
            }
        } else {
            if hit {
                255
            } else {
                0
            }
        };
        data.push(v);
        i = i + 1;
    }
    proof {
        if erode {
            assert(data@ =~= erode_seq(s, ww, hh));
        } else {
            assert(data@ =~= dilate_seq(s, ww, hh));
        }
    }
    Image::Gray(GrayImage { width: gray.width, height: gray.height, data })
}

/// Thins the (binary) grayscale image to its Zhang-Suen skeleton.
pub fn skeleton(img: &Image) -> (r: Image)
    requires
        img.valid(),
    ensures
        r matches Image::Gray(g) && g.valid() && g.width == img.spec_width() && g.height
            == img.spec_height() && g.data@ == skel_spec(
            image_gray(*img),
            img.spec_width() as int,
            img.spec_height() as int,
        ),
{
    let mut gray = to_gray(img);
    crate::skeleton::apply_skeleton(&mut gray);
    Image::Gray(gray)
}

/// Resamples the image to exactly the target dimensions.
pub fn resize(img: &Image, width: u32, height: u32) -> (r: Image)
    requires
        img.valid(),
        width >= 1,
        height >= 1,
        width * height * img.spec_channels() <= usize::MAX,
        img.spec_width() * height * img.spec_channels() <= usize::MAX,
    ensures
        r.valid(),
        r is Gray <==> img is Gray,
        r.spec_width() == width,
        r.spec_height() == height,
        r.spec_data() == crate::codec::resized(
            img.spec_channels(),
            img.spec_width(),
            img.spec_height(),
            img.spec_data(),
            width,
            height,
        ),
{
    crate::codec::resample(img, width, height)
}

/// Keeps the pixels matching the target color within the per-channel bias:
/// white where the match succeeds, black elsewhere. Both colors are
/// `"#RRGGBB"` strings.
pub fn keep_color(img: &Image, target_hex: &str, bias_hex: &str) -> (r: Image)
    requires
        img.valid(),
    ensures
        r matches Image::Gray(g) && g.valid() && g.width == img.spec_width() && g.height
            == img.spec_height() && g.data@ == keep_seq(
            image_rgb(*img),
            img.spec_width() * img.spec_height(),
            spec_parse_hex_color(target_hex@),
            spec_parse_hex_color(bias_hex@),
        ),
{
    let target = crate::colors::parse_hex_color(target_hex);
    let bias = crate::colors::parse_hex_color(bias_hex);
    let rgb = to_rgb(img);
    let ghost n = (rgb.width * rgb.height) as int;
    let len = rgb.data.len();
    let count: usize = len / 3;
    proof {
        assert(len / 3 == n) by (nonlinear_arith)
            requires
                len == 3 * n,
                n >= 0,
        ;
    }
    let mut data: Vec<u8> = Vec::new();
    let mut i: usize = 0;
    while i < count
        invariant
            0 <= i <= count,
            count == n,
            len == rgb.data@.len(),
            rgb.data@.len() == 3 * n,
            data@.len() == i,
            forall|j: int| 0 <= j < i ==> data@[j] == keep_seq(rgb.data@, n, target, bias)[j],
        decreases count - i,
    {
        let p = [rgb.data[3 * i], rgb.data[3 * i + 1], rgb.data[3 * i + 2]];
        let matched = crate::colors::is_match(p, [target.0, target.1, target.2], [
            bias.0,
            bias.1,
            bias.2,
        ]);
        data.push(
            if matched {
                255
            } else {
                0
            },
        );
        proof {
            assert(p@ =~= seq![rgb.data@[3 * i], rgb.data@[3 * i + 1], rgb.data@[3 * i + 2]]);
        }
        i = i + 1;
    }
    proof {
        assert(data@ =~= keep_seq(rgb.data@, n, target, bias));
    }
    Image::Gray(GrayImage { width: rgb.width, height: rgb.height, data })
}

} // verus!
