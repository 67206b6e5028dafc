//! The image endpoints: decode, run one filter, re-encode as PNG; and scan
//! for connected components. Everything between decode and encode is
//! verified against the filter specifications.

use vstd::prelude::*;

use crate::analysis::{mask_of, rects_describe, scan_connected_components};
use crate::codec::{decode_image, decoded, encode_png, median_of, png_encodes, png_of};
use crate::filters::{avg_mask, invert_seq};
use crate::img::{gray_of_rgb, rgb_of_gray, to_rgb, Image};
use crate::types::{
    BlackWhiteFilterType, ColorFilterType, ColorRule, ImageFilter, Rect, VisionError,
};

verus! {

/// The grayscale bytes of a decoded image given as raw parts.
pub open spec fn parts_gray(c: u32, w: u32, h: u32, data: Seq<u8>) -> Seq<u8> {
    if c == 1 {
        data
    } else {
        gray_of_rgb(data, w * h)
    }
}

/// The RGB bytes of a decoded image given as raw parts.
pub open spec fn parts_rgb(c: u32, data: Seq<u8>) -> Seq<u8> {
    if c == 3 {
        data
    } else {
        rgb_of_gray(data)
    }
}

/// What one filter turns a decoded image into, as raw parts: channel count,
/// width, height, and pixel bytes. Enumerated filters that are not
/// implemented pass the image through unchanged, as does a denoise whose
/// dimensions would leave the filter's 31-bit range.
pub open spec fn spec_apply_filter(
    filter: ImageFilter,
    param1: Option<i32>,
    param2: Option<i32>,
    c: u32,
    w: u32,
    h: u32,
    data: Seq<u8>,
) -> (u32, u32, u32, Seq<u8>) {
    match filter {
        ImageFilter::Color(cf) => match cf {
            ColorFilterType::Binarization => {
                let min = (match param1 {
                    Some(v) => v,
                    None => 0,
                }) as u8;
                let max = (match param2 {
                    Some(v) => v,
                    None => 255,
                }) as u8;
                (1u32, w, h, avg_mask(parts_rgb(c, data), w * h, min, max))
            },
            ColorFilterType::Grayscale => (1u32, w, h, parts_gray(c, w, h, data)),
            _ => (c, w, h, data),
        },
        ImageFilter::BlackWhite(bw) => match bw {
            BlackWhiteFilterType::Denoise => {
                if w + 1 <= i32::MAX && h + 1 <= i32::MAX {
                    (1u32, w, h, median_of(parts_gray(c, w, h, data), w, h, 1))
                } else {
                    (c, w, h, data)
                }
            },
            BlackWhiteFilterType::Invert => (c, w, h, invert_seq(data)),
            _ => (c, w, h, data),
        },
        ImageFilter::Common(_) => (c, w, h, data),
        ImageFilter::View => (c, w, h, data),
    }
}

/// Decodes the bytes, applies one filter, and encodes the result as PNG.
/// Undecodable input is a load error; anything after decoding is total, so
/// the result is the encoded filtered image, with an encoding error exactly
/// where PNG serialization of those pixels fails.
pub fn apply_filter(
    image_data: Vec<u8>,
    filter: ImageFilter,
    param1: Option<i32>,
    param2: Option<i32>,
) -> (r: Result<Vec<u8>, VisionError>)
    ensures
        decoded(image_data@) is None ==> (r matches Err(e) && e is LoadError),
        decoded(image_data@) matches Some(d) ==> (r is Ok <==> png_encodes(
            spec_apply_filter(filter, param1, param2, d.0, d.1, d.2, d.3).0,
            spec_apply_filter(filter, param1, param2, d.0, d.1, d.2, d.3).1,
            spec_apply_filter(filter, param1, param2, d.0, d.1, d.2, d.3).2,
            spec_apply_filter(filter, param1, param2, d.0, d.1, d.2, d.3).3,
        )),
        decoded(image_data@) matches Some(d) ==> (match r {
            Ok(b) => b@ == png_of(
                spec_apply_filter(filter, param1, param2, d.0, d.1, d.2, d.3).0,
                spec_apply_filter(filter, param1, param2, d.0, d.1, d.2, d.3).1,
                spec_apply_filter(filter, param1, param2, d.0, d.1, d.2, d.3).2,
                spec_apply_filter(filter, param1, param2, d.0, d.1, d.2, d.3).3,
            ),
            Err(e) => e is EncodeError,
        }),
{
    let img = match decode_image(&image_data) {
        Ok(i) => i,
        Err(e) => {
            return Err(e);
        },
    };
    let processed: Image = match filter {
        ImageFilter::Color(cf) => match cf {
            ColorFilterType::Binarization => {
                let min: u8 = match param1 {
                    Some(v) => v as u8,
                    None => 0,
                };
                let max: u8 = match param2 {
                    Some(v) => v as u8,
                    None => 255,
                };
                crate::filters::binarize_rgb_avg(&img, min, max)
            },
            ColorFilterType::Grayscale => crate::filters::grayscale(&img),
            _ => img,
        },
        ImageFilter::BlackWhite(bw) => match bw {
            BlackWhiteFilterType::Denoise => {
                let (w, h) = match &img {
                    Image::Gray(g) => (g.width, g.height),
                    Image::Rgb(c) => (c.width, c.height),
                };
                if w <= i32::MAX as u32 - 1 && h <= i32::MAX as u32 - 1 {
                    crate::filters::denoise(&img, 1)
                } else {
                    img
                }
            },
            BlackWhiteFilterType::Invert => crate::filters::invert(&img),
            _ => img,
        },
        ImageFilter::Common(_) => img,
        ImageFilter::View => img,
    };
    encode_png(&processed)
}

/// The component scan's whole contract over raw decoded parts: some witness
/// sequence of first-visited cells describes the returned rectangles.
pub open spec fn scan_result_ok(bytes: Seq<u8>, rules: Seq<ColorRule>, rects: Seq<Rect>) -> bool {
    decoded(bytes) matches Some(d) ==> {
        &&& (d.1 <= i32::MAX && d.2 <= i32::MAX) ==> exists|firsts: Seq<(int, int)>|
            #[trigger] rects_describe(
                mask_of(parts_rgb(d.0, d.3), d.1 as int, d.2 as int, rules),
                d.1 as int,
                d.2 as int,
                2,
                2,
                rects,
                firsts,
            )
        &&& (d.1 > i32::MAX || d.2 > i32::MAX) ==> rects.len() == 0
    }
}

/// Decodes the bytes and scans for 8-connected components of pixels matching
/// any enabled rule, at least 2 by 2 each. Undecodable input is a load
/// error; an image too large for 32-bit coordinates yields no components.
#[verifier::rlimit(100)]
#[verifier::spinoff_prover]
pub fn scan_components(image_data: Vec<u8>, rules: Vec<ColorRule>) -> (r: Result<
    Vec<Rect>,
    VisionError,
>)
    ensures
        decoded(image_data@) is None ==> (r matches Err(e) && e is LoadError),
        decoded(image_data@) is Some ==> r is Ok,
        r matches Ok(rects) ==> scan_result_ok(image_data@, rules@, rects@),
{
    let img = match decode_image(&image_data) {
        Ok(i) => i,
        Err(e) => {
            return Err(e);
        },
    };
    let rgb = to_rgb(&img);
    if rgb.width > i32::MAX as u32 || rgb.height > i32::MAX as u32 {
        let empty: Vec<Rect> = Vec::new();
        proof {
            assert(scan_result_ok(image_data@, rules@, empty@));
        }
        return Ok(empty);
    }
    let ghost rules0 = rules@;
    let rects = scan_connected_components(&rgb, rules, 2, 2);
    proof {
        assert(rules0 == rules@);
        let d = decoded(image_data@)->Some_0;
        assert(rgb.data@ == parts_rgb(d.0, d.3));
        let firsts = choose|f: Seq<(int, int)>|
            #[trigger] rects_describe(
                mask_of(rgb.data@, rgb.width as int, rgb.height as int, rules@),
                rgb.width as int,
                rgb.height as int,
                2,
                2,
                rects@,
                f,
            );
        assert(rects_describe(
            mask_of(parts_rgb(d.0, d.3), d.1 as int, d.2 as int, rules@),
            d.1 as int,
            d.2 as int,
            2,
            2,
            rects@,
            firsts,
        ));
        assert(exists|f: Seq<(int, int)>|
            #[trigger] rects_describe(
                mask_of(parts_rgb(d.0, d.3), d.1 as int, d.2 as int, rules@),
                d.1 as int,
                d.2 as int,
                2,
                2,
                rects@,
                f,
            ));
        assert(scan_result_ok(image_data@, rules@, rects@));
    }
    Ok(rects)
}

} // verus!
