//! The image-codec boundary: decoding arbitrary formats, encoding PNG,
//! high-quality resampling, and median filtering. These four operations come
//! from outside image crates; everything around them is verified against the
//! contracts stated here.

use vstd::prelude::*;

use crate::img::{GrayImage, Image, RgbImage};
use crate::types::VisionError;

verus! {

/// What the image codec decodes from the given bytes: channel count, width,
/// height, and pixel bytes, or nothing when the bytes are not a decodable
/// image. The result depends on the bytes alone.
pub uninterp spec fn decoded(bytes: Seq<u8>) -> Option<(u32, u32, u32, Seq<u8>)>;

/// The PNG encoding of an image with the given channel count, dimensions and
/// pixel bytes. The result depends on the pixels alone.
pub uninterp spec fn png_of(channels: u32, width: u32, height: u32, data: Seq<u8>) -> Seq<u8>;

/// Whether PNG serialization of an image with the given channel count,
/// dimensions and pixel bytes succeeds. Writing goes into memory, so success
/// depends on the pixels alone.
pub uninterp spec fn png_encodes(channels: u32, width: u32, height: u32, data: Seq<u8>) -> bool;

/// The median filter of a grayscale image: each output pixel is the median of
/// the `(2 radius + 1)` square window around it, padded by continuity. The
/// result depends on the pixels alone.
pub uninterp spec fn median_of(data: Seq<u8>, width: u32, height: u32, radius: u32) -> Seq<u8>;

/// The pixels of an image resampled to the given target dimensions. The
/// result depends on the pixels alone.
pub uninterp spec fn resized(
    channels: u32,
    width: u32,
    height: u32,
    data: Seq<u8>,
    new_width: u32,
    new_height: u32,
) -> Seq<u8>;

/// Relies on `image::load_from_memory`: decodes bytes of any supported format
/// into pixels, deterministically; `DynamicImage::to_rgb8` converts any
/// non-grayscale result to three channels.
#[verifier::external_body]
pub fn decode_image(bytes: &Vec<u8>) -> (r: Result<Image, VisionError>)
    ensures
        r is Ok <==> decoded(bytes@) is Some,
        r matches Ok(img) ==> img.valid() && (decoded(bytes@) matches Some(d) && img.spec_channels()
            == d.0 && img.spec_width() == d.1 && img.spec_height() == d.2 && img.spec_data()
            == d.3),
        r matches Err(e) ==> e is LoadError,
{
    match image::load_from_memory(bytes.as_slice()) {
        Err(e) => Err(VisionError::LoadError(e.to_string())),
        Ok(image::DynamicImage::ImageLuma8(g)) => {
            let (width, height) = g.dimensions();
            Ok(Image::Gray(GrayImage { width, height, data: g.into_raw() }))
        },
        Ok(other) => {
            let (rgb, (width, height)) = { let r = other.to_rgb8(); let d = r.dimensions(); (r, d) };
            Ok(Image::Rgb(RgbImage { width, height, data: rgb.into_raw() }))
        },
    }
}

/// Relies on `DynamicImage::write_to` with the PNG format: serializes the
/// pixels deterministically into memory, or reports an encoding failure;
/// whether it succeeds is itself a function of the pixels alone.
#[verifier::external_body]
pub fn encode_png(img: &Image) -> (r: Result<Vec<u8>, VisionError>)
    requires
        img.valid(),
    ensures
        r is Ok <==> png_encodes(
            img.spec_channels(),
            img.spec_width(),
            img.spec_height(),
            img.spec_data(),
        ),
        r matches Ok(b) ==> b@ == png_of(
            img.spec_channels(),
            img.spec_width(),
            img.spec_height(),
            img.spec_data(),
        ),
        r matches Err(e) ==> e is EncodeError,
{
    let d = match img {
        Image::Gray(g) => image::DynamicImage::ImageLuma8(image::GrayImage::from_raw(g.width, g.height, g.data.clone()).unwrap()),
        Image::Rgb(c) => image::DynamicImage::ImageRgb8(image::RgbImage::from_raw(c.width, c.height, c.data.clone()).unwrap()),
    };
    let mut out: Vec<u8> = Vec::new();
    match d.write_to(&mut std::io::Cursor::new(&mut out), image::ImageFormat::Png) {
        Ok(()) => Ok(out),
        Err(e) => Err(VisionError::EncodeError(e.to_string())),
    }
}

/// Relies on `imageproc::filter::median_filter`: a square median filter with
/// the same radius on both axes, keeping the image's dimensions. It panics
/// when a dimension plus the radius leaves the 31-bit range, or when the
/// window area `(2 radius + 1)^2` leaves the 32-bit range, so those cases
/// are excluded here.
#[verifier::external_body]
pub(crate) fn median_gray(img: &GrayImage, radius: u32) -> (r: GrayImage)
    requires
        img.valid(),
        img.width + radius <= i32::MAX,
        img.height + radius <= i32::MAX,
        radius <= 32767,
    ensures
        r.valid(),
        r.width == img.width,
        r.height == img.height,
        r.data@ == median_of(img.data@, img.width, img.height, radius),
{
    let buf = image::GrayImage::from_raw(img.width, img.height, img.data.clone()).unwrap();
    let filtered = imageproc::filter::median_filter(&buf, radius, radius);
    GrayImage { width: img.width, height: img.height, data: filtered.into_raw() }
}

/// Relies on `DynamicImage::resize_exact` with the Lanczos filter: resamples
/// to exactly the target dimensions, keeping the image's kind. The target
/// must be non-empty, and both the target and the intermediate buffer (source
/// width by target height) must fit in memory.
#[verifier::external_body]
pub(crate) fn resample(img: &Image, new_width: u32, new_height: u32) -> (r: Image)
    requires
        img.valid(),
        new_width >= 1,
        new_height >= 1,
        new_width * new_height * img.spec_channels() <= usize::MAX,
        img.spec_width() * new_height * img.spec_channels() <= usize::MAX,
    ensures
        r.valid(),
        r is Gray <==> img is Gray,
        r.spec_width() == new_width,
        r.spec_height() == new_height,
        r.spec_data() == resized(
            img.spec_channels(),
            img.spec_width(),
            img.spec_height(),
            img.spec_data(),
            new_width,
            new_height,
        ),
{
    let d = match img {
        Image::Gray(g) => image::DynamicImage::ImageLuma8(image::GrayImage::from_raw(g.width, g.height, g.data.clone()).unwrap()),
        Image::Rgb(c) => image::DynamicImage::ImageRgb8(image::RgbImage::from_raw(c.width, c.height, c.data.clone()).unwrap()),
    };
    let out = d.resize_exact(new_width, new_height, image::imageops::FilterType::Lanczos3);
    match out {
        image::DynamicImage::ImageLuma8(g) => Image::Gray(GrayImage { width: new_width, height: new_height, data: g.into_raw() }),
        other => Image::Rgb(RgbImage { width: new_width, height: new_height, data: other.to_rgb8().into_raw() }),
    }
}

} // verus!
