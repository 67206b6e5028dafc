use vision_core::api::image::{apply_filter, scan_components};
use vision_core::codec::{decode_image, encode_png};
use vision_core::img::{GrayImage, Image, RgbImage};
use vision_core::types::{
    BlackWhiteFilterType, ColorFilterType, ColorRule, CommonFilterType, ImageFilter, Rect,
    VisionError,
};

fn rgb_image(w: u32, h: u32, data: Vec<u8>) -> Image {
    Image::Rgb(RgbImage { width: w, height: h, data })
}

#[test]
fn png_round_trip_preserves_every_pixel() {
    let img = rgb_image(2, 2, vec![1, 2, 3, 4, 5, 6, 7, 8, 9, 10, 11, 12]);
    let png = encode_png(&img).expect("encoding failed");
    match decode_image(&png).expect("decoding failed") {
        Image::Rgb(r) => {
            assert_eq!((r.width, r.height), (2, 2));
            assert_eq!(r.data, vec![1, 2, 3, 4, 5, 6, 7, 8, 9, 10, 11, 12]);
        },
        Image::Gray(_) => panic!("round trip changed the image kind"),
    }
    let gray = Image::Gray(GrayImage { width: 3, height: 1, data: vec![0, 128, 255] });
    let png2 = encode_png(&gray).expect("encoding failed");
    match decode_image(&png2).expect("decoding failed") {
        Image::Gray(g) => assert_eq!(g.data, vec![0, 128, 255]),
        Image::Rgb(_) => panic!("round trip changed the image kind"),
    }
}

#[test]
fn undecodable_bytes_are_a_load_error() {
    match decode_image(&vec![1, 2, 3]) {
        Err(VisionError::LoadError(_)) => {},
        _ => panic!("expected a load error"),
    }
    match apply_filter(vec![9, 9, 9], ImageFilter::View, None, None) {
        Err(VisionError::LoadError(_)) => {},
        _ => panic!("expected a load error"),
    }
    match scan_components(Vec::new(), Vec::new()) {
        Err(VisionError::LoadError(_)) => {},
        _ => panic!("expected a load error"),
    }
}

fn decode_gray(png: &Vec<u8>) -> Vec<u8> {
    match decode_image(png).expect("decoding failed") {
        Image::Gray(g) => g.data,
        Image::Rgb(_) => panic!("expected a grayscale image"),
    }
}

#[test]
fn invert_filter_runs_end_to_end() {
    let img = Image::Gray(GrayImage { width: 2, height: 1, data: vec![0, 200] });
    let png = encode_png(&img).expect("encoding failed");
    let out = apply_filter(
        png,
        ImageFilter::BlackWhite(BlackWhiteFilterType::Invert),
        None,
        None,
    )
    .expect("filter failed");
    assert_eq!(decode_gray(&out), vec![255, 55]);
}

#[test]
fn binarization_filter_uses_the_rgb_average_range() {
    let img = rgb_image(2, 1, vec![10, 10, 10, 240, 240, 240]);
    let png = encode_png(&img).expect("encoding failed");
    let out = apply_filter(
        png,
        ImageFilter::Color(ColorFilterType::Binarization),
        Some(0),
        Some(100),
    )
    .expect("filter failed");
    assert_eq!(decode_gray(&out), vec![255, 0]);
}

#[test]
fn unimplemented_filters_pass_the_image_through() {
    let img = rgb_image(1, 2, vec![5, 6, 7, 8, 9, 10]);
    let png = encode_png(&img).expect("encoding failed");
    for filter in [
        ImageFilter::View,
        ImageFilter::Common(CommonFilterType::MedianBlur),
        ImageFilter::Color(ColorFilterType::Posterize),
        ImageFilter::BlackWhite(BlackWhiteFilterType::Contours),
    ] {
        let out = apply_filter(png.clone(), filter, None, None).expect("filter failed");
        match decode_image(&out).expect("decoding failed") {
            Image::Rgb(r) => assert_eq!(r.data, vec![5, 6, 7, 8, 9, 10]),
            Image::Gray(_) => panic!("pass-through changed the image kind"),
        }
    }
}

#[test]
fn scan_components_finds_blocks_in_encoded_images() {
    let mut data = vec![0u8; 8 * 8 * 3];
    for y in 2..5u32 {
        for x in 3..6u32 {
            let off = ((y * 8 + x) * 3) as usize;
            data[off] = 255;
            data[off + 1] = 255;
            data[off + 2] = 255;
        }
    }
    let png = encode_png(&rgb_image(8, 8, data)).expect("encoding failed");
    let rules = vec![ColorRule {
        id: 1,
        target_hex: "#FFFFFF".to_string(),
        bias_hex: "#000000".to_string(),
        is_enabled: true,
    }];
    let rects = scan_components(png, rules).expect("scan failed");
    assert_eq!(rects, vec![Rect { left: 3, top: 2, width: 3, height: 3 }]);
}
