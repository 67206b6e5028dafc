use vision_core::filters::{
    binarize, binarize_rgb_avg, denoise, dilate_filter, erode_filter, grayscale, invert,
    keep_color, resize,
};
use vision_core::img::{GrayImage, Image, RgbImage};

fn gray_image(w: u32, h: u32, data: Vec<u8>) -> Image {
    Image::Gray(GrayImage { width: w, height: h, data })
}

fn rgb_image(w: u32, h: u32, data: Vec<u8>) -> Image {
    Image::Rgb(RgbImage { width: w, height: h, data })
}

fn gray_data(img: &Image) -> &Vec<u8> {
    match img {
        Image::Gray(g) => &g.data,
        Image::Rgb(_) => panic!("expected a grayscale image"),
    }
}

#[test]
fn invert_is_an_involution_on_gray_and_rgb() {
    let g = gray_image(2, 2, vec![0, 1, 254, 255]);
    let inv = invert(&g);
    assert_eq!(gray_data(&inv), &vec![255, 254, 1, 0]);
    let back = invert(&inv);
    assert_eq!(gray_data(&back), gray_data(&g));

    let c = rgb_image(1, 2, vec![10, 20, 30, 40, 50, 60]);
    let inv2 = invert(&invert(&c));
    match (&c, &inv2) {
        (Image::Rgb(a), Image::Rgb(b)) => assert_eq!(a.data, b.data),
        _ => panic!("invert changed the image kind"),
    }
}

#[test]
fn binarize_threshold_is_inclusive() {
    let g = gray_image(2, 2, vec![0, 127, 128, 255]);
    let out = binarize(&g, 128);
    assert_eq!(gray_data(&out), &vec![0, 0, 255, 255]);
}

#[test]
fn rgb_average_truncates_before_the_range_test() {
    // averages: (1+1+0)/3 = 0, (2+2+2)/3 = 2, (254+255+255)/3 = 254
    let img = rgb_image(3, 1, vec![1, 1, 0, 2, 2, 2, 254, 255, 255]);
    let low = binarize_rgb_avg(&img, 0, 0);
    assert_eq!(gray_data(&low), &vec![255, 0, 0]);
    let mid = binarize_rgb_avg(&img, 1, 2);
    assert_eq!(gray_data(&mid), &vec![0, 255, 0]);
    let high = binarize_rgb_avg(&img, 254, 255);
    assert_eq!(gray_data(&high), &vec![0, 0, 255]);
}

#[test]
fn grayscale_uses_exact_luma_coefficients() {
    let img = rgb_image(2, 2, vec![255, 0, 0, 0, 255, 0, 0, 0, 255, 77, 77, 77]);
    let out = grayscale(&img);
    // (2126 r + 7152 g + 722 b) / 10000, truncating
    assert_eq!(gray_data(&out), &vec![54, 182, 18, 77]);
}

#[test]
fn keep_color_masks_by_per_channel_bias() {
    let img = rgb_image(2, 1, vec![10, 11, 12, 13, 11, 12]);
    let out = keep_color(&img, "#0A0B0C", "#010101");
    assert_eq!(gray_data(&out), &vec![255, 0]);
}

#[test]
fn dilate_spreads_and_erode_clears() {
    let center = gray_image(3, 3, vec![0, 0, 0, 0, 255, 0, 0, 0, 0]);
    let grown = dilate_filter(&center);
    assert_eq!(gray_data(&grown), &vec![255; 9]);

    let hole = gray_image(3, 3, vec![255, 255, 255, 255, 0, 255, 255, 255, 255]);
    let shrunk = erode_filter(&hole);
    assert_eq!(gray_data(&shrunk), &vec![0; 9]);

    let solid = gray_image(3, 3, vec![255; 9]);
    let kept = erode_filter(&solid);
    assert_eq!(gray_data(&kept), &vec![255; 9]);
}

#[test]
fn denoise_median_matches_known_values() {
    let noisy = gray_image(3, 3, vec![1, 2, 3, 200, 6, 7, 9, 100, 11]);
    let clean = denoise(&noisy, 1);
    assert_eq!(gray_data(&clean), &vec![2, 3, 3, 9, 7, 7, 9, 11, 11]);
}

#[test]
fn resize_hits_the_exact_target_dimensions() {
    let img = rgb_image(2, 2, vec![0, 0, 0, 255, 255, 255, 255, 255, 255, 0, 0, 0]);
    let out = resize(&img, 4, 4);
    match out {
        Image::Rgb(r) => {
            assert_eq!((r.width, r.height), (4, 4));
            assert_eq!(r.data.len(), 48);
        },
        Image::Gray(_) => panic!("resize changed the image kind"),
    }
    let g = gray_image(4, 4, (0u8..16).collect());
    match resize(&g, 2, 2) {
        Image::Gray(r) => {
            assert_eq!((r.width, r.height), (2, 2));
            assert_eq!(r.data.len(), 4);
        },
        Image::Rgb(_) => panic!("resize changed the image kind"),
    }
}
