use vision_core::img::GrayImage;
use vision_core::skeleton::apply_skeleton;

fn gray(w: u32, h: u32, cells: &[(u32, u32)]) -> GrayImage {
    let mut data = vec![0u8; (w * h) as usize];
    for &(x, y) in cells {
        data[(y * w + x) as usize] = 255;
    }
    GrayImage { width: w, height: h, data }
}

#[test]
fn one_pixel_wide_line_is_left_unchanged() {
    let mut img = gray(7, 5, &[(1, 2), (2, 2), (3, 2), (4, 2), (5, 2)]);
    let before = img.data.clone();
    apply_skeleton(&mut img);
    assert_eq!(img.data, before);
}

#[test]
fn one_pixel_wide_column_is_left_unchanged() {
    let mut img = gray(5, 7, &[(2, 1), (2, 2), (2, 3), (2, 4), (2, 5)]);
    let before = img.data.clone();
    apply_skeleton(&mut img);
    assert_eq!(img.data, before);
}

#[test]
fn one_pixel_wide_diagonal_is_left_unchanged() {
    let mut img = gray(7, 7, &[(1, 1), (2, 2), (3, 3), (4, 4), (5, 5)]);
    let before = img.data.clone();
    apply_skeleton(&mut img);
    assert_eq!(img.data, before);
}

#[test]
fn skeletonize_is_idempotent() {
    // a solid 5x4 block inside a 9x8 image
    let cells: Vec<(u32, u32)> =
        (2..7u32).flat_map(|x| (2..6u32).map(move |y| (x, y))).collect();
    let mut img = gray(9, 8, &cells);
    apply_skeleton(&mut img);
    let once = img.data.clone();
    apply_skeleton(&mut img);
    assert_eq!(img.data, once);
}

#[test]
fn thinning_only_removes_foreground() {
    let cells: Vec<(u32, u32)> =
        (1..6u32).flat_map(|x| (1..6u32).map(move |y| (x, y))).collect();
    let mut img = gray(7, 7, &cells);
    let before = img.data.clone();
    apply_skeleton(&mut img);
    let fg_before = before.iter().filter(|v| **v > 0).count();
    let fg_after = img.data.iter().filter(|v| **v > 0).count();
    assert!(fg_after < fg_before);
    assert!(fg_after > 0);
    for (a, b) in img.data.iter().zip(before.iter()) {
        assert!(*a == *b || (*b == 255 && *a == 0));
    }
}

#[test]
fn empty_and_border_only_images_are_fixpoints() {
    let mut img = gray(4, 4, &[]);
    apply_skeleton(&mut img);
    assert_eq!(img.data, vec![0u8; 16]);
    // border pixels are never processed
    let mut edge = gray(3, 3, &[(0, 0), (1, 0), (2, 0), (0, 1), (0, 2)]);
    let before = edge.data.clone();
    apply_skeleton(&mut edge);
    assert_eq!(edge.data, before);
}
