use vision_core::analysis::scan_connected_components;
use vision_core::img::RgbImage;
use vision_core::types::{ColorRule, Rect};

fn white_rule() -> Vec<ColorRule> {
    vec![ColorRule {
        id: 1,
        target_hex: "#FFFFFF".to_string(),
        bias_hex: "#000000".to_string(),
        is_enabled: true,
    }]
}

fn image_with_blocks(w: u32, h: u32, blocks: &[(u32, u32, u32, u32)]) -> RgbImage {
    let mut data = vec![0u8; (w * h * 3) as usize];
    for &(bx, by, bw, bh) in blocks {
        for y in by..by + bh {
            for x in bx..bx + bw {
                let off = ((y * w + x) * 3) as usize;
                data[off] = 255;
                data[off + 1] = 255;
                data[off + 2] = 255;
            }
        }
    }
    RgbImage { width: w, height: h, data }
}

#[test]
fn two_disjoint_blocks_give_two_exact_boxes() {
    let img = image_with_blocks(10, 10, &[(1, 1, 3, 3), (6, 6, 3, 3)]);
    let rects = scan_connected_components(&img, white_rule(), 2, 2);
    assert_eq!(
        rects,
        vec![
            Rect { left: 1, top: 1, width: 3, height: 3 },
            Rect { left: 6, top: 6, width: 3, height: 3 },
        ]
    );
}

#[test]
fn isolated_pixel_is_dropped_by_the_minimum_size() {
    let img = image_with_blocks(10, 10, &[(1, 1, 3, 3), (6, 6, 3, 3), (0, 9, 1, 1)]);
    let rects = scan_connected_components(&img, white_rule(), 2, 2);
    assert_eq!(rects.len(), 2);
    let img2 = image_with_blocks(5, 5, &[(2, 2, 1, 1)]);
    assert_eq!(scan_connected_components(&img2, white_rule(), 2, 2), vec![]);
}

#[test]
fn boxes_of_disjoint_blocks_do_not_overlap() {
    let img = image_with_blocks(12, 12, &[(0, 0, 4, 2), (6, 0, 2, 4), (2, 7, 5, 3)]);
    let rects = scan_connected_components(&img, white_rule(), 2, 2);
    assert_eq!(rects.len(), 3);
    for i in 0..rects.len() {
        for j in 0..rects.len() {
            if i != j {
                let a = rects[i];
                let b = rects[j];
                let apart_x =
                    a.left + a.width as i32 <= b.left || b.left + b.width as i32 <= a.left;
                let apart_y = a.top + a.height as i32 <= b.top || b.top + b.height as i32 <= a.top;
                assert!(apart_x || apart_y);
            }
        }
    }
}

#[test]
fn diagonal_pixels_join_into_one_component() {
    // a diagonal staircase is 8-connected
    let mut img = image_with_blocks(6, 6, &[]);
    for k in 0..4u32 {
        let off = ((k * 6 + k) * 3) as usize;
        img.data[off] = 255;
        img.data[off + 1] = 255;
        img.data[off + 2] = 255;
    }
    let rects = scan_connected_components(&img, white_rule(), 2, 2);
    assert_eq!(rects, vec![Rect { left: 0, top: 0, width: 4, height: 4 }]);
}

#[test]
fn l_shape_gets_its_full_bounding_box() {
    let img = image_with_blocks(8, 8, &[(1, 1, 1, 5), (1, 5, 5, 1)]);
    let rects = scan_connected_components(&img, white_rule(), 2, 2);
    assert_eq!(rects, vec![Rect { left: 1, top: 1, width: 5, height: 5 }]);
}

#[test]
fn first_enabled_rule_wins_and_disabled_rules_are_skipped() {
    let rules = vec![
        ColorRule {
            id: 1,
            target_hex: "#FF0000".to_string(),
            bias_hex: "#000000".to_string(),
            is_enabled: false,
        },
        ColorRule {
            id: 2,
            target_hex: "#00FF00".to_string(),
            bias_hex: "#000000".to_string(),
            is_enabled: true,
        },
    ];
    let mut img = image_with_blocks(6, 6, &[]);
    // a green 2x2 block; red pixels elsewhere must not match
    for (x, y) in [(2u32, 2u32), (3, 2), (2, 3), (3, 3)] {
        let off = ((y * 6 + x) * 3) as usize;
        img.data[off + 1] = 255;
    }
    let off = 3 * (5 * 6 + 5) as usize;
    img.data[off] = 255;
    let rects = scan_connected_components(&img, rules, 2, 2);
    assert_eq!(rects, vec![Rect { left: 2, top: 2, width: 2, height: 2 }]);
}

#[test]
fn empty_mask_gives_no_components() {
    let img = image_with_blocks(7, 5, &[]);
    assert_eq!(scan_connected_components(&img, white_rule(), 2, 2), vec![]);
}
