use vision_core::capture::{find_color_in_buffer, scale_from_bits, FrameStore, Scale, SIGNAL_BYTE};

fn bgra_frame(w: usize, h: usize) -> Vec<u8> {
    vec![0u8; w * h * 4]
}

fn set_rgb(buf: &mut Vec<u8>, stride: usize, x: usize, y: usize, r: u8, g: u8, b: u8) {
    let off = y * stride + x * 4;
    buf[off] = b;
    buf[off + 1] = g;
    buf[off + 2] = r;
    buf[off + 3] = 255;
}

#[test]
fn find_color_on_empty_buffer_is_not_found() {
    let store = FrameStore::new();
    assert_eq!(store.find_color_helper((255, 0, 0), 10, None), None);
    assert_eq!(
        store.find_color_helper((0, 0, 0), 255, Some(vec![0, 0, 100, 100])),
        None
    );
}

#[test]
fn single_matching_pixel_is_found_at_its_coordinates() {
    let mut store = FrameStore::new();
    let mut buf = bgra_frame(10, 10);
    set_rgb(&mut buf, 40, 5, 5, 255, 0, 0);
    store.ingest_frame(buf, 10, 10, 40, Scale { num: 1, den: 1 });
    let hit = store.find_color_helper((255, 0, 0), 10, Some(vec![0, 0, 10, 10]));
    assert_eq!(hit, Some((5, 5)));
    // and without a region
    assert_eq!(store.find_color_helper((255, 0, 0), 10, None), Some((5, 5)));
}

#[test]
fn first_match_in_scan_order_wins() {
    let mut store = FrameStore::new();
    let mut buf = bgra_frame(4, 4);
    set_rgb(&mut buf, 16, 3, 1, 9, 9, 9);
    set_rgb(&mut buf, 16, 0, 2, 9, 9, 9);
    store.ingest_frame(buf, 4, 4, 16, Scale { num: 1, den: 1 });
    // the row-1 match comes before the row-2 match
    assert_eq!(store.find_color_helper((9, 9, 9), 0, None), Some((3, 1)));
}

#[test]
fn device_region_is_divided_by_the_scale() {
    let mut store = FrameStore::new();
    let mut buf = bgra_frame(8, 8);
    set_rgb(&mut buf, 32, 2, 2, 1, 2, 3);
    // scale 2: device coordinates are twice the buffer's
    store.ingest_frame(buf, 8, 8, 32, Scale { num: 2, den: 1 });
    // the device rectangle (4,4) 8x8 lands on buffer (2,2) 4x4
    assert_eq!(
        store.find_color_helper((1, 2, 3), 0, Some(vec![4, 4, 8, 8])),
        Some((2, 2))
    );
    // a device rectangle before the pixel misses it
    assert_eq!(
        store.find_color_helper((1, 2, 3), 0, Some(vec![0, 0, 3, 3])),
        None
    );
}

#[test]
fn search_clips_to_buffer_height() {
    let buf = vec![255u8; 2 * 2 * 4];
    let hit = find_color_in_buffer(&buf, 2, 2, 8, (255, 255, 255), 0, (0, 0, 50, 50));
    assert_eq!(hit, Some((0, 0)));
    let miss = find_color_in_buffer(&buf, 2, 2, 8, (0, 0, 0), 0, (0, 5, 50, 50));
    assert_eq!(miss, None);
}

#[test]
fn map_coordinates_is_identity_at_scale_one() {
    let mut store = FrameStore::new();
    store.ingest_frame(Vec::new(), 0, 0, 0, Scale { num: 1, den: 1 });
    assert_eq!(store.map_coordinates(0, 0), (0, 0));
    assert_eq!(store.map_coordinates(123, -456), (123, -456));
    assert_eq!(store.map_coordinates(i32::MAX, i32::MIN), (i32::MAX, i32::MIN));
}

#[test]
fn map_coordinates_scales_and_rounds() {
    let mut store = FrameStore::new();
    store.ingest_frame(Vec::new(), 0, 0, 0, Scale { num: 2, den: 1 });
    assert_eq!(store.map_coordinates(10, 20), (20, 40));
    let mut half = FrameStore::new();
    half.ingest_frame(Vec::new(), 0, 0, 0, Scale { num: 1, den: 2 });
    // 5 / 2 rounds away from zero
    assert_eq!(half.map_coordinates(5, 4), (3, 2));
    assert_eq!(half.map_coordinates(-5, -4), (-3, -2));
}

fn frame_region(w: u32, h: u32, scale_bits: u32, payload: &[u8]) -> Vec<u8> {
    let mut region = Vec::new();
    region.extend_from_slice(&w.to_be_bytes());
    region.extend_from_slice(&h.to_be_bytes());
    region.extend_from_slice(&scale_bits.to_be_bytes());
    region.extend_from_slice(payload);
    region
}

#[test]
fn short_region_leaves_the_store_unchanged() {
    let mut store = FrameStore::new();
    store.ingest_frame(vec![7u8; 16], 2, 2, 8, Scale { num: 3, den: 1 });
    // header says 2x2 but only 10 payload bytes follow
    let region = frame_region(2, 2, 0x3F80_0000, &[1u8; 10]);
    assert!(!store.ingest_signaled(SIGNAL_BYTE, &region));
    let (data, w, h, stride, scale) = store.snapshot();
    assert_eq!(data, vec![7u8; 16]);
    assert_eq!((w, h, stride), (2, 2, 8));
    assert_eq!(scale, Scale { num: 3, den: 1 });
}

#[test]
fn other_signal_bytes_are_ignored() {
    let mut store = FrameStore::new();
    let region = frame_region(1, 1, 0x3F80_0000, &[1, 2, 3, 4]);
    assert!(!store.ingest_signaled(0x55, &region));
    let (data, _, _, _, _) = store.snapshot();
    assert!(data.is_empty());
}

#[test]
fn good_frame_is_applied_whole() {
    let mut store = FrameStore::new();
    let payload = [1, 2, 3, 4, 5, 6, 7, 8, 9, 10, 11, 12, 13, 14, 15, 16];
    // scale 2.0
    let region = frame_region(2, 2, 0x4000_0000, &payload);
    assert!(store.ingest_signaled(SIGNAL_BYTE, &region));
    let (data, w, h, stride, scale) = store.snapshot();
    assert_eq!(data, payload.to_vec());
    assert_eq!((w, h, stride), (2, 2, 8));
    assert_eq!(scale, Scale { num: 2, den: 1 });
}

#[test]
fn malformed_scale_skips_the_frame() {
    let mut store = FrameStore::new();
    // a not-a-number scale
    let region = frame_region(1, 1, 0x7FC0_0000, &[1, 2, 3, 4]);
    assert!(!store.ingest_signaled(SIGNAL_BYTE, &region));
    // a negative scale
    let region = frame_region(1, 1, 0xBF80_0000, &[1, 2, 3, 4]);
    assert!(!store.ingest_signaled(SIGNAL_BYTE, &region));
    // a zero scale
    let region = frame_region(1, 1, 0x0000_0000, &[1, 2, 3, 4]);
    assert!(!store.ingest_signaled(SIGNAL_BYTE, &region));
}

#[test]
fn scale_bits_decode_to_exact_rationals() {
    assert_eq!(scale_from_bits(0x3F80_0000), Some(Scale { num: 1, den: 1 }));
    assert_eq!(scale_from_bits(0x4000_0000), Some(Scale { num: 2, den: 1 }));
    assert_eq!(scale_from_bits(0x3F00_0000), Some(Scale { num: 1, den: 2 }));
    // 1.5 = 3/2
    assert_eq!(scale_from_bits(0x3FC0_0000), Some(Scale { num: 3, den: 2 }));
    assert_eq!(scale_from_bits(0x7F80_0000), None);
    assert_eq!(scale_from_bits(0xBF80_0000), None);
}
