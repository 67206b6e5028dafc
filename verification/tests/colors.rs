use vision_core::{is_color_match, is_match, is_match_any, parse_hex, parse_hex_color};
use vision_core::types::ColorRule;

#[test]
fn parse_hex_round_trips_exact_channels() {
    assert_eq!(parse_hex("#FF8001"), [255, 128, 1]);
    assert_eq!(parse_hex("#00ff00"), [0, 255, 0]);
    assert_eq!(parse_hex("0A0b0C"), [10, 11, 12]);
    assert_eq!(parse_hex_color("#FF8001"), (255, 128, 1));
    assert_eq!(parse_hex_color("#abcdef"), (171, 205, 239));
}

#[test]
fn parse_hex_skips_every_leading_hash() {
    assert_eq!(parse_hex("##FF8001"), [255, 128, 1]);
    assert_eq!(parse_hex_color("##FF8001"), (255, 128, 1));
}

#[test]
fn parse_hex_degrades_bad_channels_to_zero() {
    assert_eq!(parse_hex("#GG0102"), [0, 1, 2]);
    assert_eq!(parse_hex("#01GG02"), [1, 0, 2]);
    assert_eq!(parse_hex("#0102+9"), [1, 2, 0]);
}

#[test]
fn parse_hex_malformed_yields_black() {
    assert_eq!(parse_hex("#12345"), [0, 0, 0]);
    assert_eq!(parse_hex(""), [0, 0, 0]);
    assert_eq!(parse_hex("###"), [0, 0, 0]);
    assert_eq!(parse_hex_color("#1234567"), (0, 0, 0));
    assert_eq!(parse_hex_color(""), (0, 0, 0));
}

#[test]
fn parse_hex_takes_first_six_but_parse_hex_color_rejects_extras() {
    assert_eq!(parse_hex("#AABBCCDD"), [170, 187, 204]);
    assert_eq!(parse_hex_color("#AABBCCDD"), (0, 0, 0));
}

#[test]
fn euclidean_match_is_exact_at_the_boundary() {
    // squared distance 9 + 16 = 25 against squared tolerance
    assert!(is_color_match(0, 0, 0, 3, 4, 0, 5));
    assert!(!is_color_match(0, 0, 0, 3, 4, 0, 4));
    assert!(is_color_match(10, 20, 30, 10, 20, 30, 0));
}

#[test]
fn bias_match_is_per_channel_not_combined() {
    assert!(is_match([10, 10, 10], [12, 8, 10], [2, 2, 0]));
    assert!(!is_match([10, 10, 10], [12, 8, 10], [1, 2, 0]));
    // a generous total budget does not help a single channel
    assert!(!is_match([10, 10, 10], [14, 10, 10], [3, 255, 255]));
}

fn rule(id: i64, target: &str, bias: &str, enabled: bool) -> ColorRule {
    ColorRule {
        id,
        target_hex: target.to_string(),
        bias_hex: bias.to_string(),
        is_enabled: enabled,
    }
}

#[test]
fn match_any_ignores_disabled_rules() {
    let rules = vec![
        rule(1, "#FF0000", "#000000", false),
        rule(2, "#00FF00", "#000000", true),
    ];
    assert!(!is_match_any([255, 0, 0], &rules));
    assert!(is_match_any([0, 255, 0], &rules));
    assert!(!is_match_any([0, 0, 255], &rules));
}

#[test]
fn match_any_on_empty_rules_is_false() {
    assert!(!is_match_any([0, 0, 0], &Vec::new()));
}
