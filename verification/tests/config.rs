use vision_core::api::config::{parse_i32, Config};

#[test]
fn get_returns_first_match_or_empty() {
    let mut cfg = Config::new();
    cfg.set_value("mode".to_string(), "fast".to_string());
    cfg.set_value("mode".to_string(), "slow".to_string());
    cfg.set_value("count".to_string(), "5".to_string());
    assert_eq!(cfg.get("mode".to_string()), "fast");
    assert_eq!(cfg.get("count".to_string()), "5");
    assert_eq!(cfg.get("missing".to_string()), "");
}

#[test]
fn get_int_parses_decimal_integers() {
    let mut cfg = Config::new();
    cfg.set_value("a".to_string(), "123".to_string());
    cfg.set_value("b".to_string(), "-45".to_string());
    cfg.set_value("c".to_string(), "+7".to_string());
    cfg.set_value("d".to_string(), "007".to_string());
    assert_eq!(cfg.get_int("a".to_string()), 123);
    assert_eq!(cfg.get_int("b".to_string()), -45);
    assert_eq!(cfg.get_int("c".to_string()), 7);
    assert_eq!(cfg.get_int("d".to_string()), 7);
    assert_eq!(cfg.get_int("missing".to_string()), 0);
}

#[test]
fn malformed_or_overflowing_values_read_as_zero() {
    assert_eq!(parse_i32(""), 0);
    assert_eq!(parse_i32("12a"), 0);
    assert_eq!(parse_i32("-"), 0);
    assert_eq!(parse_i32("+"), 0);
    assert_eq!(parse_i32(" 12"), 0);
    assert_eq!(parse_i32("2147483647"), 2147483647);
    assert_eq!(parse_i32("2147483648"), 0);
    assert_eq!(parse_i32("-2147483648"), -2147483648);
    assert_eq!(parse_i32("-2147483649"), 0);
    assert_eq!(parse_i32("99999999999999999999"), 0);
    assert_eq!(parse_i32("000000000000042"), 42);
}
