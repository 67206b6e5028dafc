//! Color codec: hex parsing and the two color-comparison modes.
//!
//! Hex strings have the shape `"#RRGGBB"`. A channel whose two characters are
//! not both hex digits degrades to 0; a string whose trimmed length is wrong
//! degrades to black. Matching is either Euclidean (squared channel distance
//! against a squared tolerance) or per-channel bias (each channel within its
//! own tolerance).

use vstd::prelude::*;

use crate::types::ColorRule;

verus! {

/// A character that is a hexadecimal digit, in either case.
pub open spec fn is_hex_digit(c: char) -> bool {
    ('0' <= c && c <= '9') || ('a' <= c && c <= 'f') || ('A' <= c && c <= 'F')
}

/// Numeric value of a hexadecimal digit.
pub open spec fn hex_digit_val(c: char) -> int {
    if '0' <= c && c <= '9' {
        c as int - '0' as int
    } else if 'a' <= c && c <= 'f' {
        10 + c as int - 'a' as int
    } else {
        10 + c as int - 'A' as int
    }
}

/// Value of the two-character channel starting at index `k`; a channel with a
/// non-hex character degrades to 0.
pub open spec fn channel_at(s: Seq<char>, k: int) -> u8 {
    if is_hex_digit(s[k]) && is_hex_digit(s[k + 1]) {
        (16 * hex_digit_val(s[k]) + hex_digit_val(s[k + 1])) as u8
    } else {
        0
    }
}

/// How many `'#'` characters the string starts with.
pub open spec fn num_leading_hashes(s: Seq<char>) -> nat
    decreases s.len(),
{
    if s.len() > 0 && s[0] == '#' {
        1 + num_leading_hashes(s.drop_first())
    } else {
        0
    }
}

/// The string with its leading `'#'` characters removed.
pub open spec fn trim_hashes(s: Seq<char>) -> Seq<char> {
    s.skip(num_leading_hashes(s) as int)
}

/// What `parse_hex` returns: three channels read from the first six characters
/// after the leading `'#'`s, or black when fewer than six characters remain.
pub open spec fn spec_parse_hex(s: Seq<char>) -> (u8, u8, u8) {
    let t = trim_hashes(s);
    if t.len() >= 6 {
        (channel_at(t, 0), channel_at(t, 2), channel_at(t, 4))
    } else {
        (0, 0, 0)
    }
}

/// What `parse_hex_color` returns: as `spec_parse_hex`, but the trimmed string
/// must be exactly six characters long.
pub open spec fn spec_parse_hex_color(s: Seq<char>) -> (u8, u8, u8) {
    let t = trim_hashes(s);
    if t.len() == 6 {
        (channel_at(t, 0), channel_at(t, 2), channel_at(t, 4))
    } else {
        (0, 0, 0)
    }
}

proof fn lemma_leading_hashes_bound(s: Seq<char>)
    ensures
        num_leading_hashes(s) <= s.len(),
        forall|j: int| 0 <= j < num_leading_hashes(s) ==> s[j] == '#',
        num_leading_hashes(s) < s.len() ==> s[num_leading_hashes(s) as int] != '#',
    decreases s.len(),
{
    if s.len() > 0 && s[0] == '#' {
        lemma_leading_hashes_bound(s.drop_first());
        assert forall|j: int| 0 <= j < num_leading_hashes(s) implies s[j] == '#' by {
            if j > 0 {
                assert(s.drop_first()[j - 1] == s[j]);
            }
        }
    }
}

proof fn lemma_leading_hashes_unique(s: Seq<char>, i: int)
    requires
        0 <= i <= s.len(),
        forall|j: int| 0 <= j < i ==> s[j] == '#',
        i < s.len() ==> s[i] != '#',
    ensures
        i == num_leading_hashes(s),
    decreases s.len(),
{
    if s.len() > 0 && s[0] == '#' {
        assert(i > 0);
        lemma_leading_hashes_unique(s.drop_first(), i - 1);
    }
}

/// Numeric value of a hex-digit character, or `None` for any other character.
fn hex_val(c: char) -> (r: Option<u8>)
    ensures
        r is Some <==> is_hex_digit(c),
        r is Some ==> r->Some_0 == hex_digit_val(c),
{
    if '0' <= c && c <= '9' {
        Some((c as u8) - ('0' as u8))
    } else if 'a' <= c && c <= 'f' {
        Some(10 + (c as u8) - ('a' as u8))
    } else if 'A' <= c && c <= 'F' {
        Some(10 + (c as u8) - ('A' as u8))
    } else {
        None
    }
}

/// Two-character channel at character index `k`.
fn channel(s: &str, k: usize) -> (r: u8)
    requires
        k + 2 <= s@.len(),
        k + 2 <= usize::MAX,
    ensures
        r == channel_at(s@, k as int),
{
    let c1 = s.get_char(k);
    let c2 = s.get_char(k + 1);
    match (hex_val(c1), hex_val(c2)) {
        (Some(a), Some(b)) => 16 * a + b,
        _ => 0,
    }
}

/// Index of the first character that is not `'#'`.
fn skip_hashes(s: &str) -> (i: usize)
    ensures
        i == num_leading_hashes(s@),
        i <= s@.len(),
{
    let n = s.unicode_len();
    let mut i: usize = 0;
    while i < n && s.get_char(i) == '#'
        invariant
            0 <= i <= n,
            n == s@.len(),
            forall|j: int| 0 <= j < i ==> s@[j] == '#',
        decreases n - i,
    {
        i = i + 1;
    }
    proof {
        lemma_leading_hashes_unique(s@, i as int);
    }
    i
}

/// Parses `"#RRGGBB"` into three channels. Leading `'#'`s are skipped; at
/// least six characters must remain, of which the first six are read; a
/// channel whose characters are not both hex digits degrades to 0; a string
/// that is too short degrades to black.
pub fn parse_hex(hex: &str) -> (r: [u8; 3])
    ensures
        r@ =~= seq![
            spec_parse_hex(hex@).0,
            spec_parse_hex(hex@).1,
            spec_parse_hex(hex@).2,
        ],
{
    let start = skip_hashes(hex);
    let n = hex.unicode_len();
    if n - start >= 6 {
        proof {
            lemma_leading_hashes_bound(hex@);
            assert(trim_hashes(hex@)[0] == hex@[start as int]);
            assert(trim_hashes(hex@)[1] == hex@[start as int + 1]);
            assert(trim_hashes(hex@)[2] == hex@[start as int + 2]);
            assert(trim_hashes(hex@)[3] == hex@[start as int + 3]);
            assert(trim_hashes(hex@)[4] == hex@[start as int + 4]);
            assert(trim_hashes(hex@)[5] == hex@[start as int + 5]);
        }
        let r = channel(hex, start);
        let g = channel(hex, start + 2);
        let b = channel(hex, start + 4);
        [r, g, b]
    } else {
        [0, 0, 0]
    }
}

/// Parses `"#RRGGBB"` into three channels: as `parse_hex`, but exactly six
/// characters must remain after the leading `'#'`s.
pub fn parse_hex_color(hex: &str) -> (r: (u8, u8, u8))
    ensures
        r == spec_parse_hex_color(hex@),
{
    let start = skip_hashes(hex);
    let n = hex.unicode_len();
    if n - start == 6 {
        proof {
            lemma_leading_hashes_bound(hex@);
            assert(trim_hashes(hex@)[0] == hex@[start as int]);
            assert(trim_hashes(hex@)[1] == hex@[start as int + 1]);
            assert(trim_hashes(hex@)[2] == hex@[start as int + 2]);
            assert(trim_hashes(hex@)[3] == hex@[start as int + 3]);
            assert(trim_hashes(hex@)[4] == hex@[start as int + 4]);
            assert(trim_hashes(hex@)[5] == hex@[start as int + 5]);
        }
        let r = channel(hex, start);
        let g = channel(hex, start + 2);
        let b = channel(hex, start + 4);
        (r, g, b)
    } else {
        (0, 0, 0)
    }
}

/// Absolute difference of two channels.
pub open spec fn chan_diff(a: u8, b: u8) -> int {
    if a >= b {
        a - b
    } else {
        b - a
    }
}

/// Per-channel bias match: every channel's absolute difference stays within
/// that channel's own bias.
pub open spec fn bias_match(p: Seq<u8>, t: Seq<u8>, b: Seq<u8>) -> bool {
    chan_diff(p[0], t[0]) <= b[0] && chan_diff(p[1], t[1]) <= b[1] && chan_diff(p[2], t[2])
        <= b[2]
}

/// Euclidean match: the squared channel distance stays within the squared
/// tolerance.
pub open spec fn euclid_match(
    r1: u8,
    g1: u8,
    b1: u8,
    r2: u8,
    g2: u8,
    b2: u8,
    tolerance: u8,
) -> bool {
    chan_diff(r1, r2) * chan_diff(r1, r2) + chan_diff(g1, g2) * chan_diff(g1, g2) + chan_diff(
        b1,
        b2,
    ) * chan_diff(b1, b2) <= tolerance * tolerance
}

/// Whether a pixel matches a target color under a per-channel bias.
pub fn is_match(pixel: [u8; 3], target: [u8; 3], bias: [u8; 3]) -> (r: bool)
    ensures
        r == bias_match(pixel@, target@, bias@),
{
    let rd = if pixel[0] >= target[0] {
        pixel[0] - target[0]
    } else {
        target[0] - pixel[0]
    };
    let gd = if pixel[1] >= target[1] {
        pixel[1] - target[1]
    } else {
        target[1] - pixel[1]
    };
    let bd = if pixel[2] >= target[2] {
        pixel[2] - target[2]
    } else {
        target[2] - pixel[2]
    };
    rd <= bias[0] && gd <= bias[1] && bd <= bias[2]
}

/// Whether a pixel matches a target color within a Euclidean tolerance.
pub fn is_color_match(r1: u8, g1: u8, b1: u8, r2: u8, g2: u8, b2: u8, tolerance: u8) -> (r: bool)
    ensures
        r == euclid_match(r1, g1, b1, r2, g2, b2, tolerance),
{
    let dr: u8 = if r1 >= r2 {
        r1 - r2
    } else {
        r2 - r1
    };
    let dg: u8 = if g1 >= g2 {
        g1 - g2
    } else {
        g2 - g1
    };
    let db: u8 = if b1 >= b2 {
        b1 - b2
    } else {
        b2 - b1
    };
    proof {
        assert(dr * dr <= 255 * 255 && dg * dg <= 255 * 255 && db * db <= 255 * 255
            && tolerance * tolerance <= 255 * 255) by (nonlinear_arith)
            requires
                dr <= 255,
                dg <= 255,
                db <= 255,
                tolerance <= 255,
        ;
    }
    let distance_sq: u32 = (dr as u32) * (dr as u32) + (dg as u32) * (dg as u32) + (db as u32)
        * (db as u32);
    let tolerance_sq: u32 = (tolerance as u32) * (tolerance as u32);
    distance_sq <= tolerance_sq
}

/// The three channels of a rule's target color.
pub open spec fn rule_target(rule: ColorRule) -> Seq<u8> {
    seq![
        spec_parse_hex(rule.target_hex@).0,
        spec_parse_hex(rule.target_hex@).1,
        spec_parse_hex(rule.target_hex@).2,
    ]
}

/// The three channels of a rule's per-channel bias.
pub open spec fn rule_bias(rule: ColorRule) -> Seq<u8> {
    seq![
        spec_parse_hex(rule.bias_hex@).0,
        spec_parse_hex(rule.bias_hex@).1,
        spec_parse_hex(rule.bias_hex@).2,
    ]
}

/// Whether a pixel matches one rule: the rule is enabled and the pixel is
/// within the rule's per-channel bias of its target.
pub open spec fn rule_matches(p: Seq<u8>, rule: ColorRule) -> bool {
    rule.is_enabled && bias_match(p, rule_target(rule), rule_bias(rule))
}

/// Whether a pixel matches some enabled rule of the list under per-channel
/// bias comparison; rules are tested in list order and the first match wins.
pub open spec fn spec_match_any(p: Seq<u8>, rules: Seq<ColorRule>) -> bool {
    exists|i: int| 0 <= i < rules.len() && rule_matches(p, #[trigger] rules[i])
}

/// Whether the pixel matches any enabled rule of the list.
pub fn is_match_any(pixel: [u8; 3], rules: &Vec<ColorRule>) -> (r: bool)
    ensures
        r == spec_match_any(pixel@, rules@),
{
    let n = rules.len();
    let mut i: usize = 0;
    while i < n
        invariant
            0 <= i <= n,
            n == rules@.len(),
            forall|j: int| 0 <= j < i ==> !rule_matches(pixel@, #[trigger] rules@[j]),
        decreases n - i,
    {
        let rule = &rules[i];
        if rule.is_enabled {
            let target = parse_hex(rule.target_hex.as_str());
            let bias = parse_hex(rule.bias_hex.as_str());
            if is_match(pixel, target, bias) {
                proof {
                    assert(rule_matches(pixel@, rules@[i as int]));
                }
                return true;
            }
        }
        i = i + 1;
    }
    false
}


/// The hexadecimal digit character for a value below 16, upper case.
pub open spec fn hex_digit_char(v: int) -> char {
    if v == 0 {
        '0'
    } else if v == 1 {
        '1'
    } else if v == 2 {
        '2'
    } else if v == 3 {
        '3'
    } else if v == 4 {
        '4'
    } else if v == 5 {
        '5'
    } else if v == 6 {
        '6'
    } else if v == 7 {
        '7'
    } else if v == 8 {
        '8'
    } else if v == 9 {
        '9'
    } else if v == 10 {
        'A'
    } else if v == 11 {
        'B'
    } else if v == 12 {
        'C'
    } else if v == 13 {
        'D'
    } else if v == 14 {
        'E'
    } else {
        'F'
    }
}

/// The canonical `"#RRGGBB"` string of three channels.
pub open spec fn hex_string_of(r: u8, g: u8, b: u8) -> Seq<char> {
    seq![
        '#',
        hex_digit_char(r as int / 16),
        hex_digit_char(r as int % 16),
        hex_digit_char(g as int / 16),
        hex_digit_char(g as int % 16),
        hex_digit_char(b as int / 16),
        hex_digit_char(b as int % 16),
    ]
}

proof fn lemma_hex_digit_char(v: int)
    requires
        0 <= v < 16,
    ensures
        is_hex_digit(hex_digit_char(v)),
        hex_digit_val(hex_digit_char(v)) == v,
        hex_digit_char(v) != '#',
{
}

/// Parsing the canonical hex string of any color gives the exact channels
/// back, through both parsers.
pub proof fn lemma_parse_hex_roundtrip(r: u8, g: u8, b: u8)
    ensures
        spec_parse_hex(hex_string_of(r, g, b)) == (r, g, b),
        spec_parse_hex_color(hex_string_of(r, g, b)) == (r, g, b),
{
    let s = hex_string_of(r, g, b);
    lemma_hex_digit_char(r as int / 16);
    lemma_hex_digit_char(r as int % 16);
    lemma_hex_digit_char(g as int / 16);
    lemma_hex_digit_char(g as int % 16);
    lemma_hex_digit_char(b as int / 16);
    lemma_hex_digit_char(b as int % 16);
    lemma_leading_hashes_unique(s, 1);
    let t = trim_hashes(s);
    assert(t.len() == 6);
    assert(t[0] == s[1] && t[1] == s[2] && t[2] == s[3] && t[3] == s[4] && t[4] == s[5] && t[5]
        == s[6]);
    assert(channel_at(t, 0) == r);
    assert(channel_at(t, 2) == g);
    assert(channel_at(t, 4) == b);
}

/// A string whose trimmed length is not exactly six degrades to black.
pub proof fn lemma_parse_hex_color_malformed(s: Seq<char>)
    requires
        trim_hashes(s).len() != 6,
    ensures
        spec_parse_hex_color(s) == (0u8, 0u8, 0u8),
{
}

} // verus!
