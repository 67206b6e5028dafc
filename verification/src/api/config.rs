//! The script-facing configuration object: string key-value pairs with a
//! decimal-integer accessor that mirrors standard integer parsing, degrading
//! to 0 on malformed or out-of-range input.

use vstd::prelude::*;

verus! {

/// Whether the character is a decimal digit.
pub open spec fn is_digit(c: char) -> bool {
    '0' <= c && c <= '9'
}

/// The value of a decimal digit string.
pub open spec fn digits_val(s: Seq<char>) -> int
    decreases s.len(),
{
    if s.len() == 0 {
        0
    } else {
        digits_val(s.drop_last()) * 10 + (s.last() as int - '0' as int)
    }
}

/// The string after an optional leading sign.
pub open spec fn sign_rest(s: Seq<char>) -> Seq<char> {
    if s.len() > 0 && (s[0] == '-' || s[0] == '+') {
        s.skip(1)
    } else {
        s
    }
}

/// Every character is a decimal digit.
pub open spec fn all_digits(s: Seq<char>) -> bool {
    forall|i: int| 0 <= i < s.len() ==> is_digit(#[trigger] s[i])
}

/// What parsing a decimal integer returns: an optional sign, then at least
/// one digit and nothing else; a malformed string or one whose value leaves
/// the 32-bit range gives 0.
pub open spec fn spec_parse_i32(s: Seq<char>) -> i32 {
    let neg = s.len() > 0 && s[0] == '-';
    let rest = sign_rest(s);
    if rest.len() == 0 || !all_digits(rest) {
        0
    } else {
        let v = if neg {
            -digits_val(rest)
        } else {
            digits_val(rest)
        };
        if i32::MIN <= v <= i32::MAX {
            v as i32
        } else {
            0
        }
    }
}

/// Ten to the power `k`.
pub open spec fn pow10(k: int) -> int
    decreases k,
{
    if k <= 0 {
        1
    } else {
        10 * pow10(k - 1)
    }
}

proof fn lemma_digits_val_bounds(s: Seq<char>)
    requires
        forall|i: int| 0 <= i < s.len() ==> is_digit(#[trigger] s[i]),
    ensures
        0 <= digits_val(s) < pow10(s.len() as int),
    decreases s.len(),
{
    if s.len() > 0 {
        lemma_digits_val_bounds(s.drop_last());
        assert(digits_val(s.drop_last()) * 10 <= (pow10(s.len() - 1) - 1) * 10)
            by (nonlinear_arith)
            requires
                digits_val(s.drop_last()) <= pow10(s.len() - 1) - 1,
        ;
        assert(digits_val(s.drop_last()) * 10 >= 0) by (nonlinear_arith)
            requires
                digits_val(s.drop_last()) >= 0,
        ;
    }
}

proof fn lemma_digits_val_lower(s: Seq<char>)
    requires
        s.len() > 0,
        forall|i: int| 0 <= i < s.len() ==> is_digit(#[trigger] s[i]),
        s[0] != '0',
    ensures
        digits_val(s) >= pow10(s.len() - 1),
    decreases s.len(),
{
    if s.len() == 1 {
        assert(digits_val(s.drop_last()) == 0);
    } else {
        lemma_digits_val_lower(s.drop_last());
        lemma_digits_val_bounds(s);
        assert(digits_val(s.drop_last()) * 10 >= pow10(s.len() - 2) * 10) by (nonlinear_arith)
            requires
                digits_val(s.drop_last()) >= pow10(s.len() - 2),
        ;
    }
}

proof fn lemma_pow10_pos(k: int)
    ensures
        pow10(k) >= 1,
    decreases k,
{
    if k > 0 {
        lemma_pow10_pos(k - 1);
    }
}

proof fn lemma_pow10_monotone(a: int, b: int)
    requires
        0 <= a <= b,
    ensures
        pow10(a) <= pow10(b),
    decreases b,
{
    if a < b {
        lemma_pow10_monotone(a, b - 1);
        lemma_pow10_pos(b - 1);
    }
}

/// A leading zero does not change the value of a digit string.
proof fn lemma_strip_zero(s: Seq<char>)
    requires
        s.len() > 0,
        s[0] == '0',
    ensures
        digits_val(s) == digits_val(s.skip(1)),
    decreases s.len(),
{
    if s.len() == 1 {
        assert(s.skip(1).len() == 0);
        assert(digits_val(s.skip(1)) == 0);
        assert(s.drop_last().len() == 0);
        assert(digits_val(s) == digits_val(s.drop_last()) * 10 + (s.last() as int - '0' as int));
        assert(s.last() == s[0]);
    } else {
        lemma_strip_zero(s.drop_last());
        assert(s.drop_last()[0] == s[0]);
        assert(s.drop_last().skip(1) =~= s.skip(1).drop_last());
        assert(s.skip(1).last() == s.last());
        assert(digits_val(s) == digits_val(s.drop_last()) * 10 + (s.last() as int - '0' as int));
        assert(digits_val(s.skip(1)) == digits_val(s.skip(1).drop_last()) * 10 + (s.skip(
            1,
        ).last() as int - '0' as int));
    }
}

/// Parses a decimal 32-bit integer: optional sign, then digits only;
/// anything else, or a value out of range, gives 0.
#[verifier::loop_isolation(false)]
#[verifier::rlimit(30)]
pub fn parse_i32(s: &str) -> (r: i32)
    ensures
        r == spec_parse_i32(s@),
{
    let n = s.unicode_len();
    let mut i: usize = 0;
    let mut neg = false;
    if n > 0 {
        let c0 = s.get_char(0);
        if c0 == '-' {
            neg = true;
            i = 1;
        } else if c0 == '+' {
            i = 1;
        }
    }
    let ghost rest = sign_rest(s@);
    proof {
        assert(rest =~= s@.skip(i as int));
    }
    if i == n {
        return 0;
    }
    // every remaining character must be a digit
    let mut j: usize = i;
    while j < n
        invariant
            i <= j <= n,
            forall|k: int| i <= k < j ==> is_digit(#[trigger] s@[k]),
        decreases n - j,
    {
        let c = s.get_char(j);
        if !('0' <= c && c <= '9') {
            proof {
                assert(rest[j - i] == s@[j as int]);
                assert(!is_digit(rest[j - i]));
                assert(!all_digits(rest)) by {
                    assert(0 <= j - i < rest.len() && !is_digit(rest[j - i]));
                }
                assert(spec_parse_i32(s@) == 0);
            }
            return 0;
        }
        j = j + 1;
    }
    proof {
        assert forall|k: int| 0 <= k < rest.len() implies is_digit(#[trigger] rest[k]) by {
            assert(rest[k] == s@[k + i]);
        }
        assert(all_digits(rest));
    }
    // skip leading zeros; they do not change the value
    let mut z: usize = i;
    while z < n && s.get_char(z) == '0'
        invariant
            i <= z <= n,
            digits_val(rest) == digits_val(s@.skip(z as int)),
            forall|k: int| z <= k < n ==> is_digit(#[trigger] s@[k]),
        decreases n - z,
    {
        proof {
            lemma_strip_zero(s@.skip(z as int));
            assert(s@.skip(z as int).skip(1) =~= s@.skip(z + 1));
        }
        z = z + 1;
    }
    let ghost tail = s@.skip(z as int);
    proof {
        assert forall|k: int| 0 <= k < tail.len() implies is_digit(#[trigger] tail[k]) by {
            assert(tail[k] == s@[k + z]);
        }
        lemma_digits_val_bounds(tail);
    }
    if n - z > 10 {
        // more than ten significant digits always overflow
        proof {
            assert(tail[0] == s@[z as int]);
            lemma_digits_val_lower(tail);
            lemma_pow10_monotone(10, tail.len() - 1);
            assert(pow10(10) == 10000000000) by {
                reveal_with_fuel(pow10, 12);
            }
        }
        return 0;
    }
    let mut acc: u64 = 0;
    let mut k: usize = z;
    while k < n
        invariant
            z <= k <= n,
            n - z <= 10,
            acc == digits_val(s@.skip(z as int).take(k - z)),
            acc < 10000000000,
            forall|q: int| z <= q < n ==> is_digit(#[trigger] s@[q]),
        decreases n - k,
    {
        let c = s.get_char(k);
        let d: u64 = (c as u64) - ('0' as u64);
        proof {
            let pre = s@.skip(z as int).take(k - z);
            let now = s@.skip(z as int).take(k + 1 - z);
            assert(now.drop_last() =~= pre);
            assert(now.last() == s@[k as int]);
            lemma_digits_val_bounds(now);
            lemma_pow10_monotone(now.len() as int, 10);
            assert(pow10(10) == 10000000000) by {
                reveal_with_fuel(pow10, 12);
            }
        }
        acc = acc * 10 + d;
        k = k + 1;
    }
    proof {
        assert(s@.skip(z as int).take(n - z) =~= tail);
        assert(digits_val(rest) == acc);
    }
    if neg {
        if acc <= 2147483648 {
            proof {
                assert(i32::MIN <= -(acc as int) <= i32::MAX);
            }
            (-(acc as i64)) as i32
        } else {
            0
        }
    } else {
        if acc <= 2147483647 {
            acc as i32
        } else {
            0
        }
    }
}

/// Whether two strings hold the same characters.
fn str_eq(a: &str, b: &str) -> (r: bool)
    ensures
        r == (a@ == b@),
{
    let na = a.unicode_len();
    let nb = b.unicode_len();
    if na != nb {
        return false;
    }
    let mut i: usize = 0;
    while i < na
        invariant
            0 <= i <= na,
            na == a@.len(),
            na == b@.len(),
            forall|j: int| 0 <= j < i ==> a@[j] == b@[j],
        decreases na - i,
    {
        if s_ne(a, b, i) {
            return false;
        }
        i = i + 1;
    }
    proof {
        assert(a@ =~= b@);
    }
    true
}

/// Whether the strings differ at character `i`.
fn s_ne(a: &str, b: &str, i: usize) -> (r: bool)
    requires
        i < a@.len(),
        i < b@.len(),
    ensures
        r == (a@[i as int] != b@[i as int]),
{
    a.get_char(i) != b.get_char(i)
}

/// The value stored under a key: the first pair with that key wins; a
/// missing key reads as the empty string.
pub open spec fn spec_get(entries: Seq<(String, String)>, key: Seq<char>) -> Seq<char>
    decreases entries.len(),
{
    if entries.len() == 0 {
        Seq::empty()
    } else if entries.first().0@ == key {
        entries.first().1@
    } else {
        spec_get(entries.drop_first(), key)
    }
}

/// The script-facing configuration store: key-value pairs consulted by
/// running scripts.
#[derive(Debug)]
pub struct Config {
    pub entries: Vec<(String, String)>,
}

impl Config {
    pub fn new() -> (r: Config)
        ensures
            r.entries@.len() == 0,
    {
        Config { entries: Vec::new() }
    }

    /// The script-visible constructor.
    pub fn ctor() -> (r: Config)
        ensures
            r.entries@.len() == 0,
    {
        Config { entries: Vec::new() }
    }

    /// Adds a pair; an earlier pair with the same key keeps priority.
    pub fn set_value(&mut self, key: String, value: String)
        ensures
            final(self).entries@ == old(self).entries@.push((key, value)),
    {
        self.entries.push((key, value));
    }

    /// The value stored under the key, or the empty string.
    pub fn get(&self, key: String) -> (r: String)
        ensures
            r@ == spec_get(self.entries@, key@),
    {
        let n = self.entries.len();
        proof {
            assert(self.entries@.skip(0) =~= self.entries@);
        }
        let mut i: usize = 0;
        while i < n
            invariant
                0 <= i <= n,
                n == self.entries@.len(),
                spec_get(self.entries@, key@) == spec_get(self.entries@.skip(i as int), key@),
            decreases n - i,
        {
            proof {
                assert(self.entries@.skip(i as int).first() == self.entries@[i as int]);
                assert(self.entries@.skip(i as int).drop_first() =~= self.entries@.skip(i + 1));
            }
            if str_eq(self.entries[i].0.as_str(), key.as_str()) {
                return self.entries[i].1.as_str().to_owned();
            }
            i = i + 1;
        }
        proof {
            assert(self.entries@.skip(n as int) =~= Seq::<(String, String)>::empty());
        }
        String::new()
    }

    /// The value stored under the key parsed as a decimal integer, or 0.
    pub fn get_int(&self, key: String) -> (r: i32)
        ensures
            r == spec_parse_i32(spec_get(self.entries@, key@)),
    {
        let v = self.get(key);
        parse_i32(v.as_str())
    }
}

} // verus!
