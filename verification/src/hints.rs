//! The options an encoding takes: a character set by name, a version, a
//! mask pattern and the GS1 format flag, with the text forms they are
//! given in and how those texts are read.
use vstd::prelude::*;
use crate::encoder::{chars_of, is_digit, digit_value, all_digits};
use crate::qr_code::{decimal_text, digit_char};

verus! {

/// The value of a string of decimal digits, most significant first.
pub open spec fn digits_value(d: Seq<char>) -> int
    decreases d.len(),
{
    if d.len() == 0 {
        0
    } else {
        10 * digits_value(d.drop_last()) + digit_value(d.last())
    }
}

/// A decimal integer as text: an optional sign, then one or more ASCII
/// digits, with a value that fits in 32 signed bits.
pub open spec fn parse_int(s: Seq<char>) -> Option<int> {
    if s.len() == 0 {
        None
    } else {
        let start: int = if s[0] == '-' || s[0] == '+' { 1 } else { 0 };
        let d = s.skip(start);
        if d.len() == 0 || !all_digits(d) {
            None
        } else {
            let v = if s[0] == '-' { -digits_value(d) } else { digits_value(d) };
            if -0x8000_0000 <= v <= 0x7fff_ffff {
                Some(v)
            } else {
                None
            }
        }
    }
}

/// A longer prefix of a digit string has a value at least as large.
pub proof fn lemma_digits_value_grows(d: Seq<char>, i: int, j: int)
    requires
        0 <= i <= j <= d.len(),
    ensures
        0 <= digits_value(d.take(i)) <= digits_value(d.take(j)),
    decreases j - i,
{
    if i < j {
        lemma_digits_value_grows(d, i, j - 1);
        assert(d.take(j).drop_last() =~= d.take(j - 1));
    } else {
        lemma_digits_value_nonneg(d.take(i));
    }
}

/// Digit values are never negative.
pub proof fn lemma_digits_value_nonneg(d: Seq<char>)
    ensures
        digits_value(d) >= 0,
    decreases d.len(),
{
    if d.len() > 0 {
        lemma_digits_value_nonneg(d.drop_last());
    }
}

/// Reads a decimal integer; `None` where the text is not one or its value
/// does not fit in 32 signed bits.
pub fn parse_int_text(s: &str) -> (r: Option<i32>)
    ensures
        match parse_int(s@) {
            Some(v) => r == Some(v as i32),
            None => r is None,
        },
{
    let chars = chars_of(s);
    let n = chars.len();
    if n == 0 {
        return None;
    }
    let negative = chars[0] == '-';
    let start: usize = if chars[0] == '-' || chars[0] == '+' { 1 } else { 0 };
    let ghost d = s@.skip(start as int);
    if start == n {
        return None;
    }
    let mut acc: i64 = 0;
    let mut i: usize = start;
    while i < n
        invariant
            chars@ == s@,
            n == s@.len(),
            d == s@.skip(start as int),
            start <= i <= n,
            start <= 1,
            s@.len() > 0,
            start == (if s@[0] == '-' || s@[0] == '+' { 1usize } else { 0usize }),
            negative == (s@[0] == '-'),
            0 <= acc <= 0x8000_0000,
            acc == digits_value(d.take(i - start)),
            all_digits(d.take(i - start)),
        decreases n - i,
    {
        let c = chars[i];
        if c < '0' || c > '9' {
            assert(!is_digit(d[i - start]));
            return None;
        }
        let ghost k = (i - start) as int;
        assert(d.take(k + 1).drop_last() =~= d.take(k));
        assert(d.take(k + 1).last() == c);
        acc = acc * 10 + (c as u32 - 48u32) as i64;
        i = i + 1;
        assert forall|j: int| 0 <= j < d.take(k + 1).len() implies is_digit(#[trigger] d.take(k + 1)[j]) by {
            if j < k {
                assert(d.take(k + 1)[j] == d.take(k)[j]);
            }
        }
        if acc > 0x8000_0000 {
            proof {
                lemma_digits_value_grows(d, k + 1, d.len() as int);
                assert(d.take(d.len() as int) =~= d);
            }
            return None;
        }
    }
    assert(d.take(n - start) =~= d);
    if negative {
        Some((-acc) as i32)
    } else if acc > 0x7fff_ffff {
        None
    } else {
        Some(acc as i32)
    }
}

/// A decimal digit's character is a digit of that value.
pub proof fn lemma_digit_char(d: nat)
    requires
        d < 10,
    ensures
        is_digit(digit_char(d)),
        digit_value(digit_char(d)) == d,
{
}

/// The decimal text of a number is all digits, and their value is the
/// number.
pub proof fn lemma_decimal_text_digits(n: nat)
    ensures
        decimal_text(n).len() >= 1,
        all_digits(decimal_text(n)),
        digits_value(decimal_text(n)) == n,
    decreases n,
{
    let t = decimal_text(n);
    if n < 10 {
        lemma_digit_char(n);
        assert(t.drop_last() =~= Seq::<char>::empty());
        assert(digits_value(t) == 10 * digits_value(t.drop_last()) + digit_value(t.last()));
    } else {
        lemma_decimal_text_digits(n / 10);
        lemma_digit_char(n % 10);
        let u = decimal_text(n / 10);
        assert(t.drop_last() =~= u);
        assert(t.last() == digit_char(n % 10));
        assert(digits_value(t) == 10 * digits_value(u) + digit_value(digit_char(n % 10)));
        assert(10 * (n / 10) + n % 10 == n);
        assert forall|i: int| 0 <= i < t.len() implies is_digit(#[trigger] t[i]) by {
            if i < t.len() - 1 {
                assert(t[i] == u[i]);
            }
        }
    }
}

/// The decimal text of a number, as a symbol's text form writes its
/// version and mask pattern, reads back as that number.
pub proof fn lemma_decimal_text_parses(n: nat)
    requires
        n <= 0x7fff_ffff,
    ensures
        parse_int(decimal_text(n)) == Some(n as int),
{
    lemma_decimal_text_digits(n);
    let t = decimal_text(n);
    assert(is_digit(t[0]));
    assert(t.skip(0) =~= t);
}

/// The lower-case form of an ASCII capital; other characters unchanged.
pub open spec fn ascii_lower(c: char) -> char {
    if 'A' <= c <= 'Z' {
        ((c as u32) + 32) as char
    } else {
        c
    }
}

/// Whether a text reads as the boolean true: "true" in any mix of cases.
pub open spec fn parse_boolean(s: Seq<char>) -> bool {
    s.len() == 4 && ascii_lower(s[0]) == 't' && ascii_lower(s[1]) == 'r' && ascii_lower(s[2]) == 'u'
        && ascii_lower(s[3]) == 'e'
}

/// Whether `s` reads as true: "true" in any mix of cases.
pub fn parseBoolean(s: &str) -> (r: bool)
    ensures
        r == parse_boolean(s@),
{
    let n = s.unicode_len();
    if n != 4 {
        return false;
    }
    let a = s.get_char(0);
    let b = s.get_char(1);
    let c = s.get_char(2);
    let e = s.get_char(3);
    (a == 't' || a == 'T') && (b == 'r' || b == 'R') && (c == 'u' || c == 'U') && (e == 'e' || e == 'E')
}

/// The text held by an optional string.
pub open spec fn opt_text(o: Option<String>) -> Option<Seq<char>> {
    match o {
        Some(s) => Some(s@),
        None => None,
    }
}

/// The options of an encoding. Each is absent by default.
pub struct EncodeHints {
    /// The name of the character set for byte mode; its ECI segment is
    /// written where byte mode is used.
    pub character_set: Option<String>,
    /// The version to use, as decimal text.
    pub qr_version: Option<String>,
    /// The mask pattern to use, as decimal text; a number outside 0 to 7
    /// leaves the choice to the encoder.
    pub qr_mask_pattern: Option<String>,
    /// Whether the data is GS1 formatted, announced by an FNC1 indicator.
    pub gs1_format: bool,
    /// Whether to search for the shortest mix of segments in place of one
    /// segment in one mode.
    pub qr_compact: bool,
}

impl EncodeHints {
    /// No options.
    pub fn new() -> (r: EncodeHints)
        ensures
            r.character_set is None,
            r.qr_version is None,
            r.qr_mask_pattern is None,
            !r.gs1_format,
            !r.qr_compact,
    {
        EncodeHints { character_set: None, qr_version: None, qr_mask_pattern: None, gs1_format: false, qr_compact: false }
    }

    /// Names the character set.
    pub fn set_character_set(&mut self, name: &str)
        ensures
            opt_text(final(self).character_set) == Some(name@),
            final(self).qr_version == old(self).qr_version,
            final(self).qr_mask_pattern == old(self).qr_mask_pattern,
            final(self).gs1_format == old(self).gs1_format,
            final(self).qr_compact == old(self).qr_compact,
    {
        self.character_set = Some(name.to_owned());
    }

    /// Gives the version as decimal text.
    pub fn set_qr_version(&mut self, version: &str)
        ensures
            opt_text(final(self).qr_version) == Some(version@),
            final(self).character_set == old(self).character_set,
            final(self).qr_mask_pattern == old(self).qr_mask_pattern,
            final(self).gs1_format == old(self).gs1_format,
            final(self).qr_compact == old(self).qr_compact,
    {
        self.qr_version = Some(version.to_owned());
    }

    /// Gives the mask pattern as decimal text.
    pub fn set_qr_mask_pattern(&mut self, mask: &str)
        ensures
            opt_text(final(self).qr_mask_pattern) == Some(mask@),
            final(self).character_set == old(self).character_set,
            final(self).qr_version == old(self).qr_version,
            final(self).gs1_format == old(self).gs1_format,
            final(self).qr_compact == old(self).qr_compact,
    {
        self.qr_mask_pattern = Some(mask.to_owned());
    }

    /// Sets the GS1 format flag.
    pub fn set_gs1_format(&mut self, gs1: bool)
        ensures
            final(self).gs1_format == gs1,
            final(self).character_set == old(self).character_set,
            final(self).qr_version == old(self).qr_version,
            final(self).qr_mask_pattern == old(self).qr_mask_pattern,
            final(self).qr_compact == old(self).qr_compact,
    {
        self.gs1_format = gs1;
    }

    /// Sets the GS1 format flag from its text: set where the text reads
    /// "true" in any mix of cases, clear otherwise.
    pub fn set_gs1_format_text(&mut self, value: &str)
        ensures
            final(self).gs1_format == parse_boolean(value@),
            final(self).character_set == old(self).character_set,
            final(self).qr_version == old(self).qr_version,
            final(self).qr_mask_pattern == old(self).qr_mask_pattern,
            final(self).qr_compact == old(self).qr_compact,
    {
        self.gs1_format = parseBoolean(value);
    }

    /// Sets the compaction flag.
    pub fn set_qr_compact(&mut self, compact: bool)
        ensures
            final(self).qr_compact == compact,
            final(self).character_set == old(self).character_set,
            final(self).qr_version == old(self).qr_version,
            final(self).qr_mask_pattern == old(self).qr_mask_pattern,
            final(self).gs1_format == old(self).gs1_format,
    {
        self.qr_compact = compact;
    }

    /// Sets the compaction flag from its text: set where the text reads
    /// "true" in any mix of cases, clear otherwise.
    pub fn set_qr_compact_text(&mut self, value: &str)
        ensures
            final(self).qr_compact == parse_boolean(value@),
            final(self).character_set == old(self).character_set,
            final(self).qr_version == old(self).qr_version,
            final(self).qr_mask_pattern == old(self).qr_mask_pattern,
            final(self).gs1_format == old(self).gs1_format,
    {
        self.qr_compact = parseBoolean(value);
    }
}

} // verus!
