//! The steps that turn text into the data codewords of a QR Code: mode
//! choice, the bit encodings of each mode, the header fields, termination
//! and padding, block division and interleaving with error correction.
use vstd::prelude::*;
use crate::bit_array::{BitArray, bits_of, bytes_to_bits};
use crate::charset::{CharacterSetECI, text_bytes, eci_value, eci_by_name};
use crate::error::EncodeError;
use crate::version::{
    Mode, Version, ErrorCorrectionLevel, mode_bits, character_count_bits, data_codewords,
    total_codewords, num_blocks, dimension, total_ec_codewords, ec_entry,
};
use crate::matrix_util::{buildMatrix, symbol_matrix, data_capacity};
use crate::mask_util::{calculateMaskPenalty, mask_penalty};
use crate::qr_code::QRCode;
use crate::byte_matrix::ByteMatrix;
use crate::hints::{EncodeHints, parse_int, parse_int_text, opt_text};
use crate::minimal_encoder::{
    ResultList, encoded_minimally, fitting_path, bits_outcome, lemma_encoding_deterministic,
    lemma_result_excludes_errors, class_version, class_may_overflow,
};
use crate::eci_encoder_set::{encoder_sets, priority_position};

verus! {

/// The character set of byte mode where none is named: ISO-8859-1.
pub const DEFAULT_BYTE_MODE_ENCODING: CharacterSetECI = CharacterSetECI::ISO8859_1;

/// The value of a character in alphanumeric mode, or -1 where the mode
/// cannot hold it: digits 0-9, capitals 10-35, then space $ % * + - . / :
/// as 36 to 44.
pub open spec fn alphanumeric_code(code: u32) -> i32 {
    if 0x30 <= code <= 0x39 {
        (code - 0x30) as i32
    } else if 0x41 <= code <= 0x5A {
        (code - 0x41 + 10) as i32
    } else if code == 0x20 {
        36i32
    } else if code == 0x24 {
        37i32
    } else if code == 0x25 {
        38i32
    } else if code == 0x2A {
        39i32
    } else if code == 0x2B {
        40i32
    } else if code == 0x2D {
        41i32
    } else if code == 0x2E {
        42i32
    } else if code == 0x2F {
        43i32
    } else if code == 0x3A {
        44i32
    } else {
        -1i32
    }
}

/// The 45 characters of alphanumeric mode: the digits, the capital
/// letters, and space $ % * + - . / :.
pub open spec fn in_alphanumeric_set(c: char) -> bool {
    ||| '0' <= c <= '9'
    ||| 'A' <= c <= 'Z'
    ||| c == ' '
    ||| c == '$'
    ||| c == '%'
    ||| c == '*'
    ||| c == '+'
    ||| c == '-'
    ||| c == '.'
    ||| c == '/'
    ||| c == ':'
}

/// The alphanumeric code table holds exactly the 45 characters of the
/// mode, each with its own code from 0 to 44: a character has a code
/// (other than -1) exactly when it is one of them, and no two of them
/// share a code. Digits keep their value and capitals follow in
/// alphabetical order after them.
pub proof fn lemma_alphanumeric_code_table(a: char, b: char)
    ensures
        (alphanumeric_code(a as u32) != -1) == in_alphanumeric_set(a),
        in_alphanumeric_set(a) ==> 0 <= alphanumeric_code(a as u32) <= 44,
        in_alphanumeric_set(a) && in_alphanumeric_set(b) && a != b ==> alphanumeric_code(a as u32) != alphanumeric_code(
            b as u32,
        ),
        '0' <= a <= '9' ==> alphanumeric_code(a as u32) == (a as u32) - ('0' as u32),
        'A' <= a <= 'Z' && 'A' <= b <= 'Z' && (a as u32) < (b as u32) ==> alphanumeric_code(a as u32)
            < alphanumeric_code(b as u32),
        'A' <= a <= 'Z' ==> alphanumeric_code(a as u32) >= 10,
{
}

/// The 45 characters of alphanumeric mode in the order of their codes.
pub open spec fn alphanumeric_chars() -> Seq<char> {
    seq!['0', '1', '2', '3', '4', '5', '6', '7', '8', '9', 'A', 'B', 'C', 'D', 'E', 'F', 'G', 'H', 'I', 'J', 'K', 'L', 'M', 'N', 'O', 'P', 'Q', 'R', 'S', 'T', 'U', 'V', 'W', 'X', 'Y', 'Z', ' ', '$', '%', '*', '+', '-', '.', '/', ':']
}

/// The code of each of the 45 characters is its place in the standard list
/// `alphanumeric_chars`: "0"-"9", then "A"-"Z", then space $ % * + - . / :.
pub proof fn lemma_alphanumeric_code_order()
    ensures
        alphanumeric_chars().len() == 45,
        forall|i: int| 0 <= i < 45 ==> alphanumeric_code(#[trigger] alphanumeric_chars()[i] as u32) == i,
        forall|i: int| 0 <= i < 45 ==> in_alphanumeric_set(#[trigger] alphanumeric_chars()[i]),
{
    assert forall|i: int| 0 <= i < 45 implies alphanumeric_code(#[trigger] alphanumeric_chars()[i] as u32) == i
        && in_alphanumeric_set(alphanumeric_chars()[i]) by {
        if i == 0 {
            assert(alphanumeric_chars()[0] == '0');
        } else if i == 1 {
            assert(alphanumeric_chars()[1] == '1');
        } else if i == 2 {
            assert(alphanumeric_chars()[2] == '2');
        } else if i == 3 {
            assert(alphanumeric_chars()[3] == '3');
        } else if i == 4 {
            assert(alphanumeric_chars()[4] == '4');
        } else if i == 5 {
            assert(alphanumeric_chars()[5] == '5');
        } else if i == 6 {
            assert(alphanumeric_chars()[6] == '6');
        } else if i == 7 {
            assert(alphanumeric_chars()[7] == '7');
        } else if i == 8 {
            assert(alphanumeric_chars()[8] == '8');
        } else if i == 9 {
            assert(alphanumeric_chars()[9] == '9');
        } else if i == 10 {
            assert(alphanumeric_chars()[10] == 'A');
        } else if i == 11 {
            assert(alphanumeric_chars()[11] == 'B');
        } else if i == 12 {
            assert(alphanumeric_chars()[12] == 'C');
        } else if i == 13 {
            assert(alphanumeric_chars()[13] == 'D');
        } else if i == 14 {
            assert(alphanumeric_chars()[14] == 'E');
        } else if i == 15 {
            assert(alphanumeric_chars()[15] == 'F');
        } else if i == 16 {
            assert(alphanumeric_chars()[16] == 'G');
        } else if i == 17 {
            assert(alphanumeric_chars()[17] == 'H');
        } else if i == 18 {
            assert(alphanumeric_chars()[18] == 'I');
        } else if i == 19 {
            assert(alphanumeric_chars()[19] == 'J');
        } else if i == 20 {
            assert(alphanumeric_chars()[20] == 'K');
        } else if i == 21 {
            assert(alphanumeric_chars()[21] == 'L');
        } else if i == 22 {
            assert(alphanumeric_chars()[22] == 'M');
        } else if i == 23 {
            assert(alphanumeric_chars()[23] == 'N');
        } else if i == 24 {
            assert(alphanumeric_chars()[24] == 'O');
        } else if i == 25 {
            assert(alphanumeric_chars()[25] == 'P');
        } else if i == 26 {
            assert(alphanumeric_chars()[26] == 'Q');
        } else if i == 27 {
            assert(alphanumeric_chars()[27] == 'R');
        } else if i == 28 {
            assert(alphanumeric_chars()[28] == 'S');
        } else if i == 29 {
            assert(alphanumeric_chars()[29] == 'T');
        } else if i == 30 {
            assert(alphanumeric_chars()[30] == 'U');
        } else if i == 31 {
            assert(alphanumeric_chars()[31] == 'V');
        } else if i == 32 {
            assert(alphanumeric_chars()[32] == 'W');
        } else if i == 33 {
            assert(alphanumeric_chars()[33] == 'X');
        } else if i == 34 {
            assert(alphanumeric_chars()[34] == 'Y');
        } else if i == 35 {
            assert(alphanumeric_chars()[35] == 'Z');
        } else if i == 36 {
            assert(alphanumeric_chars()[36] == ' ');
        } else if i == 37 {
            assert(alphanumeric_chars()[37] == '$');
        } else if i == 38 {
            assert(alphanumeric_chars()[38] == '%');
        } else if i == 39 {
            assert(alphanumeric_chars()[39] == '*');
        } else if i == 40 {
            assert(alphanumeric_chars()[40] == '+');
        } else if i == 41 {
            assert(alphanumeric_chars()[41] == '-');
        } else if i == 42 {
            assert(alphanumeric_chars()[42] == '.');
        } else if i == 43 {
            assert(alphanumeric_chars()[43] == '/');
        } else if i == 44 {
            assert(alphanumeric_chars()[44] == ':');
        }
    }
}

/// The mode chosen without a character set holds the text: numeric mode
/// only for digits, alphanumeric mode only for characters of its 45; any
/// other character sends the text to byte mode.
pub proof fn lemma_chosen_mode_characters(text: Seq<char>)
    ensures
        choose_mode_spec(text, None) == Mode::NUMERIC ==> forall|i: int| 0 <= i < text.len() ==> '0' <= #[trigger] text[i] <= '9',
        choose_mode_spec(text, None) == Mode::ALPHANUMERIC ==> forall|i: int|
            0 <= i < text.len() ==> in_alphanumeric_set(#[trigger] text[i]),
        (exists|i: int| 0 <= i < text.len() && !in_alphanumeric_set(#[trigger] text[i])) ==> choose_mode_spec(text, None)
            == Mode::BYTE,
{
    assert forall|i: int| 0 <= i < text.len() implies (alphanumeric_code(#[trigger] text[i] as u32) != -1)
        == in_alphanumeric_set(text[i]) by {
        lemma_alphanumeric_code_table(text[i], text[i]);
    }
}

/// Whether a character is a decimal digit.
pub open spec fn is_digit(c: char) -> bool {
    '0' <= c <= '9'
}

/// The value of a decimal digit.
pub open spec fn digit_value(c: char) -> u32 {
    (c as u32 - 0x30) as u32
}

/// Whether alphanumeric mode can hold every character of `text`.
pub open spec fn all_alphanumeric(text: Seq<char>) -> bool {
    forall|i: int| 0 <= i < text.len() ==> alphanumeric_code(#[trigger] text[i] as u32) != -1
}

/// Whether every character of `text` is a decimal digit.
pub open spec fn all_digits(text: Seq<char>) -> bool {
    forall|i: int| 0 <= i < text.len() ==> is_digit(#[trigger] text[i])
}

/// Whether a byte can open a double-byte Shift_JIS character of the Kanji
/// ranges 0x8140-0x9FFC and 0xE040-0xEBBF.
pub open spec fn is_kanji_lead(b: u8) -> bool {
    (0x81 <= b <= 0x9F) || (0xE0 <= b <= 0xEB)
}

/// Whether the Shift_JIS bytes of `text` are all double-byte characters
/// whose first byte opens one of the Kanji ranges.
pub open spec fn is_only_double_byte_kanji(text: Seq<char>) -> bool {
    match text_bytes(CharacterSetECI::SJIS, text) {
        Ok(b) => b.len() % 2 == 0 && forall|i: int|
            0 <= i < b.len() && i % 2 == 0 ==> is_kanji_lead(#[trigger] b[i]),
        Err(_) => false,
    }
}

/// The mode for `text`: Kanji where Shift_JIS is asked for and the text is
/// all double-byte Kanji; else numeric for a nonempty text of digits,
/// alphanumeric where that mode holds every character, and byte mode
/// otherwise.
pub open spec fn choose_mode_spec(text: Seq<char>, encoding: Option<CharacterSetECI>) -> Mode {
    if encoding == Some(CharacterSetECI::SJIS) && is_only_double_byte_kanji(text) {
        Mode::KANJI
    } else if !all_alphanumeric(text) || text.len() == 0 {
        Mode::BYTE
    } else if all_digits(text) {
        Mode::NUMERIC
    } else {
        Mode::ALPHANUMERIC
    }
}

/// The bits of a text of digits in numeric mode: groups of three digits in
/// ten bits, a final pair in seven bits, a final single digit in four.
pub open spec fn numeric_bits(text: Seq<char>) -> Seq<bool>
    decreases text.len(),
{
    if text.len() == 0 {
        Seq::empty()
    } else if text.len() == 1 {
        bits_of(digit_value(text[0]), 4)
    } else if text.len() == 2 {
        bits_of((digit_value(text[0]) * 10 + digit_value(text[1])) as u32, 7)
    } else {
        bits_of(
            (digit_value(text[0]) * 100 + digit_value(text[1]) * 10 + digit_value(text[2])) as u32,
            10,
        ) + numeric_bits(text.skip(3))
    }
}

/// The bits of a text in alphanumeric mode: pairs as `45 * first + second`
/// in eleven bits, a final single character in six.
pub open spec fn alphanumeric_bits(text: Seq<char>) -> Seq<bool>
    decreases text.len(),
{
    if text.len() == 0 {
        Seq::empty()
    } else if text.len() == 1 {
        bits_of(alphanumeric_code(text[0] as u32) as u32, 6)
    } else {
        bits_of(
            (alphanumeric_code(text[0] as u32) * 45 + alphanumeric_code(text[1] as u32)) as u32,
            11,
        ) + alphanumeric_bits(text.skip(2))
    }
}

/// The thirteen-bit value of a double-byte Shift_JIS character in Kanji
/// mode, or `None` outside the two Kanji ranges.
pub open spec fn kanji_value(b1: u8, b2: u8) -> Option<u32> {
    let code = b1 as int * 256 + b2 as int;
    let subtracted = if 0x8140 <= code <= 0x9ffc {
        code - 0x8140
    } else if 0xe040 <= code <= 0xebbf {
        code - 0xc140
    } else {
        -1
    };
    if subtracted < 0 {
        None
    } else {
        Some(((subtracted / 256) * 0xc0 + (subtracted % 256)) as u32)
    }
}

/// Whether every byte pair of `b` is a Kanji character.
pub open spec fn all_kanji_pairs(b: Seq<u8>) -> bool {
    forall|i: int| 0 <= i < b.len() / 2 ==> (#[trigger] kanji_value(b[2 * i], b[2 * i + 1])) is Some
}

/// The bits of Shift_JIS bytes in Kanji mode: thirteen bits per pair.
pub open spec fn kanji_bits(b: Seq<u8>) -> Seq<bool>
    decreases b.len(),
{
    if b.len() < 2 {
        Seq::empty()
    } else {
        bits_of(kanji_value(b[0], b[1]).unwrap(), 13) + kanji_bits(b.skip(2))
    }
}

/// The characters of a string.
pub fn chars_of(text: &str) -> (r: Vec<char>)
    ensures
        r@ == text@,
{
    let n = text.unicode_len();
    let mut out: Vec<char> = Vec::new();
    let mut i: usize = 0;
    while i < n
        invariant
            n == text@.len(),
            i <= n,
            out@ == text@.take(i as int),
        decreases n - i,
    {
        out.push(text.get_char(i));
        i = i + 1;
        assert(text@.take(i as int) =~= text@.take((i - 1) as int).push(text@[i - 1]));
    }
    assert(text@.take(n as int) =~= text@);
    out
}

/// The alphanumeric value of the character with code `code`, or -1.
pub fn getAlphanumericCode(code: u32) -> (r: i32)
    ensures
        r == alphanumeric_code(code),
        -1 <= r <= 44,
{
    if 0x30 <= code && code <= 0x39 {
        (code - 0x30) as i32
    } else if 0x41 <= code && code <= 0x5A {
        (code - 0x41 + 10) as i32
    } else if code == 0x20 {
        36
    } else if code == 0x24 {
        37
    } else if code == 0x25 {
        38
    } else if code == 0x2A {
        39
    } else if code == 0x2B {
        40
    } else if code == 0x2D {
        41
    } else if code == 0x2E {
        42
    } else if code == 0x2F {
        43
    } else if code == 0x3A {
        44
    } else {
        -1
    }
}

/// Whether the Shift_JIS form of `text` is all double-byte Kanji.
pub fn isOnlyDoubleByteKanji(text: &str) -> (r: bool)
    ensures
        r == is_only_double_byte_kanji(text@),
{
    match CharacterSetECI::SJIS.encode(text) {
        Err(_) => false,
        Ok(bytes) => {
            let n = bytes.len();
            if n % 2 != 0 {
                return false;
            }
            let mut i: usize = 0;
            while i < n
                invariant
                    n == bytes@.len(),
                    text_bytes(CharacterSetECI::SJIS, text@) == Ok::<Seq<u8>, EncodeError>(bytes@),
                    n % 2 == 0,
                    i <= n,
                    i % 2 == 0,
                    forall|j: int| 0 <= j < i && j % 2 == 0 ==> is_kanji_lead(#[trigger] bytes@[j]),
                decreases n - i,
            {
                let b = bytes[i];
                if !((0x81 <= b && b <= 0x9F) || (0xE0 <= b && b <= 0xEB)) {
                    assert(!is_kanji_lead(bytes@[i as int]));
                    return false;
                }
                i = i + 2;
            }
            true
        },
    }
}

/// The mode for `text` with no character set given.
pub fn chooseMode(text: &str) -> (r: Mode)
    ensures
        r == choose_mode_spec(text@, None),
{
    choose_mode_with(text, None)
}

/// The mode for `text` when `encoding` is the asked-for character set.
pub fn choose_mode_with(text: &str, encoding: Option<CharacterSetECI>) -> (r: Mode)
    ensures
        r == choose_mode_spec(text@, encoding),
{
    let is_sjis = match encoding {
        Some(CharacterSetECI::SJIS) => true,
        _ => false,
    };
    if is_sjis && isOnlyDoubleByteKanji(text) {
        return Mode::KANJI;
    }
    let chars = chars_of(text);
    let n = chars.len();
    let mut has_numeric = false;
    let mut has_alphanumeric = false;
    let mut i: usize = 0;
    while i < n
        invariant
            chars@ == text@,
            !(encoding == Some(CharacterSetECI::SJIS) && is_only_double_byte_kanji(text@)),
            n == chars@.len(),
            i <= n,
            all_alphanumeric(chars@.take(i as int)),
            has_numeric <==> exists|j: int| 0 <= j < i && is_digit(#[trigger] chars@[j]),
            has_alphanumeric <==> !all_digits(chars@.take(i as int)),
        decreases n - i,
    {
        let c = chars[i];
        if '0' <= c && c <= '9' {
            has_numeric = true;
        } else if getAlphanumericCode(c as u32) != -1 {
            has_alphanumeric = true;
        } else {
            assert(!all_alphanumeric(text@)) by {
                assert(alphanumeric_code(chars@[i as int] as u32) == -1);
            }
            return Mode::BYTE;
        }
        i = i + 1;
        proof {
            let t = chars@.take(i as int);
            let p = chars@.take((i - 1) as int);
            assert forall|j: int| 0 <= j < t.len() implies alphanumeric_code(#[trigger] t[j] as u32) != -1 by {
                if j < i - 1 {
                    assert(t[j] == p[j]);
                }
            }
            if has_alphanumeric {
                if !all_digits(p) {
                    let w = choose|j: int| 0 <= j < p.len() && !is_digit(#[trigger] p[j]);
                    assert(t[w] == p[w]);
                } else {
                    assert(!is_digit(t[i - 1]));
                }
            } else {
                assert forall|j: int| 0 <= j < t.len() implies is_digit(#[trigger] t[j]) by {
                    if j < i - 1 {
                        assert(t[j] == p[j]);
                    }
                }
            }
        }
    }
    assert(chars@.take(n as int) =~= chars@);
    if has_alphanumeric {
        return Mode::ALPHANUMERIC;
    }
    if has_numeric {
        assert(chars@.len() > 0);
        return Mode::NUMERIC;
    }
    proof {
        if n > 0 {
            assert(is_digit(chars@[0]));
        }
    }
    Mode::BYTE
}

/// Appends the four-bit indicator of `mode`.
pub fn appendModeInfo(mode: Mode, bits: &mut BitArray)
    requires
        old(bits)@.len() + 4 <= usize::MAX,
    ensures
        final(bits)@ == old(bits)@ + bits_of(mode_bits(mode), 4),
{
    bits.append_bits(mode.get_bits(), 4);
}

/// Appends the character count field: `num_letters` in the width that
/// `mode` has in `version`; an error where the count does not fit.
pub fn appendLengthInfo(num_letters: u32, version: &Version, mode: Mode, bits: &mut BitArray) -> (r:
    Result<(), EncodeError>)
    requires
        old(bits)@.len() + 16 <= usize::MAX,
    ensures
        ({
            let width = character_count_bits(mode, version.number());
            &&& r is Ok <==> (num_letters as int) < vstd::arithmetic::power2::pow2(width as nat)
            &&& r is Ok ==> final(bits)@ == old(bits)@ + bits_of(num_letters, width as nat)
            &&& r is Err ==> r == Err::<(), EncodeError>(EncodeError::LengthTooLarge)
                && final(bits)@ == old(bits)@
        }),
{
    let num_bits = mode.getCharacterCountBits(version);
    proof {
        lemma_pow2_small(num_bits);
    }
    if num_letters >= (1u32 << num_bits) {
        return Err(EncodeError::LengthTooLarge);
    }
    bits.append_bits(num_letters, num_bits as usize);
    Ok(())
}

/// `1 << n` is `2^n` for the field widths used here.
pub proof fn lemma_pow2_small(n: u32)
    requires
        n <= 16,
    ensures
        (1u32 << n) as int == vstd::arithmetic::power2::pow2(n as nat),
{
    vstd::arithmetic::power2::lemma2_to64();
    assert(n == 0 ==> 1u32 << n == 1) by (bit_vector);
    assert(n == 1 ==> 1u32 << n == 2) by (bit_vector);
    assert(n == 2 ==> 1u32 << n == 4) by (bit_vector);
    assert(n == 3 ==> 1u32 << n == 8) by (bit_vector);
    assert(n == 4 ==> 1u32 << n == 16) by (bit_vector);
    assert(n == 5 ==> 1u32 << n == 32) by (bit_vector);
    assert(n == 6 ==> 1u32 << n == 64) by (bit_vector);
    assert(n == 7 ==> 1u32 << n == 128) by (bit_vector);
    assert(n == 8 ==> 1u32 << n == 256) by (bit_vector);
    assert(n == 9 ==> 1u32 << n == 512) by (bit_vector);
    assert(n == 10 ==> 1u32 << n == 1024) by (bit_vector);
    assert(n == 11 ==> 1u32 << n == 2048) by (bit_vector);
    assert(n == 12 ==> 1u32 << n == 4096) by (bit_vector);
    assert(n == 13 ==> 1u32 << n == 8192) by (bit_vector);
    assert(n == 14 ==> 1u32 << n == 16384) by (bit_vector);
    assert(n == 15 ==> 1u32 << n == 32768) by (bit_vector);
    assert(n == 16 ==> 1u32 << n == 65536) by (bit_vector);
}

/// Appends `text`, all digits, in numeric mode; an error, with nothing
/// appended, where a character is not a digit.
pub fn appendNumericBytes(text: &str, bits: &mut BitArray) -> (r: Result<(), EncodeError>)
    requires
        old(bits)@.len() + 4 * text@.len() + 4 <= usize::MAX,
    ensures
        r is Ok <==> all_digits(text@),
        r is Ok ==> final(bits)@ == old(bits)@ + numeric_bits(text@),
        r is Err ==> r == Err::<(), EncodeError>(EncodeError::InvalidCharacter)
            && final(bits)@ == old(bits)@,
{
    let chars = chars_of(text);
    let n = chars.len();
    let mut k: usize = 0;
    while k < n
        invariant
            n == chars@.len(),
            chars@ == text@,
            k <= n,
            forall|j: int| 0 <= j < k ==> is_digit(#[trigger] chars@[j]),
        decreases n - k,
    {
        if !('0' <= chars[k] && chars[k] <= '9') {
            assert(!all_digits(text@)) by {
                assert(!is_digit(chars@[k as int]));
            }
            return Err(EncodeError::InvalidCharacter);
        }
        k = k + 1;
    }
    let ghost start = bits@;
    let mut i: usize = 0;
    assert(chars@.skip(0) =~= chars@);
    while i < n
        invariant
            n == chars@.len(),
            chars@ == text@,
            all_digits(chars@),
            4 * n + 4 <= usize::MAX,
            i <= n,
            bits@.len() + 4 * (n - i) + 4 <= usize::MAX,
            start + numeric_bits(chars@) == bits@ + numeric_bits(chars@.skip(i as int)),
        decreases n - i,
    {
        let ghost rest = chars@.skip(i as int);
        assert(is_digit(chars@[i as int]));
        let num1 = (chars[i] as u32) - 0x30;
        if i + 2 < n {
            assert(is_digit(chars@[i + 1]) && is_digit(chars@[i + 2]));
            let num2 = (chars[i + 1] as u32) - 0x30;
            let num3 = (chars[i + 2] as u32) - 0x30;
            bits.append_bits(num1 * 100 + num2 * 10 + num3, 10);
            assert(rest[0] == chars@[i as int] && rest[1] == chars@[i + 1] && rest[2] == chars@[i + 2]);
            assert(rest.skip(3) =~= chars@.skip(i + 3));
            i = i + 3;
        } else if i + 1 < n {
            assert(is_digit(chars@[i + 1]));
            let num2 = (chars[i + 1] as u32) - 0x30;
            bits.append_bits(num1 * 10 + num2, 7);
            assert(rest[0] == chars@[i as int] && rest[1] == chars@[i + 1]);
            assert(chars@.skip(i + 2).len() == 0);
            assert(rest.len() == 2);
            i = i + 2;
        } else {
            bits.append_bits(num1, 4);
            assert(rest[0] == chars@[i as int]);
            assert(rest.len() == 1);
            i = i + 1;
        }
        assert(chars@.skip(i as int).len() == 0 ==> numeric_bits(chars@.skip(i as int)) =~= Seq::<bool>::empty());
    }
    assert(bits@ =~= start + numeric_bits(chars@));
    Ok(())
}

/// Appends `text` in alphanumeric mode; an error, with nothing appended,
/// where a character has no alphanumeric value.
pub fn appendAlphanumericBytes(text: &str, bits: &mut BitArray) -> (r: Result<(), EncodeError>)
    requires
        old(bits)@.len() + 6 * text@.len() + 6 <= usize::MAX,
    ensures
        r is Ok <==> all_alphanumeric(text@),
        r is Ok ==> final(bits)@ == old(bits)@ + alphanumeric_bits(text@),
        r is Err ==> r == Err::<(), EncodeError>(EncodeError::InvalidCharacter)
            && final(bits)@ == old(bits)@,
{
    let chars = chars_of(text);
    let n = chars.len();
    let mut k: usize = 0;
    while k < n
        invariant
            n == chars@.len(),
            chars@ == text@,
            k <= n,
            forall|j: int| 0 <= j < k ==> alphanumeric_code(#[trigger] chars@[j] as u32) != -1,
        decreases n - k,
    {
        if getAlphanumericCode(chars[k] as u32) == -1 {
            assert(!all_alphanumeric(text@)) by {
                assert(alphanumeric_code(chars@[k as int] as u32) == -1);
            }
            return Err(EncodeError::InvalidCharacter);
        }
        k = k + 1;
    }
    let ghost start = bits@;
    let mut i: usize = 0;
    assert(chars@.skip(0) =~= chars@);
    while i < n
        invariant
            n == chars@.len(),
            chars@ == text@,
            all_alphanumeric(chars@),
            6 * n + 6 <= usize::MAX,
            i <= n,
            bits@.len() + 6 * (n - i) + 6 <= usize::MAX,
            start + alphanumeric_bits(chars@) == bits@ + alphanumeric_bits(chars@.skip(i as int)),
        decreases n - i,
    {
        let ghost rest = chars@.skip(i as int);
        assert(alphanumeric_code(chars@[i as int] as u32) != -1);
        let code1 = getAlphanumericCode(chars[i] as u32);
        if i + 1 < n {
            assert(alphanumeric_code(chars@[i + 1] as u32) != -1);
            let code2 = getAlphanumericCode(chars[i + 1] as u32);
            bits.append_bits((code1 * 45 + code2) as u32, 11);
            assert(rest[0] == chars@[i as int] && rest[1] == chars@[i + 1]);
            assert(rest.skip(2) =~= chars@.skip(i + 2));
            i = i + 2;
        } else {
            bits.append_bits(code1 as u32, 6);
            assert(rest[0] == chars@[i as int]);
            assert(rest.len() == 1);
            i = i + 1;
        }
        assert(chars@.skip(i as int).len() == 0 ==> alphanumeric_bits(chars@.skip(i as int))
            =~= Seq::<bool>::empty());
    }
    assert(bits@ =~= start + alphanumeric_bits(chars@));
    Ok(())
}

/// Appends the bytes of `bytes`, eight bits each.
pub fn append_byte_values(bytes: &Vec<u8>, bits: &mut BitArray)
    requires
        old(bits)@.len() + 8 * bytes@.len() <= usize::MAX,
    ensures
        final(bits)@ == old(bits)@ + bytes_to_bits(bytes@),
{
    let ghost start = bits@;
    let n = bytes.len();
    let mut i: usize = 0;
    assert(bytes@.take(0) =~= Seq::<u8>::empty());
    assert(start + bytes_to_bits(Seq::<u8>::empty()) =~= start);
    while i < n
        invariant
            n == bytes@.len(),
            i <= n,
            start.len() + 8 * n <= usize::MAX,
            bits@ == start + bytes_to_bits(bytes@.take(i as int)),
            bits@.len() == start.len() + 8 * i,
        decreases n - i,
    {
        bits.append_bits(bytes[i] as u32, 8);
        i = i + 1;
        assert(bytes@.take(i as int).drop_last() =~= bytes@.take((i - 1) as int));
        assert(bytes_to_bits(bytes@.take(i as int)) == bytes_to_bits(bytes@.take((i - 1) as int))
            + bits_of(bytes@[i - 1] as u32, 8));
        assert(bits@ =~= start + bytes_to_bits(bytes@.take(i as int)));
    }
    assert(bytes@.take(n as int) =~= bytes@);
}

/// `bytes_to_bits` gives eight bits per byte.
pub proof fn lemma_bytes_to_bits_len(b: Seq<u8>)
    ensures
        bytes_to_bits(b).len() == 8 * b.len(),
    decreases b.len(),
{
    if b.len() > 0 {
        lemma_bytes_to_bits_len(b.drop_last());
    }
}

/// The bits that byte mode appends for `text` in the character set
/// `encoding`, or the error.
pub open spec fn byte_mode_bits(text: Seq<char>, encoding: CharacterSetECI) -> Result<Seq<bool>, EncodeError> {
    match text_bytes(encoding, text) {
        Ok(b) => Ok(bytes_to_bits(b)),
        Err(e) => Err(e),
    }
}

/// Appends the bytes of `text` in the character set `encoding`, eight bits
/// each; an error, with nothing appended, where the set cannot be used for
/// the text, or where the bits would not fit in memory.
pub fn append8BitBytes(text: &str, bits: &mut BitArray, encoding: CharacterSetECI) -> (r: Result<(), EncodeError>)
    ensures
        match byte_mode_bits(text@, encoding) {
            Ok(b) => (r is Ok && final(bits)@ == old(bits)@ + b) || (r == Err::<(), EncodeError>(
                EncodeError::DataTooBig) && old(bits)@.len() + b.len() > usize::MAX && final(bits)@
                == old(bits)@),
            Err(e) => r == Err::<(), EncodeError>(e) && final(bits)@ == old(bits)@,
        },
{
    let bytes = match encoding.encode(text) {
        Ok(b) => b,
        Err(e) => return Err(e),
    };
    proof {
        lemma_bytes_to_bits_len(bytes@);
    }
    let size = bits.get_size();
    if bytes.len() > (usize::MAX - size) / 8 {
        return Err(EncodeError::DataTooBig);
    }
    append_byte_values(&bytes, bits);
    Ok(())
}

/// What Kanji mode appends for `text`: the thirteen-bit values of its
/// Shift_JIS byte pairs, or the error where the bytes are not all Kanji.
pub open spec fn kanji_mode_bits(text: Seq<char>) -> Result<Seq<bool>, EncodeError> {
    match text_bytes(CharacterSetECI::SJIS, text) {
        Ok(b) => if b.len() % 2 == 0 && all_kanji_pairs(b) {
            Ok(kanji_bits(b))
        } else {
            Err(EncodeError::InvalidCharacter)
        },
        Err(e) => Err(e),
    }
}

/// `kanji_bits` gives thirteen bits per pair.
pub proof fn lemma_kanji_bits_len(b: Seq<u8>)
    ensures
        kanji_bits(b).len() == 13 * (b.len() / 2),
    decreases b.len(),
{
    if b.len() >= 2 {
        lemma_kanji_bits_len(b.skip(2));
    }
}

/// The thirteen-bit Kanji value of a byte pair, if the pair is Kanji.
fn kanji_pair_value(b1: u8, b2: u8) -> (r: Option<u32>)
    ensures
        r == kanji_value(b1, b2),
        r matches Some(v) ==> v < 8192,
{
    let code: u32 = ((b1 as u32) << 8) | (b2 as u32);
    assert(code == b1 as int * 256 + b2 as int) by (bit_vector)
        requires
            code == ((b1 as u32) << 8) | (b2 as u32),
    ;
    let subtracted: u32 = if 0x8140 <= code && code <= 0x9ffc {
        code - 0x8140
    } else if 0xe040 <= code && code <= 0xebbf {
        code - 0xc140
    } else {
        return None;
    };
    assert((subtracted >> 8) as int == subtracted / 256 && (subtracted & 0xff) as int == subtracted
        % 256) by (bit_vector);
    Some((subtracted >> 8) * 0xc0 + (subtracted & 0xff))
}

/// Appends `text` in Kanji mode; an error, with nothing appended, where its
/// Shift_JIS bytes are not all Kanji pairs or the bits would not fit in
/// memory.
pub fn appendKanjiBytes(text: &str, bits: &mut BitArray) -> (r: Result<(), EncodeError>)
    ensures
        match kanji_mode_bits(text@) {
            Ok(b) => (r is Ok && final(bits)@ == old(bits)@ + b) || (r == Err::<(), EncodeError>(
                EncodeError::DataTooBig) && old(bits)@.len() + b.len() > usize::MAX && final(bits)@
                == old(bits)@),
            Err(e) => r == Err::<(), EncodeError>(e) && final(bits)@ == old(bits)@,
        },
{
    let bytes = match CharacterSetECI::SJIS.encode(text) {
        Ok(b) => b,
        Err(e) => return Err(e),
    };
    let n = bytes.len();
    if n % 2 != 0 {
        return Err(EncodeError::InvalidCharacter);
    }
    let mut k: usize = 0;
    while k < n / 2
        invariant
            n == bytes@.len(),
            text_bytes(CharacterSetECI::SJIS, text@) == Ok::<Seq<u8>, EncodeError>(bytes@),
            n % 2 == 0,
            k <= n / 2,
            forall|j: int| 0 <= j < k ==> (#[trigger] kanji_value(bytes@[2 * j], bytes@[2 * j + 1])) is Some,
        decreases n / 2 - k,
    {
        if kanji_pair_value(bytes[2 * k], bytes[2 * k + 1]).is_none() {
            assert(!all_kanji_pairs(bytes@)) by {
                assert(kanji_value(bytes@[2 * k as int], bytes@[2 * k + 1]) is None);
            }
            return Err(EncodeError::InvalidCharacter);
        }
        k = k + 1;
    }
    assert(all_kanji_pairs(bytes@));
    proof {
        lemma_kanji_bits_len(bytes@);
    }
    let size = bits.get_size();
    if n / 2 > (usize::MAX - size) / 13 {
        return Err(EncodeError::DataTooBig);
    }
    let ghost start = bits@;
    let mut i: usize = 0;
    assert(bytes@.skip(0) =~= bytes@);
    while i < n
        invariant
            n == bytes@.len(),
            n % 2 == 0,
            i % 2 == 0,
            i <= n,
            all_kanji_pairs(bytes@),
            bits@.len() + 13 * ((n - i) / 2) <= usize::MAX,
            start + kanji_bits(bytes@) == bits@ + kanji_bits(bytes@.skip(i as int)),
        decreases n - i,
    {
        let ghost rest = bytes@.skip(i as int);
        assert(kanji_value(bytes@[2 * (i / 2)], bytes@[2 * (i / 2) + 1]) is Some);
        let v = kanji_pair_value(bytes[i], bytes[i + 1]);
        let value = match v {
            Some(x) => x,
            None => 0,
        };
        bits.append_bits(value, 13);
        assert(rest[0] == bytes@[i as int] && rest[1] == bytes@[i + 1]);
        assert(rest.skip(2) =~= bytes@.skip(i + 2));
        i = i + 2;
        assert(bytes@.skip(i as int).len() < 2 ==> kanji_bits(bytes@.skip(i as int)) =~= Seq::<bool>::empty());
    }
    assert(bits@ =~= start + kanji_bits(bytes@));
    Ok(())
}

/// The data bits of `text` in `mode`, or why the mode cannot hold it.
pub open spec fn mode_data_bits(text: Seq<char>, mode: Mode, encoding: CharacterSetECI) -> Result<Seq<bool>, EncodeError> {
    match mode {
        Mode::NUMERIC => if all_digits(text) {
            Ok(numeric_bits(text))
        } else {
            Err(EncodeError::InvalidCharacter)
        },
        Mode::ALPHANUMERIC => if all_alphanumeric(text) {
            Ok(alphanumeric_bits(text))
        } else {
            Err(EncodeError::InvalidCharacter)
        },
        Mode::BYTE => byte_mode_bits(text, encoding),
        Mode::KANJI => kanji_mode_bits(text),
        _ => Err(EncodeError::InvalidMode),
    }
}

/// Appends `text` in `mode`, bytes in byte mode taken in the character set
/// `encoding`; an error, with nothing appended, where the mode cannot hold
/// the text or the bits would not fit in memory.
pub fn appendBytes(text: &str, mode: Mode, bits: &mut BitArray, encoding: CharacterSetECI) -> (r:
    Result<(), EncodeError>)
    requires
        old(bits)@.len() + 6 * text@.len() + 6 <= usize::MAX,
    ensures
        match mode_data_bits(text@, mode, encoding) {
            Ok(b) => (r is Ok && final(bits)@ == old(bits)@ + b) || (r == Err::<(), EncodeError>(
                EncodeError::DataTooBig) && old(bits)@.len() + b.len() > usize::MAX && final(bits)@
                == old(bits)@),
            Err(e) => r == Err::<(), EncodeError>(e) && final(bits)@ == old(bits)@,
        },
{
    match mode {
        Mode::NUMERIC => appendNumericBytes(text, bits),
        Mode::ALPHANUMERIC => appendAlphanumericBytes(text, bits),
        Mode::BYTE => append8BitBytes(text, bits, encoding),
        Mode::KANJI => appendKanjiBytes(text, bits),
        _ => Err(EncodeError::InvalidMode),
    }
}

/// Appends an ECI segment: the ECI mode indicator and the set's
/// assignment number in eight bits.
pub fn appendECI(eci: CharacterSetECI, bits: &mut BitArray)
    requires
        old(bits)@.len() + 12 <= usize::MAX,
    ensures
        final(bits)@ == old(bits)@ + bits_of(mode_bits(Mode::ECI), 4) + bits_of(eci_value(eci), 8),
{
    bits.append_bits(Mode::ECI.get_bits(), 4);
    bits.append_bits(eci.getValue(), 8);
}

/// `n` clear bits.
pub open spec fn zeros(n: nat) -> Seq<bool> {
    Seq::new(n, |i: int| false)
}

/// `k` pad codewords, alternately 0xEC and 0x11.
pub open spec fn pad_codewords(k: nat) -> Seq<bool>
    decreases k,
{
    if k == 0 {
        Seq::empty()
    } else {
        pad_codewords((k - 1) as nat) + bits_of(if (k - 1) % 2 == 0 { 0xECu32 } else { 0x11u32 }, 8)
    }
}

/// `bits` terminated for a capacity of `num_data_bytes` bytes: up to four
/// terminator zeros as room allows, zeros to the next byte boundary, then
/// pad codewords up to the capacity.
pub open spec fn terminated(bits: Seq<bool>, num_data_bytes: nat) -> Seq<bool> {
    let capacity = 8 * num_data_bytes;
    let t = if capacity - bits.len() < 4 { capacity - bits.len() } else { 4 };
    let s1 = bits + zeros(t as nat);
    let s2 = if s1.len() % 8 != 0 { s1 + zeros((8 - s1.len() % 8) as nat) } else { s1 };
    s2 + pad_codewords((num_data_bytes - s2.len() / 8) as nat)
}

/// Pad codewords are eight bits each.
pub proof fn lemma_pad_len(k: nat)
    ensures
        pad_codewords(k).len() == 8 * k,
    decreases k,
{
    if k > 0 {
        lemma_pad_len((k - 1) as nat);
    }
}

/// Terminates and pads `bits` to exactly `num_data_bytes` bytes; an error,
/// with nothing appended, where the bits exceed that capacity.
pub fn terminateBits(num_data_bytes: u32, bits: &mut BitArray) -> (r: Result<(), EncodeError>)
    requires
        8 * num_data_bytes <= usize::MAX,
    ensures
        r is Ok <==> old(bits)@.len() <= 8 * num_data_bytes,
        r is Ok ==> final(bits)@ == terminated(old(bits)@, num_data_bytes as nat),
        r is Ok ==> final(bits)@.len() == 8 * num_data_bytes,
        r is Ok ==> final(bits)@.take(old(bits)@.len() as int) == old(bits)@,
        r is Err ==> r == Err::<(), EncodeError>(EncodeError::DataTooBig) && final(bits)@ == old(bits)@,
{
    let capacity: usize = 8 * (num_data_bytes as usize);
    if bits.get_size() > capacity {
        return Err(EncodeError::DataTooBig);
    }
    let ghost start = bits@;
    let ghost t: int = if capacity - start.len() < 4 { capacity - start.len() } else { 4 };
    let mut i: usize = 0;
    while i < 4 && bits.get_size() < capacity
        invariant
            capacity == 8 * num_data_bytes,
            start.len() <= capacity,
            t == (if capacity - start.len() < 4 { capacity - start.len() } else { 4 }),
            i <= 4,
            i <= t,
            bits@ == start + zeros(i as nat),
        decreases 4 - i,
    {
        bits.append_bit(false);
        i = i + 1;
        assert(bits@ =~= start + zeros(i as nat));
    }
    assert(i == t);
    let ghost s1 = bits@;
    let num_bits_in_last_byte = bits.get_size() % 8;
    if num_bits_in_last_byte > 0 {
        assert(s1.len() - num_bits_in_last_byte + 8 <= capacity) by (nonlinear_arith)
            requires
                num_bits_in_last_byte == s1.len() % 8,
                num_bits_in_last_byte > 0,
                s1.len() <= capacity,
                capacity == 8 * num_data_bytes,
        ;
        let mut j: usize = num_bits_in_last_byte;
        while j < 8
            invariant
                num_bits_in_last_byte <= j <= 8,
                num_bits_in_last_byte == s1.len() % 8,
                s1.len() <= capacity,
                s1.len() - num_bits_in_last_byte + 8 <= capacity,
                capacity == 8 * num_data_bytes,
                bits@ == s1 + zeros((j - num_bits_in_last_byte) as nat),
            decreases 8 - j,
        {
            bits.append_bit(false);
            j = j + 1;
            assert(bits@ =~= s1 + zeros((j - num_bits_in_last_byte) as nat));
        }
    }
    let ghost s2 = bits@;
    assert(s2.len() % 8 == 0);
    assert(s2.len() <= capacity);
    let num_padding_bytes: usize = (num_data_bytes as usize) - bits.get_size_in_bytes();
    let mut k: usize = 0;
    while k < num_padding_bytes
        invariant
            k <= num_padding_bytes,
            num_padding_bytes == num_data_bytes - s2.len() / 8,
            s2.len() % 8 == 0,
            capacity == 8 * num_data_bytes,
            bits@ == s2 + pad_codewords(k as nat),
            bits@.len() == s2.len() + 8 * k,
        decreases num_padding_bytes - k,
    {
        let value: u32 = if k % 2 == 0 { 0xEC } else { 0x11 };
        bits.append_bits(value, 8);
        k = k + 1;
    }
    proof {
        lemma_pad_len(num_padding_bytes as nat);
        assert(bits@ =~= terminated(start, num_data_bytes as nat));
        assert(bits@.take(start.len() as int) =~= start);
    }
    Ok(())
}

/// The sizes (data bytes, error correction bytes) of block `block_id`
/// when `num_total_bytes` codewords, `num_data_bytes` of them data, are
/// split into `num_blocks` blocks: the first blocks take the data bytes
/// rounded down, the last `num_total_bytes % num_blocks` one more; all
/// take the same number of error correction bytes.
pub open spec fn block_sizes(num_total_bytes: int, num_data_bytes: int, num_blocks: int, block_id: int) -> (int, int) {
    let in_group2 = num_total_bytes % num_blocks;
    let in_group1 = num_blocks - in_group2;
    let data1 = num_data_bytes / num_blocks;
    let ec = num_total_bytes / num_blocks - data1;
    if block_id < in_group1 {
        (data1, ec)
    } else {
        (data1 + 1, ec)
    }
}

/// The data and error correction byte counts of block `block_id`; an error
/// where the block number is not below the number of blocks.
pub fn getNumDataBytesAndNumECBytesForBlockID(
    num_total_bytes: u32,
    num_data_bytes: u32,
    num_rs_blocks: u32,
    block_id: u32,
) -> (r: Result<(u32, u32), EncodeError>)
    requires
        num_rs_blocks >= 1,
        num_data_bytes <= num_total_bytes,
    ensures
        r is Ok <==> block_id < num_rs_blocks,
        r matches Ok(p) ==> (p.0 as int, p.1 as int) == block_sizes(
            num_total_bytes as int,
            num_data_bytes as int,
            num_rs_blocks as int,
            block_id as int,
        ),
        r is Err ==> r == Err::<(u32, u32), EncodeError>(EncodeError::InvalidBlockId),
{
    if block_id >= num_rs_blocks {
        return Err(EncodeError::InvalidBlockId);
    }
    let num_rs_blocks_in_group2 = num_total_bytes % num_rs_blocks;
    let num_rs_blocks_in_group1 = num_rs_blocks - num_rs_blocks_in_group2;
    let num_total_bytes_in_group1 = num_total_bytes / num_rs_blocks;
    let num_data_bytes_in_group1 = num_data_bytes / num_rs_blocks;
    proof {
        vstd::arithmetic::div_mod::lemma_div_is_ordered(
            num_data_bytes as int,
            num_total_bytes as int,
            num_rs_blocks as int,
        );
    }
    let num_ec_bytes_in_group1 = num_total_bytes_in_group1 - num_data_bytes_in_group1;
    if block_id < num_rs_blocks_in_group1 {
        Ok((num_data_bytes_in_group1, num_ec_bytes_in_group1))
    } else {
        assert(num_data_bytes_in_group1 < 0xFFFF_FFFFu32) by (nonlinear_arith)
            requires
                num_rs_blocks_in_group2 > 0,
                num_rs_blocks_in_group2 == num_total_bytes % num_rs_blocks,
                num_data_bytes_in_group1 == num_data_bytes / num_rs_blocks,
                num_rs_blocks >= 1,
        {
            if num_rs_blocks == 1 {
                assert(num_total_bytes % 1 == 0);
            }
            assert(num_rs_blocks >= 2);
            assert(num_data_bytes_in_group1 * num_rs_blocks <= num_data_bytes);
        }
        Ok((num_data_bytes_in_group1 + 1, num_ec_bytes_in_group1))
    }
}

/// The data and error correction bytes of the first `count` blocks.
pub open spec fn blocks_total(num_total_bytes: int, num_data_bytes: int, num_blocks: int, count: nat) -> int
    decreases count,
{
    if count == 0 {
        0
    } else {
        let b = block_sizes(num_total_bytes, num_data_bytes, num_blocks, count - 1);
        blocks_total(num_total_bytes, num_data_bytes, num_blocks, (count - 1) as nat) + b.0 + b.1
    }
}

/// The first `count` blocks hold `num_total_bytes / num_blocks` bytes each,
/// and one more each past the first group.
proof fn lemma_blocks_total_prefix(num_total_bytes: int, num_data_bytes: int, num_blocks: int, count: nat)
    requires
        num_blocks >= 1,
        num_total_bytes >= 0,
        count <= num_blocks,
    ensures
        blocks_total(num_total_bytes, num_data_bytes, num_blocks, count) == count * (num_total_bytes / num_blocks)
            + (if count > num_blocks - num_total_bytes % num_blocks {
            count - (num_blocks - num_total_bytes % num_blocks)
        } else {
            0
        }),
    decreases count,
{
    vstd::arithmetic::div_mod::lemma_mod_pos_bound(num_total_bytes, num_blocks);
    let t1 = num_total_bytes / num_blocks;
    let g1 = num_blocks - num_total_bytes % num_blocks;
    if count > 0 {
        let c1 = (count - 1) as nat;
        lemma_blocks_total_prefix(num_total_bytes, num_data_bytes, num_blocks, c1);
        let b = block_sizes(num_total_bytes, num_data_bytes, num_blocks, c1 as int);
        assert(blocks_total(num_total_bytes, num_data_bytes, num_blocks, count) == blocks_total(
            num_total_bytes,
            num_data_bytes,
            num_blocks,
            c1,
        ) + b.0 + b.1);
        assert(b.0 + b.1 == if c1 < g1 { t1 } else { t1 + 1 });
        assert(count * t1 == c1 * t1 + t1) by (nonlinear_arith)
            requires
                count == c1 + 1,
        ;
    } else {
        assert(count * t1 == 0) by (nonlinear_arith)
            requires
                count == 0,
        ;
    }
}

/// The blocks together hold all the codewords: over every block, data and
/// error correction bytes add up to `num_total_bytes`.
pub proof fn lemma_blocks_cover_total(num_total_bytes: int, num_data_bytes: int, num_blocks: int)
    requires
        num_blocks >= 1,
        0 <= num_data_bytes <= num_total_bytes,
    ensures
        blocks_total(num_total_bytes, num_data_bytes, num_blocks, num_blocks as nat) == num_total_bytes,
{
    lemma_blocks_total_prefix(num_total_bytes, num_data_bytes, num_blocks, num_blocks as nat);
    vstd::arithmetic::div_mod::lemma_fundamental_div_mod(num_total_bytes, num_blocks);
    assert(num_total_bytes % num_blocks < num_blocks) by {
        vstd::arithmetic::div_mod::lemma_mod_pos_bound(num_total_bytes, num_blocks);
    }
}

/// The `n` bytes that the bits of `bits` make, eight bits per byte, most
/// significant first; bits past the end read as clear.
pub open spec fn bits_to_bytes(bits: Seq<bool>, n: nat) -> Seq<u8> {
    let padded = if bits.len() < 8 * n { bits + zeros((8 * n - bits.len()) as nat) } else { bits };
    Seq::new(n, |k: int| crate::bit_array::byte_at(padded, 8 * k))
}

/// Where the data bytes of block `i` start.
pub open spec fn block_offset(num_total_bytes: int, num_data_bytes: int, num_blocks: int, i: int) -> int {
    let in_group1 = num_blocks - num_total_bytes % num_blocks;
    let data1 = num_data_bytes / num_blocks;
    i * data1 + if i > in_group1 { i - in_group1 } else { 0 }
}

/// The data bytes of each block: consecutive runs of `bytes`, as long as
/// `block_sizes` says.
pub open spec fn data_blocks(bytes: Seq<u8>, num_total_bytes: int, num_data_bytes: int, num_blocks: int) -> Seq<Seq<u8>> {
    Seq::new(
        num_blocks as nat,
        |i: int|
            {
                let start = block_offset(num_total_bytes, num_data_bytes, num_blocks, i);
                bytes.subrange(start, start + block_sizes(num_total_bytes, num_data_bytes, num_blocks, i).0)
            },
    )
}

/// The error correction bytes of each block.
pub open spec fn ec_blocks(blocks: Seq<Seq<u8>>, num_ec: nat) -> Seq<Seq<u8>> {
    Seq::new(blocks.len(), |i: int| crate::reed_solomon::ec_bytes(blocks[i], num_ec))
}

/// Byte `r` of each of the first `nb` rows that is long enough, in row order.
pub open spec fn row_of(rows: Seq<Seq<u8>>, r: int, nb: nat) -> Seq<u8>
    decreases nb,
{
    if nb == 0 {
        Seq::empty()
    } else {
        let b = (nb - 1) as int;
        row_of(rows, r, (nb - 1) as nat) + if r < rows[b].len() { seq![rows[b][r]] } else { Seq::empty() }
    }
}

/// The rows read column by column: byte 0 of every row, then byte 1 of
/// every row long enough, and so on up to byte `depth - 1`.
pub open spec fn column_major(rows: Seq<Seq<u8>>, depth: nat) -> Seq<u8>
    decreases depth,
{
    if depth == 0 {
        Seq::empty()
    } else {
        column_major(rows, (depth - 1) as nat) + row_of(rows, depth - 1, rows.len())
    }
}

/// The final codewords: the data bytes split into blocks and read column
/// by column, then the error correction bytes of the blocks read the same
/// way; an error where `bits` does not hold `num_data_bytes` bytes or the
/// blocks do not take exactly the data bytes.
pub open spec fn interleave_spec(bits: Seq<bool>, num_total_bytes: int, num_data_bytes: int, num_blocks: int) -> Result<Seq<bool>, EncodeError> {
    let data1 = num_data_bytes / num_blocks;
    let in_group2 = num_total_bytes % num_blocks;
    let ec = num_total_bytes / num_blocks - data1;
    if (bits.len() + 7) / 8 != num_data_bytes {
        Err(EncodeError::BlockSizeMismatch)
    } else if num_blocks * data1 + in_group2 != num_data_bytes {
        Err(EncodeError::BlockSizeMismatch)
    } else {
        let blocks = data_blocks(bits_to_bytes(bits, num_data_bytes as nat), num_total_bytes, num_data_bytes, num_blocks);
        let max_data = if in_group2 > 0 { data1 + 1 } else { data1 };
        Ok(bytes_to_bits(column_major(blocks, max_data as nat) + column_major(ec_blocks(blocks, ec as nat), ec as nat)))
    }
}

/// The length of one row read of blocks whose first `g1` rows hold `d`
/// bytes and the rest `d + 1`.
pub proof fn lemma_row_of_len(rows: Seq<Seq<u8>>, r: int, nb: nat, g1: int, d: int)
    requires
        nb <= rows.len(),
        0 <= r,
        0 <= g1,
        forall|b: int| 0 <= b < rows.len() ==> #[trigger] rows[b].len() == if b < g1 { d } else { d + 1 },
    ensures
        r < d ==> row_of(rows, r, nb).len() == nb,
        r == d ==> row_of(rows, r, nb).len() == if nb > g1 { nb - g1 } else { 0 },
        r > d ==> row_of(rows, r, nb).len() == 0,
    decreases nb,
{
    if nb > 0 {
        lemma_row_of_len(rows, r, (nb - 1) as nat, g1, d);
        let b = (nb - 1) as int;
        assert(rows[b].len() == if b < g1 { d } else { d + 1 });
    }
}

/// Block `i` starts where block `i - 1` ends, and ends within the data.
pub proof fn lemma_block_offset(total: int, data: int, nb: int, i: int)
    requires
        0 <= i < nb,
        0 <= total,
        0 <= data,
        nb * (data / nb) + total % nb == data,
    ensures
        0 <= block_offset(total, data, nb, i),
        block_offset(total, data, nb, i) + block_sizes(total, data, nb, i).0 <= data,
        block_offset(total, data, nb, i + 1) == block_offset(total, data, nb, i) + block_sizes(total, data, nb, i).0,
{
    let d1 = data / nb;
    let g1 = nb - total % nb;
    vstd::arithmetic::div_mod::lemma_mod_bound(total, nb);
    assert(0 <= d1) by {
        vstd::arithmetic::div_mod::lemma_div_pos_is_pos(data, nb);
    }
    vstd::arithmetic::mul::lemma_mul_inequality(i + 1, nb, d1);
    vstd::arithmetic::mul::lemma_mul_is_distributive_add_other_way(d1, i, 1);
    vstd::arithmetic::mul::lemma_mul_nonnegative(i, d1);
}

/// Splits the data bytes in `bits` into blocks, computes the error
/// correction bytes of each, and interleaves both column by column.
pub fn interleaveWithECBytes(bits: &BitArray, num_total_bytes: u32, num_data_bytes: u32, num_rs_blocks: u32) -> (r: Result<BitArray, EncodeError>)
    requires
        num_rs_blocks >= 1,
        num_rs_blocks <= num_data_bytes,
        num_data_bytes + num_rs_blocks <= num_total_bytes,
        8 * num_total_bytes <= usize::MAX,
    ensures
        match interleave_spec(bits@, num_total_bytes as int, num_data_bytes as int, num_rs_blocks as int) {
            Ok(b) => r is Ok && r->Ok_0@ == b,
            Err(e) => r == Err::<BitArray, EncodeError>(e),
        },
        r is Ok ==> r->Ok_0@.len() == 8 * num_total_bytes,
{
    if bits.get_size_in_bytes() != num_data_bytes as usize {
        return Err(EncodeError::BlockSizeMismatch);
    }
    let num_rs_blocks_in_group2 = num_total_bytes % num_rs_blocks;
    let data1 = num_data_bytes / num_rs_blocks;
    proof {
        vstd::arithmetic::div_mod::lemma_fundamental_div_mod(num_data_bytes as int, num_rs_blocks as int);
        vstd::arithmetic::div_mod::lemma_fundamental_div_mod(num_total_bytes as int, num_rs_blocks as int);
    }
    assert(num_rs_blocks * data1 <= num_data_bytes) by (nonlinear_arith)
        requires data1 == num_data_bytes / num_rs_blocks, num_rs_blocks >= 1;
    if (num_rs_blocks as u64) * (data1 as u64) + (num_rs_blocks_in_group2 as u64) != num_data_bytes as u64 {
        return Err(EncodeError::BlockSizeMismatch);
    }
    // The data bytes, with clear bits past the end of `bits`.
    let mut padded = BitArray::new();
    padded.append_bit_array(bits);
    let target: usize = 8 * (num_data_bytes as usize);
    while padded.get_size() < target
        invariant
            target == 8 * num_data_bytes,
            target <= usize::MAX,
            bits@.len() <= target,
            padded@.len() <= target,
            padded@ == bits@ + zeros((padded@.len() - bits@.len()) as nat),
        decreases target - padded@.len(),
    {
        padded.append_bit(false);
        assert(padded@ =~= bits@ + zeros((padded@.len() - bits@.len()) as nat));
    }
    let all_bytes = padded.to_bytes(0, num_data_bytes as usize);
    let nbytes = all_bytes.len();
    let ghost bytes = bits_to_bytes(bits@, num_data_bytes as nat);
    assert(all_bytes@ =~= bytes);
    let ghost total = num_total_bytes as int;
    let ghost data = num_data_bytes as int;
    let ghost nblocks = num_rs_blocks as int;
    let ghost dblocks = data_blocks(bytes, total, data, nblocks);
    let ghost g1: int = nblocks - total % nblocks;
    proof {
        vstd::arithmetic::div_mod::lemma_div_is_ordered(
            (num_data_bytes + num_rs_blocks) as int,
            num_total_bytes as int,
            num_rs_blocks as int,
        );
        vstd::arithmetic::div_mod::lemma_div_plus_one(num_data_bytes as int, num_rs_blocks as int);
        vstd::arithmetic::div_mod::lemma_div_is_ordered(
            num_rs_blocks as int,
            num_data_bytes as int,
            num_rs_blocks as int,
        );
        vstd::arithmetic::div_mod::lemma_div_by_self(num_rs_blocks as int);
    }
    let ec_per_block = num_total_bytes / num_rs_blocks - data1;
    let mut data_vecs: Vec<Vec<u8>> = Vec::new();
    let mut ec_vecs: Vec<Vec<u8>> = Vec::new();
    let mut offset: usize = 0;
    let mut i: u32 = 0;
    while i < num_rs_blocks
        invariant
            1 <= num_rs_blocks,
            i <= num_rs_blocks,
            all_bytes@ == bytes,
            bytes.len() == data,
            nbytes == data,
            total == num_total_bytes,
            data == num_data_bytes,
            nblocks == num_rs_blocks,
            g1 == nblocks - total % nblocks,
            data1 == num_data_bytes / num_rs_blocks,
            nblocks * data1 + total % nblocks == data,
            data1 >= 1,
            ec_per_block >= 1,
            ec_per_block == num_total_bytes / num_rs_blocks - data1,
            num_data_bytes + num_rs_blocks <= num_total_bytes,
            8 * num_total_bytes <= usize::MAX,
            dblocks == data_blocks(bytes, total, data, nblocks),
            offset == block_offset(total, data, nblocks, i as int),
            data_vecs@.len() == i,
            ec_vecs@.len() == i,
            forall|b: int| 0 <= b < i ==> (#[trigger] data_vecs@[b])@ == dblocks[b],
            forall|b: int| 0 <= b < i ==> (#[trigger] ec_vecs@[b])@ == crate::reed_solomon::ec_bytes(dblocks[b], ec_per_block as nat),
        decreases num_rs_blocks - i,
    {
        let sizes = getNumDataBytesAndNumECBytesForBlockID(num_total_bytes, num_data_bytes, num_rs_blocks, i);
        let (size, num_ec) = match sizes {
            Ok(p) => p,
            Err(e) => {
                return Err(e);
            },
        };
        proof {
            lemma_block_offset(total, data, nblocks, i as int);
        }
        let mut block: Vec<u8> = Vec::new();
        let mut k: usize = 0;
        while k < size as usize
            invariant
                offset + size <= data,
                nbytes == data,
                all_bytes@ == bytes,
                bytes.len() == data,
                k <= size,
                block@ == bytes.subrange(offset as int, offset + k),
            decreases size - k,
        {
            block.push(all_bytes[offset + k]);
            k = k + 1;
            assert(block@ =~= bytes.subrange(offset as int, offset + k));
        }
        assert(block@ == dblocks[i as int]);
        let ec = crate::reed_solomon::generateECBytes(&block, num_ec as usize);
        data_vecs.push(block);
        ec_vecs.push(ec);
        offset = offset + size as usize;
        i = i + 1;
        proof {
            assert forall|b: int| 0 <= b < i implies (#[trigger] data_vecs@[b])@ == dblocks[b] by {
            }
            assert forall|b: int| 0 <= b < i implies (#[trigger] ec_vecs@[b])@ == crate::reed_solomon::ec_bytes(dblocks[b], ec_per_block as nat) by {
            }
        }
    }
    let ghost eblocks = ec_blocks(dblocks, ec_per_block as nat);
    let max_data: u32 = if num_rs_blocks_in_group2 > 0 { data1 + 1 } else { data1 };
    proof {
        assert forall|b: int| 0 <= b < nblocks implies #[trigger] dblocks[b].len() == if b < g1 { data1 as int } else { data1 + 1 } by {
            lemma_block_offset(total, data, nblocks, b);
        }
        assert forall|b: int| 0 <= b < nblocks implies #[trigger] eblocks[b].len() == if b < nblocks { ec_per_block as int } else { ec_per_block + 1 } by {
            crate::reed_solomon::lemma_generator_shape(ec_per_block as nat);
            crate::reed_solomon::lemma_poly_rem_len(
                dblocks[b] + Seq::new(ec_per_block as nat, |i: int| 0u8),
                crate::reed_solomon::generator(ec_per_block as nat),
            );
        }
    }
    let mut out: Vec<u8> = Vec::new();
    let mut row: u32 = 0;
    while row < max_data
        invariant
            data_vecs@.len() == nblocks,
            forall|b: int| 0 <= b < nblocks ==> (#[trigger] data_vecs@[b])@ == dblocks[b],
            dblocks.len() == nblocks,
            nblocks == num_rs_blocks,
            forall|b: int| 0 <= b < nblocks ==> #[trigger] dblocks[b].len() == if b < g1 { data1 as int } else { data1 + 1 },
            max_data == if num_rs_blocks_in_group2 > 0 { data1 + 1 } else { data1 as int },
            num_rs_blocks_in_group2 == nblocks - g1,
            0 < g1 <= nblocks,
            row <= max_data,
            out@ == column_major(dblocks, row as nat),
            out@.len() == if row <= data1 { row * nblocks } else { data1 * nblocks + (nblocks - g1) },
            row <= data1 + 1,
            8 * num_total_bytes <= usize::MAX,
            nblocks * data1 + (nblocks - g1) == num_data_bytes,
            num_data_bytes + num_rs_blocks <= num_total_bytes,
        decreases max_data - row,
    {
        let ghost before = out@;
        let mut b: u32 = 0;
        while b < num_rs_blocks
            invariant
                data_vecs@.len() == nblocks,
                forall|c: int| 0 <= c < nblocks ==> (#[trigger] data_vecs@[c])@ == dblocks[c],
                dblocks.len() == nblocks,
                nblocks == num_rs_blocks,
                row < max_data,
                b <= num_rs_blocks,
                out@ == before + row_of(dblocks, row as int, b as nat),
            decreases num_rs_blocks - b,
        {
            let vb = &data_vecs[b as usize];
            if (row as usize) < vb.len() {
                out.push(vb[row as usize]);
            }
            b = b + 1;
            assert(out@ =~= before + row_of(dblocks, row as int, b as nat));
        }
        proof {
            lemma_row_of_len(dblocks, row as int, nblocks as nat, g1, data1 as int);
        }
        row = row + 1;
        assert(row * nblocks == (row - 1) * nblocks + nblocks) by (nonlinear_arith);
    }
    assert((data1 as int) * (nblocks as int) == (nblocks as int) * (data1 as int)) by (nonlinear_arith);
    assert(out@.len() == num_data_bytes);
    let mut row2: u32 = 0;
    while row2 < ec_per_block
        invariant
            ec_vecs@.len() == nblocks,
            forall|b: int| 0 <= b < nblocks ==> (#[trigger] ec_vecs@[b])@ == eblocks[b],
            eblocks.len() == nblocks,
            nblocks == num_rs_blocks,
            forall|b: int| 0 <= b < nblocks ==> #[trigger] eblocks[b].len() == ec_per_block,
            row2 <= ec_per_block,
            out@ == column_major(dblocks, max_data as nat) + column_major(eblocks, row2 as nat),
            out@.len() == num_data_bytes + row2 * nblocks,
            8 * num_total_bytes <= usize::MAX,
        decreases ec_per_block - row2,
    {
        let ghost before = out@;
        let mut b: u32 = 0;
        while b < num_rs_blocks
            invariant
                ec_vecs@.len() == nblocks,
                forall|c: int| 0 <= c < nblocks ==> (#[trigger] ec_vecs@[c])@ == eblocks[c],
                eblocks.len() == nblocks,
                nblocks == num_rs_blocks,
                row2 < ec_per_block,
                b <= num_rs_blocks,
                out@ == before + row_of(eblocks, row2 as int, b as nat),
            decreases num_rs_blocks - b,
        {
            let vb = &ec_vecs[b as usize];
            if (row2 as usize) < vb.len() {
                out.push(vb[row2 as usize]);
            }
            b = b + 1;
            assert(out@ =~= before + row_of(eblocks, row2 as int, b as nat));
        }
        proof {
            lemma_row_of_len(eblocks, row2 as int, nblocks as nat, nblocks, ec_per_block as int);
        }
        row2 = row2 + 1;
        assert(row2 * nblocks == (row2 - 1) * nblocks + nblocks) by (nonlinear_arith);
    }
    proof {
        assert(ec_per_block * nblocks == nblocks * (num_total_bytes / num_rs_blocks) - nblocks * data1) by (nonlinear_arith)
            requires
                ec_per_block == num_total_bytes / num_rs_blocks - data1,
        ;
        vstd::arithmetic::div_mod::lemma_fundamental_div_mod(num_total_bytes as int, num_rs_blocks as int);
        assert(out@.len() == num_total_bytes);
    }
    let mut result = BitArray::new();
    append_byte_values(&out, &mut result);
    proof {
        lemma_bytes_to_bits_len(out@);
    }
    Ok(result)
}

/// Whether `num_input_bits` bits fit in the data codewords of `version` at `level`.
pub open spec fn will_fit(num_input_bits: int, version: int, level: ErrorCorrectionLevel) -> bool {
    data_codewords(version, level) >= (num_input_bits + 7) / 8
}

/// The first version from `from` up to 40 in which `num_input_bits` bits
/// fit at `level`.
pub open spec fn first_fitting_version(num_input_bits: int, level: ErrorCorrectionLevel, from: int) -> Option<int>
    decreases 41 - from,
{
    if from > 40 || from < 1 {
        None
    } else if will_fit(num_input_bits, from, level) {
        Some(from)
    } else {
        first_fitting_version(num_input_bits, level, from + 1)
    }
}

/// The smallest version in which `num_input_bits` bits fit at `level`.
pub open spec fn smallest_version(num_input_bits: int, level: ErrorCorrectionLevel) -> Option<int> {
    first_fitting_version(num_input_bits, level, 1)
}

/// Whether `num_input_bits` bits fit in `version` at `level`.
pub fn willFit(num_input_bits: usize, version: &Version, level: ErrorCorrectionLevel) -> (r: bool)
    ensures
        r == will_fit(num_input_bits as int, version.number(), level),
{
    let num_bytes = version.getTotalCodewords();
    let ec_blocks = version.getECBlocksForLevel(level);
    let num_ec_bytes = ec_blocks.getTotalECCodewords();
    proof {
        crate::version::lemma_table_bounds(version.number(), level);
        assert(num_ec_bytes * 1 <= num_bytes) by (nonlinear_arith)
            requires
                num_ec_bytes == ec_blocks.ec_codewords_per_block * (ec_blocks.count1 + ec_blocks.count2),
                num_bytes == ec_blocks.ec_codewords_per_block * (ec_blocks.count1 + ec_blocks.count2)
                    + ec_blocks.count1 * ec_blocks.data_codewords1 + ec_blocks.count2 * ec_blocks.data_codewords2,
        ;
    }
    let num_data_bytes = num_bytes - num_ec_bytes;
    let total_input_bytes = num_input_bits / 8 + if num_input_bits % 8 == 0 { 0 } else { 1 };
    num_data_bytes as usize >= total_input_bytes
}

/// The smallest version in which `num_input_bits` bits fit at `level`; an
/// error where even version 40 is too small.
pub fn chooseVersion(num_input_bits: usize, level: ErrorCorrectionLevel) -> (r: Result<Version, EncodeError>)
    ensures
        match smallest_version(num_input_bits as int, level) {
            Some(v) => r is Ok && r->Ok_0.number() == v,
            None => r == Err::<Version, EncodeError>(EncodeError::DataTooBig),
        },
{
    let mut n: u32 = 1;
    while n <= 40
        invariant
            1 <= n <= 41,
            smallest_version(num_input_bits as int, level) == first_fitting_version(num_input_bits as int, level, n as int),
        decreases 41 - n,
    {
        let version = match Version::getVersionForNumber(n) {
            Ok(v) => v,
            Err(e) => return Err(e),
        };
        if willFit(num_input_bits, &version, level) {
            return Ok(version);
        }
        n = n + 1;
    }
    Err(EncodeError::DataTooBig)
}

/// The bits a segment needs in `version`: header, character count field and data.
pub open spec fn bits_needed(mode: Mode, header_len: int, data_len: int, version: int) -> int {
    header_len + character_count_bits(mode, version) + data_len
}

/// The bits a segment needs in `version`.
pub fn calculateBitsNeeded(mode: Mode, header_bits: &BitArray, data_bits: &BitArray, version: &Version) -> (r: usize)
    requires
        header_bits@.len() + data_bits@.len() + 16 <= usize::MAX,
    ensures
        r == bits_needed(mode, header_bits@.len() as int, data_bits@.len() as int, version.number()),
{
    header_bits.get_size() + mode.getCharacterCountBits(version) as usize + data_bits.get_size()
}

/// The version for a segment: the smallest that fits the bits needed when
/// the character count field has its width in version 1, then the
/// smallest that fits the bits needed with the width of that first choice.
pub open spec fn recommended_version(mode: Mode, header_len: int, data_len: int, level: ErrorCorrectionLevel) -> Option<int> {
    match smallest_version(bits_needed(mode, header_len, data_len, 1), level) {
        None => None,
        Some(v) => smallest_version(bits_needed(mode, header_len, data_len, v), level),
    }
}

/// The version recommended for the header and data bits at `level`.
pub fn recommendVersion(level: ErrorCorrectionLevel, mode: Mode, header_bits: &BitArray, data_bits: &BitArray) -> (r: Result<Version, EncodeError>)
    requires
        header_bits@.len() + data_bits@.len() + 16 <= usize::MAX,
    ensures
        match recommended_version(mode, header_bits@.len() as int, data_bits@.len() as int, level) {
            Some(v) => r is Ok && r->Ok_0.number() == v,
            None => r == Err::<Version, EncodeError>(EncodeError::DataTooBig),
        },
{
    let first = match Version::getVersionForNumber(1) {
        Ok(v) => v,
        Err(e) => return Err(e),
    };
    let provisional_bits_needed = calculateBitsNeeded(mode, header_bits, data_bits, &first);
    let provisional_version = chooseVersion(provisional_bits_needed, level)?;
    let bits_needed = calculateBitsNeeded(mode, header_bits, data_bits, &provisional_version);
    chooseVersion(bits_needed, level)
}

/// The penalty of the symbol for `bits` at `level` in `version` with mask
/// pattern `mask`.
pub open spec fn penalty_with_mask(bits: Seq<bool>, level: ErrorCorrectionLevel, version: int, mask: u32) -> int {
    let d = dimension(version);
    mask_penalty(symbol_matrix(bits, level, version, mask), d, d)
}

/// Whether `mask` is the first of the eight mask patterns whose symbol has
/// the least penalty.
pub open spec fn is_best_mask(bits: Seq<bool>, level: ErrorCorrectionLevel, version: int, mask: u32) -> bool {
    &&& mask < 8
    &&& forall|k: u32|
        k < 8 ==> penalty_with_mask(bits, level, version, mask) <= #[trigger] penalty_with_mask(
            bits,
            level,
            version,
            k,
        )
    &&& forall|k: u32|
        k < mask ==> penalty_with_mask(bits, level, version, mask) < #[trigger] penalty_with_mask(
            bits,
            level,
            version,
            k,
        )
}

/// The first of the eight mask patterns whose symbol has the least penalty.
pub open spec fn best_mask(bits: Seq<bool>, level: ErrorCorrectionLevel, version: int) -> u32 {
    choose|m: u32| is_best_mask(bits, level, version, m)
}

/// Among the first `n` mask patterns, one whose penalty is least and
/// below that of every pattern before it.
pub proof fn lemma_first_least_penalty(bits: Seq<bool>, level: ErrorCorrectionLevel, version: int, n: u32) -> (m: u32)
    requires
        1 <= n <= 8,
    ensures
        m < n,
        forall|k: u32|
            k < n ==> penalty_with_mask(bits, level, version, m) <= #[trigger] penalty_with_mask(
                bits,
                level,
                version,
                k,
            ),
        forall|k: u32|
            k < m ==> penalty_with_mask(bits, level, version, m) < #[trigger] penalty_with_mask(
                bits,
                level,
                version,
                k,
            ),
    decreases n,
{
    if n == 1 {
        assert forall|k: u32| k < n implies penalty_with_mask(bits, level, version, 0) <= #[trigger] penalty_with_mask(
            bits,
            level,
            version,
            k,
        ) by {
            assert(k == 0);
        }
        0
    } else {
        let p = lemma_first_least_penalty(bits, level, version, (n - 1) as u32);
        let last = (n - 1) as u32;
        if penalty_with_mask(bits, level, version, last) < penalty_with_mask(bits, level, version, p) {
            assert forall|k: u32| k < n implies penalty_with_mask(bits, level, version, last) <= #[trigger] penalty_with_mask(
                bits,
                level,
                version,
                k,
            ) by {
                if k < last {
                    assert(penalty_with_mask(bits, level, version, p) <= penalty_with_mask(bits, level, version, k));
                }
            }
            last
        } else {
            assert forall|k: u32| k < n implies penalty_with_mask(bits, level, version, p) <= #[trigger] penalty_with_mask(
                bits,
                level,
                version,
                k,
            ) by {
                if k == last {
                } else {
                    assert(k < last);
                }
            }
            p
        }
    }
}

/// Some mask pattern is the first of least penalty.
pub proof fn lemma_best_mask_exists(bits: Seq<bool>, level: ErrorCorrectionLevel, version: int)
    ensures
        is_best_mask(bits, level, version, best_mask(bits, level, version)),
{
    let m = lemma_first_least_penalty(bits, level, version, 8);
    assert(is_best_mask(bits, level, version, m));
}

/// There is one first pattern of least penalty.
pub proof fn lemma_best_mask_unique(bits: Seq<bool>, level: ErrorCorrectionLevel, version: int, m: u32)
    requires
        is_best_mask(bits, level, version, m),
    ensures
        best_mask(bits, level, version) == m,
{
    let c = best_mask(bits, level, version);
    assert(is_best_mask(bits, level, version, c));
    if c < m {
        assert(penalty_with_mask(bits, level, version, m) < penalty_with_mask(bits, level, version, c));
        assert(penalty_with_mask(bits, level, version, c) <= penalty_with_mask(bits, level, version, m));
    } else if m < c {
        assert(penalty_with_mask(bits, level, version, c) < penalty_with_mask(bits, level, version, m));
        assert(penalty_with_mask(bits, level, version, m) <= penalty_with_mask(bits, level, version, c));
    }
}

/// The mask pattern whose symbol has the least penalty, the first such
/// where several tie; an error where the bits do not fit in the symbol.
pub fn chooseMaskPattern(bits: &BitArray, level: ErrorCorrectionLevel, version: &Version) -> (r: Result<u32, EncodeError>)
    ensures
        bits@.len() > data_capacity(version.number()) ==> r == Err::<u32, EncodeError>(EncodeError::DataTooBig),
        bits@.len() <= data_capacity(version.number()) ==> r == Ok::<u32, EncodeError>(
            best_mask(bits@, level, version.number()),
        ),
        r matches Ok(m) ==> is_best_mask(bits@, level, version.number(), m),
{
    let number = version.get_version_number();
    let ghost v = version.number();
    let first = match buildMatrix(bits, level, version, 0) {
        Ok(m) => m,
        Err(e) => return Err(e),
    };
    let mut best: u32 = 0;
    let mut min_penalty = calculateMaskPenalty(&first);
    let mut mask: u32 = 1;
    while mask < 8
        invariant
            v == version.number(),
            1 <= v <= 40,
            bits@.len() <= data_capacity(v),
            1 <= mask <= 8,
            best < mask,
            min_penalty == penalty_with_mask(bits@, level, v, best),
            forall|k: u32| k < mask ==> min_penalty <= #[trigger] penalty_with_mask(bits@, level, v, k),
            forall|k: u32| k < best ==> min_penalty < #[trigger] penalty_with_mask(bits@, level, v, k),
        decreases 8 - mask,
    {
        let matrix = match buildMatrix(bits, level, version, mask) {
            Ok(m) => m,
            Err(e) => return Err(e),
        };
        let penalty = calculateMaskPenalty(&matrix);
        assert(penalty == penalty_with_mask(bits@, level, v, mask));
        if penalty < min_penalty {
            min_penalty = penalty;
            best = mask;
        }
        mask = mask + 1;
    }
    proof {
        lemma_best_mask_unique(bits@, level, v, best);
    }
    Ok(best)
}

/// The character set that a hint names: none without a name, an error
/// for a name that no character set has.
pub open spec fn hinted_charset(name: Option<Seq<char>>) -> Result<Option<CharacterSetECI>, EncodeError> {
    match name {
        None => Ok(None),
        Some(n) => match eci_by_name(n) {
            Some(cs) => Ok(Some(cs)),
            None => Err(EncodeError::UnsupportedCharacterSet),
        },
    }
}

/// The header of the segment: an ECI segment where byte mode is used with
/// a named character set, the FNC1 indicator for GS1 data, then the mode
/// indicator.
pub open spec fn header_bits(mode: Mode, charset: Option<CharacterSetECI>, gs1: bool) -> Seq<bool> {
    let eci = match charset {
        Some(cs) => if mode == Mode::BYTE {
            bits_of(mode_bits(Mode::ECI), 4) + bits_of(eci_value(cs), 8)
        } else {
            Seq::<bool>::empty()
        },
        None => Seq::<bool>::empty(),
    };
    let fnc1 = if gs1 {
        bits_of(mode_bits(Mode::FNC1_FIRST_POSITION), 4)
    } else {
        Seq::<bool>::empty()
    };
    eci + fnc1 + bits_of(mode_bits(mode), 4)
}

/// The version of the symbol: the hinted one, which must be a number from
/// 1 to 40 whose symbol holds the segment, or else the recommended one.
pub open spec fn chosen_version(mode: Mode, header_len: int, data_len: int, level: ErrorCorrectionLevel, hint: Option<Seq<char>>) -> Result<int, EncodeError> {
    match hint {
        Some(t) => match parse_int(t) {
            None => Err(EncodeError::InvalidHint),
            Some(n) => if n < 1 || n > 40 {
                Err(EncodeError::InvalidVersion)
            } else if will_fit(bits_needed(mode, header_len, data_len, n), n, level) {
                Ok(n)
            } else {
                Err(EncodeError::DataTooBig)
            },
        },
        None => match recommended_version(mode, header_len, data_len, level) {
            Some(v) => Ok(v),
            None => Err(EncodeError::DataTooBig),
        },
    }
}

/// The data codewords, as bits, of a segment of `letters` characters with
/// header `header` and data bits `data` in `version` at `level`: header,
/// character count and data, terminated and padded.
pub open spec fn segment_codewords(header: Seq<bool>, data: Seq<bool>, letters: int, mode: Mode, version: int, level: ErrorCorrectionLevel) -> Result<Seq<bool>, EncodeError> {
    let width = character_count_bits(mode, version);
    if letters >= vstd::arithmetic::power2::pow2(width as nat) {
        Err(EncodeError::LengthTooLarge)
    } else {
        let bits = header + bits_of(letters as u32, width as nat) + data;
        let nd = data_codewords(version, level);
        if bits.len() > 8 * nd {
            Err(EncodeError::DataTooBig)
        } else {
            Ok(terminated(bits, nd as nat))
        }
    }
}

/// The mode, the version and the data codewords (as bits) for `content` at
/// `level`, with the character set named `charset_name`, the version hint
/// `version_hint` and the GS1 flag `gs1`.
pub open spec fn codeword_outcome(content: Seq<char>, level: ErrorCorrectionLevel, charset_name: Option<Seq<char>>, version_hint: Option<Seq<char>>, gs1: bool) -> Result<(Mode, int, Seq<bool>), EncodeError> {
    match hinted_charset(charset_name) {
        Err(e) => Err(e),
        Ok(charset) => {
            let mode = choose_mode_spec(content, charset);
            let encoding = match charset {
                Some(cs) => cs,
                None => DEFAULT_BYTE_MODE_ENCODING,
            };
            let header = header_bits(mode, charset, gs1);
            match mode_data_bits(content, mode, encoding) {
                Err(e) => Err(e),
                Ok(data) => if data.len() > usize::MAX - 64 {
                    Err(EncodeError::DataTooBig)
                } else {
                    match chosen_version(mode, header.len() as int, data.len() as int, level, version_hint) {
                        Err(e) => Err(e),
                        Ok(v) => {
                            let letters = if mode == Mode::BYTE {
                                ((data.len() + 7) / 8) as int
                            } else {
                                content.len() as int
                            };
                            match segment_codewords(header, data, letters, mode, v, level) {
                                Err(e) => Err(e),
                                Ok(cw) => Ok((mode, v, cw)),
                            }
                        },
                    }
                },
            }
        },
    }
}

/// The mask pattern: the hinted one where the hint is a number from 0 to
/// 7, the first of least penalty where it is another number or absent.
pub open spec fn chosen_mask(bits: Seq<bool>, level: ErrorCorrectionLevel, version: int, hint: Option<Seq<char>>) -> Result<u32, EncodeError> {
    match hint {
        Some(t) => match parse_int(t) {
            None => Err(EncodeError::InvalidHint),
            Some(m) => if 0 <= m < 8 {
                Ok(m as u32)
            } else {
                Ok(best_mask(bits, level, version))
            },
        },
        None => Ok(best_mask(bits, level, version)),
    }
}

/// The symbol for the data codewords `cw` of `version` at `level` in
/// `mode`: the codewords interleaved with their error correction, the
/// hinted mask pattern or the one of least penalty, and the module matrix.
pub open spec fn symbol_outcome(mode: Mode, v: int, cw: Seq<bool>, level: ErrorCorrectionLevel, mask_hint: Option<Seq<char>>) -> Result<(Mode, int, u32, Seq<i8>), EncodeError> {
    match interleave_spec(cw, total_codewords(v), data_codewords(v, level), num_blocks(v, level)) {
        Err(e) => Err(e),
        Ok(fin) => match chosen_mask(fin, level, v, mask_hint) {
            Err(e) => Err(e),
            Ok(m) => if fin.len() > data_capacity(v) {
                Err(EncodeError::DataTooBig)
            } else {
                Ok((mode, v, m, symbol_matrix(fin, level, v, m)))
            },
        },
    }
}

/// What encoding `content` at `level` with the given hints yields without
/// compaction: the mode, the version, the mask pattern and the module
/// matrix of the symbol.
pub open spec fn encode_outcome(content: Seq<char>, level: ErrorCorrectionLevel, charset_name: Option<Seq<char>>, version_hint: Option<Seq<char>>, mask_hint: Option<Seq<char>>, gs1: bool) -> Result<(Mode, int, u32, Seq<i8>), EncodeError> {
    match codeword_outcome(content, level, charset_name, version_hint, gs1) {
        Err(e) => Err(e),
        Ok((mode, v, cw)) => symbol_outcome(mode, v, cw, level, mask_hint),
    }
}

/// What encoding yields under `hints` without compaction.
pub open spec fn encode_outcome_with(content: Seq<char>, level: ErrorCorrectionLevel, hints: EncodeHints) -> Result<(Mode, int, u32, Seq<i8>), EncodeError> {
    encode_outcome(
        content,
        level,
        opt_text(hints.character_set),
        opt_text(hints.qr_version),
        opt_text(hints.qr_mask_pattern),
        hints.gs1_format,
    )
}

/// The preferred set of the search for the shortest segments: the named
/// set, unless it is ISO-8859-1, which byte mode takes first anyway.
pub open spec fn compact_priority(charset: Option<CharacterSetECI>) -> Option<CharacterSetECI> {
    match charset {
        Some(cs) => if cs == CharacterSetECI::ISO8859_1 {
            None
        } else {
            Some(cs)
        },
        None => None,
    }
}

/// The symbol for the result `res` of the search for the shortest
/// segments at `level`: the bits of its nodes in its version, terminated
/// and padded, in byte mode (the mode the symbol reports).
pub open spec fn compact_outcome(res: ResultList, level: ErrorCorrectionLevel, mask_hint: Option<Seq<char>>) -> Result<(Mode, int, u32, Seq<i8>), EncodeError> {
    let v = res.version_spec();
    let nd = data_codewords(v, level);
    match bits_outcome(res.nodes_spec(), res.text_spec(), res.sets_spec(), v, usize::MAX - 64) {
        Err(e) => Err(e),
        Ok(b) => if b.len() > 8 * nd {
            Err(EncodeError::DataTooBig)
        } else {
            symbol_outcome(Mode::BYTE, v, terminated(b, nd as nat), level, mask_hint)
        },
    }
}

/// Whether `r` is what encoding `content` at `level` under `hints` with
/// compaction gives: the error of the character set hint; for an empty
/// text or one of more than 7089 characters the search's error; where the
/// search gives a result (it gives at most one), exactly the symbol for it
/// or the error of making it; and an error where the search gives none.
pub open spec fn compact_encoded(content: Seq<char>, level: ErrorCorrectionLevel, hints: EncodeHints, r: Result<QRCode, EncodeError>) -> bool {
    match hinted_charset(opt_text(hints.character_set)) {
        Err(e) => r == Err::<QRCode, EncodeError>(e),
        Ok(charset) => {
            &&& content.len() == 0 ==> r == Err::<QRCode, EncodeError>(EncodeError::UnencodableText)
            &&& content.len() > 7089 ==> r == Err::<QRCode, EncodeError>(EncodeError::DataTooBig)
            &&& ({
                let sets = encoder_sets(content, compact_priority(charset));
                1 <= content.len() <= 7089 && !(exists|path: Seq<(Mode, int, int)>|
                    #[trigger] fitting_path(content, sets, priority_position(sets, compact_priority(charset)), 9, path))
                    ==> r == Err::<QRCode, EncodeError>(EncodeError::UnencodableText)
            })
            &&& r matches Ok(q) ==> exists|res: ResultList|
                #[trigger] encoded_minimally(res, content, level, compact_priority(charset), hints.gs1_format)
                    && (compact_outcome(res, level, opt_text(hints.qr_mask_pattern)) matches Ok(s) && describes(q, level, s))
            &&& 1 <= content.len() <= 7089 ==> forall|res: ResultList|
                #[trigger] encoded_minimally(res, content, level, compact_priority(charset), hints.gs1_format)
                    ==> match compact_outcome(res, level, opt_text(hints.qr_mask_pattern)) {
                    Ok(s) => r is Ok && describes(r->Ok_0, level, s),
                    Err(e) => r == Err::<QRCode, EncodeError>(e),
                }
            &&& (1 <= content.len() <= 7089 && forall|res: ResultList|
                !#[trigger] encoded_minimally(res, content, level, compact_priority(charset), hints.gs1_format))
                ==> r is Err
        },
    }
}

/// Whether `q` is the symbol at `level` with mode, version, mask pattern
/// and matrix `s`.
pub open spec fn describes(q: QRCode, level: ErrorCorrectionLevel, s: (Mode, int, u32, Seq<i8>)) -> bool {
    &&& q.mode_spec() == s.0
    &&& q.level_spec() == level
    &&& q.version_spec() == s.1
    &&& q.mask_spec() == s.2
    &&& q.matrix_spec().cells() == s.3
    &&& q.matrix_spec().width_spec() == dimension(s.1)
    &&& q.matrix_spec().height_spec() == dimension(s.1)
}

/// The codeword counts of every version and level are consistent: at
/// least one block, no more blocks than data codewords, and room for the
/// data and at least one error correction codeword per block.
pub proof fn lemma_codeword_counts(version: int, level: ErrorCorrectionLevel)
    requires
        1 <= version <= 40,
    ensures
        1 <= num_blocks(version, level) <= data_codewords(version, level),
        data_codewords(version, level) + num_blocks(version, level) <= total_codewords(version),
        total_ec_codewords(version, level) <= total_codewords(version) <= 3706,
{
    crate::version::lemma_table_bounds(version, level);
    let e = ec_entry(version, level);
    assert(e.1 * e.2 >= e.1) by (nonlinear_arith)
        requires
            e.2 >= 1,
            e.1 >= 0,
    ;
    assert(e.3 * e.4 >= e.3) by (nonlinear_arith)
        requires
            e.3 > 0 ==> e.4 >= 1,
            e.3 >= 0,
    ;
    assert(e.0 * (e.1 + e.3) >= e.1 + e.3) by (nonlinear_arith)
        requires
            e.0 >= 7,
            e.1 + e.3 >= 0,
    ;
}

/// The character set that `name` names, if a name is given.
fn hinted_charset_of(name: &Option<String>) -> (r: Result<Option<CharacterSetECI>, EncodeError>)
    ensures
        r == hinted_charset(opt_text(*name)),
{
    match name {
        Some(n) => match CharacterSetECI::getCharacterSetECIByName(n.as_str()) {
            Some(cs) => Ok(Some(cs)),
            None => Err(EncodeError::UnsupportedCharacterSet),
        },
        None => Ok(None),
    }
}

/// The header bits of the segment.
fn segment_header(mode: Mode, charset: Option<CharacterSetECI>, gs1: bool) -> (r: BitArray)
    ensures
        r@ == header_bits(mode, charset, gs1),
        r@.len() <= 20,
{
    let mut header = BitArray::new();
    if mode == Mode::BYTE {
        if let Some(cs) = charset {
            appendECI(cs, &mut header);
        }
    }
    if gs1 {
        appendModeInfo(Mode::FNC1_FIRST_POSITION, &mut header);
    }
    appendModeInfo(mode, &mut header);
    assert(header@ =~= header_bits(mode, charset, gs1));
    header
}

/// The version for the segment: the hinted one or the recommended one.
fn segment_version(mode: Mode, header: &BitArray, data: &BitArray, level: ErrorCorrectionLevel, hint: &Option<String>) -> (r: Result<Version, EncodeError>)
    requires
        header@.len() <= 20,
        data@.len() <= usize::MAX - 64,
    ensures
        match chosen_version(mode, header@.len() as int, data@.len() as int, level, opt_text(*hint)) {
            Ok(v) => r is Ok && r->Ok_0.number() == v,
            Err(e) => r == Err::<Version, EncodeError>(e),
        },
{
    match hint {
        Some(t) => {
            let n = match parse_int_text(t.as_str()) {
                Some(n) => n,
                None => return Err(EncodeError::InvalidHint),
            };
            if n < 1 || n > 40 {
                return Err(EncodeError::InvalidVersion);
            }
            let version = match Version::getVersionForNumber(n as u32) {
                Ok(v) => v,
                Err(e) => return Err(e),
            };
            let needed = calculateBitsNeeded(mode, header, data, &version);
            if !willFit(needed, &version, level) {
                return Err(EncodeError::DataTooBig);
            }
            Ok(version)
        },
        None => recommendVersion(level, mode, header, data),
    }
}

/// The data codewords, as bits, of the segment in `version` at `level`.
fn segment_codeword_bits(header: &BitArray, data: &BitArray, letters: usize, mode: Mode, version: &Version, level: ErrorCorrectionLevel) -> (r: Result<BitArray, EncodeError>)
    requires
        header@.len() <= 20,
        data@.len() <= usize::MAX - 64,
    ensures
        match segment_codewords(header@, data@, letters as int, mode, version.number(), level) {
            Ok(b) => r is Ok && r->Ok_0@ == b,
            Err(e) => r == Err::<BitArray, EncodeError>(e),
        },
{
    let number = version.get_version_number();
    let ghost v = version.number();
    let width = mode.getCharacterCountBits(version);
    proof {
        lemma_pow2_small(width);
        assert((1u32 << width) <= 65536u32) by (bit_vector)
            requires
                width <= 16,
        ;
    }
    if letters > 0xFFFF {
        return Err(EncodeError::LengthTooLarge);
    }
    let mut bits = BitArray::new();
    bits.append_bit_array(header);
    match appendLengthInfo(letters as u32, version, mode, &mut bits) {
        Ok(()) => {},
        Err(e) => return Err(e),
    }
    bits.append_bit_array(data);
    proof {
        lemma_codeword_counts(v, level);
    }
    let ec = version.getECBlocksForLevel(level);
    let total = version.getTotalCodewords();
    let num_data = total - ec.getTotalECCodewords();
    assert(num_data == data_codewords(v, level));
    match terminateBits(num_data, &mut bits) {
        Ok(()) => {},
        Err(e) => return Err(e),
    }
    Ok(bits)
}

/// The mode, the version and the data codewords for `content` at `level`
/// under `hints`.
fn encode_codewords(content: &str, level: ErrorCorrectionLevel, hints: &EncodeHints) -> (r: Result<(Mode, Version, BitArray), EncodeError>)
    requires
        6 * content@.len() + 64 <= usize::MAX,
    ensures
        match codeword_outcome(
            content@,
            level,
            opt_text(hints.character_set),
            opt_text(hints.qr_version),
            hints.gs1_format,
        ) {
            Ok(t) => r is Ok && r->Ok_0.0 == t.0 && r->Ok_0.1.number() == t.1 && r->Ok_0.2@ == t.2,
            Err(e) => r == Err::<(Mode, Version, BitArray), EncodeError>(e),
        },
{
    let charset = match hinted_charset_of(&hints.character_set) {
        Ok(c) => c,
        Err(e) => return Err(e),
    };
    let mode = choose_mode_with(content, charset);
    let encoding = match charset {
        Some(cs) => cs,
        None => DEFAULT_BYTE_MODE_ENCODING,
    };
    let header = segment_header(mode, charset, hints.gs1_format);
    let mut data = BitArray::new();
    let appended = appendBytes(content, mode, &mut data, encoding);
    match appended {
        Ok(()) => {},
        Err(e) => return Err(e),
    }
    if data.get_size() > usize::MAX - 64 {
        return Err(EncodeError::DataTooBig);
    }
    let version = match segment_version(mode, &header, &data, level, &hints.qr_version) {
        Ok(v) => v,
        Err(e) => return Err(e),
    };
    let letters: usize = if mode == Mode::BYTE {
        data.get_size_in_bytes()
    } else {
        content.unicode_len()
    };
    match segment_codeword_bits(&header, &data, letters, mode, &version, level) {
        Ok(bits) => Ok((mode, version, bits)),
        Err(e) => Err(e),
    }
}

/// The mask pattern and the matrix of the symbol for the final bits.
fn masked_symbol(bits: &BitArray, level: ErrorCorrectionLevel, version: &Version, hint: &Option<String>) -> (r: Result<(u32, ByteMatrix), EncodeError>)
    ensures
        match chosen_mask(bits@, level, version.number(), opt_text(*hint)) {
            Ok(m) => if bits@.len() > data_capacity(version.number()) {
                r == Err::<(u32, ByteMatrix), EncodeError>(EncodeError::DataTooBig)
            } else {
                r is Ok && r->Ok_0.0 == m && r->Ok_0.1.cells() == symbol_matrix(bits@, level, version.number(), m)
                    && r->Ok_0.1.width_spec() == dimension(version.number())
                    && r->Ok_0.1.height_spec() == dimension(version.number())
            },
            Err(e) => r == Err::<(u32, ByteMatrix), EncodeError>(e),
        },
{
    let hinted: Option<u32> = match hint {
        Some(t) => match parse_int_text(t.as_str()) {
            None => return Err(EncodeError::InvalidHint),
            Some(m) => if QRCode::isValidMaskPattern(m) {
                Some(m as u32)
            } else {
                None
            },
        },
        None => None,
    };
    assert(match hinted {
        Some(m) => chosen_mask(bits@, level, version.number(), opt_text(*hint)) == Ok::<u32, EncodeError>(m),
        None => chosen_mask(bits@, level, version.number(), opt_text(*hint)) == Ok::<u32, EncodeError>(
            best_mask(bits@, level, version.number()),
        ),
    });
    let mask: u32 = match hinted {
        Some(m) => m,
        None => match chooseMaskPattern(bits, level, version) {
            Ok(m) => m,
            Err(e) => return Err(e),
        },
    };
    assert(mask < 8);
    match buildMatrix(bits, level, version, mask) {
        Ok(m) => Ok((mask, m)),
        Err(e) => Err(e),
    }
}

/// The symbol for the data codewords `codewords` of `version` at `level`
/// in `mode`: interleaved with their error correction, masked with the
/// hinted or the best mask pattern.
fn finish_symbol(mode: Mode, version: &Version, codewords: &BitArray, level: ErrorCorrectionLevel, mask_hint: &Option<String>) -> (r: Result<QRCode, EncodeError>)
    ensures
        match symbol_outcome(mode, version.number(), codewords@, level, opt_text(*mask_hint)) {
            Ok(s) => r is Ok && describes(r->Ok_0, level, s),
            Err(e) => r == Err::<QRCode, EncodeError>(e),
        },
{
    let number = version.get_version_number();
    let ghost v = version.number();
    proof {
        lemma_codeword_counts(v, level);
    }
    let ec = version.getECBlocksForLevel(level);
    let total = version.getTotalCodewords();
    let num_data = total - ec.getTotalECCodewords();
    let blocks = ec.getNumBlocks();
    assert(num_data == data_codewords(v, level));
    assert(blocks == num_blocks(v, level));
    let final_bits = match interleaveWithECBytes(codewords, total, num_data, blocks) {
        Ok(b) => b,
        Err(e) => return Err(e),
    };
    let (mask, matrix) = match masked_symbol(&final_bits, level, version, mask_hint) {
        Ok(t) => t,
        Err(e) => return Err(e),
    };
    Ok(QRCode::new(mode, level, *version, mask, matrix))
}

/// Encodes `content` at `level` under `hints` with compaction: the
/// shortest mix of segments that the search finds, with the named set
/// preferred for bytes, in the version the search chose.
/// The symbol for the result `res` of the search at `level` under the
/// mask pattern hint (see `compact_outcome`).
fn compact_symbol(res: &ResultList, level: ErrorCorrectionLevel, mask_hint: &Option<String>) -> (r: Result<QRCode, EncodeError>)
    ensures
        match compact_outcome(*res, level, opt_text(*mask_hint)) {
            Ok(s) => r is Ok && describes(r->Ok_0, level, s),
            Err(e) => r == Err::<QRCode, EncodeError>(e),
        },
{
    let mut bits = BitArray::new();
    match res.getBits(&mut bits) {
        Ok(()) => {},
        Err(e) => return Err(e),
    }
    proof {
        assert(Seq::<bool>::empty() + bits@ =~= bits@);
    }
    let version = *res.getVersion();
    let number = version.get_version_number();
    let ghost v = version.number();
    proof {
        lemma_codeword_counts(v, level);
    }
    let ec = version.getECBlocksForLevel(level);
    let total = version.getTotalCodewords();
    let num_data = total - ec.getTotalECCodewords();
    assert(num_data == data_codewords(v, level));
    match terminateBits(num_data, &mut bits) {
        Ok(()) => {},
        Err(e) => return Err(e),
    }
    finish_symbol(Mode::BYTE, &version, &bits, level, mask_hint)
}

/// With compaction, where the search fails, encoding fails with its error,
/// which the contract of the search states.
proof fn lemma_compact_error(
    content: Seq<char>,
    level: ErrorCorrectionLevel,
    hints: EncodeHints,
    charset: Option<CharacterSetECI>,
    e: EncodeError,
)
    requires
        hinted_charset(opt_text(hints.character_set)) == Ok::<Option<CharacterSetECI>, EncodeError>(charset),
        content.len() == 0 ==> e == EncodeError::UnencodableText,
        content.len() > 7089 ==> e == EncodeError::DataTooBig,
        ({
            let sets = encoder_sets(content, compact_priority(charset));
            let prio = priority_position(sets, compact_priority(charset));
            1 <= content.len() <= 7089 ==> {
                &&& ((!exists|path: Seq<(Mode, int, int)>| #[trigger] fitting_path(content, sets, prio, 9, path))
                    ==> e == EncodeError::UnencodableText)
                &&& (e == EncodeError::UnencodableText ==> (!exists|path: Seq<(Mode, int, int)>|
                    #[trigger] fitting_path(content, sets, prio, 9, path)) || (!exists|path: Seq<(Mode, int, int)>|
                    #[trigger] fitting_path(content, sets, prio, 26, path)) || (!exists|path: Seq<(Mode, int, int)>|
                    #[trigger] fitting_path(content, sets, prio, 40, path)))
                &&& (e == EncodeError::DataTooBig ==> forall|k: int|
                    0 <= k < 3 ==> class_may_overflow(content, sets, prio, #[trigger] class_version(k), hints.gs1_format, level))
                &&& (e == EncodeError::UnencodableText || e == EncodeError::DataTooBig)
            }
        }),
    ensures
        compact_encoded(content, level, hints, Err(e)),
{
    let priority = compact_priority(charset);
    if 1 <= content.len() <= 7089 {
        assert forall|other: ResultList| !#[trigger] encoded_minimally(other, content, level, priority, hints.gs1_format) by {
            if encoded_minimally(other, content, level, priority, hints.gs1_format) {
                lemma_result_excludes_errors(other, content, level, priority, hints.gs1_format);
                assert(class_version(0) == 9 && class_version(1) == 26 && class_version(2) == 40);
            }
        }
    }
}

/// With compaction, where the search gives a result, encoding gives the
/// symbol for it, which is the symbol for every result the search may give.
#[verifier::rlimit(50)]
proof fn lemma_compact_result(
    content: Seq<char>,
    level: ErrorCorrectionLevel,
    hints: EncodeHints,
    charset: Option<CharacterSetECI>,
    res: ResultList,
    r: Result<QRCode, EncodeError>,
)
    requires
        hinted_charset(opt_text(hints.character_set)) == Ok::<Option<CharacterSetECI>, EncodeError>(charset),
        1 <= content.len() <= 7089,
        encoded_minimally(res, content, level, compact_priority(charset), hints.gs1_format),
        match compact_outcome(res, level, opt_text(hints.qr_mask_pattern)) {
            Ok(s) => r is Ok && describes(r->Ok_0, level, s),
            Err(e) => r == Err::<QRCode, EncodeError>(e),
        },
    ensures
        compact_encoded(content, level, hints, r),
{
    let priority = compact_priority(charset);
    assert forall|other: ResultList| #[trigger] encoded_minimally(other, content, level, priority, hints.gs1_format)
        implies compact_outcome(other, level, opt_text(hints.qr_mask_pattern)) == compact_outcome(
        res,
        level,
        opt_text(hints.qr_mask_pattern),
    ) by {
        lemma_encoding_deterministic(other, res, content, level, priority, hints.gs1_format);
    }
    lemma_result_excludes_errors(res, content, level, priority, hints.gs1_format);
    assert(encoded_minimally(res, content, level, priority, hints.gs1_format));
}

/// Encodes `content` at `level` under `hints` with compaction: the
/// shortest mix of segments that the search finds, with the named set
/// preferred for bytes, in the version the search chose.
fn encode_compact(content: &str, level: ErrorCorrectionLevel, hints: &EncodeHints) -> (r: Result<QRCode, EncodeError>)
    ensures
        compact_encoded(content@, level, *hints, r),
{
    let charset = match hinted_charset_of(&hints.character_set) {
        Ok(c) => c,
        Err(e) => return Err(e),
    };
    let priority = match charset {
        Some(cs) => if cs == CharacterSetECI::ISO8859_1 {
            None
        } else {
            Some(cs)
        },
        None => None,
    };
    assert(priority == compact_priority(charset));
    let res = match crate::minimal_encoder::encode(content, None, priority, hints.gs1_format, level) {
        Ok(res) => res,
        Err(e) => {
            proof {
                lemma_compact_error(content@, level, *hints, charset, e);
            }
            return Err(e);
        },
    };
    let r = compact_symbol(&res, level, &hints.qr_mask_pattern);
    proof {
        lemma_compact_result(content@, level, *hints, charset, res, r);
    }
    r
}

/// Encodes `content` at `level` under `hints`: the mode fitted to the
/// text, an ECI segment for a named character set in byte mode, the FNC1
/// indicator for GS1 data, the hinted or the smallest fitting version, the
/// data and error correction codewords interleaved, and the hinted mask
/// pattern or the one of least penalty. With compaction, the shortest mix
/// of segments that the search finds takes the place of the one segment.
pub fn encode_with_hints(content: &str, level: ErrorCorrectionLevel, hints: &EncodeHints) -> (r: Result<QRCode, EncodeError>)
    requires
        6 * content@.len() + 64 <= usize::MAX,
    ensures
        !hints.qr_compact ==> match encode_outcome_with(content@, level, *hints) {
            Ok(s) => r is Ok && describes(r->Ok_0, level, s),
            Err(e) => r == Err::<QRCode, EncodeError>(e),
        },
        hints.qr_compact ==> compact_encoded(content@, level, *hints, r),
{
    if hints.qr_compact {
        return encode_compact(content, level, hints);
    }
    let (mode, version, bits) = match encode_codewords(content, level, hints) {
        Ok(t) => t,
        Err(e) => return Err(e),
    };
    finish_symbol(mode, &version, &bits, level, &hints.qr_mask_pattern)
}

/// Encodes `content` at `level` with no hints.
pub fn encode(content: &str, level: ErrorCorrectionLevel) -> (r: Result<QRCode, EncodeError>)
    requires
        6 * content@.len() + 64 <= usize::MAX,
    ensures
        match encode_outcome(content@, level, None, None, None, false) {
            Ok(s) => r is Ok && describes(r->Ok_0, level, s),
            Err(e) => r == Err::<QRCode, EncodeError>(e),
        },
{
    let hints = EncodeHints::new();
    encode_with_hints(content, level, &hints)
}

/// The mode chosen for a text can hold it: a text given numeric mode is
/// all digits and one given alphanumeric mode is all alphanumeric, so the
/// data bits of that mode exist, whatever the character set.
pub proof fn lemma_chosen_mode_holds_text(text: Seq<char>, charset: Option<CharacterSetECI>, encoding: CharacterSetECI)
    ensures
        choose_mode_spec(text, charset) == Mode::NUMERIC ==> mode_data_bits(text, Mode::NUMERIC, encoding)
            == Ok::<Seq<bool>, EncodeError>(numeric_bits(text)),
        choose_mode_spec(text, charset) == Mode::ALPHANUMERIC ==> mode_data_bits(
            text,
            Mode::ALPHANUMERIC,
            encoding,
        ) == Ok::<Seq<bool>, EncodeError>(alphanumeric_bits(text)),
        choose_mode_spec(text, charset) == Mode::NUMERIC || choose_mode_spec(text, charset) == Mode::ALPHANUMERIC
            || choose_mode_spec(text, charset) == Mode::BYTE || choose_mode_spec(text, charset) == Mode::KANJI,
{
}

/// The first version from `from` on that holds `n` bits holds them, and
/// none before it from `from` on does; where there is none, no version
/// from `from` to 40 holds them.
pub proof fn lemma_first_fitting_version(n: int, level: ErrorCorrectionLevel, from: int)
    requires
        1 <= from,
    ensures
        match first_fitting_version(n, level, from) {
            Some(v) => from <= v <= 40 && will_fit(n, v, level) && forall|u: int|
                from <= u < v ==> !#[trigger] will_fit(n, u, level),
            None => forall|u: int| from <= u <= 40 ==> !#[trigger] will_fit(n, u, level),
        },
    decreases 41 - from,
{
    if from <= 40 && !will_fit(n, from, level) {
        lemma_first_fitting_version(n, level, from + 1);
        assert forall|u: int| from <= u < from + 1 implies !#[trigger] will_fit(n, u, level) by {
            assert(u == from);
        }
    }
}

/// The version chosen for a number of bits is the least that holds them:
/// it holds them and no smaller version does; where none is chosen, no
/// version holds them.
pub proof fn lemma_smallest_version_is_least(n: int, level: ErrorCorrectionLevel)
    ensures
        match smallest_version(n, level) {
            Some(v) => 1 <= v <= 40 && will_fit(n, v, level) && forall|u: int|
                1 <= u < v ==> !#[trigger] will_fit(n, u, level),
            None => forall|u: int| 1 <= u <= 40 ==> !#[trigger] will_fit(n, u, level),
        },
{
    lemma_first_fitting_version(n, level, 1);
}

/// Without compaction, a version hint is kept: where encoding with a
/// version hint that reads as the number `n` succeeds, the symbol has
/// version `n`.
pub proof fn lemma_version_hint_kept(
    content: Seq<char>,
    level: ErrorCorrectionLevel,
    charset_name: Option<Seq<char>>,
    version_hint: Seq<char>,
    mask_hint: Option<Seq<char>>,
    gs1: bool,
)
    requires
        encode_outcome(content, level, charset_name, Some(version_hint), mask_hint, gs1) is Ok,
    ensures
        parse_int(version_hint) is Some,
        encode_outcome(content, level, charset_name, Some(version_hint), mask_hint, gs1)->Ok_0.1
            == parse_int(version_hint)->0,
{
}

/// A mask pattern hint from 0 to 7 is kept: where encoding with such a
/// hint succeeds, the symbol has that mask pattern. (With compaction too:
/// see `lemma_compact_mask_hint_kept`.)
pub proof fn lemma_mask_hint_kept(
    content: Seq<char>,
    level: ErrorCorrectionLevel,
    charset_name: Option<Seq<char>>,
    version_hint: Option<Seq<char>>,
    mask_hint: Seq<char>,
    gs1: bool,
)
    requires
        parse_int(mask_hint) is Some,
        0 <= parse_int(mask_hint)->0 < 8,
        encode_outcome(content, level, charset_name, version_hint, Some(mask_hint), gs1) is Ok,
    ensures
        encode_outcome(content, level, charset_name, version_hint, Some(mask_hint), gs1)->Ok_0.2
            == parse_int(mask_hint)->0,
{
}

/// Without compaction and without a usable mask pattern hint, the symbol
/// has the mask pattern of least penalty: its matrix has a penalty no greater than that of the
/// same data under any of the eight patterns.
pub proof fn lemma_auto_mask_least_penalty(
    content: Seq<char>,
    level: ErrorCorrectionLevel,
    charset_name: Option<Seq<char>>,
    version_hint: Option<Seq<char>>,
    gs1: bool,
)
    requires
        encode_outcome(content, level, charset_name, version_hint, None, gs1) is Ok,
    ensures
        ({
            let s = encode_outcome(content, level, charset_name, version_hint, None, gs1)->Ok_0;
            let d = dimension(s.1);
            let cw = codeword_outcome(content, level, charset_name, version_hint, gs1)->Ok_0.2;
            let fin = interleave_spec(cw, total_codewords(s.1), data_codewords(s.1, level), num_blocks(s.1, level))->Ok_0;
            &&& s.3 == symbol_matrix(fin, level, s.1, s.2)
            &&& s.2 < 8
            &&& forall|k: u32| k < 8 ==> mask_penalty(s.3, d, d) <= #[trigger] penalty_with_mask(fin, level, s.1, k)
        }),
{
    let s = encode_outcome(content, level, charset_name, version_hint, None, gs1)->Ok_0;
    let cw = codeword_outcome(content, level, charset_name, version_hint, gs1)->Ok_0.2;
    let fin = interleave_spec(cw, total_codewords(s.1), data_codewords(s.1, level), num_blocks(s.1, level))->Ok_0;
    let v = s.1;
    assert(s.2 == best_mask(fin, level, v));
    lemma_best_mask_exists(fin, level, v);
}

/// With compaction, a mask pattern hint from 0 to 7 is kept too: where the
/// symbol for a result of the search is made under such a hint, it has that
/// mask pattern.
pub proof fn lemma_compact_mask_hint_kept(res: ResultList, level: ErrorCorrectionLevel, mask_hint: Seq<char>)
    requires
        parse_int(mask_hint) is Some,
        0 <= parse_int(mask_hint)->0 < 8,
        compact_outcome(res, level, Some(mask_hint)) is Ok,
    ensures
        compact_outcome(res, level, Some(mask_hint))->Ok_0.2 == parse_int(mask_hint)->0,
{
}

} // verus!
