//! Character sets: the ECI designators that a QR Code can announce, the
//! names by which they are asked for, and the conversion of text to bytes,
//! which the `encoding` crate performs.
use vstd::prelude::*;
use vstd::utf8::encode_utf8;
use encoding::Encoding;
use crate::error::EncodeError;

verus! {

/// A character set that a QR Code can designate with an ECI segment.
#[allow(non_camel_case_types)]
#[derive(Debug, Clone, Copy, PartialEq, Eq, Structural)]
pub enum CharacterSetECI {
    Cp437,
    ISO8859_1,
    ISO8859_2,
    ISO8859_3,
    ISO8859_4,
    ISO8859_5,
    ISO8859_6,
    ISO8859_7,
    ISO8859_8,
    ISO8859_9,
    ISO8859_10,
    ISO8859_11,
    ISO8859_13,
    ISO8859_14,
    ISO8859_15,
    ISO8859_16,
    SJIS,
    Cp1250,
    Cp1251,
    Cp1252,
    Cp1256,
    UnicodeBigUnmarked,
    UTF8,
    ASCII,
    Big5,
    GB18030,
    EUC_KR,
}

/// The ECI assignment number of a character set.
pub open spec fn eci_value(cs: CharacterSetECI) -> u32 {
    match cs {
        CharacterSetECI::Cp437 => 0u32,
        CharacterSetECI::ISO8859_1 => 1u32,
        CharacterSetECI::ISO8859_2 => 4u32,
        CharacterSetECI::ISO8859_3 => 5u32,
        CharacterSetECI::ISO8859_4 => 6u32,
        CharacterSetECI::ISO8859_5 => 7u32,
        CharacterSetECI::ISO8859_6 => 8u32,
        CharacterSetECI::ISO8859_7 => 9u32,
        CharacterSetECI::ISO8859_8 => 10u32,
        CharacterSetECI::ISO8859_9 => 11u32,
        CharacterSetECI::ISO8859_10 => 12u32,
        CharacterSetECI::ISO8859_11 => 13u32,
        CharacterSetECI::ISO8859_13 => 15u32,
        CharacterSetECI::ISO8859_14 => 16u32,
        CharacterSetECI::ISO8859_15 => 17u32,
        CharacterSetECI::ISO8859_16 => 18u32,
        CharacterSetECI::SJIS => 20u32,
        CharacterSetECI::Cp1250 => 21u32,
        CharacterSetECI::Cp1251 => 22u32,
        CharacterSetECI::Cp1252 => 23u32,
        CharacterSetECI::Cp1256 => 24u32,
        CharacterSetECI::UnicodeBigUnmarked => 25u32,
        CharacterSetECI::UTF8 => 26u32,
        CharacterSetECI::ASCII => 27u32,
        CharacterSetECI::Big5 => 28u32,
        CharacterSetECI::GB18030 => 29u32,
        CharacterSetECI::EUC_KR => 30u32,
    }
}

/// The character set known by `name`: its own name or one of its other
/// names, compared exactly.
pub open spec fn eci_by_name(name: Seq<char>) -> Option<CharacterSetECI> {
    if name == "Cp437"@ {
        Some(CharacterSetECI::Cp437)
    } else if name == "ISO8859_1"@ || name == "ISO-8859-1"@ {
        Some(CharacterSetECI::ISO8859_1)
    } else if name == "ISO8859_2"@ || name == "ISO-8859-2"@ {
        Some(CharacterSetECI::ISO8859_2)
    } else if name == "ISO8859_3"@ || name == "ISO-8859-3"@ {
        Some(CharacterSetECI::ISO8859_3)
    } else if name == "ISO8859_4"@ || name == "ISO-8859-4"@ {
        Some(CharacterSetECI::ISO8859_4)
    } else if name == "ISO8859_5"@ || name == "ISO-8859-5"@ {
        Some(CharacterSetECI::ISO8859_5)
    } else if name == "ISO8859_6"@ || name == "ISO-8859-6"@ {
        Some(CharacterSetECI::ISO8859_6)
    } else if name == "ISO8859_7"@ || name == "ISO-8859-7"@ {
        Some(CharacterSetECI::ISO8859_7)
    } else if name == "ISO8859_8"@ || name == "ISO-8859-8"@ {
        Some(CharacterSetECI::ISO8859_8)
    } else if name == "ISO8859_9"@ || name == "ISO-8859-9"@ {
        Some(CharacterSetECI::ISO8859_9)
    } else if name == "ISO8859_10"@ || name == "ISO-8859-10"@ {
        Some(CharacterSetECI::ISO8859_10)
    } else if name == "ISO8859_11"@ || name == "ISO-8859-11"@ {
        Some(CharacterSetECI::ISO8859_11)
    } else if name == "ISO8859_13"@ || name == "ISO-8859-13"@ {
        Some(CharacterSetECI::ISO8859_13)
    } else if name == "ISO8859_14"@ || name == "ISO-8859-14"@ {
        Some(CharacterSetECI::ISO8859_14)
    } else if name == "ISO8859_15"@ || name == "ISO-8859-15"@ {
        Some(CharacterSetECI::ISO8859_15)
    } else if name == "ISO8859_16"@ || name == "ISO-8859-16"@ {
        Some(CharacterSetECI::ISO8859_16)
    } else if name == "SJIS"@ || name == "Shift_JIS"@ {
        Some(CharacterSetECI::SJIS)
    } else if name == "Cp1250"@ || name == "windows-1250"@ {
        Some(CharacterSetECI::Cp1250)
    } else if name == "Cp1251"@ || name == "windows-1251"@ {
        Some(CharacterSetECI::Cp1251)
    } else if name == "Cp1252"@ || name == "windows-1252"@ {
        Some(CharacterSetECI::Cp1252)
    } else if name == "Cp1256"@ || name == "windows-1256"@ {
        Some(CharacterSetECI::Cp1256)
    } else if name == "UnicodeBigUnmarked"@ || name == "UTF-16BE"@ || name == "UnicodeBig"@ {
        Some(CharacterSetECI::UnicodeBigUnmarked)
    } else if name == "UTF8"@ || name == "UTF-8"@ {
        Some(CharacterSetECI::UTF8)
    } else if name == "ASCII"@ || name == "US-ASCII"@ {
        Some(CharacterSetECI::ASCII)
    } else if name == "Big5"@ {
        Some(CharacterSetECI::Big5)
    } else if name == "GB18030"@ || name == "GB2312"@ || name == "EUC_CN"@ || name == "GBK"@ {
        Some(CharacterSetECI::GB18030)
    } else if name == "EUC_KR"@ || name == "EUC-KR"@ {
        Some(CharacterSetECI::EUC_KR)
    } else {
        None
    }
}

/// Whether two strings hold the same characters.
pub fn str_equals(a: &str, b: &str) -> (r: bool)
    ensures
        r == (a@ == b@),
{
    let n = a.unicode_len();
    if n != b.unicode_len() {
        return false;
    }
    let mut i: usize = 0;
    while i < n
        invariant
            n == a@.len(),
            n == b@.len(),
            i <= n,
            forall|j: int| 0 <= j < i ==> a@[j] == b@[j],
        decreases n - i,
    {
        if a.get_char(i) != b.get_char(i) {
            return false;
        }
        i = i + 1;
    }
    assert(a@ =~= b@);
    true
}

impl CharacterSetECI {
    /// The ECI assignment number.
    pub fn getValue(&self) -> (r: u32)
        ensures
            r == eci_value(*self),
    {
        match self {
            CharacterSetECI::Cp437 => 0,
            CharacterSetECI::ISO8859_1 => 1,
            CharacterSetECI::ISO8859_2 => 4,
            CharacterSetECI::ISO8859_3 => 5,
            CharacterSetECI::ISO8859_4 => 6,
            CharacterSetECI::ISO8859_5 => 7,
            CharacterSetECI::ISO8859_6 => 8,
            CharacterSetECI::ISO8859_7 => 9,
            CharacterSetECI::ISO8859_8 => 10,
            CharacterSetECI::ISO8859_9 => 11,
            CharacterSetECI::ISO8859_10 => 12,
            CharacterSetECI::ISO8859_11 => 13,
            CharacterSetECI::ISO8859_13 => 15,
            CharacterSetECI::ISO8859_14 => 16,
            CharacterSetECI::ISO8859_15 => 17,
            CharacterSetECI::ISO8859_16 => 18,
            CharacterSetECI::SJIS => 20,
            CharacterSetECI::Cp1250 => 21,
            CharacterSetECI::Cp1251 => 22,
            CharacterSetECI::Cp1252 => 23,
            CharacterSetECI::Cp1256 => 24,
            CharacterSetECI::UnicodeBigUnmarked => 25,
            CharacterSetECI::UTF8 => 26,
            CharacterSetECI::ASCII => 27,
            CharacterSetECI::Big5 => 28,
            CharacterSetECI::GB18030 => 29,
            CharacterSetECI::EUC_KR => 30,
        }
    }

    /// The encoding of the `encoding` crate that implements the set, if any.
    pub fn text_encoding(&self) -> (r: Option<TextEncoding>)
        ensures
            r == eci_encoding(*self),
    {
        match self {
            CharacterSetECI::ISO8859_1 => Some(TextEncoding::Latin1),
            CharacterSetECI::ISO8859_2 => Some(TextEncoding::Iso8859_2),
            CharacterSetECI::ISO8859_3 => Some(TextEncoding::Iso8859_3),
            CharacterSetECI::ISO8859_4 => Some(TextEncoding::Iso8859_4),
            CharacterSetECI::ISO8859_5 => Some(TextEncoding::Iso8859_5),
            CharacterSetECI::ISO8859_6 => Some(TextEncoding::Iso8859_6),
            CharacterSetECI::ISO8859_7 => Some(TextEncoding::Iso8859_7),
            CharacterSetECI::ISO8859_8 => Some(TextEncoding::Iso8859_8),
            CharacterSetECI::ISO8859_10 => Some(TextEncoding::Iso8859_10),
            CharacterSetECI::ISO8859_13 => Some(TextEncoding::Iso8859_13),
            CharacterSetECI::ISO8859_14 => Some(TextEncoding::Iso8859_14),
            CharacterSetECI::ISO8859_15 => Some(TextEncoding::Iso8859_15),
            CharacterSetECI::ISO8859_16 => Some(TextEncoding::Iso8859_16),
            CharacterSetECI::SJIS => Some(TextEncoding::Windows31J),
            CharacterSetECI::Cp1250 => Some(TextEncoding::Windows1250),
            CharacterSetECI::Cp1251 => Some(TextEncoding::Windows1251),
            CharacterSetECI::Cp1252 => Some(TextEncoding::Windows1252),
            CharacterSetECI::Cp1256 => Some(TextEncoding::Windows1256),
            CharacterSetECI::UnicodeBigUnmarked => Some(TextEncoding::Utf16Be),
            CharacterSetECI::UTF8 => Some(TextEncoding::Utf8),
            CharacterSetECI::ASCII => Some(TextEncoding::Ascii),
            CharacterSetECI::Big5 => Some(TextEncoding::Big5),
            CharacterSetECI::GB18030 => Some(TextEncoding::Gb18030),
            CharacterSetECI::EUC_KR => Some(TextEncoding::Windows949),
            _ => None,
        }
    }

    /// The bytes of `text` in this character set.
    pub fn encode(&self, text: &str) -> (r: Result<Vec<u8>, EncodeError>)
        ensures
            match r {
                Ok(b) => text_bytes(*self, text@) == Ok::<Seq<u8>, EncodeError>(b@),
                Err(e) => text_bytes(*self, text@) == Err::<Seq<u8>, EncodeError>(e),
            },
    {
        match self.text_encoding() {
            None => Err(EncodeError::UnsupportedCharacterSet),
            Some(enc) => match encode_text(enc.slot(), text) {
                Some(b) => Ok(b),
                None => Err(EncodeError::UnencodableText),
            },
        }
    }

    /// The character set known by `name`, if any.
    pub fn getCharacterSetECIByName(name: &str) -> (r: Option<CharacterSetECI>)
        ensures
            r == eci_by_name(name@),
    {
        if str_equals(name, "Cp437") {
            Some(CharacterSetECI::Cp437)
        } else if str_equals(name, "ISO8859_1") || str_equals(name, "ISO-8859-1") {
            Some(CharacterSetECI::ISO8859_1)
        } else if str_equals(name, "ISO8859_2") || str_equals(name, "ISO-8859-2") {
            Some(CharacterSetECI::ISO8859_2)
        } else if str_equals(name, "ISO8859_3") || str_equals(name, "ISO-8859-3") {
            Some(CharacterSetECI::ISO8859_3)
        } else if str_equals(name, "ISO8859_4") || str_equals(name, "ISO-8859-4") {
            Some(CharacterSetECI::ISO8859_4)
        } else if str_equals(name, "ISO8859_5") || str_equals(name, "ISO-8859-5") {
            Some(CharacterSetECI::ISO8859_5)
        } else if str_equals(name, "ISO8859_6") || str_equals(name, "ISO-8859-6") {
            Some(CharacterSetECI::ISO8859_6)
        } else if str_equals(name, "ISO8859_7") || str_equals(name, "ISO-8859-7") {
            Some(CharacterSetECI::ISO8859_7)
        } else if str_equals(name, "ISO8859_8") || str_equals(name, "ISO-8859-8") {
            Some(CharacterSetECI::ISO8859_8)
        } else if str_equals(name, "ISO8859_9") || str_equals(name, "ISO-8859-9") {
            Some(CharacterSetECI::ISO8859_9)
        } else if str_equals(name, "ISO8859_10") || str_equals(name, "ISO-8859-10") {
            Some(CharacterSetECI::ISO8859_10)
        } else if str_equals(name, "ISO8859_11") || str_equals(name, "ISO-8859-11") {
            Some(CharacterSetECI::ISO8859_11)
        } else if str_equals(name, "ISO8859_13") || str_equals(name, "ISO-8859-13") {
            Some(CharacterSetECI::ISO8859_13)
        } else if str_equals(name, "ISO8859_14") || str_equals(name, "ISO-8859-14") {
            Some(CharacterSetECI::ISO8859_14)
        } else if str_equals(name, "ISO8859_15") || str_equals(name, "ISO-8859-15") {
            Some(CharacterSetECI::ISO8859_15)
        } else if str_equals(name, "ISO8859_16") || str_equals(name, "ISO-8859-16") {
            Some(CharacterSetECI::ISO8859_16)
        } else if str_equals(name, "SJIS") || str_equals(name, "Shift_JIS") {
            Some(CharacterSetECI::SJIS)
        } else if str_equals(name, "Cp1250") || str_equals(name, "windows-1250") {
            Some(CharacterSetECI::Cp1250)
        } else if str_equals(name, "Cp1251") || str_equals(name, "windows-1251") {
            Some(CharacterSetECI::Cp1251)
        } else if str_equals(name, "Cp1252") || str_equals(name, "windows-1252") {
            Some(CharacterSetECI::Cp1252)
        } else if str_equals(name, "Cp1256") || str_equals(name, "windows-1256") {
            Some(CharacterSetECI::Cp1256)
        } else if str_equals(name, "UnicodeBigUnmarked") || str_equals(name, "UTF-16BE") || str_equals(name, "UnicodeBig") {
            Some(CharacterSetECI::UnicodeBigUnmarked)
        } else if str_equals(name, "UTF8") || str_equals(name, "UTF-8") {
            Some(CharacterSetECI::UTF8)
        } else if str_equals(name, "ASCII") || str_equals(name, "US-ASCII") {
            Some(CharacterSetECI::ASCII)
        } else if str_equals(name, "Big5") {
            Some(CharacterSetECI::Big5)
        } else if str_equals(name, "GB18030") || str_equals(name, "GB2312") || str_equals(name, "EUC_CN") || str_equals(name, "GBK") {
            Some(CharacterSetECI::GB18030)
        } else if str_equals(name, "EUC_KR") || str_equals(name, "EUC-KR") {
            Some(CharacterSetECI::EUC_KR)
        } else {
            None
        }
    }
}

/// A text encoding that the `encoding` crate implements.
#[derive(Debug, Clone, Copy, PartialEq, Eq, Structural)]
pub enum TextEncoding {
    Latin1,
    Iso8859_2,
    Iso8859_3,
    Iso8859_4,
    Iso8859_5,
    Iso8859_6,
    Iso8859_7,
    Iso8859_8,
    Iso8859_10,
    Iso8859_13,
    Iso8859_14,
    Iso8859_15,
    Iso8859_16,
    Windows31J,
    Windows1250,
    Windows1251,
    Windows1252,
    Windows1256,
    Utf16Be,
    Utf8,
    Ascii,
    Big5,
    Gb18030,
    Windows949,
}

/// The position of an encoding in the list that `encoding::all::encodings()`
/// returns.
pub open spec fn encoder_slot(enc: TextEncoding) -> usize {
    match enc {
        TextEncoding::Ascii => 1usize,
        TextEncoding::Latin1 => 3usize,
        TextEncoding::Iso8859_2 => 4usize,
        TextEncoding::Iso8859_3 => 5usize,
        TextEncoding::Iso8859_4 => 6usize,
        TextEncoding::Iso8859_5 => 7usize,
        TextEncoding::Iso8859_6 => 8usize,
        TextEncoding::Iso8859_7 => 9usize,
        TextEncoding::Iso8859_8 => 10usize,
        TextEncoding::Iso8859_10 => 11usize,
        TextEncoding::Iso8859_13 => 12usize,
        TextEncoding::Iso8859_14 => 13usize,
        TextEncoding::Iso8859_15 => 14usize,
        TextEncoding::Iso8859_16 => 15usize,
        TextEncoding::Windows1250 => 20usize,
        TextEncoding::Windows1251 => 21usize,
        TextEncoding::Windows1252 => 22usize,
        TextEncoding::Windows1256 => 26usize,
        TextEncoding::Utf8 => 30usize,
        TextEncoding::Utf16Be => 32usize,
        TextEncoding::Windows949 => 33usize,
        TextEncoding::Windows31J => 35usize,
        TextEncoding::Gb18030 => 38usize,
        TextEncoding::Big5 => 40usize,
    }
}

impl TextEncoding {
    /// The position of the encoding in the `encoding` crate's list.
    pub fn slot(&self) -> (r: usize)
        ensures
            r == encoder_slot(*self),
    {
        match self {
            TextEncoding::Ascii => 1,
            TextEncoding::Latin1 => 3,
            TextEncoding::Iso8859_2 => 4,
            TextEncoding::Iso8859_3 => 5,
            TextEncoding::Iso8859_4 => 6,
            TextEncoding::Iso8859_5 => 7,
            TextEncoding::Iso8859_6 => 8,
            TextEncoding::Iso8859_7 => 9,
            TextEncoding::Iso8859_8 => 10,
            TextEncoding::Iso8859_10 => 11,
            TextEncoding::Iso8859_13 => 12,
            TextEncoding::Iso8859_14 => 13,
            TextEncoding::Iso8859_15 => 14,
            TextEncoding::Iso8859_16 => 15,
            TextEncoding::Windows1250 => 20,
            TextEncoding::Windows1251 => 21,
            TextEncoding::Windows1252 => 22,
            TextEncoding::Windows1256 => 26,
            TextEncoding::Utf8 => 30,
            TextEncoding::Utf16Be => 32,
            TextEncoding::Windows949 => 33,
            TextEncoding::Windows31J => 35,
            TextEncoding::Gb18030 => 38,
            TextEncoding::Big5 => 40,
        }
    }
}

/// What the strict encoder at position `slot` of the `encoding` crate's
/// list of encodings makes of `text`: its bytes, or `None` where a
/// character has no representation.
pub uninterp spec fn encoded_bytes(slot: usize, text: Seq<char>) -> Option<Seq<u8>>;

/// Whether every character of `text` is at most `max`.
pub open spec fn all_chars_at_most(text: Seq<char>, max: u32) -> bool {
    forall|i: int| 0 <= i < text.len() ==> #[trigger] (text[i] as u32) <= max
}

/// Calls `Encoding::encode`, with the strict trap, on the encoder at
/// position `slot` of the list that `encoding::all::encodings()` returns
/// (44 encoders). The result is named `encoded_bytes`. Beyond the name, the
/// contract states what the crate's source shows of three encoders:
/// ISO-8859-1 (position 3) and ASCII (position 1) write each character as
/// one byte and refuse any character above 0xFF and 0x7F respectively;
/// UTF-8 (position 30) writes the text's own UTF-8 bytes and never refuses.
#[verifier::external_body]
fn encode_text(slot: usize, text: &str) -> (r: Option<Vec<u8>>)
    requires
        slot < 44,
    ensures
        match r {
            Some(b) => encoded_bytes(slot, text@) == Some(b@),
            None => encoded_bytes(slot, text@) is None,
        },
        slot == 3 ==> (r is Some <==> all_chars_at_most(text@, 0xFF)),
        slot == 3 && r is Some ==> r->0@ == text@.map_values(|c: char| c as u8),
        slot == 1 ==> (r is Some <==> all_chars_at_most(text@, 0x7F)),
        slot == 1 && r is Some ==> r->0@ == text@.map_values(|c: char| c as u8),
        slot == 30 ==> r is Some && r->0@ == encode_utf8(text@),
{
    encoding::all::encodings()[slot].encode(text, encoding::EncoderTrap::Strict).ok()
}

/// What the strict decoder at position `slot` of the `encoding` crate's
/// list of encodings makes of `bytes`: its text, or `None` where the bytes
/// are not valid in that encoding.
pub uninterp spec fn decoded_text(slot: usize, bytes: Seq<u8>) -> Option<Seq<char>>;

/// Calls `Encoding::decode`, with the strict trap, on the decoder at
/// position `slot` of the list that `encoding::all::encodings()` returns.
/// The result is named `decoded_text`; nothing more of it is stated.
#[verifier::external_body]
fn decode_bytes(slot: usize, bytes: &[u8]) -> (r: Option<String>)
    requires
        slot < 44,
    ensures
        match r {
            Some(s) => decoded_text(slot, bytes@) == Some(s@),
            None => decoded_text(slot, bytes@) is None,
        },
{
    encoding::all::encodings()[slot].decode(bytes, encoding::DecoderTrap::Strict).ok()
}

/// The text that `bytes` hold in Shift_JIS (the crate's Windows-31J
/// decoder, which the label "SJIS" names); `None` where they are not valid
/// Shift_JIS.
pub fn shiftJISString(bytes: &[u8]) -> (r: Option<String>)
    ensures
        match r {
            Some(s) => decoded_text(encoder_slot(TextEncoding::Windows31J), bytes@) == Some(s@),
            None => decoded_text(encoder_slot(TextEncoding::Windows31J), bytes@) is None,
        },
{
    decode_bytes(TextEncoding::Windows31J.slot(), bytes)
}

/// The encoding of the `encoding` crate that implements a character set,
/// where there is one.
pub open spec fn eci_encoding(cs: CharacterSetECI) -> Option<TextEncoding> {
    match cs {
        CharacterSetECI::ISO8859_1 => Some(TextEncoding::Latin1),
        CharacterSetECI::ISO8859_2 => Some(TextEncoding::Iso8859_2),
        CharacterSetECI::ISO8859_3 => Some(TextEncoding::Iso8859_3),
        CharacterSetECI::ISO8859_4 => Some(TextEncoding::Iso8859_4),
        CharacterSetECI::ISO8859_5 => Some(TextEncoding::Iso8859_5),
        CharacterSetECI::ISO8859_6 => Some(TextEncoding::Iso8859_6),
        CharacterSetECI::ISO8859_7 => Some(TextEncoding::Iso8859_7),
        CharacterSetECI::ISO8859_8 => Some(TextEncoding::Iso8859_8),
        CharacterSetECI::ISO8859_10 => Some(TextEncoding::Iso8859_10),
        CharacterSetECI::ISO8859_13 => Some(TextEncoding::Iso8859_13),
        CharacterSetECI::ISO8859_14 => Some(TextEncoding::Iso8859_14),
        CharacterSetECI::ISO8859_15 => Some(TextEncoding::Iso8859_15),
        CharacterSetECI::ISO8859_16 => Some(TextEncoding::Iso8859_16),
        CharacterSetECI::SJIS => Some(TextEncoding::Windows31J),
        CharacterSetECI::Cp1250 => Some(TextEncoding::Windows1250),
        CharacterSetECI::Cp1251 => Some(TextEncoding::Windows1251),
        CharacterSetECI::Cp1252 => Some(TextEncoding::Windows1252),
        CharacterSetECI::Cp1256 => Some(TextEncoding::Windows1256),
        CharacterSetECI::UnicodeBigUnmarked => Some(TextEncoding::Utf16Be),
        CharacterSetECI::UTF8 => Some(TextEncoding::Utf8),
        CharacterSetECI::ASCII => Some(TextEncoding::Ascii),
        CharacterSetECI::Big5 => Some(TextEncoding::Big5),
        CharacterSetECI::GB18030 => Some(TextEncoding::Gb18030),
        CharacterSetECI::EUC_KR => Some(TextEncoding::Windows949),
        _ => None,
    }
}

/// The bytes of `text` in the character set `cs`: an error where no
/// encoder implements the set or where the set cannot represent the text.
pub open spec fn text_bytes(cs: CharacterSetECI, text: Seq<char>) -> Result<Seq<u8>, EncodeError> {
    match eci_encoding(cs) {
        None => Err(EncodeError::UnsupportedCharacterSet),
        Some(enc) => match encoded_bytes(encoder_slot(enc), text) {
            Some(b) => Ok(b),
            None => Err(EncodeError::UnencodableText),
        },
    }
}

} // verus!
