use qrencode::bit_array::BitArray;
use qrencode::charset::shiftJISString;
use qrencode::encoder::{
    append8BitBytes, appendAlphanumericBytes, appendBytes, appendKanjiBytes, appendLengthInfo,
    appendModeInfo, appendNumericBytes, chooseMode, encode, encode_with_hints, getAlphanumericCode,
    getNumDataBytesAndNumECBytesForBlockID, interleaveWithECBytes, terminateBits,
    DEFAULT_BYTE_MODE_ENCODING,
};
use qrencode::hints::EncodeHints;
use qrencode::known_symbols::{verifyGS1EncodedData, verifyNotGS1EncodedData};
use qrencode::reed_solomon::generateECBytes;
use qrencode::version::{ErrorCorrectionLevel, Mode, Version};

fn shift_jis_string(bytes: &[u8]) -> String {
    shiftJISString(bytes).expect("decode should be ok")
}

fn version(n: u32) -> Version {
    Version::getVersionForNumber(n).unwrap()
}

#[test]
fn testGetAlphanumericCode() {
    // The first ten code points are numbers.
    for i in 0..10u8 {
        assert_eq!(i as i32, getAlphanumericCode((b'0' + i) as u32));
    }
    // The next 26 code points are capital alphabet letters.
    for i in 10..36u8 {
        assert_eq!(i as i32, getAlphanumericCode((b'A' + i - 10) as u32));
    }
    // Others are symbol letters
    assert_eq!(36, getAlphanumericCode(b' ' as u32));
    assert_eq!(37, getAlphanumericCode(b'$' as u32));
    assert_eq!(38, getAlphanumericCode(b'%' as u32));
    assert_eq!(39, getAlphanumericCode(b'*' as u32));
    assert_eq!(40, getAlphanumericCode(b'+' as u32));
    assert_eq!(41, getAlphanumericCode(b'-' as u32));
    assert_eq!(42, getAlphanumericCode(b'.' as u32));
    assert_eq!(43, getAlphanumericCode(b'/' as u32));
    assert_eq!(44, getAlphanumericCode(b':' as u32));
    // Should return -1 for other letters;
    assert_eq!(-1, getAlphanumericCode(b'a' as u32));
    assert_eq!(-1, getAlphanumericCode(b'#' as u32));
    assert_eq!(-1, getAlphanumericCode(b'\0' as u32));
}

#[test]
fn testChooseMode() {
    // Numeric mode.
    assert_eq!(Mode::NUMERIC, chooseMode("0"));
    assert_eq!(Mode::NUMERIC, chooseMode("0123456789"));
    // Alphanumeric mode.
    assert_eq!(Mode::ALPHANUMERIC, chooseMode("A"));
    assert_eq!(Mode::ALPHANUMERIC, chooseMode("0123456789ABCDEFGHIJKLMNOPQRSTUVWXYZ $%*+-./:"));
    // 8-bit byte mode.
    assert_eq!(Mode::BYTE, chooseMode("a"));
    assert_eq!(Mode::BYTE, chooseMode("#"));
    assert_eq!(Mode::BYTE, chooseMode(""));
    // Kanji mode is not chosen without the Shift_JIS character set.
    // AIUE in Hiragana in Shift_JIS
    assert_eq!(Mode::BYTE, chooseMode(&shift_jis_string(&[0x8, 0xa, 0x8, 0xa, 0x8, 0xa, 0x8, 0xa6])));
    // Nihon in Kanji in Shift_JIS.
    assert_eq!(Mode::BYTE, chooseMode(&shift_jis_string(&[0x9, 0xf, 0x9, 0x7b])));
    // Sou-Utsu-Byou in Kanji in Shift_JIS.
    assert_eq!(Mode::BYTE, chooseMode(&shift_jis_string(&[0xe, 0x4, 0x9, 0x5, 0x9, 0x61])));
}

#[test]
fn testEncode() {
    let qr_code = encode("ABCDEF", ErrorCorrectionLevel::H).expect("encode");
    let expected = EXPECTED_ENCODE;
    assert_eq!(expected, qr_code.to_string());
}

#[test]
fn testEncodeWithVersion() {
    let mut hints = EncodeHints::new();
    hints.set_qr_version("7");
    let qr_code = encode_with_hints("ABCDEF", ErrorCorrectionLevel::H, &hints).expect("encode");
    assert!(qr_code.to_string().contains(" version: 7\n"));
}

#[test]
#[should_panic]
fn testEncodeWithVersionTooSmall() {
    let mut hints = EncodeHints::new();
    hints.set_qr_version("3");
    encode_with_hints("THISMESSAGEISTOOLONGFORAQRCODEVERSION3", ErrorCorrectionLevel::H, &hints)
        .expect("encode");
}

#[test]
fn testSimpleUTF8ECI() {
    let mut hints = EncodeHints::new();
    hints.set_character_set("UTF8");
    let qr_code = encode_with_hints("hello", ErrorCorrectionLevel::H, &hints).expect("encode");
    let expected = EXPECTED_UTF8;
    assert_eq!(expected, qr_code.to_string());
}

#[test]
fn testEncodeKanjiMode() {
    let mut hints = EncodeHints::new();
    hints.set_character_set("Shift_JIS");
    // Nihon in Kanji
    let qr_code = encode_with_hints("\u{65e5}\u{672c}", ErrorCorrectionLevel::M, &hints).expect("encode");
    let expected = EXPECTED_KANJI;
    assert_eq!(expected, qr_code.to_string());
}

#[test]
fn testEncodeShiftjisNumeric() {
    let mut hints = EncodeHints::new();
    hints.set_character_set("Shift_JIS");
    let qr_code = encode_with_hints("0123", ErrorCorrectionLevel::M, &hints).expect("encode");
    let expected = EXPECTED_SJIS_NUMERIC;
    assert_eq!(expected, qr_code.to_string());
}

#[test]
fn testEncodeGS1WithStringTypeHint() {
    let mut hints = EncodeHints::new();
    hints.set_gs1_format_text("true");
    let qr_code = encode_with_hints("100001%11171218", ErrorCorrectionLevel::H, &hints).expect("encode");
    assert!(verifyGS1EncodedData(&qr_code));
}

#[test]
fn testEncodeGS1WithBooleanTypeHint() {
    let mut hints = EncodeHints::new();
    hints.set_gs1_format(true);
    let qr_code = encode_with_hints("100001%11171218", ErrorCorrectionLevel::H, &hints).expect("encode");
    assert!(verifyGS1EncodedData(&qr_code));
}

#[test]
fn testDoesNotEncodeGS1WhenBooleanTypeHintExplicitlyFalse() {
    let mut hints = EncodeHints::new();
    hints.set_gs1_format(false);
    let qr_code = encode_with_hints("ABCDEF", ErrorCorrectionLevel::H, &hints).expect("encode");
    assert!(verifyNotGS1EncodedData(&qr_code));
}

#[test]
fn testDoesNotEncodeGS1WhenStringTypeHintExplicitlyFalse() {
    let mut hints = EncodeHints::new();
    hints.set_gs1_format_text("false");
    let qr_code = encode_with_hints("ABCDEF", ErrorCorrectionLevel::H, &hints).expect("encode");
    assert!(verifyNotGS1EncodedData(&qr_code));
}

#[test]
fn testGS1ModeHeaderWithECI() {
    let mut hints = EncodeHints::new();
    hints.set_character_set("UTF8");
    hints.set_gs1_format(true);
    let qr_code = encode_with_hints("hello", ErrorCorrectionLevel::H, &hints).expect("encode");
    let expected = EXPECTED_GS1_ECI;
    assert_eq!(expected, qr_code.to_string());
}

#[test]
fn testAppendModeInfo() {
    let mut bits = BitArray::new();
    appendModeInfo(Mode::NUMERIC, &mut bits);
    assert_eq!(" ...X", bits.to_string());
}

#[test]
fn testAppendLengthInfo() {
    let mut bits = BitArray::new();
    appendLengthInfo(1, &version(1), Mode::NUMERIC, &mut bits).unwrap(); // 1 letter (1/1).
    assert_eq!(" ........ .X", bits.to_string()); // 10 bits.
    let mut bits = BitArray::new();
    appendLengthInfo(2, &version(10), Mode::ALPHANUMERIC, &mut bits).unwrap(); // 2 letters (2/1).
    assert_eq!(" ........ .X.", bits.to_string()); // 11 bits.
    let mut bits = BitArray::new();
    appendLengthInfo(255, &version(27), Mode::BYTE, &mut bits).unwrap(); // 255 letter (255/1).
    assert_eq!(" ........ XXXXXXXX", bits.to_string()); // 16 bits.
    let mut bits = BitArray::new();
    appendLengthInfo(512, &version(40), Mode::KANJI, &mut bits).unwrap(); // 512 letters (1024/2).
    assert_eq!(" ..X..... ....", bits.to_string()); // 12 bits.
}

#[test]
fn testAppendBytes() {
    // Should use appendNumericBytes.
    // 1 = 01 = 0001 in 4 bits.
    let mut bits = BitArray::new();
    appendBytes("1", Mode::NUMERIC, &mut bits, DEFAULT_BYTE_MODE_ENCODING).unwrap();
    assert_eq!(" ...X", bits.to_string());
    // Should use appendAlphanumericBytes.
    // A = 10 = 0xa = 001010 in 6 bits
    let mut bits = BitArray::new();
    appendBytes("A", Mode::ALPHANUMERIC, &mut bits, DEFAULT_BYTE_MODE_ENCODING).unwrap();
    assert_eq!(" ..X.X.", bits.to_string());
    // Lower letters such as 'a' cannot be encoded in alphanumeric mode.
    assert!(appendBytes("a", Mode::ALPHANUMERIC, &mut bits, DEFAULT_BYTE_MODE_ENCODING).is_err());
    // Should use append8BitBytes.
    // 0x61, 0x62, 0x63
    let mut bits = BitArray::new();
    appendBytes("abc", Mode::BYTE, &mut bits, DEFAULT_BYTE_MODE_ENCODING).unwrap();
    assert_eq!(" .XX....X .XX...X. .XX...XX", bits.to_string());
    // Anything can be encoded in 8-bit byte mode.
    appendBytes("\0", Mode::BYTE, &mut bits, DEFAULT_BYTE_MODE_ENCODING).unwrap();
    // Should use appendKanjiBytes.
    // 0x93, 0x5f
    let mut bits = BitArray::new();
    appendBytes(&shift_jis_string(&[0x93, 0x5f]), Mode::KANJI, &mut bits, DEFAULT_BYTE_MODE_ENCODING)
        .unwrap();
    assert_eq!(" .XX.XX.. XXXXX", bits.to_string());
}

#[test]
fn testTerminateBits() {
    let mut v = BitArray::new();
    terminateBits(0, &mut v).unwrap();
    assert_eq!("", v.to_string());
    let mut v = BitArray::new();
    terminateBits(1, &mut v).unwrap();
    assert_eq!(" ........", v.to_string());
    let mut v = BitArray::new();
    v.append_bits(0, 3); // Append 000
    terminateBits(1, &mut v).unwrap();
    assert_eq!(" ........", v.to_string());
    let mut v = BitArray::new();
    v.append_bits(0, 5); // Append 00000
    terminateBits(1, &mut v).unwrap();
    assert_eq!(" ........", v.to_string());
    let mut v = BitArray::new();
    v.append_bits(0, 8); // Append 00000000
    terminateBits(1, &mut v).unwrap();
    assert_eq!(" ........", v.to_string());
    let mut v = BitArray::new();
    terminateBits(2, &mut v).unwrap();
    assert_eq!(" ........ XXX.XX..", v.to_string());
    let mut v = BitArray::new();
    v.append_bits(0, 1); // Append 0
    terminateBits(3, &mut v).unwrap();
    assert_eq!(" ........ XXX.XX.. ...X...X", v.to_string());
}

#[test]
fn testGetNumDataBytesAndNumECBytesForBlockID() {
    // Version 1-H.
    let (num_data_bytes, num_ec_bytes) = getNumDataBytesAndNumECBytesForBlockID(26, 9, 1, 0).unwrap();
    assert_eq!(9, num_data_bytes);
    assert_eq!(17, num_ec_bytes);

    // Version 3-H.  2 blocks.
    let (num_data_bytes, num_ec_bytes) = getNumDataBytesAndNumECBytesForBlockID(70, 26, 2, 0).unwrap();
    assert_eq!(13, num_data_bytes);
    assert_eq!(22, num_ec_bytes);
    let (num_data_bytes, num_ec_bytes) = getNumDataBytesAndNumECBytesForBlockID(70, 26, 2, 1).unwrap();
    assert_eq!(13, num_data_bytes);
    assert_eq!(22, num_ec_bytes);

    // Version 7-H. (4 + 1) blocks.
    let (num_data_bytes, num_ec_bytes) = getNumDataBytesAndNumECBytesForBlockID(196, 66, 5, 0).unwrap();
    assert_eq!(13, num_data_bytes);
    assert_eq!(26, num_ec_bytes);
    let (num_data_bytes, num_ec_bytes) = getNumDataBytesAndNumECBytesForBlockID(196, 66, 5, 4).unwrap();
    assert_eq!(14, num_data_bytes);
    assert_eq!(26, num_ec_bytes);

    // Version 40-H. (20 + 61) blocks.
    let (num_data_bytes, num_ec_bytes) = getNumDataBytesAndNumECBytesForBlockID(3706, 1276, 81, 0).unwrap();
    assert_eq!(15, num_data_bytes);
    assert_eq!(30, num_ec_bytes);
    let (num_data_bytes, num_ec_bytes) = getNumDataBytesAndNumECBytesForBlockID(3706, 1276, 81, 20).unwrap();
    assert_eq!(16, num_data_bytes);
    assert_eq!(30, num_ec_bytes);
    let (num_data_bytes, num_ec_bytes) = getNumDataBytesAndNumECBytesForBlockID(3706, 1276, 81, 80).unwrap();
    assert_eq!(16, num_data_bytes);
    assert_eq!(30, num_ec_bytes);
}

#[test]
fn testInterleaveWithECBytes() {
    let data_bytes: Vec<u8> = vec![32, 65, 205, 69, 41, 220, 46, 128, 236];
    let mut input = BitArray::new();
    for data_byte in &data_bytes {
        input.append_bits(*data_byte as u32, 8);
    }
    let out = interleaveWithECBytes(&input, 26, 9, 1).unwrap();
    let expected: Vec<u8> = vec![
        // Data bytes.
        32, 65, 205, 69, 41, 220, 46, 128, 236,
        // Error correction bytes.
        42, 159, 74, 221, 244, 169, 239, 150, 138, 70, 237, 85, 224, 96, 74, 219, 61,
    ];
    assert_eq!(expected.len(), out.get_size_in_bytes());
    let out_array = out.to_bytes(0, expected.len());
    for x in 0..expected.len() {
        assert_eq!(expected[x], out_array[x]);
    }
    // Numbers are from http://www.swetake.com/qr/qr8.html
    let data_bytes: Vec<u8> = vec![
        67, 70, 22, 38, 54, 70, 86, 102, 118, 134, 150, 166, 182, 198, 214, 230, 247, 7, 23, 39, 55, 71, 87,
        103, 119, 135, 151, 166, 22, 38, 54, 70, 86, 102, 118, 134, 150, 166, 182, 198, 214, 230, 247, 7, 23,
        39, 55, 71, 87, 103, 119, 135, 151, 160, 236, 17, 236, 17, 236, 17, 236, 17,
    ];
    let mut input = BitArray::new();
    for data_byte in &data_bytes {
        input.append_bits(*data_byte as u32, 8);
    }
    let out = interleaveWithECBytes(&input, 134, 62, 4).unwrap();
    let expected: Vec<u8> = vec![
        // Data bytes.
        67, 230, 54, 55, 70, 247, 70, 71, 22, 7, 86, 87, 38, 23, 102, 103, 54, 39, 118, 119, 70, 55, 134,
        135, 86, 71, 150, 151, 102, 87, 166, 160, 118, 103, 182, 236, 134, 119, 198, 17, 150, 135, 214, 236,
        166, 151, 230, 17, 182, 166, 247, 236, 198, 22, 7, 17, 214, 38, 23, 236, 39, 17,
        // Error correction bytes.
        175, 155, 245, 236, 80, 146, 56, 74, 155, 165, 133, 142, 64, 183, 132, 13, 178, 54, 132, 108, 45,
        113, 53, 50, 214, 98, 193, 152, 233, 147, 50, 71, 65, 190, 82, 51, 209, 199, 171, 54, 12, 112, 57,
        113, 155, 117, 211, 164, 117, 30, 158, 225, 31, 190, 242, 38, 140, 61, 179, 154, 214, 138, 147, 87,
        27, 96, 77, 47, 187, 49, 156, 214,
    ];
    assert_eq!(expected.len(), out.get_size_in_bytes());
    let out_array = out.to_bytes(0, expected.len());
    for x in 0..expected.len() {
        assert_eq!(expected[x], out_array[x]);
    }
}

#[test]
fn testAppendNumericBytes() {
    // 1 = 01 = 0001 in 4 bits.
    let mut bits = BitArray::new();
    appendNumericBytes("1", &mut bits).unwrap();
    assert_eq!(" ...X", bits.to_string());
    // 12 = 0xc = 0001100 in 7 bits.
    let mut bits = BitArray::new();
    appendNumericBytes("12", &mut bits).unwrap();
    assert_eq!(" ...XX..", bits.to_string());
    // 123 = 0x7b = 0001111011 in 10 bits.
    let mut bits = BitArray::new();
    appendNumericBytes("123", &mut bits).unwrap();
    assert_eq!(" ...XXXX. XX", bits.to_string());
    // 1234 = "123" + "4" = 0001111011 + 0100
    let mut bits = BitArray::new();
    appendNumericBytes("1234", &mut bits).unwrap();
    assert_eq!(" ...XXXX. XX.X..", bits.to_string());
    // Empty.
    let mut bits = BitArray::new();
    appendNumericBytes("", &mut bits).unwrap();
    assert_eq!("", bits.to_string());
}

#[test]
fn testAppendAlphanumericBytes() {
    // A = 10 = 0xa = 001010 in 6 bits
    let mut bits = BitArray::new();
    appendAlphanumericBytes("A", &mut bits).unwrap();
    assert_eq!(" ..X.X.", bits.to_string());
    // AB = 10 * 45 + 11 = 461 = 0x1cd = 00111001101 in 11 bits
    let mut bits = BitArray::new();
    appendAlphanumericBytes("AB", &mut bits).unwrap();
    assert_eq!(" ..XXX..X X.X", bits.to_string());
    // ABC = "AB" + "C" = 00111001101 + 001100
    let mut bits = BitArray::new();
    appendAlphanumericBytes("ABC", &mut bits).unwrap();
    assert_eq!(" ..XXX..X X.X..XX. .", bits.to_string());
    // Empty.
    let mut bits = BitArray::new();
    appendAlphanumericBytes("", &mut bits).unwrap();
    assert_eq!("", bits.to_string());
    // Invalid data.
    assert!(appendAlphanumericBytes("abc", &mut BitArray::new()).is_err());
}

#[test]
fn testAppend8BitBytes() {
    // 0x61, 0x62, 0x63
    let mut bits = BitArray::new();
    append8BitBytes("abc", &mut bits, DEFAULT_BYTE_MODE_ENCODING).unwrap();
    assert_eq!(" .XX....X .XX...X. .XX...XX", bits.to_string());
    // Empty.
    let mut bits = BitArray::new();
    append8BitBytes("", &mut bits, DEFAULT_BYTE_MODE_ENCODING).unwrap();
    assert_eq!("", bits.to_string());
}

// Numbers are from page 21 of JISX0510:2004
#[test]
fn testAppendKanjiBytes() {
    let mut bits = BitArray::new();
    appendKanjiBytes(&shift_jis_string(&[0x93, 0x5f]), &mut bits).unwrap();
    assert_eq!(" .XX.XX.. XXXXX", bits.to_string());
    appendKanjiBytes(&shift_jis_string(&[0xe4, 0xaa]), &mut bits).unwrap();
    assert_eq!(" .XX.XX.. XXXXXXX. X.X.X.X. X.", bits.to_string());
}

// Numbers are from http://www.swetake.com/qr/qr3.html and
// http://www.swetake.com/qr/qr9.html
#[test]
fn testGenerateECBytes() {
    let data_bytes: Vec<u8> = vec![32, 65, 205, 69, 41, 220, 46, 128, 236];
    let ec_bytes = generateECBytes(&data_bytes, 17);
    let expected: Vec<u8> = vec![42, 159, 74, 221, 244, 169, 239, 150, 138, 70, 237, 85, 224, 96, 74, 219, 61];
    assert_eq!(expected.len(), ec_bytes.len());
    for x in 0..expected.len() {
        assert_eq!(expected[x], ec_bytes[x]);
    }
    let data_bytes: Vec<u8> = vec![67, 70, 22, 38, 54, 70, 86, 102, 118, 134, 150, 166, 182, 198, 214];
    let ec_bytes = generateECBytes(&data_bytes, 18);
    let expected: Vec<u8> = vec![175, 80, 155, 64, 178, 45, 214, 233, 65, 209, 12, 155, 117, 31, 140, 214, 27, 187];
    assert_eq!(expected.len(), ec_bytes.len());
    for x in 0..expected.len() {
        assert_eq!(expected[x], ec_bytes[x]);
    }
    // High-order zero coefficient case.
    let data_bytes: Vec<u8> = vec![32, 49, 205, 69, 42, 20, 0, 236, 17];
    let ec_bytes = generateECBytes(&data_bytes, 17);
    let expected: Vec<u8> = vec![0, 3, 130, 179, 194, 0, 55, 211, 110, 79, 98, 72, 170, 96, 211, 137, 213];
    assert_eq!(expected.len(), ec_bytes.len());
    for x in 0..expected.len() {
        assert_eq!(expected[x], ec_bytes[x]);
    }
}

#[test]
fn testBugInBitVectorNumBytes() {
    // 3518 digits need 3518 / 3 * 10 + 7 = 11727 bits of data, plus 4 bits
    // of mode and 14 of length: 11745 bits, more than the 1468 data bytes
    // of version 27 at level L hold, so a larger version must be chosen.
    let mut builder = String::with_capacity(3518);
    for _ in 0..3518 {
        builder.push('0');
    }
    encode(&builder, ErrorCorrectionLevel::L).expect("encode");
}

const EXPECTED_ENCODE: &str = r"<<
 mode: ALPHANUMERIC
 ecLevel: H
 version: 1
 maskPattern: 0
 matrix:
 1 1 1 1 1 1 1 0 1 1 1 1 0 0 1 1 1 1 1 1 1
 1 0 0 0 0 0 1 0 0 1 1 1 0 0 1 0 0 0 0 0 1
 1 0 1 1 1 0 1 0 0 1 0 1 1 0 1 0 1 1 1 0 1
 1 0 1 1 1 0 1 0 1 1 1 0 1 0 1 0 1 1 1 0 1
 1 0 1 1 1 0 1 0 0 1 1 1 0 0 1 0 1 1 1 0 1
 1 0 0 0 0 0 1 0 0 1 0 0 0 0 1 0 0 0 0 0 1
 1 1 1 1 1 1 1 0 1 0 1 0 1 0 1 1 1 1 1 1 1
 0 0 0 0 0 0 0 0 0 0 1 0 1 0 0 0 0 0 0 0 0
 0 0 1 0 1 1 1 0 1 1 0 0 1 1 0 0 0 1 0 0 1
 1 0 1 1 1 0 0 1 0 0 0 1 0 1 0 0 0 0 0 0 0
 0 0 1 1 0 0 1 0 1 0 0 0 1 0 1 0 1 0 1 1 0
 1 1 0 1 0 1 0 1 1 1 0 1 0 1 0 0 0 0 0 1 0
 0 0 1 1 0 1 1 1 1 0 0 0 1 0 1 0 1 1 1 1 0
 0 0 0 0 0 0 0 0 1 0 0 1 1 1 0 1 0 1 0 0 0
 1 1 1 1 1 1 1 0 0 0 1 0 1 0 1 1 0 0 0 0 1
 1 0 0 0 0 0 1 0 1 1 1 1 0 1 0 1 1 1 1 0 1
 1 0 1 1 1 0 1 0 1 0 1 1 0 1 0 1 0 0 0 0 1
 1 0 1 1 1 0 1 0 0 1 1 0 1 1 1 1 0 1 0 1 0
 1 0 1 1 1 0 1 0 1 0 0 0 1 0 1 0 1 1 1 0 1
 1 0 0 0 0 0 1 0 0 1 1 0 1 1 0 1 0 0 0 1 1
 1 1 1 1 1 1 1 0 0 0 0 0 0 0 0 0 1 0 1 0 1
>>
";

const EXPECTED_UTF8: &str = r"<<
 mode: BYTE
 ecLevel: H
 version: 1
 maskPattern: 3
 matrix:
 1 1 1 1 1 1 1 0 0 0 0 0 0 0 1 1 1 1 1 1 1
 1 0 0 0 0 0 1 0 0 0 1 0 1 0 1 0 0 0 0 0 1
 1 0 1 1 1 0 1 0 0 1 0 1 0 0 1 0 1 1 1 0 1
 1 0 1 1 1 0 1 0 0 1 1 0 1 0 1 0 1 1 1 0 1
 1 0 1 1 1 0 1 0 1 0 1 0 1 0 1 0 1 1 1 0 1
 1 0 0 0 0 0 1 0 0 0 0 0 1 0 1 0 0 0 0 0 1
 1 1 1 1 1 1 1 0 1 0 1 0 1 0 1 1 1 1 1 1 1
 0 0 0 0 0 0 0 0 1 1 1 0 0 0 0 0 0 0 0 0 0
 0 0 1 1 0 0 1 1 1 1 0 0 0 1 1 0 1 0 0 0 0
 0 0 1 1 1 0 0 0 0 0 1 1 0 0 0 1 0 1 1 1 0
 0 1 0 1 0 1 1 1 0 1 0 1 0 0 0 0 0 1 1 1 1
 1 1 0 0 1 0 0 1 1 0 0 1 1 1 1 0 1 0 1 1 0
 0 0 0 0 1 0 1 1 1 1 0 0 0 0 0 1 0 0 1 0 0
 0 0 0 0 0 0 0 0 1 1 1 1 0 0 1 1 1 0 0 0 1
 1 1 1 1 1 1 1 0 1 1 1 0 1 0 1 1 0 0 1 0 0
 1 0 0 0 0 0 1 0 0 0 1 0 0 1 1 1 1 1 1 0 1
 1 0 1 1 1 0 1 0 0 1 0 0 0 0 1 1 0 0 0 0 0
 1 0 1 1 1 0 1 0 1 1 1 0 1 0 0 0 1 1 0 0 0
 1 0 1 1 1 0 1 0 1 1 0 0 0 1 0 0 1 0 0 0 0
 1 0 0 0 0 0 1 0 0 0 0 1 1 0 1 0 1 0 1 1 0
 1 1 1 1 1 1 1 0 0 1 0 1 1 1 0 1 1 0 0 0 0
>>
";

const EXPECTED_KANJI: &str = r"<<
 mode: KANJI
 ecLevel: M
 version: 1
 maskPattern: 4
 matrix:
 1 1 1 1 1 1 1 0 1 1 1 1 0 0 1 1 1 1 1 1 1
 1 0 0 0 0 0 1 0 0 0 0 1 1 0 1 0 0 0 0 0 1
 1 0 1 1 1 0 1 0 0 0 1 0 0 0 1 0 1 1 1 0 1
 1 0 1 1 1 0 1 0 1 0 1 0 1 0 1 0 1 1 1 0 1
 1 0 1 1 1 0 1 0 1 1 0 1 1 0 1 0 1 1 1 0 1
 1 0 0 0 0 0 1 0 1 0 1 0 1 0 1 0 0 0 0 0 1
 1 1 1 1 1 1 1 0 1 0 1 0 1 0 1 1 1 1 1 1 1
 0 0 0 0 0 0 0 0 1 0 0 0 0 0 0 0 0 0 0 0 0
 1 0 0 0 1 0 1 1 1 0 0 0 1 1 1 1 1 1 0 0 1
 0 1 1 0 0 1 0 1 1 0 1 0 1 1 1 0 0 0 1 0 1
 1 1 1 1 0 1 1 1 0 0 1 0 1 1 0 0 0 0 1 1 1
 1 0 1 0 1 1 0 0 0 0 1 1 1 0 0 1 0 0 1 1 0
 0 0 1 0 1 1 1 1 1 1 1 1 0 0 1 1 1 1 0 1 1
 0 0 0 0 0 0 0 0 1 1 1 1 1 0 0 1 0 1 0 0 0
 1 1 1 1 1 1 1 0 1 1 0 1 0 0 1 1 1 1 1 1 0
 1 0 0 0 0 0 1 0 0 0 0 0 0 1 1 0 1 0 1 0 1
 1 0 1 1 1 0 1 0 1 0 1 0 1 1 1 0 0 0 1 1 1
 1 0 1 1 1 0 1 0 0 1 0 0 1 1 1 0 0 0 1 1 1
 1 0 1 1 1 0 1 0 0 1 1 0 1 1 0 0 0 1 0 0 0
 1 0 0 0 0 0 1 0 0 0 1 1 1 0 0 1 0 1 0 0 0
 1 1 1 1 1 1 1 0 1 1 1 1 0 0 1 1 1 0 1 1 0
>>
";

const EXPECTED_SJIS_NUMERIC: &str = r"<<
 mode: NUMERIC
 ecLevel: M
 version: 1
 maskPattern: 0
 matrix:
 1 1 1 1 1 1 1 0 0 0 0 0 1 0 1 1 1 1 1 1 1
 1 0 0 0 0 0 1 0 1 1 0 1 0 0 1 0 0 0 0 0 1
 1 0 1 1 1 0 1 0 0 1 1 0 0 0 1 0 1 1 1 0 1
 1 0 1 1 1 0 1 0 0 0 1 0 0 0 1 0 1 1 1 0 1
 1 0 1 1 1 0 1 0 1 0 1 1 1 0 1 0 1 1 1 0 1
 1 0 0 0 0 0 1 0 0 1 0 1 0 0 1 0 0 0 0 0 1
 1 1 1 1 1 1 1 0 1 0 1 0 1 0 1 1 1 1 1 1 1
 0 0 0 0 0 0 0 0 0 1 1 0 0 0 0 0 0 0 0 0 0
 1 0 1 0 1 0 1 0 0 0 0 0 1 0 0 0 1 0 0 1 0
 0 0 0 0 0 0 0 1 1 0 1 1 0 1 0 1 0 1 0 1 0
 0 1 0 1 0 1 1 1 1 0 0 1 0 1 1 1 0 1 0 1 0
 0 1 1 1 0 0 0 0 0 0 1 1 1 1 0 1 1 1 0 1 0
 0 0 0 1 1 1 1 1 1 1 1 1 0 1 1 1 0 0 1 0 1
 0 0 0 0 0 0 0 0 1 1 0 0 0 0 1 0 0 0 1 1 0
 1 1 1 1 1 1 1 0 0 1 0 0 1 0 0 0 1 0 0 0 1
 1 0 0 0 0 0 1 0 0 1 0 0 0 0 1 0 0 0 1 0 0
 1 0 1 1 1 0 1 0 1 1 0 0 1 0 1 0 1 0 1 0 1
 1 0 1 1 1 0 1 0 0 1 1 1 0 1 0 1 0 1 0 1 0
 1 0 1 1 1 0 1 0 1 0 1 1 0 1 1 1 0 1 1 0 1
 1 0 0 0 0 0 1 0 0 0 1 1 1 1 0 1 1 1 0 0 0
 1 1 1 1 1 1 1 0 1 0 1 1 0 1 1 1 0 1 1 0 1
>>
";

const EXPECTED_GS1_ECI: &str = r"<<
 mode: BYTE
 ecLevel: H
 version: 1
 maskPattern: 6
 matrix:
 1 1 1 1 1 1 1 0 0 0 1 1 0 0 1 1 1 1 1 1 1
 1 0 0 0 0 0 1 0 0 1 1 0 0 0 1 0 0 0 0 0 1
 1 0 1 1 1 0 1 0 1 1 0 0 0 0 1 0 1 1 1 0 1
 1 0 1 1 1 0 1 0 1 1 0 1 0 0 1 0 1 1 1 0 1
 1 0 1 1 1 0 1 0 0 0 1 1 0 0 1 0 1 1 1 0 1
 1 0 0 0 0 0 1 0 0 1 0 0 1 0 1 0 0 0 0 0 1
 1 1 1 1 1 1 1 0 1 0 1 0 1 0 1 1 1 1 1 1 1
 0 0 0 0 0 0 0 0 0 0 1 1 1 0 0 0 0 0 0 0 0
 0 0 0 1 1 0 1 1 0 1 0 0 0 0 0 0 0 1 1 0 0
 0 1 0 1 1 0 0 1 0 1 1 1 1 1 1 0 1 1 1 0 1
 0 1 1 1 1 0 1 0 0 1 0 1 0 1 1 1 0 0 1 0 1
 1 1 1 1 1 0 0 1 0 0 0 1 1 0 0 1 0 0 1 0 0
 1 0 0 1 0 0 1 1 0 1 1 0 1 0 1 0 0 1 0 0 1
 0 0 0 0 0 0 0 0 1 1 1 1 1 1 0 0 1 0 0 0 1
 1 1 1 1 1 1 1 0 1 0 0 1 0 1 1 0 1 0 1 0 0
 1 0 0 0 0 0 1 0 0 1 0 0 0 0 1 0 1 1 1 0 0
 1 0 1 1 1 0 1 0 1 1 0 1 1 0 0 0 1 1 0 0 0
 1 0 1 1 1 0 1 0 1 0 1 1 1 1 1 0 0 0 1 1 0
 1 0 1 1 1 0 1 0 0 0 1 0 0 1 0 0 1 0 1 1 1
 1 0 0 0 0 0 1 0 0 1 0 0 0 0 0 0 0 1 1 0 0
 1 1 1 1 1 1 1 0 0 1 0 1 0 0 1 0 0 0 0 0 0
>>
";
