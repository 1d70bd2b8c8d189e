use qrencode::bit_array::BitArray;
use qrencode::byte_matrix::ByteMatrix;
use qrencode::charset::CharacterSetECI;
use qrencode::encoder::{
    appendBytes, appendLengthInfo, appendNumericBytes, chooseMaskPattern, chooseMode, chooseVersion,
    encode, encode_with_hints, getNumDataBytesAndNumECBytesForBlockID, interleaveWithECBytes,
    terminateBits, DEFAULT_BYTE_MODE_ENCODING,
};
use qrencode::error::EncodeError;
use qrencode::gf256::multiply;
use qrencode::hints::{parseBoolean, parse_int_text, EncodeHints};
use qrencode::known_symbols::{verifyGS1EncodedData, verifyNotGS1EncodedData};
use qrencode::mask_util::{
    applyMaskPenaltyRule1, applyMaskPenaltyRule2, applyMaskPenaltyRule3, applyMaskPenaltyRule4,
    calculateMaskPenalty,
};
use qrencode::matrix_util::{buildMatrix, calculateBCHCode, type_info_bits, version_info_bits};
use qrencode::minimal_encoder::encode as minimal_encode;
use qrencode::qr_code::{decimal_string, QRCode};
use qrencode::version::{ErrorCorrectionLevel, Mode, Version};

fn version(n: u32) -> Version {
    Version::getVersionForNumber(n).unwrap()
}

fn row(cells: &[i8]) -> ByteMatrix {
    ByteMatrix::from_cells(cells.len(), 1, cells.to_vec())
}

fn column(cells: &[i8]) -> ByteMatrix {
    ByteMatrix::from_cells(1, cells.len(), cells.to_vec())
}

#[test]
fn parse_int_reads_signed_decimal_text() {
    assert_eq!(Some(7), parse_int_text("7"));
    assert_eq!(Some(7), parse_int_text("+7"));
    assert_eq!(Some(-3), parse_int_text("-3"));
    assert_eq!(Some(40), parse_int_text("040"));
    assert_eq!(Some(2147483647), parse_int_text("2147483647"));
    assert_eq!(Some(-2147483648), parse_int_text("-2147483648"));
    assert_eq!(None, parse_int_text("2147483648"));
    assert_eq!(None, parse_int_text("99999999999999999999"));
    assert_eq!(None, parse_int_text(""));
    assert_eq!(None, parse_int_text("-"));
    assert_eq!(None, parse_int_text("12a"));
    assert_eq!(None, parse_int_text(" 1"));
}

#[test]
fn parse_boolean_is_true_only_for_true_in_any_case() {
    assert!(parseBoolean("true"));
    assert!(parseBoolean("TRUE"));
    assert!(parseBoolean("TrUe"));
    assert!(!parseBoolean("false"));
    assert!(!parseBoolean("yes"));
    assert!(!parseBoolean("true "));
    assert!(!parseBoolean(""));
}

#[test]
fn decimal_text_reads_back() {
    for n in [0u32, 7, 10, 40, 12345, 2147483647] {
        let text = decimal_string(n);
        assert_eq!(n.to_string(), text);
        assert_eq!(Some(n as i32), parse_int_text(&text));
    }
}

#[test]
fn version_hint_is_kept() {
    for n in [1u32, 5, 7, 40] {
        let mut hints = EncodeHints::new();
        hints.set_qr_version(&n.to_string());
        let qr_code = encode_with_hints("ABCDEF", ErrorCorrectionLevel::H, &hints).unwrap();
        assert_eq!(n, qr_code.getVersion().get_version_number());
        assert!(qr_code.to_string().contains(&format!(" version: {}\n", n)));
        assert_eq!((17 + 4 * n) as usize, qr_code.getMatrix().getWidth());
    }
}

#[test]
fn version_hint_errors() {
    let mut hints = EncodeHints::new();
    hints.set_qr_version("41");
    assert_eq!(Some(EncodeError::InvalidVersion), encode_with_hints("A", ErrorCorrectionLevel::L, &hints).err());
    hints.set_qr_version("0");
    assert_eq!(Some(EncodeError::InvalidVersion), encode_with_hints("A", ErrorCorrectionLevel::L, &hints).err());
    hints.set_qr_version("seven");
    assert_eq!(Some(EncodeError::InvalidHint), encode_with_hints("A", ErrorCorrectionLevel::L, &hints).err());
    hints.set_qr_version("1");
    let long = "1".repeat(100);
    assert_eq!(Some(EncodeError::DataTooBig), encode_with_hints(&long, ErrorCorrectionLevel::H, &hints).err());
}

#[test]
fn mask_hint_is_kept() {
    for m in 0..8u32 {
        let mut hints = EncodeHints::new();
        hints.set_qr_mask_pattern(&m.to_string());
        let qr_code = encode_with_hints("ABCDEF", ErrorCorrectionLevel::H, &hints).unwrap();
        assert_eq!(m, qr_code.getMaskPattern());
    }
}

#[test]
fn mask_hint_out_of_range_leaves_the_choice() {
    let auto = encode("ABCDEF", ErrorCorrectionLevel::H).unwrap();
    for text in ["8", "-1", "100"] {
        let mut hints = EncodeHints::new();
        hints.set_qr_mask_pattern(text);
        let qr_code = encode_with_hints("ABCDEF", ErrorCorrectionLevel::H, &hints).unwrap();
        assert_eq!(auto.to_string(), qr_code.to_string());
    }
    let mut hints = EncodeHints::new();
    hints.set_qr_mask_pattern("x");
    assert_eq!(Some(EncodeError::InvalidHint), encode_with_hints("ABCDEF", ErrorCorrectionLevel::H, &hints).err());
}

#[test]
fn chosen_mask_has_least_penalty() {
    for (content, level) in [("ABCDEF", ErrorCorrectionLevel::H), ("hello world", ErrorCorrectionLevel::L), ("0123456789", ErrorCorrectionLevel::Q)] {
        let auto = encode(content, level).unwrap();
        let best = calculateMaskPenalty(auto.getMatrix());
        for m in 0..8u32 {
            let mut hints = EncodeHints::new();
            hints.set_qr_mask_pattern(&m.to_string());
            let other = encode_with_hints(content, level, &hints).unwrap();
            let penalty = calculateMaskPenalty(other.getMatrix());
            assert!(best <= penalty);
            if m < auto.getMaskPattern() {
                assert!(best < penalty);
            }
        }
    }
}

#[test]
fn choose_mask_pattern_and_build_matrix_agree() {
    let mut bits = BitArray::new();
    for b in [32u32, 65, 205, 69, 41, 220, 46, 128, 236] {
        bits.append_bits(b, 8);
    }
    let final_bits = interleaveWithECBytes(&bits, 26, 9, 1).unwrap();
    let v = version(1);
    let mask = chooseMaskPattern(&final_bits, ErrorCorrectionLevel::H, &v).unwrap();
    assert!(mask < 8);
    let chosen = calculateMaskPenalty(&buildMatrix(&final_bits, ErrorCorrectionLevel::H, &v, mask).unwrap());
    for m in 0..8 {
        let p = calculateMaskPenalty(&buildMatrix(&final_bits, ErrorCorrectionLevel::H, &v, m).unwrap());
        assert!(chosen <= p);
    }
}

#[test]
fn chosen_mode_holds_the_text() {
    assert_eq!(Mode::NUMERIC, chooseMode("123"));
    let mut bits = BitArray::new();
    assert!(appendBytes("123", Mode::NUMERIC, &mut bits, DEFAULT_BYTE_MODE_ENCODING).is_ok());
    assert_eq!(Mode::ALPHANUMERIC, chooseMode("AB1"));
    let mut bits = BitArray::new();
    assert!(appendBytes("AB1", Mode::ALPHANUMERIC, &mut bits, DEFAULT_BYTE_MODE_ENCODING).is_ok());
    assert_eq!(Mode::BYTE, chooseMode("ab1"));
}

#[test]
fn smallest_version_is_chosen() {
    // Version 1 at level H holds 9 data bytes, version 2 holds 16.
    assert_eq!(1, chooseVersion(72, ErrorCorrectionLevel::H).unwrap().get_version_number());
    assert_eq!(2, chooseVersion(73, ErrorCorrectionLevel::H).unwrap().get_version_number());
    assert_eq!(2, chooseVersion(128, ErrorCorrectionLevel::H).unwrap().get_version_number());
    assert_eq!(3, chooseVersion(129, ErrorCorrectionLevel::H).unwrap().get_version_number());
    // Version 40 at level L holds 2956 data bytes.
    assert_eq!(40, chooseVersion(8 * 2956, ErrorCorrectionLevel::L).unwrap().get_version_number());
    assert_eq!(Some(EncodeError::DataTooBig), chooseVersion(8 * 2956 + 1, ErrorCorrectionLevel::L).err());
}

#[test]
fn terminate_keeps_the_data_and_fills_the_capacity() {
    let mut bits = BitArray::new();
    bits.append_bits(0b1011, 4);
    terminateBits(3, &mut bits).unwrap();
    assert_eq!(24, bits.get_size());
    assert_eq!(" X.XX.... XXX.XX.. ...X...X", bits.to_string());
    let mut bits = BitArray::new();
    bits.append_bits(0x1FF, 9);
    assert_eq!(Some(EncodeError::DataTooBig), terminateBits(1, &mut bits).err());
    assert_eq!(9, bits.get_size());
}

#[test]
fn too_much_data_is_refused() {
    let digits = "1".repeat(7089);
    let qr_code = encode(&digits, ErrorCorrectionLevel::L).unwrap();
    assert_eq!(40, qr_code.getVersion().get_version_number());
    let digits = "1".repeat(7090);
    assert_eq!(Some(EncodeError::DataTooBig), encode(&digits, ErrorCorrectionLevel::L).err());
}

#[test]
fn each_error_has_an_input() {
    assert_eq!(Some(EncodeError::InvalidVersion), Version::getVersionForNumber(0).err());
    assert_eq!(Some(EncodeError::InvalidCharacter), appendNumericBytes("12a", &mut BitArray::new()).err());
    let mut hints = EncodeHints::new();
    hints.set_character_set("ISO-8859-1");
    assert_eq!(
        Some(EncodeError::UnencodableText),
        encode_with_hints("\u{65e5}\u{672c}", ErrorCorrectionLevel::L, &hints).err()
    );
    let mut hints = EncodeHints::new();
    hints.set_character_set("NO-SUCH-SET");
    assert_eq!(
        Some(EncodeError::UnsupportedCharacterSet),
        encode_with_hints("abc", ErrorCorrectionLevel::L, &hints).err()
    );
    assert_eq!(Some(EncodeError::UnsupportedCharacterSet), CharacterSetECI::Cp437.encode("a").err());
    assert_eq!(
        Some(EncodeError::LengthTooLarge),
        appendLengthInfo(256, &version(1), Mode::BYTE, &mut BitArray::new()).err()
    );
    assert_eq!(
        Some(EncodeError::InvalidMode),
        appendBytes("1", Mode::ECI, &mut BitArray::new(), DEFAULT_BYTE_MODE_ENCODING).err()
    );
    assert_eq!(Some(EncodeError::InvalidBlockId), getNumDataBytesAndNumECBytesForBlockID(26, 9, 1, 1).err());
    let mut short = BitArray::new();
    short.append_bits(0, 8);
    assert_eq!(Some(EncodeError::BlockSizeMismatch), interleaveWithECBytes(&short, 26, 9, 1).err());
    assert_eq!(
        Some(EncodeError::InvalidMaskPattern),
        buildMatrix(&BitArray::new(), ErrorCorrectionLevel::L, &version(1), 8).err()
    );
}

#[test]
fn character_sets_encode_through_the_encoding_crate() {
    assert_eq!(vec![0xC3u8, 0xA9], CharacterSetECI::UTF8.encode("\u{e9}").unwrap());
    assert_eq!(vec![0xE9u8], CharacterSetECI::ISO8859_1.encode("\u{e9}").unwrap());
    assert_eq!(Some(EncodeError::UnencodableText), CharacterSetECI::ASCII.encode("\u{e9}").err());
    assert_eq!(vec![0x93u8, 0xFA], CharacterSetECI::SJIS.encode("\u{65e5}").unwrap());
    assert_eq!(vec![0x00u8, 0x41], CharacterSetECI::UnicodeBigUnmarked.encode("A").unwrap());
    assert_eq!(Some(CharacterSetECI::SJIS), CharacterSetECI::getCharacterSetECIByName("Shift_JIS"));
    assert_eq!(26, CharacterSetECI::UTF8.getValue());
}

#[test]
fn gs1_text_hint_in_any_case() {
    for text in ["TRUE", "True"] {
        let mut hints = EncodeHints::new();
        hints.set_gs1_format_text(text);
        let qr_code = encode_with_hints("100001%11171218", ErrorCorrectionLevel::H, &hints).unwrap();
        assert!(verifyGS1EncodedData(&qr_code));
        assert!(!verifyNotGS1EncodedData(&qr_code));
    }
    let plain = encode("ABCDEF", ErrorCorrectionLevel::H).unwrap();
    assert!(verifyNotGS1EncodedData(&plain));
    assert!(!verifyGS1EncodedData(&plain));
}

#[test]
fn symbol_parts_and_text() {
    let qr_code = encode("ABCDEF", ErrorCorrectionLevel::H).unwrap();
    assert_eq!(Mode::ALPHANUMERIC, qr_code.getMode());
    assert_eq!(ErrorCorrectionLevel::H, qr_code.getECLevel());
    assert_eq!(1, qr_code.getVersion().get_version_number());
    assert_eq!(0, qr_code.getMaskPattern());
    assert_eq!(21, qr_code.getMatrix().getHeight());
    assert!(QRCode::isValidMaskPattern(7));
    assert!(!QRCode::isValidMaskPattern(8));
    assert!(!QRCode::isValidMaskPattern(-1));
}

#[test]
fn galois_field_multiplication() {
    assert_eq!(0, multiply(0, 123));
    assert_eq!(123, multiply(1, 123));
    assert_eq!(4, multiply(2, 2));
    // x^8 reduces by x^8 + x^4 + x^3 + x^2 + 1.
    assert_eq!(0x1D, multiply(2, 0x80));
    assert_eq!(multiply(3, 7), multiply(7, 3));
}

#[test]
fn bch_codes_and_format_bits() {
    assert_eq!(0xdc, calculateBCHCode(5, 0x537, 10));
    assert_eq!(0x1c2, calculateBCHCode(0x13, 0x537, 10));
    assert_eq!(0x214, calculateBCHCode(0x1b, 0x537, 10));
    assert_eq!(0xc94, calculateBCHCode(7, 0x1f25, 12));
    assert_eq!(0x5bc, calculateBCHCode(8, 0x1f25, 12));
    assert_eq!(0x40CE, type_info_bits(ErrorCorrectionLevel::M, 5));
    assert_eq!(0x07C94, version_info_bits(7));
}

#[test]
fn mask_penalty_rules() {
    assert_eq!(0, applyMaskPenaltyRule1(&row(&[0, 0, 0, 0])));
    assert_eq!(3, applyMaskPenaltyRule1(&row(&[0, 0, 0, 0, 0, 1])));
    assert_eq!(4, applyMaskPenaltyRule1(&row(&[0, 0, 0, 0, 0, 0])));
    assert_eq!(5, applyMaskPenaltyRule1(&row(&[0, 0, 0, 0, 0, 0, 0])));
    assert_eq!(3, applyMaskPenaltyRule1(&column(&[0, 0, 0, 0, 0, 1])));
    assert_eq!(4, applyMaskPenaltyRule1(&column(&[0, 0, 0, 0, 0, 0])));

    assert_eq!(0, applyMaskPenaltyRule2(&ByteMatrix::from_cells(1, 1, vec![0])));
    assert_eq!(3, applyMaskPenaltyRule2(&ByteMatrix::from_cells(2, 2, vec![0, 0, 0, 0])));
    assert_eq!(0, applyMaskPenaltyRule2(&ByteMatrix::from_cells(2, 2, vec![0, 0, 0, 1])));
    assert_eq!(12, applyMaskPenaltyRule2(&ByteMatrix::from_cells(3, 3, vec![1; 9])));

    assert_eq!(40, applyMaskPenaltyRule3(&row(&[0, 0, 0, 0, 1, 0, 1, 1, 1, 0, 1])));
    assert_eq!(40, applyMaskPenaltyRule3(&row(&[1, 0, 1, 1, 1, 0, 1, 0, 0, 0, 0])));
    assert_eq!(0, applyMaskPenaltyRule3(&row(&[1, 0, 1, 1, 1, 0, 1])));
    assert_eq!(40, applyMaskPenaltyRule3(&column(&[0, 0, 0, 0, 1, 0, 1, 1, 1, 0, 1])));

    assert_eq!(100, applyMaskPenaltyRule4(&row(&[0])));
    assert_eq!(0, applyMaskPenaltyRule4(&row(&[0, 1])));
    assert_eq!(30, applyMaskPenaltyRule4(&row(&[0, 1, 1, 1, 1, 0])));
}

#[test]
fn matrix_text_form() {
    let mut m = ByteMatrix::new(2, 2);
    m.set(1, 0, 1);
    m.set(0, 1, -1);
    assert_eq!(" 0 1\n   0\n", m.to_string());
    assert_eq!(1, m.get(1, 0));
}

#[test]
fn minimal_encoder_errors_and_versions() {
    assert_eq!(Some(EncodeError::UnencodableText), minimal_encode("", None, None, false, ErrorCorrectionLevel::L).err());
    let long = "1".repeat(7090);
    assert_eq!(Some(EncodeError::DataTooBig), minimal_encode(&long, None, None, false, ErrorCorrectionLevel::L).err());
    // 21 digits need 4 + 10 + 70 = 84 bits: version 1 at level L holds 152.
    let result = minimal_encode("123456789012345678901", None, None, false, ErrorCorrectionLevel::L).unwrap();
    assert_eq!("NUMERIC(123456789012345678901)", result.to_string());
    assert_eq!(1, result.getVersion().get_version_number());
    assert_eq!(Some(84), result.getSize());
    // With a version of the middle size class given, the version stays in that class.
    let result = minimal_encode("ABC", Some(version(12)), None, false, ErrorCorrectionLevel::L).unwrap();
    assert_eq!(10, result.getVersion().get_version_number());
    assert_eq!("ALPHANUMERIC(ABC)", result.to_string());
}

#[test]
fn minimal_encoder_preferred_set_and_gs1() {
    // A preferred Unicode set brings UTF-8 among the sets, and it is used where it holds the character.
    let result = minimal_encode("\u{e9}", None, Some(CharacterSetECI::UTF8), false, ErrorCorrectionLevel::L).unwrap();
    assert_eq!("ECI(UTF-8),BYTE(.)", result.to_string());
    // GS1 data with an ECI: the FNC1 indicator follows the leading ECI segment.
    let result = minimal_encode("\u{0150}", None, None, true, ErrorCorrectionLevel::L).unwrap();
    assert_eq!("ECI(ISO-8859-2),FNC1_FIRST_POSITION(),BYTE(.)", result.to_string());
    // GS1 data whose ECI comes later gets a leading ECI for ISO-8859-1.
    let result = minimal_encode("1234567890\u{0150}", None, None, true, ErrorCorrectionLevel::L).unwrap();
    assert_eq!(
        "ECI(ISO-8859-1),FNC1_FIRST_POSITION(),NUMERIC(1234567890),ECI(ISO-8859-2),BYTE(.)",
        result.to_string()
    );
}

#[test]
fn bit_array_xor_and_bytes() {
    let mut a = BitArray::new();
    a.append_bits(0b1100_1010, 8);
    a.append_bits(0b101, 3);
    let mut b = BitArray::new();
    b.append_bits(0b1010_0110, 8);
    b.append_bits(0b011, 3);
    a.xor(&b);
    assert_eq!(11, a.get_size());
    assert_eq!(2, a.get_size_in_bytes());
    assert_eq!(vec![0b0110_1100u8], a.to_bytes(0, 1));
    assert!(a.get(8));
    assert!(a.get(9));
    assert!(!a.get(10));
    assert_eq!(vec![0b0110_0110u8], a.to_bytes(3, 1));
}

#[test]
fn byte_matrix_counts_its_modules() {
    let mut m = ByteMatrix::new(3, 2);
    assert_eq!(6, m.cell_count());
    assert_eq!(3, m.getWidth());
    assert_eq!(2, m.getHeight());
    m.set(2, 1, 1);
    assert_eq!(1, m.get(2, 1));
    assert_eq!(0, m.get(1, 1));
}

fn bits_from(fields: &[(u32, usize)]) -> BitArray {
    let mut bits = BitArray::new();
    for &(value, width) in fields {
        bits.append_bits(value, width);
    }
    bits
}

#[test]
fn result_list_bits_follow_the_nodes() {
    // NUMERIC(123): mode 0001, count 3 in ten bits, 123 in ten bits.
    let result = minimal_encode("123", None, None, false, ErrorCorrectionLevel::L).unwrap();
    let mut bits = BitArray::new();
    assert!(result.getBits(&mut bits).is_ok());
    assert_eq!(bits_from(&[(1, 4), (3, 10), (123, 10)]).to_string(), bits.to_string());
    assert_eq!(Some(bits.get_size() as u64), result.getSize());
    // ECI(UTF-8),BYTE: mode 0111 and 26, then mode 0100, two bytes, C3 A9.
    let result = minimal_encode("\u{e9}", None, Some(CharacterSetECI::UTF8), false, ErrorCorrectionLevel::L).unwrap();
    let mut bits = BitArray::new();
    assert!(result.getBits(&mut bits).is_ok());
    assert_eq!(bits_from(&[(7, 4), (26, 8), (4, 4), (2, 8), (0xC3, 8), (0xA9, 8)]).to_string(), bits.to_string());
    assert_eq!(Some(bits.get_size() as u64), result.getSize());
    // ECI(ISO-8859-2),FNC1,BYTE: 0111 and 4, FNC1 0101, then one byte, D5.
    let result = minimal_encode("\u{0150}", None, None, true, ErrorCorrectionLevel::L).unwrap();
    let mut bits = bits_from(&[(1, 1)]);
    assert!(result.getBits(&mut bits).is_ok());
    assert_eq!(bits_from(&[(1, 1), (7, 4), (4, 8), (5, 4), (4, 4), (1, 8), (0xD5, 8)]).to_string(), bits.to_string());
}

#[test]
fn compaction_uses_the_shortest_segments() {
    let text = "Hello 1234567890123456789012345678901234567890";
    let level = ErrorCorrectionLevel::M;
    // One byte segment needs 380 bits: version 4. Byte and numeric segments need 208: version 2.
    let plain = encode(text, level).unwrap();
    assert_eq!(4, plain.getVersion().get_version_number());
    let mut hints = EncodeHints::new();
    hints.set_qr_compact_text("TRUE");
    assert!(hints.qr_compact);
    let q = encode_with_hints(text, level, &hints).unwrap();
    assert_eq!(Mode::BYTE, q.getMode());
    assert_eq!(2, q.getVersion().get_version_number());
    // The symbol is the one for the search's result, through the same steps.
    let res = minimal_encode(text, None, None, false, level).unwrap();
    assert_eq!(Some(208), res.getSize());
    let v = *res.getVersion();
    let mut bits = BitArray::new();
    res.getBits(&mut bits).unwrap();
    assert_eq!(208, bits.get_size());
    let ec = v.getECBlocksForLevel(level);
    let total = v.getTotalCodewords();
    let num_data = total - ec.getTotalECCodewords();
    terminateBits(num_data, &mut bits).unwrap();
    let fin = interleaveWithECBytes(&bits, total, num_data, ec.getNumBlocks()).unwrap();
    let mask = chooseMaskPattern(&fin, level, &v).unwrap();
    assert_eq!(mask, q.getMaskPattern());
    let matrix = buildMatrix(&fin, level, &v, mask).unwrap();
    assert_eq!(matrix.to_string(), q.getMatrix().to_string());
}

#[test]
fn compaction_hints_and_errors() {
    let mut hints = EncodeHints::new();
    hints.set_qr_compact(true);
    assert_eq!(Some(EncodeError::UnencodableText), encode_with_hints("", ErrorCorrectionLevel::L, &hints).err());
    // The version hint does not apply with compaction.
    hints.set_qr_version("10");
    let q = encode_with_hints("ABC", ErrorCorrectionLevel::L, &hints).unwrap();
    assert_eq!(1, q.getVersion().get_version_number());
    // The mask pattern hint does.
    hints.set_qr_mask_pattern("3");
    let q = encode_with_hints("ABC", ErrorCorrectionLevel::L, &hints).unwrap();
    assert_eq!(3, q.getMaskPattern());
    // A named set is preferred for the bytes.
    let mut hints = EncodeHints::new();
    hints.set_qr_compact(true);
    hints.set_character_set("UTF-8");
    assert!(encode_with_hints("\u{e9}", ErrorCorrectionLevel::L, &hints).is_ok());
    hints.set_character_set("no such set");
    assert_eq!(
        Some(EncodeError::UnsupportedCharacterSet),
        encode_with_hints("ABC", ErrorCorrectionLevel::L, &hints).err()
    );
    hints.set_qr_compact_text("no");
    assert!(!hints.qr_compact);
}

#[test]
fn shift_jis_bytes_decode_through_the_encoding_crate() {
    assert_eq!(Some("\u{70b9}".to_string()), qrencode::charset::shiftJISString(&[0x93, 0x5f]));
    assert_eq!(Some("AB".to_string()), qrencode::charset::shiftJISString(&[0x41, 0x42]));
    assert_eq!(None, qrencode::charset::shiftJISString(&[0x81]));
}
