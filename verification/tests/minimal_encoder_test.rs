use qrencode::minimal_encoder::encode;
use qrencode::version::ErrorCorrectionLevel;

fn verify_minimal_encoding(input: &str, expected: &str, is_gs1: bool) {
    let result = encode(input, None, None, is_gs1, ErrorCorrectionLevel::L).expect("encode");
    assert_eq!(expected, result.to_string());
}

#[test]
fn testMinimalEncoder1() {
    verify_minimal_encoding("A", "ALPHANUMERIC(A)", false);
}

#[test]
fn testMinimalEncoder2() {
    verify_minimal_encoding("AB", "ALPHANUMERIC(AB)", false);
}

#[test]
fn testMinimalEncoder3() {
    verify_minimal_encoding("ABC", "ALPHANUMERIC(ABC)", false);
}

#[test]
fn testMinimalEncoder4() {
    verify_minimal_encoding("ABCD", "ALPHANUMERIC(ABCD)", false);
}

#[test]
fn testMinimalEncoder5() {
    verify_minimal_encoding("ABCDE", "ALPHANUMERIC(ABCDE)", false);
}

#[test]
fn testMinimalEncoder6() {
    verify_minimal_encoding("ABCDEF", "ALPHANUMERIC(ABCDEF)", false);
}

#[test]
fn testMinimalEncoder7() {
    verify_minimal_encoding("ABCDEFG", "ALPHANUMERIC(ABCDEFG)", false);
}

#[test]
fn testMinimalEncoder8() {
    verify_minimal_encoding("1", "NUMERIC(1)", false);
}

#[test]
fn testMinimalEncoder9() {
    verify_minimal_encoding("12", "NUMERIC(12)", false);
}

#[test]
fn testMinimalEncoder10() {
    verify_minimal_encoding("123", "NUMERIC(123)", false);
}

#[test]
fn testMinimalEncoder11() {
    verify_minimal_encoding("1234", "NUMERIC(1234)", false);
}

#[test]
fn testMinimalEncoder12() {
    verify_minimal_encoding("12345", "NUMERIC(12345)", false);
}

#[test]
fn testMinimalEncoder13() {
    verify_minimal_encoding("123456", "NUMERIC(123456)", false);
}

#[test]
fn testMinimalEncoder14() {
    verify_minimal_encoding("123A", "ALPHANUMERIC(123A)", false);
}

#[test]
fn testMinimalEncoder15() {
    verify_minimal_encoding("A1", "ALPHANUMERIC(A1)", false);
}

#[test]
fn testMinimalEncoder16() {
    verify_minimal_encoding("A12", "ALPHANUMERIC(A12)", false);
}

#[test]
fn testMinimalEncoder17() {
    verify_minimal_encoding("A123", "ALPHANUMERIC(A123)", false);
}

#[test]
fn testMinimalEncoder18() {
    verify_minimal_encoding("A1234", "ALPHANUMERIC(A1234)", false);
}

#[test]
fn testMinimalEncoder19() {
    verify_minimal_encoding("A12345", "ALPHANUMERIC(A12345)", false);
}

#[test]
fn testMinimalEncoder20() {
    verify_minimal_encoding("A123456", "ALPHANUMERIC(A123456)", false);
}

#[test]
fn testMinimalEncoder21() {
    verify_minimal_encoding("A1234567", "ALPHANUMERIC(A1234567)", false);
}

#[test]
fn testMinimalEncoder22() {
    verify_minimal_encoding("A12345678", "BYTE(A),NUMERIC(12345678)", false);
}

#[test]
fn testMinimalEncoder23() {
    verify_minimal_encoding("A123456789", "BYTE(A),NUMERIC(123456789)", false);
}

#[test]
fn testMinimalEncoder24() {
    verify_minimal_encoding("A1234567890", "ALPHANUMERIC(A1),NUMERIC(234567890)", false);
}

#[test]
fn testMinimalEncoder25() {
    verify_minimal_encoding("AB1", "ALPHANUMERIC(AB1)", false);
}

#[test]
fn testMinimalEncoder26() {
    verify_minimal_encoding("AB12", "ALPHANUMERIC(AB12)", false);
}

#[test]
fn testMinimalEncoder27() {
    verify_minimal_encoding("AB123", "ALPHANUMERIC(AB123)", false);
}

#[test]
fn testMinimalEncoder28() {
    verify_minimal_encoding("AB1234", "ALPHANUMERIC(AB1234)", false);
}

#[test]
fn testMinimalEncoder29() {
    verify_minimal_encoding("ABC1", "ALPHANUMERIC(ABC1)", false);
}

#[test]
fn testMinimalEncoder30() {
    verify_minimal_encoding("ABC12", "ALPHANUMERIC(ABC12)", false);
}

#[test]
fn testMinimalEncoder31() {
    verify_minimal_encoding("ABC1234", "ALPHANUMERIC(ABC1234)", false);
}

#[test]
fn testMinimalEncoder32() {
    verify_minimal_encoding("http://foo.com", "BYTE(http://foo.com)", false);
}

#[test]
fn testMinimalEncoder33() {
    verify_minimal_encoding("HTTP://FOO.COM", "ALPHANUMERIC(HTTP://FOO.COM)", false);
}

#[test]
fn testMinimalEncoder34() {
    verify_minimal_encoding("1001114670010%01201220%107211220%140045003267781", "NUMERIC(1001114670010),ALPHANUMERIC(%01201220%107211220%),NUMERIC(140045003267781)", false);
}

#[test]
fn testMinimalEncoder35() {
    verify_minimal_encoding("\u{0150}", "ECI(ISO-8859-2),BYTE(.)", false);
}

#[test]
fn testMinimalEncoder36() {
    verify_minimal_encoding("\u{015C}", "ECI(ISO-8859-3),BYTE(.)", false);
}

#[test]
fn testMinimalEncoder37() {
    verify_minimal_encoding("\u{0150}\u{015C}", "ECI(UTF-8),BYTE(..)", false);
}

#[test]
fn testMinimalEncoder38() {
    verify_minimal_encoding("\u{0150}\u{0150}\u{015C}\u{015C}", "ECI(ISO-8859-2),BYTE(..),ECI(ISO-8859-3),BYTE(..)", false);
}

#[test]
fn testMinimalEncoder39() {
    verify_minimal_encoding("abcdef\u{0150}ghij", "ECI(ISO-8859-2),BYTE(abcdef.ghij)", false);
}

#[test]
fn testMinimalEncoder40() {
    verify_minimal_encoding("2938928329832983\u{0150}2938928329832983\u{015C}2938928329832983", "NUMERIC(2938928329832983),ECI(ISO-8859-2),BYTE(.),NUMERIC(2938928329832983),ECI(ISO-8859-3),BYTE(.),NUMERIC(2938928329832983)", false);
}

#[test]
fn testMinimalEncoder41() {
    verify_minimal_encoding("1001114670010%01201220%107211220%140045003267781", "FNC1_FIRST_POSITION(),NUMERIC(1001114670010),ALPHANUMERIC(%01201220%107211220%),NUMERIC(140045003267781)", true);
}

#[test]
fn testMinimalEncoder42() {
    // test halfwidth Katakana character (they are single byte encoded in Shift_JIS)
    verify_minimal_encoding("Katakana:\u{FF66}\u{FF66}\u{FF66}\u{FF66}\u{FF66}\u{FF66}", "ECI(Shift_JIS),BYTE(Katakana:......)", false);
}

#[test]
fn testMinimalEncoder43() {
    // The character \u30A2 encodes as double byte in Shift_JIS so KANJI is more compact in this case
    verify_minimal_encoding("Katakana:\u{30A2}\u{30A2}\u{30A2}\u{30A2}\u{30A2}\u{30A2}", "BYTE(Katakana:),KANJI(......)", false);
}

#[test]
fn testMinimalEncoder44() {
    // The character \u30A2 encodes as double byte in Shift_JIS but KANJI is not more compact in this case because
    // KANJI is only more compact when it encodes pairs of characters. In the case of mixed text it can however be
    // that Shift_JIS encoding is more compact as in this example
    verify_minimal_encoding("Katakana:\u{30A2}a\u{30A2}a\u{30A2}a\u{30A2}a\u{30A2}a\u{30A2}", "ECI(Shift_JIS),BYTE(Katakana:.a.a.a.a.a.)", false);
}
