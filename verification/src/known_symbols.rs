//! Two symbols of known form: the GS1 formatted data "100001%11171218"
//! and the plain data "ABCDEF", both at level H, with functions that tell
//! whether a symbol is one of them.
use vstd::prelude::*;
use crate::charset::str_equals;
use crate::qr_code::{QRCode, qr_code_text};

verus! {

/// The text form of the symbol for the GS1 formatted data
/// "100001%11171218" at level H: alphanumeric mode behind an FNC1
/// indicator, version 2, mask pattern 2.
pub open spec fn gs1_symbol_text() -> Seq<char> {
    "<<\n mode: ALPHANUMERIC\n ecLevel: H\n version: 2\n maskPattern: 2\n matrix:\n 1 1 1 1 1 1 1 0 1 0 1 1 1 1 0 1 1 0 1 1 1 1 1 1 1\n 1 0 0 0 0 0 1 0 1 0 0 0 0 1 1 0 1 0 1 0 0 0 0 0 1\n 1 0 1 1 1 0 1 0 1 0 1 1 0 1 1 0 0 0 1 0 1 1 1 0 1\n 1 0 1 1 1 0 1 0 0 1 1 0 1 0 1 1 1 0 1 0 1 1 1 0 1\n 1 0 1 1 1 0 1 0 0 1 1 1 1 1 1 1 1 0 1 0 1 1 1 0 1\n 1 0 0 0 0 0 1 0 1 0 0 1 1 1 0 0 0 0 1 0 0 0 0 0 1\n 1 1 1 1 1 1 1 0 1 0 1 0 1 0 1 0 1 0 1 1 1 1 1 1 1\n 0 0 0 0 0 0 0 0 1 1 1 0 0 0 1 1 1 0 0 0 0 0 0 0 0\n 0 0 1 1 1 0 1 0 1 1 1 1 0 1 1 0 1 1 1 1 0 0 1 1 1\n 0 0 0 1 1 1 0 1 0 0 1 0 0 1 0 0 1 1 1 0 0 1 0 0 1\n 1 0 1 1 0 0 1 0 1 1 0 0 0 0 1 0 1 1 1 0 0 1 0 0 1\n 0 0 1 1 0 1 0 1 1 1 1 0 0 1 1 1 1 0 0 0 1 1 0 1 1\n 0 0 1 0 0 0 1 0 0 0 1 1 0 1 0 0 0 1 0 1 1 1 0 1 0\n 1 1 1 0 1 1 0 1 0 0 0 0 0 0 0 1 1 0 1 1 0 1 0 0 0\n 1 0 1 0 1 0 1 1 0 1 0 1 0 1 1 0 0 0 0 0 1 1 0 0 1\n 1 0 0 1 0 1 0 1 0 0 0 1 1 1 1 0 1 0 1 0 0 1 0 0 1\n 1 0 1 0 0 1 1 1 0 1 1 0 0 1 0 0 1 1 1 1 1 1 0 0 0\n 0 0 0 0 0 0 0 0 1 0 0 1 0 1 1 0 1 0 0 0 1 0 0 1 0\n 1 1 1 1 1 1 1 0 0 0 0 1 0 0 1 1 1 0 1 0 1 0 1 1 1\n 1 0 0 0 0 0 1 0 0 1 1 1 1 1 0 1 1 0 0 0 1 0 0 0 1\n 1 0 1 1 1 0 1 0 1 0 1 0 0 1 1 1 1 1 1 1 1 0 0 0 1\n 1 0 1 1 1 0 1 0 1 1 0 0 0 0 0 0 0 0 1 0 1 0 0 0 0\n 1 0 1 1 1 0 1 0 1 0 0 0 1 1 0 1 0 0 1 1 1 0 1 0 1\n 1 0 0 0 0 0 1 0 0 1 0 1 0 1 1 1 0 1 0 0 1 1 1 1 1\n 1 1 1 1 1 1 1 0 0 1 1 0 0 1 1 0 1 0 0 0 0 1 0 1 1\n>>\n"@
}

/// The text form of the symbol for "ABCDEF" at level H without the GS1
/// format: alphanumeric mode, version 1, mask pattern 0.
pub open spec fn plain_symbol_text() -> Seq<char> {
    "<<\n mode: ALPHANUMERIC\n ecLevel: H\n version: 1\n maskPattern: 0\n matrix:\n 1 1 1 1 1 1 1 0 1 1 1 1 0 0 1 1 1 1 1 1 1\n 1 0 0 0 0 0 1 0 0 1 1 1 0 0 1 0 0 0 0 0 1\n 1 0 1 1 1 0 1 0 0 1 0 1 1 0 1 0 1 1 1 0 1\n 1 0 1 1 1 0 1 0 1 1 1 0 1 0 1 0 1 1 1 0 1\n 1 0 1 1 1 0 1 0 0 1 1 1 0 0 1 0 1 1 1 0 1\n 1 0 0 0 0 0 1 0 0 1 0 0 0 0 1 0 0 0 0 0 1\n 1 1 1 1 1 1 1 0 1 0 1 0 1 0 1 1 1 1 1 1 1\n 0 0 0 0 0 0 0 0 0 0 1 0 1 0 0 0 0 0 0 0 0\n 0 0 1 0 1 1 1 0 1 1 0 0 1 1 0 0 0 1 0 0 1\n 1 0 1 1 1 0 0 1 0 0 0 1 0 1 0 0 0 0 0 0 0\n 0 0 1 1 0 0 1 0 1 0 0 0 1 0 1 0 1 0 1 1 0\n 1 1 0 1 0 1 0 1 1 1 0 1 0 1 0 0 0 0 0 1 0\n 0 0 1 1 0 1 1 1 1 0 0 0 1 0 1 0 1 1 1 1 0\n 0 0 0 0 0 0 0 0 1 0 0 1 1 1 0 1 0 1 0 0 0\n 1 1 1 1 1 1 1 0 0 0 1 0 1 0 1 1 0 0 0 0 1\n 1 0 0 0 0 0 1 0 1 1 1 1 0 1 0 1 1 1 1 0 1\n 1 0 1 1 1 0 1 0 1 0 1 1 0 1 0 1 0 0 0 0 1\n 1 0 1 1 1 0 1 0 0 1 1 0 1 1 1 1 0 1 0 1 0\n 1 0 1 1 1 0 1 0 1 0 0 0 1 0 1 0 1 1 1 0 1\n 1 0 0 0 0 0 1 0 0 1 1 0 1 1 0 1 0 0 0 1 1\n 1 1 1 1 1 1 1 0 0 0 0 0 0 0 0 0 1 0 1 0 1\n>>\n"@
}

/// Whether `qr_code` is the symbol for the GS1 formatted data
/// "100001%11171218" at level H.
pub fn verifyGS1EncodedData(qr_code: &QRCode) -> (r: bool)
    ensures
        r == (qr_code_text(*qr_code) == gs1_symbol_text()),
{
    let text = qr_code.to_string();
    str_equals(text.as_str(), "<<\n mode: ALPHANUMERIC\n ecLevel: H\n version: 2\n maskPattern: 2\n matrix:\n 1 1 1 1 1 1 1 0 1 0 1 1 1 1 0 1 1 0 1 1 1 1 1 1 1\n 1 0 0 0 0 0 1 0 1 0 0 0 0 1 1 0 1 0 1 0 0 0 0 0 1\n 1 0 1 1 1 0 1 0 1 0 1 1 0 1 1 0 0 0 1 0 1 1 1 0 1\n 1 0 1 1 1 0 1 0 0 1 1 0 1 0 1 1 1 0 1 0 1 1 1 0 1\n 1 0 1 1 1 0 1 0 0 1 1 1 1 1 1 1 1 0 1 0 1 1 1 0 1\n 1 0 0 0 0 0 1 0 1 0 0 1 1 1 0 0 0 0 1 0 0 0 0 0 1\n 1 1 1 1 1 1 1 0 1 0 1 0 1 0 1 0 1 0 1 1 1 1 1 1 1\n 0 0 0 0 0 0 0 0 1 1 1 0 0 0 1 1 1 0 0 0 0 0 0 0 0\n 0 0 1 1 1 0 1 0 1 1 1 1 0 1 1 0 1 1 1 1 0 0 1 1 1\n 0 0 0 1 1 1 0 1 0 0 1 0 0 1 0 0 1 1 1 0 0 1 0 0 1\n 1 0 1 1 0 0 1 0 1 1 0 0 0 0 1 0 1 1 1 0 0 1 0 0 1\n 0 0 1 1 0 1 0 1 1 1 1 0 0 1 1 1 1 0 0 0 1 1 0 1 1\n 0 0 1 0 0 0 1 0 0 0 1 1 0 1 0 0 0 1 0 1 1 1 0 1 0\n 1 1 1 0 1 1 0 1 0 0 0 0 0 0 0 1 1 0 1 1 0 1 0 0 0\n 1 0 1 0 1 0 1 1 0 1 0 1 0 1 1 0 0 0 0 0 1 1 0 0 1\n 1 0 0 1 0 1 0 1 0 0 0 1 1 1 1 0 1 0 1 0 0 1 0 0 1\n 1 0 1 0 0 1 1 1 0 1 1 0 0 1 0 0 1 1 1 1 1 1 0 0 0\n 0 0 0 0 0 0 0 0 1 0 0 1 0 1 1 0 1 0 0 0 1 0 0 1 0\n 1 1 1 1 1 1 1 0 0 0 0 1 0 0 1 1 1 0 1 0 1 0 1 1 1\n 1 0 0 0 0 0 1 0 0 1 1 1 1 1 0 1 1 0 0 0 1 0 0 0 1\n 1 0 1 1 1 0 1 0 1 0 1 0 0 1 1 1 1 1 1 1 1 0 0 0 1\n 1 0 1 1 1 0 1 0 1 1 0 0 0 0 0 0 0 0 1 0 1 0 0 0 0\n 1 0 1 1 1 0 1 0 1 0 0 0 1 1 0 1 0 0 1 1 1 0 1 0 1\n 1 0 0 0 0 0 1 0 0 1 0 1 0 1 1 1 0 1 0 0 1 1 1 1 1\n 1 1 1 1 1 1 1 0 0 1 1 0 0 1 1 0 1 0 0 0 0 1 0 1 1\n>>\n")
}

/// Whether `qr_code` is the symbol for "ABCDEF" at level H without the GS1
/// format.
pub fn verifyNotGS1EncodedData(qr_code: &QRCode) -> (r: bool)
    ensures
        r == (qr_code_text(*qr_code) == plain_symbol_text()),
{
    let text = qr_code.to_string();
    str_equals(text.as_str(), "<<\n mode: ALPHANUMERIC\n ecLevel: H\n version: 1\n maskPattern: 0\n matrix:\n 1 1 1 1 1 1 1 0 1 1 1 1 0 0 1 1 1 1 1 1 1\n 1 0 0 0 0 0 1 0 0 1 1 1 0 0 1 0 0 0 0 0 1\n 1 0 1 1 1 0 1 0 0 1 0 1 1 0 1 0 1 1 1 0 1\n 1 0 1 1 1 0 1 0 1 1 1 0 1 0 1 0 1 1 1 0 1\n 1 0 1 1 1 0 1 0 0 1 1 1 0 0 1 0 1 1 1 0 1\n 1 0 0 0 0 0 1 0 0 1 0 0 0 0 1 0 0 0 0 0 1\n 1 1 1 1 1 1 1 0 1 0 1 0 1 0 1 1 1 1 1 1 1\n 0 0 0 0 0 0 0 0 0 0 1 0 1 0 0 0 0 0 0 0 0\n 0 0 1 0 1 1 1 0 1 1 0 0 1 1 0 0 0 1 0 0 1\n 1 0 1 1 1 0 0 1 0 0 0 1 0 1 0 0 0 0 0 0 0\n 0 0 1 1 0 0 1 0 1 0 0 0 1 0 1 0 1 0 1 1 0\n 1 1 0 1 0 1 0 1 1 1 0 1 0 1 0 0 0 0 0 1 0\n 0 0 1 1 0 1 1 1 1 0 0 0 1 0 1 0 1 1 1 1 0\n 0 0 0 0 0 0 0 0 1 0 0 1 1 1 0 1 0 1 0 0 0\n 1 1 1 1 1 1 1 0 0 0 1 0 1 0 1 1 0 0 0 0 1\n 1 0 0 0 0 0 1 0 1 1 1 1 0 1 0 1 1 1 1 0 1\n 1 0 1 1 1 0 1 0 1 0 1 1 0 1 0 1 0 0 0 0 1\n 1 0 1 1 1 0 1 0 0 1 1 0 1 1 1 1 0 1 0 1 0\n 1 0 1 1 1 0 1 0 1 0 0 0 1 0 1 0 1 1 1 0 1\n 1 0 0 0 0 0 1 0 0 1 1 0 1 1 0 1 0 0 0 1 1\n 1 1 1 1 1 1 1 0 0 0 0 0 0 0 0 0 1 0 1 0 1\n>>\n")
}

} // verus!
