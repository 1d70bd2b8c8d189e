//! An encoded QR Code symbol: its mode, level, version, mask pattern and
//! module matrix.
use vstd::prelude::*;
use crate::byte_matrix::{ByteMatrix, matrix_text};
use crate::version::{ErrorCorrectionLevel, Mode, Version, level_name, mode_name};

verus! {

/// The number of data mask patterns.
pub const NUM_MASK_PATTERNS: u32 = 8;

/// The decimal digits of `n`.
pub open spec fn decimal_text(n: nat) -> Seq<char>
    decreases n,
{
    if n < 10 {
        seq![digit_char(n)]
    } else {
        decimal_text(n / 10) + seq![digit_char(n % 10)]
    }
}

/// The character of a decimal digit.
pub open spec fn digit_char(d: nat) -> char {
    if d == 0 {
        '0'
    } else if d == 1 {
        '1'
    } else if d == 2 {
        '2'
    } else if d == 3 {
        '3'
    } else if d == 4 {
        '4'
    } else if d == 5 {
        '5'
    } else if d == 6 {
        '6'
    } else if d == 7 {
        '7'
    } else if d == 8 {
        '8'
    } else {
        '9'
    }
}

/// The decimal text of `n`.
pub fn decimal_string(n: u32) -> (r: String)
    ensures
        r@ == decimal_text(n as nat),
    decreases n,
{
    let mut s = if n < 10 {
        String::new()
    } else {
        decimal_string(n / 10)
    };
    let d = n % 10;
    proof {
        reveal_strlit("0");
        reveal_strlit("1");
        reveal_strlit("2");
        reveal_strlit("3");
        reveal_strlit("4");
        reveal_strlit("5");
        reveal_strlit("6");
        reveal_strlit("7");
        reveal_strlit("8");
        reveal_strlit("9");
    }
    let digit: &str = if d == 0 {
        "0"
    } else if d == 1 {
        "1"
    } else if d == 2 {
        "2"
    } else if d == 3 {
        "3"
    } else if d == 4 {
        "4"
    } else if d == 5 {
        "5"
    } else if d == 6 {
        "6"
    } else if d == 7 {
        "7"
    } else if d == 8 {
        "8"
    } else {
        "9"
    };
    s.append(digit);
    assert(n < 10 ==> s@ =~= seq![digit_char(n as nat)]);
    s
}

/// The text form of a symbol.
pub open spec fn symbol_text(mode: Mode, level: ErrorCorrectionLevel, version: int, mask: u32, cells: Seq<i8>, width: int, height: int) -> Seq<char> {
    "<<\n mode: "@ + mode_name(mode) + "\n ecLevel: "@ + level_name(level) + "\n version: "@ + decimal_text(
        version as nat,
    ) + "\n maskPattern: "@ + decimal_text(mask as nat) + "\n matrix:\n"@ + matrix_text(cells, width, height)
        + ">>\n"@
}

/// The text form of a symbol.
pub open spec fn qr_code_text(q: QRCode) -> Seq<char> {
    symbol_text(
        q.mode_spec(),
        q.level_spec(),
        q.version_spec(),
        q.mask_spec(),
        q.matrix_spec().cells(),
        q.matrix_spec().width_spec(),
        q.matrix_spec().height_spec(),
    )
}

/// An encoded symbol.
pub struct QRCode {
    mode: Mode,
    ec_level: ErrorCorrectionLevel,
    version: Version,
    mask_pattern: u32,
    matrix: ByteMatrix,
}

impl QRCode {
    /// The mode of the data segment.
    pub closed spec fn mode_spec(self) -> Mode {
        self.mode
    }

    /// The error correction level.
    pub closed spec fn level_spec(self) -> ErrorCorrectionLevel {
        self.ec_level
    }

    /// The version number.
    pub closed spec fn version_spec(self) -> int {
        self.version.number()
    }

    /// The mask pattern.
    pub closed spec fn mask_spec(self) -> u32 {
        self.mask_pattern
    }

    /// The module matrix.
    pub closed spec fn matrix_spec(self) -> ByteMatrix {
        self.matrix
    }

    /// A symbol made of its parts.
    pub fn new(mode: Mode, ec_level: ErrorCorrectionLevel, version: Version, mask_pattern: u32, matrix: ByteMatrix) -> (r: QRCode)
        ensures
            r.mode_spec() == mode,
            r.level_spec() == ec_level,
            r.version_spec() == version.number(),
            r.mask_spec() == mask_pattern,
            r.matrix_spec() == matrix,
    {
        QRCode { mode, ec_level, version, mask_pattern, matrix }
    }

    /// The mode of the data segment.
    pub fn getMode(&self) -> (r: Mode)
        ensures
            r == self.mode_spec(),
    {
        self.mode
    }

    /// The error correction level.
    pub fn getECLevel(&self) -> (r: ErrorCorrectionLevel)
        ensures
            r == self.level_spec(),
    {
        self.ec_level
    }

    /// The version.
    pub fn getVersion(&self) -> (r: Version)
        ensures
            r.number() == self.version_spec(),
    {
        self.version
    }

    /// The mask pattern.
    pub fn getMaskPattern(&self) -> (r: u32)
        ensures
            r == self.mask_spec(),
    {
        self.mask_pattern
    }

    /// The module matrix.
    pub fn getMatrix(&self) -> (r: &ByteMatrix)
        ensures
            *r == self.matrix_spec(),
    {
        &self.matrix
    }

    /// Whether `mask_pattern` names one of the eight mask patterns.
    pub fn isValidMaskPattern(mask_pattern: i32) -> (r: bool)
        ensures
            r == (0 <= mask_pattern < 8),
    {
        mask_pattern >= 0 && mask_pattern < 8
    }

    /// The text form: mode, level, version, mask pattern and matrix.
    pub fn to_string(&self) -> (r: String)
        ensures
            r@ == qr_code_text(*self),
    {
        let mut result = String::new();
        result.append("<<\n mode: ");
        result.append(self.mode.name());
        result.append("\n ecLevel: ");
        result.append(self.ec_level.name());
        result.append("\n version: ");
        let v = decimal_string(self.version.get_version_number());
        result.append(v.as_str());
        result.append("\n maskPattern: ");
        let m = decimal_string(self.mask_pattern);
        result.append(m.as_str());
        result.append("\n matrix:\n");
        let t = self.matrix.to_string();
        result.append(t.as_str());
        result.append(">>\n");
        result
    }
}

} // verus!
