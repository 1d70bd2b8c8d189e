//! Versions, error correction levels and modes of QR Code symbols, with the
//! table of error correction blocks of each version and level.
use vstd::prelude::*;
use crate::error::EncodeError;

verus! {

/// The error correction level: L, M, Q or H, recovering about 7%, 15%,
/// 25% and 30% of the codewords.
#[allow(non_camel_case_types)]
#[derive(Debug, Clone, Copy, PartialEq, Eq, Structural)]
pub enum ErrorCorrectionLevel {
    L,
    M,
    Q,
    H,
}

/// The two bits that stand for a level in the format information.
pub open spec fn level_bits(level: ErrorCorrectionLevel) -> u32 {
    match level {
        ErrorCorrectionLevel::L => 1u32,
        ErrorCorrectionLevel::M => 0u32,
        ErrorCorrectionLevel::Q => 3u32,
        ErrorCorrectionLevel::H => 2u32,
    }
}

/// The one-letter name of a level.
pub open spec fn level_name(level: ErrorCorrectionLevel) -> Seq<char> {
    match level {
        ErrorCorrectionLevel::L => seq!['L'],
        ErrorCorrectionLevel::M => seq!['M'],
        ErrorCorrectionLevel::Q => seq!['Q'],
        ErrorCorrectionLevel::H => seq!['H'],
    }
}

impl ErrorCorrectionLevel {
    /// The two bits that stand for the level in the format information.
    pub fn get_bits(&self) -> (r: u32)
        ensures
            r == level_bits(*self),
    {
        match self {
            ErrorCorrectionLevel::L => 1,
            ErrorCorrectionLevel::M => 0,
            ErrorCorrectionLevel::Q => 3,
            ErrorCorrectionLevel::H => 2,
        }
    }

    /// The one-letter name of the level.
    pub fn name(&self) -> (r: &'static str)
        ensures
            r@ == level_name(*self),
    {
        proof {
            reveal_strlit("L");
            reveal_strlit("M");
            reveal_strlit("Q");
            reveal_strlit("H");
        }
        match self {
            ErrorCorrectionLevel::L => "L",
            ErrorCorrectionLevel::M => "M",
            ErrorCorrectionLevel::Q => "Q",
            ErrorCorrectionLevel::H => "H",
        }
    }
}

/// The kind of a data segment, as the four-bit mode indicator announces it.
#[allow(non_camel_case_types)]
#[derive(Debug, Clone, Copy, PartialEq, Eq, Structural)]
pub enum Mode {
    TERMINATOR,
    NUMERIC,
    ALPHANUMERIC,
    STRUCTURED_APPEND,
    BYTE,
    ECI,
    KANJI,
    FNC1_FIRST_POSITION,
    FNC1_SECOND_POSITION,
    HANZI,
}

/// The four-bit indicator of a mode.
pub open spec fn mode_bits(mode: Mode) -> u32 {
    match mode {
        Mode::TERMINATOR => 0x0u32,
        Mode::NUMERIC => 0x1u32,
        Mode::ALPHANUMERIC => 0x2u32,
        Mode::STRUCTURED_APPEND => 0x3u32,
        Mode::BYTE => 0x4u32,
        Mode::ECI => 0x7u32,
        Mode::KANJI => 0x8u32,
        Mode::FNC1_FIRST_POSITION => 0x5u32,
        Mode::FNC1_SECOND_POSITION => 0x9u32,
        Mode::HANZI => 0xDu32,
    }
}

/// The width of the character count field of a mode in versions 1-9,
/// 10-26 and 27-40.
pub open spec fn count_bits_table(mode: Mode) -> (u32, u32, u32) {
    match mode {
        Mode::NUMERIC => (10u32, 12u32, 14u32),
        Mode::ALPHANUMERIC => (9u32, 11u32, 13u32),
        Mode::BYTE => (8u32, 16u32, 16u32),
        Mode::KANJI => (8u32, 10u32, 12u32),
        Mode::HANZI => (8u32, 10u32, 12u32),
        _ => (0u32, 0u32, 0u32),
    }
}

/// The width of the character count field of `mode` in version `version`.
pub open spec fn character_count_bits(mode: Mode, version: int) -> u32 {
    let t = count_bits_table(mode);
    if version <= 9 {
        t.0
    } else if version <= 26 {
        t.1
    } else {
        t.2
    }
}

/// The name of a mode, as the symbol description prints it.
pub open spec fn mode_name(mode: Mode) -> Seq<char> {
    match mode {
        Mode::TERMINATOR => seq!['T', 'E', 'R', 'M', 'I', 'N', 'A', 'T', 'O', 'R'],
        Mode::NUMERIC => seq!['N', 'U', 'M', 'E', 'R', 'I', 'C'],
        Mode::ALPHANUMERIC => seq!['A', 'L', 'P', 'H', 'A', 'N', 'U', 'M', 'E', 'R', 'I', 'C'],
        Mode::STRUCTURED_APPEND => seq![
            'S', 'T', 'R', 'U', 'C', 'T', 'U', 'R', 'E', 'D', '_', 'A', 'P', 'P', 'E', 'N', 'D',
        ],
        Mode::BYTE => seq!['B', 'Y', 'T', 'E'],
        Mode::ECI => seq!['E', 'C', 'I'],
        Mode::KANJI => seq!['K', 'A', 'N', 'J', 'I'],
        Mode::FNC1_FIRST_POSITION => seq![
            'F', 'N', 'C', '1', '_', 'F', 'I', 'R', 'S', 'T', '_', 'P', 'O', 'S', 'I', 'T', 'I', 'O', 'N',
        ],
        Mode::FNC1_SECOND_POSITION => seq![
            'F', 'N', 'C', '1', '_', 'S', 'E', 'C', 'O', 'N', 'D', '_', 'P', 'O', 'S', 'I', 'T', 'I', 'O', 'N',
        ],
        Mode::HANZI => seq!['H', 'A', 'N', 'Z', 'I'],
    }
}

impl Mode {
    /// The four-bit mode indicator.
    pub fn get_bits(&self) -> (r: u32)
        ensures
            r == mode_bits(*self),
    {
        match self {
            Mode::TERMINATOR => 0x0,
            Mode::NUMERIC => 0x1,
            Mode::ALPHANUMERIC => 0x2,
            Mode::STRUCTURED_APPEND => 0x3,
            Mode::BYTE => 0x4,
            Mode::ECI => 0x7,
            Mode::KANJI => 0x8,
            Mode::FNC1_FIRST_POSITION => 0x5,
            Mode::FNC1_SECOND_POSITION => 0x9,
            Mode::HANZI => 0xD,
        }
    }

    /// The width of the character count field in `version`.
    pub fn getCharacterCountBits(&self, version: &Version) -> (r: u32)
        ensures
            r == character_count_bits(*self, version.number()),
            r <= 16,
    {
        let number = version.get_version_number();
        let (a, b, c): (u32, u32, u32) = match self {
            Mode::NUMERIC => (10, 12, 14),
            Mode::ALPHANUMERIC => (9, 11, 13),
            Mode::BYTE => (8, 16, 16),
            Mode::KANJI => (8, 10, 12),
            Mode::HANZI => (8, 10, 12),
            _ => (0, 0, 0),
        };
        if number <= 9 {
            a
        } else if number <= 26 {
            b
        } else {
            c
        }
    }

    /// The name of the mode.
    pub fn name(&self) -> (r: &'static str)
        ensures
            r@ == mode_name(*self),
    {
        proof {
            reveal_strlit("TERMINATOR");
            reveal_strlit("NUMERIC");
            reveal_strlit("ALPHANUMERIC");
            reveal_strlit("STRUCTURED_APPEND");
            reveal_strlit("BYTE");
            reveal_strlit("ECI");
            reveal_strlit("KANJI");
            reveal_strlit("FNC1_FIRST_POSITION");
            reveal_strlit("FNC1_SECOND_POSITION");
            reveal_strlit("HANZI");
        }
        match self {
            Mode::TERMINATOR => "TERMINATOR",
            Mode::NUMERIC => "NUMERIC",
            Mode::ALPHANUMERIC => "ALPHANUMERIC",
            Mode::STRUCTURED_APPEND => "STRUCTURED_APPEND",
            Mode::BYTE => "BYTE",
            Mode::ECI => "ECI",
            Mode::KANJI => "KANJI",
            Mode::FNC1_FIRST_POSITION => "FNC1_FIRST_POSITION",
            Mode::FNC1_SECOND_POSITION => "FNC1_SECOND_POSITION",
            Mode::HANZI => "HANZI",
        }
    }
}

/// The error correction block structure of each version and level:
/// (error correction codewords per block, blocks in the first group,
/// data codewords per block there, blocks in the second group, data
/// codewords per block there); `None` outside versions 1 to 40.
pub open spec fn ec_table(version: int, level: ErrorCorrectionLevel) -> Option<(int, int, int, int, int)> {
    match level {
        ErrorCorrectionLevel::L => {
            if version == 1 {
                Some((7, 1, 19, 0, 0))
            } else if version == 2 {
                Some((10, 1, 34, 0, 0))
            } else if version == 3 {
                Some((15, 1, 55, 0, 0))
            } else if version == 4 {
                Some((20, 1, 80, 0, 0))
            } else if version == 5 {
                Some((26, 1, 108, 0, 0))
            } else if version == 6 {
                Some((18, 2, 68, 0, 0))
            } else if version == 7 {
                Some((20, 2, 78, 0, 0))
            } else if version == 8 {
                Some((24, 2, 97, 0, 0))
            } else if version == 9 {
                Some((30, 2, 116, 0, 0))
            } else if version == 10 {
                Some((18, 2, 68, 2, 69))
            } else if version == 11 {
                Some((20, 4, 81, 0, 0))
            } else if version == 12 {
                Some((24, 2, 92, 2, 93))
            } else if version == 13 {
                Some((26, 4, 107, 0, 0))
            } else if version == 14 {
                Some((30, 3, 115, 1, 116))
            } else if version == 15 {
                Some((22, 5, 87, 1, 88))
            } else if version == 16 {
                Some((24, 5, 98, 1, 99))
            } else if version == 17 {
                Some((28, 1, 107, 5, 108))
            } else if version == 18 {
                Some((30, 5, 120, 1, 121))
            } else if version == 19 {
                Some((28, 3, 113, 4, 114))
            } else if version == 20 {
                Some((28, 3, 107, 5, 108))
            } else if version == 21 {
                Some((28, 4, 116, 4, 117))
            } else if version == 22 {
                Some((28, 2, 111, 7, 112))
            } else if version == 23 {
                Some((30, 4, 121, 5, 122))
            } else if version == 24 {
                Some((30, 6, 117, 4, 118))
            } else if version == 25 {
                Some((26, 8, 106, 4, 107))
            } else if version == 26 {
                Some((28, 10, 114, 2, 115))
            } else if version == 27 {
                Some((30, 8, 122, 4, 123))
            } else if version == 28 {
                Some((30, 3, 117, 10, 118))
            } else if version == 29 {
                Some((30, 7, 116, 7, 117))
            } else if version == 30 {
                Some((30, 5, 115, 10, 116))
            } else if version == 31 {
                Some((30, 13, 115, 3, 116))
            } else if version == 32 {
                Some((30, 17, 115, 0, 0))
            } else if version == 33 {
                Some((30, 17, 115, 1, 116))
            } else if version == 34 {
                Some((30, 13, 115, 6, 116))
            } else if version == 35 {
                Some((30, 12, 121, 7, 122))
            } else if version == 36 {
                Some((30, 6, 121, 14, 122))
            } else if version == 37 {
                Some((30, 17, 122, 4, 123))
            } else if version == 38 {
                Some((30, 4, 122, 18, 123))
            } else if version == 39 {
                Some((30, 20, 117, 4, 118))
            } else if version == 40 {
                Some((30, 19, 118, 6, 119))
            } else {
                None
            }
        },
        ErrorCorrectionLevel::M => {
            if version == 1 {
                Some((10, 1, 16, 0, 0))
            } else if version == 2 {
                Some((16, 1, 28, 0, 0))
            } else if version == 3 {
                Some((26, 1, 44, 0, 0))
            } else if version == 4 {
                Some((18, 2, 32, 0, 0))
            } else if version == 5 {
                Some((24, 2, 43, 0, 0))
            } else if version == 6 {
                Some((16, 4, 27, 0, 0))
            } else if version == 7 {
                Some((18, 4, 31, 0, 0))
            } else if version == 8 {
                Some((22, 2, 38, 2, 39))
            } else if version == 9 {
                Some((22, 3, 36, 2, 37))
            } else if version == 10 {
                Some((26, 4, 43, 1, 44))
            } else if version == 11 {
                Some((30, 1, 50, 4, 51))
            } else if version == 12 {
                Some((22, 6, 36, 2, 37))
            } else if version == 13 {
                Some((22, 8, 37, 1, 38))
            } else if version == 14 {
                Some((24, 4, 40, 5, 41))
            } else if version == 15 {
                Some((24, 5, 41, 5, 42))
            } else if version == 16 {
                Some((28, 7, 45, 3, 46))
            } else if version == 17 {
                Some((28, 10, 46, 1, 47))
            } else if version == 18 {
                Some((26, 9, 43, 4, 44))
            } else if version == 19 {
                Some((26, 3, 44, 11, 45))
            } else if version == 20 {
                Some((26, 3, 41, 13, 42))
            } else if version == 21 {
                Some((26, 17, 42, 0, 0))
            } else if version == 22 {
                Some((28, 17, 46, 0, 0))
            } else if version == 23 {
                Some((28, 4, 47, 14, 48))
            } else if version == 24 {
                Some((28, 6, 45, 14, 46))
            } else if version == 25 {
                Some((28, 8, 47, 13, 48))
            } else if version == 26 {
                Some((28, 19, 46, 4, 47))
            } else if version == 27 {
                Some((28, 22, 45, 3, 46))
            } else if version == 28 {
                Some((28, 3, 45, 23, 46))
            } else if version == 29 {
                Some((28, 21, 45, 7, 46))
            } else if version == 30 {
                Some((28, 19, 47, 10, 48))
            } else if version == 31 {
                Some((28, 2, 46, 29, 47))
            } else if version == 32 {
                Some((28, 10, 46, 23, 47))
            } else if version == 33 {
                Some((28, 14, 46, 21, 47))
            } else if version == 34 {
                Some((28, 14, 46, 23, 47))
            } else if version == 35 {
                Some((28, 12, 47, 26, 48))
            } else if version == 36 {
                Some((28, 6, 47, 34, 48))
            } else if version == 37 {
                Some((28, 29, 46, 14, 47))
            } else if version == 38 {
                Some((28, 13, 46, 32, 47))
            } else if version == 39 {
                Some((28, 40, 47, 7, 48))
            } else if version == 40 {
                Some((28, 18, 47, 31, 48))
            } else {
                None
            }
        },
        ErrorCorrectionLevel::Q => {
            if version == 1 {
                Some((13, 1, 13, 0, 0))
            } else if version == 2 {
                Some((22, 1, 22, 0, 0))
            } else if version == 3 {
                Some((18, 2, 17, 0, 0))
            } else if version == 4 {
                Some((26, 2, 24, 0, 0))
            } else if version == 5 {
                Some((18, 2, 15, 2, 16))
            } else if version == 6 {
                Some((24, 4, 19, 0, 0))
            } else if version == 7 {
                Some((18, 2, 14, 4, 15))
            } else if version == 8 {
                Some((22, 4, 18, 2, 19))
            } else if version == 9 {
                Some((20, 4, 16, 4, 17))
            } else if version == 10 {
                Some((24, 6, 19, 2, 20))
            } else if version == 11 {
                Some((28, 4, 22, 4, 23))
            } else if version == 12 {
                Some((26, 4, 20, 6, 21))
            } else if version == 13 {
                Some((24, 8, 20, 4, 21))
            } else if version == 14 {
                Some((20, 11, 16, 5, 17))
            } else if version == 15 {
                Some((30, 5, 24, 7, 25))
            } else if version == 16 {
                Some((24, 15, 19, 2, 20))
            } else if version == 17 {
                Some((28, 1, 22, 15, 23))
            } else if version == 18 {
                Some((28, 17, 22, 1, 23))
            } else if version == 19 {
                Some((26, 17, 21, 4, 22))
            } else if version == 20 {
                Some((30, 15, 24, 5, 25))
            } else if version == 21 {
                Some((28, 17, 22, 6, 23))
            } else if version == 22 {
                Some((30, 7, 24, 16, 25))
            } else if version == 23 {
                Some((30, 11, 24, 14, 25))
            } else if version == 24 {
                Some((30, 11, 24, 16, 25))
            } else if version == 25 {
                Some((30, 7, 24, 22, 25))
            } else if version == 26 {
                Some((28, 28, 22, 6, 23))
            } else if version == 27 {
                Some((30, 8, 23, 26, 24))
            } else if version == 28 {
                Some((30, 4, 24, 31, 25))
            } else if version == 29 {
                Some((30, 1, 23, 37, 24))
            } else if version == 30 {
                Some((30, 15, 24, 25, 25))
            } else if version == 31 {
                Some((30, 42, 24, 1, 25))
            } else if version == 32 {
                Some((30, 10, 24, 35, 25))
            } else if version == 33 {
                Some((30, 29, 24, 19, 25))
            } else if version == 34 {
                Some((30, 44, 24, 7, 25))
            } else if version == 35 {
                Some((30, 39, 24, 14, 25))
            } else if version == 36 {
                Some((30, 46, 24, 10, 25))
            } else if version == 37 {
                Some((30, 49, 24, 10, 25))
            } else if version == 38 {
                Some((30, 48, 24, 14, 25))
            } else if version == 39 {
                Some((30, 43, 24, 22, 25))
            } else if version == 40 {
                Some((30, 34, 24, 34, 25))
            } else {
                None
            }
        },
        ErrorCorrectionLevel::H => {
            if version == 1 {
                Some((17, 1, 9, 0, 0))
            } else if version == 2 {
                Some((28, 1, 16, 0, 0))
            } else if version == 3 {
                Some((22, 2, 13, 0, 0))
            } else if version == 4 {
                Some((16, 4, 9, 0, 0))
            } else if version == 5 {
                Some((22, 2, 11, 2, 12))
            } else if version == 6 {
                Some((28, 4, 15, 0, 0))
            } else if version == 7 {
                Some((26, 4, 13, 1, 14))
            } else if version == 8 {
                Some((26, 4, 14, 2, 15))
            } else if version == 9 {
                Some((24, 4, 12, 4, 13))
            } else if version == 10 {
                Some((28, 6, 15, 2, 16))
            } else if version == 11 {
                Some((24, 3, 12, 8, 13))
            } else if version == 12 {
                Some((28, 7, 14, 4, 15))
            } else if version == 13 {
                Some((22, 12, 11, 4, 12))
            } else if version == 14 {
                Some((24, 11, 12, 5, 13))
            } else if version == 15 {
                Some((24, 11, 12, 7, 13))
            } else if version == 16 {
                Some((30, 3, 15, 13, 16))
            } else if version == 17 {
                Some((28, 2, 14, 17, 15))
            } else if version == 18 {
                Some((28, 2, 14, 19, 15))
            } else if version == 19 {
                Some((26, 9, 13, 16, 14))
            } else if version == 20 {
                Some((28, 15, 15, 10, 16))
            } else if version == 21 {
                Some((30, 19, 16, 6, 17))
            } else if version == 22 {
                Some((24, 34, 13, 0, 0))
            } else if version == 23 {
                Some((30, 16, 15, 14, 16))
            } else if version == 24 {
                Some((30, 30, 16, 2, 17))
            } else if version == 25 {
                Some((30, 22, 15, 13, 16))
            } else if version == 26 {
                Some((30, 33, 16, 4, 17))
            } else if version == 27 {
                Some((30, 12, 15, 28, 16))
            } else if version == 28 {
                Some((30, 11, 15, 31, 16))
            } else if version == 29 {
                Some((30, 19, 15, 26, 16))
            } else if version == 30 {
                Some((30, 23, 15, 25, 16))
            } else if version == 31 {
                Some((30, 23, 15, 28, 16))
            } else if version == 32 {
                Some((30, 19, 15, 35, 16))
            } else if version == 33 {
                Some((30, 11, 15, 46, 16))
            } else if version == 34 {
                Some((30, 59, 16, 1, 17))
            } else if version == 35 {
                Some((30, 22, 15, 41, 16))
            } else if version == 36 {
                Some((30, 2, 15, 64, 16))
            } else if version == 37 {
                Some((30, 24, 15, 46, 16))
            } else if version == 38 {
                Some((30, 42, 15, 32, 16))
            } else if version == 39 {
                Some((30, 10, 15, 67, 16))
            } else if version == 40 {
                Some((30, 20, 15, 61, 16))
            } else {
                None
            }
        },
    }
}

/// The block structure of `version` at `level`; only for versions 1 to 40.
pub open spec fn ec_entry(version: int, level: ErrorCorrectionLevel) -> (int, int, int, int, int) {
    ec_table(version, level).unwrap()
}

/// Error correction codewords per block.
pub open spec fn ec_codewords_per_block(version: int, level: ErrorCorrectionLevel) -> int {
    ec_entry(version, level).0
}

/// The number of error correction blocks.
pub open spec fn num_blocks(version: int, level: ErrorCorrectionLevel) -> int {
    ec_entry(version, level).1 + ec_entry(version, level).3
}

/// All error correction codewords of a symbol.
pub open spec fn total_ec_codewords(version: int, level: ErrorCorrectionLevel) -> int {
    ec_codewords_per_block(version, level) * num_blocks(version, level)
}

/// All codewords, data and error correction, of a symbol; the same for
/// every level.
pub open spec fn total_codewords(version: int) -> int {
    let e = ec_entry(version, ErrorCorrectionLevel::L);
    e.0 * (e.1 + e.3) + e.1 * e.2 + e.3 * e.4
}

/// The data codewords of a symbol of `version` at `level`.
pub open spec fn data_codewords(version: int, level: ErrorCorrectionLevel) -> int {
    total_codewords(version) - total_ec_codewords(version, level)
}

/// The number of modules on a side of a symbol.
pub open spec fn dimension(version: int) -> int {
    17 + 4 * version
}

/// The error correction blocks of one version at one level.
#[derive(Debug, Clone, Copy)]
pub struct ECBlocks {
    /// Error correction codewords in each block.
    pub ec_codewords_per_block: u32,
    /// Blocks in the first group.
    pub count1: u32,
    /// Data codewords in each block of the first group.
    pub data_codewords1: u32,
    /// Blocks in the second group (possibly none).
    pub count2: u32,
    /// Data codewords in each block of the second group.
    pub data_codewords2: u32,
}

impl ECBlocks {
    /// The number of blocks.
    pub fn getNumBlocks(&self) -> (r: u32)
        requires
            self.count1 + self.count2 <= 100,
        ensures
            r == self.count1 + self.count2,
    {
        self.count1 + self.count2
    }

    /// All error correction codewords: per block times the number of blocks.
    pub fn getTotalECCodewords(&self) -> (r: u32)
        requires
            self.count1 + self.count2 <= 100,
            self.ec_codewords_per_block <= 30,
        ensures
            r == self.ec_codewords_per_block * (self.count1 + self.count2),
    {
        assert(self.ec_codewords_per_block * (self.count1 + self.count2) <= 3000) by (nonlinear_arith)
            requires
                self.count1 + self.count2 <= 100,
                self.ec_codewords_per_block <= 30,
        ;
        self.ec_codewords_per_block * (self.count1 + self.count2)
    }
}

/// The error correction block structure of `version` at `level`.
fn ec_table_entry(version: u32, level: ErrorCorrectionLevel) -> (r: (u32, u32, u32, u32, u32))
    requires
        1 <= version <= 40,
    ensures
        ec_table(version as int, level) == Some((r.0 as int, r.1 as int, r.2 as int, r.3 as int, r.4 as int)),
{
    match level {
        ErrorCorrectionLevel::L => match version {
            1 => (7, 1, 19, 0, 0),
            2 => (10, 1, 34, 0, 0),
            3 => (15, 1, 55, 0, 0),
            4 => (20, 1, 80, 0, 0),
            5 => (26, 1, 108, 0, 0),
            6 => (18, 2, 68, 0, 0),
            7 => (20, 2, 78, 0, 0),
            8 => (24, 2, 97, 0, 0),
            9 => (30, 2, 116, 0, 0),
            10 => (18, 2, 68, 2, 69),
            11 => (20, 4, 81, 0, 0),
            12 => (24, 2, 92, 2, 93),
            13 => (26, 4, 107, 0, 0),
            14 => (30, 3, 115, 1, 116),
            15 => (22, 5, 87, 1, 88),
            16 => (24, 5, 98, 1, 99),
            17 => (28, 1, 107, 5, 108),
            18 => (30, 5, 120, 1, 121),
            19 => (28, 3, 113, 4, 114),
            20 => (28, 3, 107, 5, 108),
            21 => (28, 4, 116, 4, 117),
            22 => (28, 2, 111, 7, 112),
            23 => (30, 4, 121, 5, 122),
            24 => (30, 6, 117, 4, 118),
            25 => (26, 8, 106, 4, 107),
            26 => (28, 10, 114, 2, 115),
            27 => (30, 8, 122, 4, 123),
            28 => (30, 3, 117, 10, 118),
            29 => (30, 7, 116, 7, 117),
            30 => (30, 5, 115, 10, 116),
            31 => (30, 13, 115, 3, 116),
            32 => (30, 17, 115, 0, 0),
            33 => (30, 17, 115, 1, 116),
            34 => (30, 13, 115, 6, 116),
            35 => (30, 12, 121, 7, 122),
            36 => (30, 6, 121, 14, 122),
            37 => (30, 17, 122, 4, 123),
            38 => (30, 4, 122, 18, 123),
            39 => (30, 20, 117, 4, 118),
            _ => (30, 19, 118, 6, 119),
        },
        ErrorCorrectionLevel::M => match version {
            1 => (10, 1, 16, 0, 0),
            2 => (16, 1, 28, 0, 0),
            3 => (26, 1, 44, 0, 0),
            4 => (18, 2, 32, 0, 0),
            5 => (24, 2, 43, 0, 0),
            6 => (16, 4, 27, 0, 0),
            7 => (18, 4, 31, 0, 0),
            8 => (22, 2, 38, 2, 39),
            9 => (22, 3, 36, 2, 37),
            10 => (26, 4, 43, 1, 44),
            11 => (30, 1, 50, 4, 51),
            12 => (22, 6, 36, 2, 37),
            13 => (22, 8, 37, 1, 38),
            14 => (24, 4, 40, 5, 41),
            15 => (24, 5, 41, 5, 42),
            16 => (28, 7, 45, 3, 46),
            17 => (28, 10, 46, 1, 47),
            18 => (26, 9, 43, 4, 44),
            19 => (26, 3, 44, 11, 45),
            20 => (26, 3, 41, 13, 42),
            21 => (26, 17, 42, 0, 0),
            22 => (28, 17, 46, 0, 0),
            23 => (28, 4, 47, 14, 48),
            24 => (28, 6, 45, 14, 46),
            25 => (28, 8, 47, 13, 48),
            26 => (28, 19, 46, 4, 47),
            27 => (28, 22, 45, 3, 46),
            28 => (28, 3, 45, 23, 46),
            29 => (28, 21, 45, 7, 46),
            30 => (28, 19, 47, 10, 48),
            31 => (28, 2, 46, 29, 47),
            32 => (28, 10, 46, 23, 47),
            33 => (28, 14, 46, 21, 47),
            34 => (28, 14, 46, 23, 47),
            35 => (28, 12, 47, 26, 48),
            36 => (28, 6, 47, 34, 48),
            37 => (28, 29, 46, 14, 47),
            38 => (28, 13, 46, 32, 47),
            39 => (28, 40, 47, 7, 48),
            _ => (28, 18, 47, 31, 48),
        },
        ErrorCorrectionLevel::Q => match version {
            1 => (13, 1, 13, 0, 0),
            2 => (22, 1, 22, 0, 0),
            3 => (18, 2, 17, 0, 0),
            4 => (26, 2, 24, 0, 0),
            5 => (18, 2, 15, 2, 16),
            6 => (24, 4, 19, 0, 0),
            7 => (18, 2, 14, 4, 15),
            8 => (22, 4, 18, 2, 19),
            9 => (20, 4, 16, 4, 17),
            10 => (24, 6, 19, 2, 20),
            11 => (28, 4, 22, 4, 23),
            12 => (26, 4, 20, 6, 21),
            13 => (24, 8, 20, 4, 21),
            14 => (20, 11, 16, 5, 17),
            15 => (30, 5, 24, 7, 25),
            16 => (24, 15, 19, 2, 20),
            17 => (28, 1, 22, 15, 23),
            18 => (28, 17, 22, 1, 23),
            19 => (26, 17, 21, 4, 22),
            20 => (30, 15, 24, 5, 25),
            21 => (28, 17, 22, 6, 23),
            22 => (30, 7, 24, 16, 25),
            23 => (30, 11, 24, 14, 25),
            24 => (30, 11, 24, 16, 25),
            25 => (30, 7, 24, 22, 25),
            26 => (28, 28, 22, 6, 23),
            27 => (30, 8, 23, 26, 24),
            28 => (30, 4, 24, 31, 25),
            29 => (30, 1, 23, 37, 24),
            30 => (30, 15, 24, 25, 25),
            31 => (30, 42, 24, 1, 25),
            32 => (30, 10, 24, 35, 25),
            33 => (30, 29, 24, 19, 25),
            34 => (30, 44, 24, 7, 25),
            35 => (30, 39, 24, 14, 25),
            36 => (30, 46, 24, 10, 25),
            37 => (30, 49, 24, 10, 25),
            38 => (30, 48, 24, 14, 25),
            39 => (30, 43, 24, 22, 25),
            _ => (30, 34, 24, 34, 25),
        },
        ErrorCorrectionLevel::H => match version {
            1 => (17, 1, 9, 0, 0),
            2 => (28, 1, 16, 0, 0),
            3 => (22, 2, 13, 0, 0),
            4 => (16, 4, 9, 0, 0),
            5 => (22, 2, 11, 2, 12),
            6 => (28, 4, 15, 0, 0),
            7 => (26, 4, 13, 1, 14),
            8 => (26, 4, 14, 2, 15),
            9 => (24, 4, 12, 4, 13),
            10 => (28, 6, 15, 2, 16),
            11 => (24, 3, 12, 8, 13),
            12 => (28, 7, 14, 4, 15),
            13 => (22, 12, 11, 4, 12),
            14 => (24, 11, 12, 5, 13),
            15 => (24, 11, 12, 7, 13),
            16 => (30, 3, 15, 13, 16),
            17 => (28, 2, 14, 17, 15),
            18 => (28, 2, 14, 19, 15),
            19 => (26, 9, 13, 16, 14),
            20 => (28, 15, 15, 10, 16),
            21 => (30, 19, 16, 6, 17),
            22 => (24, 34, 13, 0, 0),
            23 => (30, 16, 15, 14, 16),
            24 => (30, 30, 16, 2, 17),
            25 => (30, 22, 15, 13, 16),
            26 => (30, 33, 16, 4, 17),
            27 => (30, 12, 15, 28, 16),
            28 => (30, 11, 15, 31, 16),
            29 => (30, 19, 15, 26, 16),
            30 => (30, 23, 15, 25, 16),
            31 => (30, 23, 15, 28, 16),
            32 => (30, 19, 15, 35, 16),
            33 => (30, 11, 15, 46, 16),
            34 => (30, 59, 16, 1, 17),
            35 => (30, 22, 15, 41, 16),
            36 => (30, 2, 15, 64, 16),
            37 => (30, 24, 15, 46, 16),
            38 => (30, 42, 15, 32, 16),
            39 => (30, 10, 15, 67, 16),
            _ => (30, 20, 15, 61, 16),
        },
    }
}

/// A symbol version, 1 to 40.
#[derive(Debug, Clone, Copy)]
pub struct Version {
    number: u32,
}

impl Version {
    /// The version number.
    pub closed spec fn number(self) -> int {
        self.number as int
    }

    #[verifier::type_invariant]
    spec fn valid(self) -> bool {
        1 <= self.number <= 40
    }

    /// The version with the given number; an error outside 1 to 40.
    pub fn getVersionForNumber(number: u32) -> (r: Result<Version, EncodeError>)
        ensures
            (1 <= number <= 40) <==> r is Ok,
            r matches Ok(v) ==> v.number() == number,
            r matches Err(e) ==> e == EncodeError::InvalidVersion,
    {
        if number < 1 || number > 40 {
            Err(EncodeError::InvalidVersion)
        } else {
            Ok(Version { number })
        }
    }

    /// The version number.
    pub fn get_version_number(&self) -> (r: u32)
        ensures
            r == self.number(),
            1 <= r <= 40,
    {
        proof {
            use_type_invariant(self);
        }
        self.number
    }

    /// The number of modules on a side: 17 + 4 * version.
    pub fn getDimensionForVersion(&self) -> (r: u32)
        ensures
            r == dimension(self.number()),
            21 <= r <= 177,
    {
        proof {
            use_type_invariant(self);
        }
        17 + 4 * self.number
    }

    /// The error correction blocks at `level`.
    pub fn getECBlocksForLevel(&self, level: ErrorCorrectionLevel) -> (r: ECBlocks)
        ensures
            ec_table(self.number(), level) == Some(
                (
                    r.ec_codewords_per_block as int,
                    r.count1 as int,
                    r.data_codewords1 as int,
                    r.count2 as int,
                    r.data_codewords2 as int,
                ),
            ),
            r.count1 + r.count2 <= 100,
            r.ec_codewords_per_block <= 30,
    {
        proof {
            use_type_invariant(self);
            lemma_table_bounds(self.number(), level);
        }
        let e = ec_table_entry(self.number, level);
        ECBlocks {
            ec_codewords_per_block: e.0,
            count1: e.1,
            data_codewords1: e.2,
            count2: e.3,
            data_codewords2: e.4,
        }
    }

    /// All codewords of the symbol.
    pub fn getTotalCodewords(&self) -> (r: u32)
        ensures
            r == total_codewords(self.number()),
            r <= 3706,
    {
        proof {
            use_type_invariant(self);
            lemma_table_bounds(self.number(), ErrorCorrectionLevel::L);
        }
        let e = self.getECBlocksForLevel(ErrorCorrectionLevel::L);
        e.ec_codewords_per_block * (e.count1 + e.count2) + e.count1 * e.data_codewords1 + e.count2
            * e.data_codewords2
    }
}

/// Every entry of the table: at most 100 blocks, at most 30 error
/// correction codewords per block, the same total for every level, at
/// most 3706 codewords.
pub proof fn lemma_table_bounds(version: int, level: ErrorCorrectionLevel)
    requires
        1 <= version <= 40,
    ensures
        ec_table(version, level) is Some,
        ({
            let e = ec_entry(version, level);
            &&& 0 < e.1 && 0 <= e.3 && e.1 + e.3 <= 100
            &&& 7 <= e.0 <= 30
            &&& 0 < e.2 <= 123 && e.4 <= 124
            &&& e.3 > 0 ==> e.4 == e.2 + 1
            &&& e.0 * (e.1 + e.3) + e.1 * e.2 + e.3 * e.4 == total_codewords(version)
            &&& 26 <= total_codewords(version) <= 3706
        }),
{
    match level {
        ErrorCorrectionLevel::L => {
            if version == 1 {
            } else if version == 2 {
            } else if version == 3 {
            } else if version == 4 {
            } else if version == 5 {
            } else if version == 6 {
            } else if version == 7 {
            } else if version == 8 {
            } else if version == 9 {
            } else if version == 10 {
            } else if version == 11 {
            } else if version == 12 {
            } else if version == 13 {
            } else if version == 14 {
            } else if version == 15 {
            } else if version == 16 {
            } else if version == 17 {
            } else if version == 18 {
            } else if version == 19 {
            } else if version == 20 {
            } else if version == 21 {
            } else if version == 22 {
            } else if version == 23 {
            } else if version == 24 {
            } else if version == 25 {
            } else if version == 26 {
            } else if version == 27 {
            } else if version == 28 {
            } else if version == 29 {
            } else if version == 30 {
            } else if version == 31 {
            } else if version == 32 {
            } else if version == 33 {
            } else if version == 34 {
            } else if version == 35 {
            } else if version == 36 {
            } else if version == 37 {
            } else if version == 38 {
            } else if version == 39 {
            } else if version == 40 {
            }
        },
        ErrorCorrectionLevel::M => {
            if version == 1 {
            } else if version == 2 {
            } else if version == 3 {
            } else if version == 4 {
            } else if version == 5 {
            } else if version == 6 {
            } else if version == 7 {
            } else if version == 8 {
            } else if version == 9 {
            } else if version == 10 {
            } else if version == 11 {
            } else if version == 12 {
            } else if version == 13 {
            } else if version == 14 {
            } else if version == 15 {
            } else if version == 16 {
            } else if version == 17 {
            } else if version == 18 {
            } else if version == 19 {
            } else if version == 20 {
            } else if version == 21 {
            } else if version == 22 {
            } else if version == 23 {
            } else if version == 24 {
            } else if version == 25 {
            } else if version == 26 {
            } else if version == 27 {
            } else if version == 28 {
            } else if version == 29 {
            } else if version == 30 {
            } else if version == 31 {
            } else if version == 32 {
            } else if version == 33 {
            } else if version == 34 {
            } else if version == 35 {
            } else if version == 36 {
            } else if version == 37 {
            } else if version == 38 {
            } else if version == 39 {
            } else if version == 40 {
            }
        },
        ErrorCorrectionLevel::Q => {
            if version == 1 {
            } else if version == 2 {
            } else if version == 3 {
            } else if version == 4 {
            } else if version == 5 {
            } else if version == 6 {
            } else if version == 7 {
            } else if version == 8 {
            } else if version == 9 {
            } else if version == 10 {
            } else if version == 11 {
            } else if version == 12 {
            } else if version == 13 {
            } else if version == 14 {
            } else if version == 15 {
            } else if version == 16 {
            } else if version == 17 {
            } else if version == 18 {
            } else if version == 19 {
            } else if version == 20 {
            } else if version == 21 {
            } else if version == 22 {
            } else if version == 23 {
            } else if version == 24 {
            } else if version == 25 {
            } else if version == 26 {
            } else if version == 27 {
            } else if version == 28 {
            } else if version == 29 {
            } else if version == 30 {
            } else if version == 31 {
            } else if version == 32 {
            } else if version == 33 {
            } else if version == 34 {
            } else if version == 35 {
            } else if version == 36 {
            } else if version == 37 {
            } else if version == 38 {
            } else if version == 39 {
            } else if version == 40 {
            }
        },
        ErrorCorrectionLevel::H => {
            if version == 1 {
            } else if version == 2 {
            } else if version == 3 {
            } else if version == 4 {
            } else if version == 5 {
            } else if version == 6 {
            } else if version == 7 {
            } else if version == 8 {
            } else if version == 9 {
            } else if version == 10 {
            } else if version == 11 {
            } else if version == 12 {
            } else if version == 13 {
            } else if version == 14 {
            } else if version == 15 {
            } else if version == 16 {
            } else if version == 17 {
            } else if version == 18 {
            } else if version == 19 {
            } else if version == 20 {
            } else if version == 21 {
            } else if version == 22 {
            } else if version == 23 {
            } else if version == 24 {
            } else if version == 25 {
            } else if version == 26 {
            } else if version == 27 {
            } else if version == 28 {
            } else if version == 29 {
            } else if version == 30 {
            } else if version == 31 {
            } else if version == 32 {
            } else if version == 33 {
            } else if version == 34 {
            } else if version == 35 {
            } else if version == 36 {
            } else if version == 37 {
            } else if version == 38 {
            } else if version == 39 {
            } else if version == 40 {
            }
        },
    }
}

/// A larger version holds more data codewords at every level.
pub proof fn lemma_data_codewords_grow(version: int, level: ErrorCorrectionLevel)
    requires
        1 <= version < 40,
    ensures
        data_codewords(version, level) < data_codewords(version + 1, level),
{
    match level {
        ErrorCorrectionLevel::L => {
                if version == 1 {
                } else if version == 2 {
                } else if version == 3 {
                } else if version == 4 {
                } else if version == 5 {
                } else if version == 6 {
                } else if version == 7 {
                } else if version == 8 {
                } else if version == 9 {
                } else if version == 10 {
                } else if version == 11 {
                } else if version == 12 {
                } else if version == 13 {
                } else if version == 14 {
                } else if version == 15 {
                } else if version == 16 {
                } else if version == 17 {
                } else if version == 18 {
                } else if version == 19 {
                } else if version == 20 {
                } else if version == 21 {
                } else if version == 22 {
                } else if version == 23 {
                } else if version == 24 {
                } else if version == 25 {
                } else if version == 26 {
                } else if version == 27 {
                } else if version == 28 {
                } else if version == 29 {
                } else if version == 30 {
                } else if version == 31 {
                } else if version == 32 {
                } else if version == 33 {
                } else if version == 34 {
                } else if version == 35 {
                } else if version == 36 {
                } else if version == 37 {
                } else if version == 38 {
                } else if version == 39 {
            }
        },
        ErrorCorrectionLevel::M => {
                if version == 1 {
                } else if version == 2 {
                } else if version == 3 {
                } else if version == 4 {
                } else if version == 5 {
                } else if version == 6 {
                } else if version == 7 {
                } else if version == 8 {
                } else if version == 9 {
                } else if version == 10 {
                } else if version == 11 {
                } else if version == 12 {
                } else if version == 13 {
                } else if version == 14 {
                } else if version == 15 {
                } else if version == 16 {
                } else if version == 17 {
                } else if version == 18 {
                } else if version == 19 {
                } else if version == 20 {
                } else if version == 21 {
                } else if version == 22 {
                } else if version == 23 {
                } else if version == 24 {
                } else if version == 25 {
                } else if version == 26 {
                } else if version == 27 {
                } else if version == 28 {
                } else if version == 29 {
                } else if version == 30 {
                } else if version == 31 {
                } else if version == 32 {
                } else if version == 33 {
                } else if version == 34 {
                } else if version == 35 {
                } else if version == 36 {
                } else if version == 37 {
                } else if version == 38 {
                } else if version == 39 {
            }
        },
        ErrorCorrectionLevel::Q => {
                if version == 1 {
                } else if version == 2 {
                } else if version == 3 {
                } else if version == 4 {
                } else if version == 5 {
                } else if version == 6 {
                } else if version == 7 {
                } else if version == 8 {
                } else if version == 9 {
                } else if version == 10 {
                } else if version == 11 {
                } else if version == 12 {
                } else if version == 13 {
                } else if version == 14 {
                } else if version == 15 {
                } else if version == 16 {
                } else if version == 17 {
                } else if version == 18 {
                } else if version == 19 {
                } else if version == 20 {
                } else if version == 21 {
                } else if version == 22 {
                } else if version == 23 {
                } else if version == 24 {
                } else if version == 25 {
                } else if version == 26 {
                } else if version == 27 {
                } else if version == 28 {
                } else if version == 29 {
                } else if version == 30 {
                } else if version == 31 {
                } else if version == 32 {
                } else if version == 33 {
                } else if version == 34 {
                } else if version == 35 {
                } else if version == 36 {
                } else if version == 37 {
                } else if version == 38 {
                } else if version == 39 {
            }
        },
        ErrorCorrectionLevel::H => {
                if version == 1 {
                } else if version == 2 {
                } else if version == 3 {
                } else if version == 4 {
                } else if version == 5 {
                } else if version == 6 {
                } else if version == 7 {
                } else if version == 8 {
                } else if version == 9 {
                } else if version == 10 {
                } else if version == 11 {
                } else if version == 12 {
                } else if version == 13 {
                } else if version == 14 {
                } else if version == 15 {
                } else if version == 16 {
                } else if version == 17 {
                } else if version == 18 {
                } else if version == 19 {
                } else if version == 20 {
                } else if version == 21 {
                } else if version == 22 {
                } else if version == 23 {
                } else if version == 24 {
                } else if version == 25 {
                } else if version == 26 {
                } else if version == 27 {
                } else if version == 28 {
                } else if version == 29 {
                } else if version == 30 {
                } else if version == 31 {
                } else if version == 32 {
                } else if version == 33 {
                } else if version == 34 {
                } else if version == 35 {
                } else if version == 36 {
                } else if version == 37 {
                } else if version == 38 {
                } else if version == 39 {
            }
        },
    }
}


/// The codewords a symbol of `version` holds: its modules less those of
/// the function patterns (finder patterns with their separators, timing
/// patterns, alignment patterns, format information and, from version 7,
/// version information), counted in whole bytes.
pub open spec fn raw_codewords(version: int) -> int {
    let side = 17 + 4 * version;
    let finders = 3 * 64 + 1 + 30;
    let timing = 2 * (side - 16);
    let alignments = version / 7 + 2;
    let alignment_modules = if version >= 2 {
        25 * (alignments * alignments - 3) - 10 * (alignments - 2)
    } else {
        0
    };
    let version_info = if version >= 7 { 36int } else { 0int };
    (side * side - finders - timing - alignment_modules - version_info) / 8
}

/// Error correction codewords per block, by version (from 1), at each
/// level, as the standard lists them.
pub open spec fn standard_ec_per_block(level: ErrorCorrectionLevel) -> Seq<int> {
    match level {
        ErrorCorrectionLevel::L => seq![7, 10, 15, 20, 26, 18, 20, 24, 30, 18, 20, 24, 26, 30, 22, 24, 28, 30, 28, 28, 28, 28, 30, 30, 26, 28, 30, 30, 30, 30, 30, 30, 30, 30, 30, 30, 30, 30, 30, 30],
        ErrorCorrectionLevel::M => seq![10, 16, 26, 18, 24, 16, 18, 22, 22, 26, 30, 22, 22, 24, 24, 28, 28, 26, 26, 26, 26, 28, 28, 28, 28, 28, 28, 28, 28, 28, 28, 28, 28, 28, 28, 28, 28, 28, 28, 28],
        ErrorCorrectionLevel::Q => seq![13, 22, 18, 26, 18, 24, 18, 22, 20, 24, 28, 26, 24, 20, 30, 24, 28, 28, 26, 30, 28, 30, 30, 30, 30, 28, 30, 30, 30, 30, 30, 30, 30, 30, 30, 30, 30, 30, 30, 30],
        ErrorCorrectionLevel::H => seq![17, 28, 22, 16, 22, 28, 26, 26, 24, 28, 24, 28, 22, 24, 24, 30, 28, 28, 26, 28, 30, 24, 30, 30, 30, 30, 30, 30, 30, 30, 30, 30, 30, 30, 30, 30, 30, 30, 30, 30],
    }
}

/// The number of error correction blocks, by version (from 1), at each
/// level, as the standard lists them.
pub open spec fn standard_block_count(level: ErrorCorrectionLevel) -> Seq<int> {
    match level {
        ErrorCorrectionLevel::L => seq![1, 1, 1, 1, 1, 2, 2, 2, 2, 4, 4, 4, 4, 4, 6, 6, 6, 6, 7, 8, 8, 9, 9, 10, 12, 12, 12, 13, 14, 15, 16, 17, 18, 19, 19, 20, 21, 22, 24, 25],
        ErrorCorrectionLevel::M => seq![1, 1, 1, 2, 2, 4, 4, 4, 5, 5, 5, 8, 9, 9, 10, 10, 11, 13, 14, 16, 17, 17, 18, 20, 21, 23, 25, 26, 28, 29, 31, 33, 35, 37, 38, 40, 43, 45, 47, 49],
        ErrorCorrectionLevel::Q => seq![1, 1, 2, 2, 4, 4, 6, 6, 8, 8, 8, 10, 12, 16, 12, 17, 16, 18, 21, 20, 23, 23, 25, 27, 29, 34, 34, 35, 38, 40, 43, 45, 48, 51, 53, 56, 59, 62, 65, 68],
        ErrorCorrectionLevel::H => seq![1, 1, 2, 4, 4, 4, 5, 6, 8, 8, 11, 11, 16, 16, 18, 16, 19, 21, 25, 25, 25, 34, 30, 32, 35, 37, 40, 42, 45, 48, 51, 54, 57, 60, 63, 66, 70, 74, 77, 81],
    }
}

/// Whether the block table entry of `version` at `level` is the standard
/// one (see `lemma_block_structure`).
pub open spec fn block_structure_ok(version: int, level: ErrorCorrectionLevel) -> bool {
    let raw = raw_codewords(version);
    let ecc = standard_ec_per_block(level)[version - 1];
    let blocks = standard_block_count(level)[version - 1];
    let long = raw % blocks;
    &&& ec_table(version, level) is Some
    &&& total_codewords(version) == raw
    &&& ec_entry(version, level) == (ecc, blocks - long, raw / blocks - ecc, long, if long > 0 {
        raw / blocks - ecc + 1
    } else {
        0
    })
}

/// The entries of level L are the standard ones.
proof fn lemma_block_structure_l(version: int)
    requires
        1 <= version <= 40,
    ensures
        block_structure_ok(version, ErrorCorrectionLevel::L),
{
    if version == 1 {
        assert(block_structure_ok(1, ErrorCorrectionLevel::L)) by (nonlinear_arith);
    } else if version == 2 {
        assert(block_structure_ok(2, ErrorCorrectionLevel::L)) by (nonlinear_arith);
    } else if version == 3 {
        assert(block_structure_ok(3, ErrorCorrectionLevel::L)) by (nonlinear_arith);
    } else if version == 4 {
        assert(block_structure_ok(4, ErrorCorrectionLevel::L)) by (nonlinear_arith);
    } else if version == 5 {
        assert(block_structure_ok(5, ErrorCorrectionLevel::L)) by (nonlinear_arith);
    } else if version == 6 {
        assert(block_structure_ok(6, ErrorCorrectionLevel::L)) by (nonlinear_arith);
    } else if version == 7 {
        assert(block_structure_ok(7, ErrorCorrectionLevel::L)) by (nonlinear_arith);
    } else if version == 8 {
        assert(block_structure_ok(8, ErrorCorrectionLevel::L)) by (nonlinear_arith);
    } else if version == 9 {
        assert(block_structure_ok(9, ErrorCorrectionLevel::L)) by (nonlinear_arith);
    } else if version == 10 {
        assert(block_structure_ok(10, ErrorCorrectionLevel::L)) by (nonlinear_arith);
    } else if version == 11 {
        assert(block_structure_ok(11, ErrorCorrectionLevel::L)) by (nonlinear_arith);
    } else if version == 12 {
        assert(block_structure_ok(12, ErrorCorrectionLevel::L)) by (nonlinear_arith);
    } else if version == 13 {
        assert(block_structure_ok(13, ErrorCorrectionLevel::L)) by (nonlinear_arith);
    } else if version == 14 {
        assert(block_structure_ok(14, ErrorCorrectionLevel::L)) by (nonlinear_arith);
    } else if version == 15 {
        assert(block_structure_ok(15, ErrorCorrectionLevel::L)) by (nonlinear_arith);
    } else if version == 16 {
        assert(block_structure_ok(16, ErrorCorrectionLevel::L)) by (nonlinear_arith);
    } else if version == 17 {
        assert(block_structure_ok(17, ErrorCorrectionLevel::L)) by (nonlinear_arith);
    } else if version == 18 {
        assert(block_structure_ok(18, ErrorCorrectionLevel::L)) by (nonlinear_arith);
    } else if version == 19 {
        assert(block_structure_ok(19, ErrorCorrectionLevel::L)) by (nonlinear_arith);
    } else if version == 20 {
        assert(block_structure_ok(20, ErrorCorrectionLevel::L)) by (nonlinear_arith);
    } else if version == 21 {
        assert(block_structure_ok(21, ErrorCorrectionLevel::L)) by (nonlinear_arith);
    } else if version == 22 {
        assert(block_structure_ok(22, ErrorCorrectionLevel::L)) by (nonlinear_arith);
    } else if version == 23 {
        assert(block_structure_ok(23, ErrorCorrectionLevel::L)) by (nonlinear_arith);
    } else if version == 24 {
        assert(block_structure_ok(24, ErrorCorrectionLevel::L)) by (nonlinear_arith);
    } else if version == 25 {
        assert(block_structure_ok(25, ErrorCorrectionLevel::L)) by (nonlinear_arith);
    } else if version == 26 {
        assert(block_structure_ok(26, ErrorCorrectionLevel::L)) by (nonlinear_arith);
    } else if version == 27 {
        assert(block_structure_ok(27, ErrorCorrectionLevel::L)) by (nonlinear_arith);
    } else if version == 28 {
        assert(block_structure_ok(28, ErrorCorrectionLevel::L)) by (nonlinear_arith);
    } else if version == 29 {
        assert(block_structure_ok(29, ErrorCorrectionLevel::L)) by (nonlinear_arith);
    } else if version == 30 {
        assert(block_structure_ok(30, ErrorCorrectionLevel::L)) by (nonlinear_arith);
    } else if version == 31 {
        assert(block_structure_ok(31, ErrorCorrectionLevel::L)) by (nonlinear_arith);
    } else if version == 32 {
        assert(block_structure_ok(32, ErrorCorrectionLevel::L)) by (nonlinear_arith);
    } else if version == 33 {
        assert(block_structure_ok(33, ErrorCorrectionLevel::L)) by (nonlinear_arith);
    } else if version == 34 {
        assert(block_structure_ok(34, ErrorCorrectionLevel::L)) by (nonlinear_arith);
    } else if version == 35 {
        assert(block_structure_ok(35, ErrorCorrectionLevel::L)) by (nonlinear_arith);
    } else if version == 36 {
        assert(block_structure_ok(36, ErrorCorrectionLevel::L)) by (nonlinear_arith);
    } else if version == 37 {
        assert(block_structure_ok(37, ErrorCorrectionLevel::L)) by (nonlinear_arith);
    } else if version == 38 {
        assert(block_structure_ok(38, ErrorCorrectionLevel::L)) by (nonlinear_arith);
    } else if version == 39 {
        assert(block_structure_ok(39, ErrorCorrectionLevel::L)) by (nonlinear_arith);
    } else if version == 40 {
        assert(block_structure_ok(40, ErrorCorrectionLevel::L)) by (nonlinear_arith);
    }
}

/// The entries of level M are the standard ones.
proof fn lemma_block_structure_m(version: int)
    requires
        1 <= version <= 40,
    ensures
        block_structure_ok(version, ErrorCorrectionLevel::M),
{
    if version == 1 {
        assert(block_structure_ok(1, ErrorCorrectionLevel::M)) by (nonlinear_arith);
    } else if version == 2 {
        assert(block_structure_ok(2, ErrorCorrectionLevel::M)) by (nonlinear_arith);
    } else if version == 3 {
        assert(block_structure_ok(3, ErrorCorrectionLevel::M)) by (nonlinear_arith);
    } else if version == 4 {
        assert(block_structure_ok(4, ErrorCorrectionLevel::M)) by (nonlinear_arith);
    } else if version == 5 {
        assert(block_structure_ok(5, ErrorCorrectionLevel::M)) by (nonlinear_arith);
    } else if version == 6 {
        assert(block_structure_ok(6, ErrorCorrectionLevel::M)) by (nonlinear_arith);
    } else if version == 7 {
        assert(block_structure_ok(7, ErrorCorrectionLevel::M)) by (nonlinear_arith);
    } else if version == 8 {
        assert(block_structure_ok(8, ErrorCorrectionLevel::M)) by (nonlinear_arith);
    } else if version == 9 {
        assert(block_structure_ok(9, ErrorCorrectionLevel::M)) by (nonlinear_arith);
    } else if version == 10 {
        assert(block_structure_ok(10, ErrorCorrectionLevel::M)) by (nonlinear_arith);
    } else if version == 11 {
        assert(block_structure_ok(11, ErrorCorrectionLevel::M)) by (nonlinear_arith);
    } else if version == 12 {
        assert(block_structure_ok(12, ErrorCorrectionLevel::M)) by (nonlinear_arith);
    } else if version == 13 {
        assert(block_structure_ok(13, ErrorCorrectionLevel::M)) by (nonlinear_arith);
    } else if version == 14 {
        assert(block_structure_ok(14, ErrorCorrectionLevel::M)) by (nonlinear_arith);
    } else if version == 15 {
        assert(block_structure_ok(15, ErrorCorrectionLevel::M)) by (nonlinear_arith);
    } else if version == 16 {
        assert(block_structure_ok(16, ErrorCorrectionLevel::M)) by (nonlinear_arith);
    } else if version == 17 {
        assert(block_structure_ok(17, ErrorCorrectionLevel::M)) by (nonlinear_arith);
    } else if version == 18 {
        assert(block_structure_ok(18, ErrorCorrectionLevel::M)) by (nonlinear_arith);
    } else if version == 19 {
        assert(block_structure_ok(19, ErrorCorrectionLevel::M)) by (nonlinear_arith);
    } else if version == 20 {
        assert(block_structure_ok(20, ErrorCorrectionLevel::M)) by (nonlinear_arith);
    } else if version == 21 {
        assert(block_structure_ok(21, ErrorCorrectionLevel::M)) by (nonlinear_arith);
    } else if version == 22 {
        assert(block_structure_ok(22, ErrorCorrectionLevel::M)) by (nonlinear_arith);
    } else if version == 23 {
        assert(block_structure_ok(23, ErrorCorrectionLevel::M)) by (nonlinear_arith);
    } else if version == 24 {
        assert(block_structure_ok(24, ErrorCorrectionLevel::M)) by (nonlinear_arith);
    } else if version == 25 {
        assert(block_structure_ok(25, ErrorCorrectionLevel::M)) by (nonlinear_arith);
    } else if version == 26 {
        assert(block_structure_ok(26, ErrorCorrectionLevel::M)) by (nonlinear_arith);
    } else if version == 27 {
        assert(block_structure_ok(27, ErrorCorrectionLevel::M)) by (nonlinear_arith);
    } else if version == 28 {
        assert(block_structure_ok(28, ErrorCorrectionLevel::M)) by (nonlinear_arith);
    } else if version == 29 {
        assert(block_structure_ok(29, ErrorCorrectionLevel::M)) by (nonlinear_arith);
    } else if version == 30 {
        assert(block_structure_ok(30, ErrorCorrectionLevel::M)) by (nonlinear_arith);
    } else if version == 31 {
        assert(block_structure_ok(31, ErrorCorrectionLevel::M)) by (nonlinear_arith);
    } else if version == 32 {
        assert(block_structure_ok(32, ErrorCorrectionLevel::M)) by (nonlinear_arith);
    } else if version == 33 {
        assert(block_structure_ok(33, ErrorCorrectionLevel::M)) by (nonlinear_arith);
    } else if version == 34 {
        assert(block_structure_ok(34, ErrorCorrectionLevel::M)) by (nonlinear_arith);
    } else if version == 35 {
        assert(block_structure_ok(35, ErrorCorrectionLevel::M)) by (nonlinear_arith);
    } else if version == 36 {
        assert(block_structure_ok(36, ErrorCorrectionLevel::M)) by (nonlinear_arith);
    } else if version == 37 {
        assert(block_structure_ok(37, ErrorCorrectionLevel::M)) by (nonlinear_arith);
    } else if version == 38 {
        assert(block_structure_ok(38, ErrorCorrectionLevel::M)) by (nonlinear_arith);
    } else if version == 39 {
        assert(block_structure_ok(39, ErrorCorrectionLevel::M)) by (nonlinear_arith);
    } else if version == 40 {
        assert(block_structure_ok(40, ErrorCorrectionLevel::M)) by (nonlinear_arith);
    }
}

/// The entries of level Q are the standard ones.
proof fn lemma_block_structure_q(version: int)
    requires
        1 <= version <= 40,
    ensures
        block_structure_ok(version, ErrorCorrectionLevel::Q),
{
    if version == 1 {
        assert(block_structure_ok(1, ErrorCorrectionLevel::Q)) by (nonlinear_arith);
    } else if version == 2 {
        assert(block_structure_ok(2, ErrorCorrectionLevel::Q)) by (nonlinear_arith);
    } else if version == 3 {
        assert(block_structure_ok(3, ErrorCorrectionLevel::Q)) by (nonlinear_arith);
    } else if version == 4 {
        assert(block_structure_ok(4, ErrorCorrectionLevel::Q)) by (nonlinear_arith);
    } else if version == 5 {
        assert(block_structure_ok(5, ErrorCorrectionLevel::Q)) by (nonlinear_arith);
    } else if version == 6 {
        assert(block_structure_ok(6, ErrorCorrectionLevel::Q)) by (nonlinear_arith);
    } else if version == 7 {
        assert(block_structure_ok(7, ErrorCorrectionLevel::Q)) by (nonlinear_arith);
    } else if version == 8 {
        assert(block_structure_ok(8, ErrorCorrectionLevel::Q)) by (nonlinear_arith);
    } else if version == 9 {
        assert(block_structure_ok(9, ErrorCorrectionLevel::Q)) by (nonlinear_arith);
    } else if version == 10 {
        assert(block_structure_ok(10, ErrorCorrectionLevel::Q)) by (nonlinear_arith);
    } else if version == 11 {
        assert(block_structure_ok(11, ErrorCorrectionLevel::Q)) by (nonlinear_arith);
    } else if version == 12 {
        assert(block_structure_ok(12, ErrorCorrectionLevel::Q)) by (nonlinear_arith);
    } else if version == 13 {
        assert(block_structure_ok(13, ErrorCorrectionLevel::Q)) by (nonlinear_arith);
    } else if version == 14 {
        assert(block_structure_ok(14, ErrorCorrectionLevel::Q)) by (nonlinear_arith);
    } else if version == 15 {
        assert(block_structure_ok(15, ErrorCorrectionLevel::Q)) by (nonlinear_arith);
    } else if version == 16 {
        assert(block_structure_ok(16, ErrorCorrectionLevel::Q)) by (nonlinear_arith);
    } else if version == 17 {
        assert(block_structure_ok(17, ErrorCorrectionLevel::Q)) by (nonlinear_arith);
    } else if version == 18 {
        assert(block_structure_ok(18, ErrorCorrectionLevel::Q)) by (nonlinear_arith);
    } else if version == 19 {
        assert(block_structure_ok(19, ErrorCorrectionLevel::Q)) by (nonlinear_arith);
    } else if version == 20 {
        assert(block_structure_ok(20, ErrorCorrectionLevel::Q)) by (nonlinear_arith);
    } else if version == 21 {
        assert(block_structure_ok(21, ErrorCorrectionLevel::Q)) by (nonlinear_arith);
    } else if version == 22 {
        assert(block_structure_ok(22, ErrorCorrectionLevel::Q)) by (nonlinear_arith);
    } else if version == 23 {
        assert(block_structure_ok(23, ErrorCorrectionLevel::Q)) by (nonlinear_arith);
    } else if version == 24 {
        assert(block_structure_ok(24, ErrorCorrectionLevel::Q)) by (nonlinear_arith);
    } else if version == 25 {
        assert(block_structure_ok(25, ErrorCorrectionLevel::Q)) by (nonlinear_arith);
    } else if version == 26 {
        assert(block_structure_ok(26, ErrorCorrectionLevel::Q)) by (nonlinear_arith);
    } else if version == 27 {
        assert(block_structure_ok(27, ErrorCorrectionLevel::Q)) by (nonlinear_arith);
    } else if version == 28 {
        assert(block_structure_ok(28, ErrorCorrectionLevel::Q)) by (nonlinear_arith);
    } else if version == 29 {
        assert(block_structure_ok(29, ErrorCorrectionLevel::Q)) by (nonlinear_arith);
    } else if version == 30 {
        assert(block_structure_ok(30, ErrorCorrectionLevel::Q)) by (nonlinear_arith);
    } else if version == 31 {
        assert(block_structure_ok(31, ErrorCorrectionLevel::Q)) by (nonlinear_arith);
    } else if version == 32 {
        assert(block_structure_ok(32, ErrorCorrectionLevel::Q)) by (nonlinear_arith);
    } else if version == 33 {
        assert(block_structure_ok(33, ErrorCorrectionLevel::Q)) by (nonlinear_arith);
    } else if version == 34 {
        assert(block_structure_ok(34, ErrorCorrectionLevel::Q)) by (nonlinear_arith);
    } else if version == 35 {
        assert(block_structure_ok(35, ErrorCorrectionLevel::Q)) by (nonlinear_arith);
    } else if version == 36 {
        assert(block_structure_ok(36, ErrorCorrectionLevel::Q)) by (nonlinear_arith);
    } else if version == 37 {
        assert(block_structure_ok(37, ErrorCorrectionLevel::Q)) by (nonlinear_arith);
    } else if version == 38 {
        assert(block_structure_ok(38, ErrorCorrectionLevel::Q)) by (nonlinear_arith);
    } else if version == 39 {
        assert(block_structure_ok(39, ErrorCorrectionLevel::Q)) by (nonlinear_arith);
    } else if version == 40 {
        assert(block_structure_ok(40, ErrorCorrectionLevel::Q)) by (nonlinear_arith);
    }
}

/// The entries of level H are the standard ones.
proof fn lemma_block_structure_h(version: int)
    requires
        1 <= version <= 40,
    ensures
        block_structure_ok(version, ErrorCorrectionLevel::H),
{
    if version == 1 {
        assert(block_structure_ok(1, ErrorCorrectionLevel::H)) by (nonlinear_arith);
    } else if version == 2 {
        assert(block_structure_ok(2, ErrorCorrectionLevel::H)) by (nonlinear_arith);
    } else if version == 3 {
        assert(block_structure_ok(3, ErrorCorrectionLevel::H)) by (nonlinear_arith);
    } else if version == 4 {
        assert(block_structure_ok(4, ErrorCorrectionLevel::H)) by (nonlinear_arith);
    } else if version == 5 {
        assert(block_structure_ok(5, ErrorCorrectionLevel::H)) by (nonlinear_arith);
    } else if version == 6 {
        assert(block_structure_ok(6, ErrorCorrectionLevel::H)) by (nonlinear_arith);
    } else if version == 7 {
        assert(block_structure_ok(7, ErrorCorrectionLevel::H)) by (nonlinear_arith);
    } else if version == 8 {
        assert(block_structure_ok(8, ErrorCorrectionLevel::H)) by (nonlinear_arith);
    } else if version == 9 {
        assert(block_structure_ok(9, ErrorCorrectionLevel::H)) by (nonlinear_arith);
    } else if version == 10 {
        assert(block_structure_ok(10, ErrorCorrectionLevel::H)) by (nonlinear_arith);
    } else if version == 11 {
        assert(block_structure_ok(11, ErrorCorrectionLevel::H)) by (nonlinear_arith);
    } else if version == 12 {
        assert(block_structure_ok(12, ErrorCorrectionLevel::H)) by (nonlinear_arith);
    } else if version == 13 {
        assert(block_structure_ok(13, ErrorCorrectionLevel::H)) by (nonlinear_arith);
    } else if version == 14 {
        assert(block_structure_ok(14, ErrorCorrectionLevel::H)) by (nonlinear_arith);
    } else if version == 15 {
        assert(block_structure_ok(15, ErrorCorrectionLevel::H)) by (nonlinear_arith);
    } else if version == 16 {
        assert(block_structure_ok(16, ErrorCorrectionLevel::H)) by (nonlinear_arith);
    } else if version == 17 {
        assert(block_structure_ok(17, ErrorCorrectionLevel::H)) by (nonlinear_arith);
    } else if version == 18 {
        assert(block_structure_ok(18, ErrorCorrectionLevel::H)) by (nonlinear_arith);
    } else if version == 19 {
        assert(block_structure_ok(19, ErrorCorrectionLevel::H)) by (nonlinear_arith);
    } else if version == 20 {
        assert(block_structure_ok(20, ErrorCorrectionLevel::H)) by (nonlinear_arith);
    } else if version == 21 {
        assert(block_structure_ok(21, ErrorCorrectionLevel::H)) by (nonlinear_arith);
    } else if version == 22 {
        assert(block_structure_ok(22, ErrorCorrectionLevel::H)) by (nonlinear_arith);
    } else if version == 23 {
        assert(block_structure_ok(23, ErrorCorrectionLevel::H)) by (nonlinear_arith);
    } else if version == 24 {
        assert(block_structure_ok(24, ErrorCorrectionLevel::H)) by (nonlinear_arith);
    } else if version == 25 {
        assert(block_structure_ok(25, ErrorCorrectionLevel::H)) by (nonlinear_arith);
    } else if version == 26 {
        assert(block_structure_ok(26, ErrorCorrectionLevel::H)) by (nonlinear_arith);
    } else if version == 27 {
        assert(block_structure_ok(27, ErrorCorrectionLevel::H)) by (nonlinear_arith);
    } else if version == 28 {
        assert(block_structure_ok(28, ErrorCorrectionLevel::H)) by (nonlinear_arith);
    } else if version == 29 {
        assert(block_structure_ok(29, ErrorCorrectionLevel::H)) by (nonlinear_arith);
    } else if version == 30 {
        assert(block_structure_ok(30, ErrorCorrectionLevel::H)) by (nonlinear_arith);
    } else if version == 31 {
        assert(block_structure_ok(31, ErrorCorrectionLevel::H)) by (nonlinear_arith);
    } else if version == 32 {
        assert(block_structure_ok(32, ErrorCorrectionLevel::H)) by (nonlinear_arith);
    } else if version == 33 {
        assert(block_structure_ok(33, ErrorCorrectionLevel::H)) by (nonlinear_arith);
    } else if version == 34 {
        assert(block_structure_ok(34, ErrorCorrectionLevel::H)) by (nonlinear_arith);
    } else if version == 35 {
        assert(block_structure_ok(35, ErrorCorrectionLevel::H)) by (nonlinear_arith);
    } else if version == 36 {
        assert(block_structure_ok(36, ErrorCorrectionLevel::H)) by (nonlinear_arith);
    } else if version == 37 {
        assert(block_structure_ok(37, ErrorCorrectionLevel::H)) by (nonlinear_arith);
    } else if version == 38 {
        assert(block_structure_ok(38, ErrorCorrectionLevel::H)) by (nonlinear_arith);
    } else if version == 39 {
        assert(block_structure_ok(39, ErrorCorrectionLevel::H)) by (nonlinear_arith);
    } else if version == 40 {
        assert(block_structure_ok(40, ErrorCorrectionLevel::H)) by (nonlinear_arith);
    }
}

/// The block table is the standard one: a symbol holds the codewords its
/// modules leave after the function patterns, split into the standard
/// number of blocks, each with the standard number of error correction
/// codewords; the blocks share the data codewords as evenly as they can,
/// the longer blocks (one more data codeword) last.
pub proof fn lemma_block_structure(version: int, level: ErrorCorrectionLevel)
    requires
        1 <= version <= 40,
    ensures
        ({
            let raw = raw_codewords(version);
            let ecc = standard_ec_per_block(level)[version - 1];
            let blocks = standard_block_count(level)[version - 1];
            let long = raw % blocks;
            &&& total_codewords(version) == raw
            &&& ec_codewords_per_block(version, level) == ecc
            &&& num_blocks(version, level) == blocks
            &&& ec_entry(version, level) == (ecc, blocks - long, raw / blocks - ecc, long, if long > 0 {
                raw / blocks - ecc + 1
            } else {
                0
            })
        }),
{
    match level {
        ErrorCorrectionLevel::L => lemma_block_structure_l(version),
        ErrorCorrectionLevel::M => lemma_block_structure_m(version),
        ErrorCorrectionLevel::Q => lemma_block_structure_q(version),
        ErrorCorrectionLevel::H => lemma_block_structure_h(version),
    }
}


/// At every version the levels hold fewer data codewords in the order L,
/// M, Q, H, as each keeps more error correction.
pub proof fn lemma_capacity_by_level(version: int)
    requires
        1 <= version <= 40,
    ensures
        data_codewords(version, ErrorCorrectionLevel::L) > data_codewords(version, ErrorCorrectionLevel::M),
        data_codewords(version, ErrorCorrectionLevel::M) > data_codewords(version, ErrorCorrectionLevel::Q),
        data_codewords(version, ErrorCorrectionLevel::Q) > data_codewords(version, ErrorCorrectionLevel::H),
{
    if version == 1 {
        assert(data_codewords(1, ErrorCorrectionLevel::L) > data_codewords(1, ErrorCorrectionLevel::M) > data_codewords(1, ErrorCorrectionLevel::Q) > data_codewords(1, ErrorCorrectionLevel::H)) by (nonlinear_arith);
    } else if version == 2 {
        assert(data_codewords(2, ErrorCorrectionLevel::L) > data_codewords(2, ErrorCorrectionLevel::M) > data_codewords(2, ErrorCorrectionLevel::Q) > data_codewords(2, ErrorCorrectionLevel::H)) by (nonlinear_arith);
    } else if version == 3 {
        assert(data_codewords(3, ErrorCorrectionLevel::L) > data_codewords(3, ErrorCorrectionLevel::M) > data_codewords(3, ErrorCorrectionLevel::Q) > data_codewords(3, ErrorCorrectionLevel::H)) by (nonlinear_arith);
    } else if version == 4 {
        assert(data_codewords(4, ErrorCorrectionLevel::L) > data_codewords(4, ErrorCorrectionLevel::M) > data_codewords(4, ErrorCorrectionLevel::Q) > data_codewords(4, ErrorCorrectionLevel::H)) by (nonlinear_arith);
    } else if version == 5 {
        assert(data_codewords(5, ErrorCorrectionLevel::L) > data_codewords(5, ErrorCorrectionLevel::M) > data_codewords(5, ErrorCorrectionLevel::Q) > data_codewords(5, ErrorCorrectionLevel::H)) by (nonlinear_arith);
    } else if version == 6 {
        assert(data_codewords(6, ErrorCorrectionLevel::L) > data_codewords(6, ErrorCorrectionLevel::M) > data_codewords(6, ErrorCorrectionLevel::Q) > data_codewords(6, ErrorCorrectionLevel::H)) by (nonlinear_arith);
    } else if version == 7 {
        assert(data_codewords(7, ErrorCorrectionLevel::L) > data_codewords(7, ErrorCorrectionLevel::M) > data_codewords(7, ErrorCorrectionLevel::Q) > data_codewords(7, ErrorCorrectionLevel::H)) by (nonlinear_arith);
    } else if version == 8 {
        assert(data_codewords(8, ErrorCorrectionLevel::L) > data_codewords(8, ErrorCorrectionLevel::M) > data_codewords(8, ErrorCorrectionLevel::Q) > data_codewords(8, ErrorCorrectionLevel::H)) by (nonlinear_arith);
    } else if version == 9 {
        assert(data_codewords(9, ErrorCorrectionLevel::L) > data_codewords(9, ErrorCorrectionLevel::M) > data_codewords(9, ErrorCorrectionLevel::Q) > data_codewords(9, ErrorCorrectionLevel::H)) by (nonlinear_arith);
    } else if version == 10 {
        assert(data_codewords(10, ErrorCorrectionLevel::L) > data_codewords(10, ErrorCorrectionLevel::M) > data_codewords(10, ErrorCorrectionLevel::Q) > data_codewords(10, ErrorCorrectionLevel::H)) by (nonlinear_arith);
    } else if version == 11 {
        assert(data_codewords(11, ErrorCorrectionLevel::L) > data_codewords(11, ErrorCorrectionLevel::M) > data_codewords(11, ErrorCorrectionLevel::Q) > data_codewords(11, ErrorCorrectionLevel::H)) by (nonlinear_arith);
    } else if version == 12 {
        assert(data_codewords(12, ErrorCorrectionLevel::L) > data_codewords(12, ErrorCorrectionLevel::M) > data_codewords(12, ErrorCorrectionLevel::Q) > data_codewords(12, ErrorCorrectionLevel::H)) by (nonlinear_arith);
    } else if version == 13 {
        assert(data_codewords(13, ErrorCorrectionLevel::L) > data_codewords(13, ErrorCorrectionLevel::M) > data_codewords(13, ErrorCorrectionLevel::Q) > data_codewords(13, ErrorCorrectionLevel::H)) by (nonlinear_arith);
    } else if version == 14 {
        assert(data_codewords(14, ErrorCorrectionLevel::L) > data_codewords(14, ErrorCorrectionLevel::M) > data_codewords(14, ErrorCorrectionLevel::Q) > data_codewords(14, ErrorCorrectionLevel::H)) by (nonlinear_arith);
    } else if version == 15 {
        assert(data_codewords(15, ErrorCorrectionLevel::L) > data_codewords(15, ErrorCorrectionLevel::M) > data_codewords(15, ErrorCorrectionLevel::Q) > data_codewords(15, ErrorCorrectionLevel::H)) by (nonlinear_arith);
    } else if version == 16 {
        assert(data_codewords(16, ErrorCorrectionLevel::L) > data_codewords(16, ErrorCorrectionLevel::M) > data_codewords(16, ErrorCorrectionLevel::Q) > data_codewords(16, ErrorCorrectionLevel::H)) by (nonlinear_arith);
    } else if version == 17 {
        assert(data_codewords(17, ErrorCorrectionLevel::L) > data_codewords(17, ErrorCorrectionLevel::M) > data_codewords(17, ErrorCorrectionLevel::Q) > data_codewords(17, ErrorCorrectionLevel::H)) by (nonlinear_arith);
    } else if version == 18 {
        assert(data_codewords(18, ErrorCorrectionLevel::L) > data_codewords(18, ErrorCorrectionLevel::M) > data_codewords(18, ErrorCorrectionLevel::Q) > data_codewords(18, ErrorCorrectionLevel::H)) by (nonlinear_arith);
    } else if version == 19 {
        assert(data_codewords(19, ErrorCorrectionLevel::L) > data_codewords(19, ErrorCorrectionLevel::M) > data_codewords(19, ErrorCorrectionLevel::Q) > data_codewords(19, ErrorCorrectionLevel::H)) by (nonlinear_arith);
    } else if version == 20 {
        assert(data_codewords(20, ErrorCorrectionLevel::L) > data_codewords(20, ErrorCorrectionLevel::M) > data_codewords(20, ErrorCorrectionLevel::Q) > data_codewords(20, ErrorCorrectionLevel::H)) by (nonlinear_arith);
    } else if version == 21 {
        assert(data_codewords(21, ErrorCorrectionLevel::L) > data_codewords(21, ErrorCorrectionLevel::M) > data_codewords(21, ErrorCorrectionLevel::Q) > data_codewords(21, ErrorCorrectionLevel::H)) by (nonlinear_arith);
    } else if version == 22 {
        assert(data_codewords(22, ErrorCorrectionLevel::L) > data_codewords(22, ErrorCorrectionLevel::M) > data_codewords(22, ErrorCorrectionLevel::Q) > data_codewords(22, ErrorCorrectionLevel::H)) by (nonlinear_arith);
    } else if version == 23 {
        assert(data_codewords(23, ErrorCorrectionLevel::L) > data_codewords(23, ErrorCorrectionLevel::M) > data_codewords(23, ErrorCorrectionLevel::Q) > data_codewords(23, ErrorCorrectionLevel::H)) by (nonlinear_arith);
    } else if version == 24 {
        assert(data_codewords(24, ErrorCorrectionLevel::L) > data_codewords(24, ErrorCorrectionLevel::M) > data_codewords(24, ErrorCorrectionLevel::Q) > data_codewords(24, ErrorCorrectionLevel::H)) by (nonlinear_arith);
    } else if version == 25 {
        assert(data_codewords(25, ErrorCorrectionLevel::L) > data_codewords(25, ErrorCorrectionLevel::M) > data_codewords(25, ErrorCorrectionLevel::Q) > data_codewords(25, ErrorCorrectionLevel::H)) by (nonlinear_arith);
    } else if version == 26 {
        assert(data_codewords(26, ErrorCorrectionLevel::L) > data_codewords(26, ErrorCorrectionLevel::M) > data_codewords(26, ErrorCorrectionLevel::Q) > data_codewords(26, ErrorCorrectionLevel::H)) by (nonlinear_arith);
    } else if version == 27 {
        assert(data_codewords(27, ErrorCorrectionLevel::L) > data_codewords(27, ErrorCorrectionLevel::M) > data_codewords(27, ErrorCorrectionLevel::Q) > data_codewords(27, ErrorCorrectionLevel::H)) by (nonlinear_arith);
    } else if version == 28 {
        assert(data_codewords(28, ErrorCorrectionLevel::L) > data_codewords(28, ErrorCorrectionLevel::M) > data_codewords(28, ErrorCorrectionLevel::Q) > data_codewords(28, ErrorCorrectionLevel::H)) by (nonlinear_arith);
    } else if version == 29 {
        assert(data_codewords(29, ErrorCorrectionLevel::L) > data_codewords(29, ErrorCorrectionLevel::M) > data_codewords(29, ErrorCorrectionLevel::Q) > data_codewords(29, ErrorCorrectionLevel::H)) by (nonlinear_arith);
    } else if version == 30 {
        assert(data_codewords(30, ErrorCorrectionLevel::L) > data_codewords(30, ErrorCorrectionLevel::M) > data_codewords(30, ErrorCorrectionLevel::Q) > data_codewords(30, ErrorCorrectionLevel::H)) by (nonlinear_arith);
    } else if version == 31 {
        assert(data_codewords(31, ErrorCorrectionLevel::L) > data_codewords(31, ErrorCorrectionLevel::M) > data_codewords(31, ErrorCorrectionLevel::Q) > data_codewords(31, ErrorCorrectionLevel::H)) by (nonlinear_arith);
    } else if version == 32 {
        assert(data_codewords(32, ErrorCorrectionLevel::L) > data_codewords(32, ErrorCorrectionLevel::M) > data_codewords(32, ErrorCorrectionLevel::Q) > data_codewords(32, ErrorCorrectionLevel::H)) by (nonlinear_arith);
    } else if version == 33 {
        assert(data_codewords(33, ErrorCorrectionLevel::L) > data_codewords(33, ErrorCorrectionLevel::M) > data_codewords(33, ErrorCorrectionLevel::Q) > data_codewords(33, ErrorCorrectionLevel::H)) by (nonlinear_arith);
    } else if version == 34 {
        assert(data_codewords(34, ErrorCorrectionLevel::L) > data_codewords(34, ErrorCorrectionLevel::M) > data_codewords(34, ErrorCorrectionLevel::Q) > data_codewords(34, ErrorCorrectionLevel::H)) by (nonlinear_arith);
    } else if version == 35 {
        assert(data_codewords(35, ErrorCorrectionLevel::L) > data_codewords(35, ErrorCorrectionLevel::M) > data_codewords(35, ErrorCorrectionLevel::Q) > data_codewords(35, ErrorCorrectionLevel::H)) by (nonlinear_arith);
    } else if version == 36 {
        assert(data_codewords(36, ErrorCorrectionLevel::L) > data_codewords(36, ErrorCorrectionLevel::M) > data_codewords(36, ErrorCorrectionLevel::Q) > data_codewords(36, ErrorCorrectionLevel::H)) by (nonlinear_arith);
    } else if version == 37 {
        assert(data_codewords(37, ErrorCorrectionLevel::L) > data_codewords(37, ErrorCorrectionLevel::M) > data_codewords(37, ErrorCorrectionLevel::Q) > data_codewords(37, ErrorCorrectionLevel::H)) by (nonlinear_arith);
    } else if version == 38 {
        assert(data_codewords(38, ErrorCorrectionLevel::L) > data_codewords(38, ErrorCorrectionLevel::M) > data_codewords(38, ErrorCorrectionLevel::Q) > data_codewords(38, ErrorCorrectionLevel::H)) by (nonlinear_arith);
    } else if version == 39 {
        assert(data_codewords(39, ErrorCorrectionLevel::L) > data_codewords(39, ErrorCorrectionLevel::M) > data_codewords(39, ErrorCorrectionLevel::Q) > data_codewords(39, ErrorCorrectionLevel::H)) by (nonlinear_arith);
    } else if version == 40 {
        assert(data_codewords(40, ErrorCorrectionLevel::L) > data_codewords(40, ErrorCorrectionLevel::M) > data_codewords(40, ErrorCorrectionLevel::Q) > data_codewords(40, ErrorCorrectionLevel::H)) by (nonlinear_arith);
    }
}

/// A two-bit value with its low bit flipped.
pub open spec fn flip_low_bit(x: u32) -> int {
    if x % 2 == 0 {
        x + 1
    } else {
        x - 1
    }
}

/// The level bits of the format information are two bits, one value per
/// level, and with the low bit flipped they count the levels in the order
/// of their error correction: at every version, a level's flipped bits are
/// smaller than another's exactly when it holds more data codewords. (So
/// L, M, Q and H carry 01, 00, 11 and 10.)
pub proof fn lemma_level_bits_order(version: int, a: ErrorCorrectionLevel, b: ErrorCorrectionLevel)
    requires
        1 <= version <= 40,
    ensures
        level_bits(a) < 4,
        a != b ==> level_bits(a) != level_bits(b),
        (flip_low_bit(level_bits(a)) < flip_low_bit(level_bits(b))) == (data_codewords(version, a) > data_codewords(
            version,
            b,
        )),
{
    lemma_capacity_by_level(version);
}

} // verus!
