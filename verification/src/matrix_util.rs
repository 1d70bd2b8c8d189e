//! The module matrix of a QR Code: its function patterns (finder,
//! separator, timing and alignment patterns, the dark module, format and
//! version information), the zigzag order in which data bits fill the
//! remaining modules, and the data masks.
use vstd::prelude::*;
use crate::bit_array::BitArray;
use crate::byte_matrix::ByteMatrix;
use crate::error::EncodeError;
use crate::version::{ErrorCorrectionLevel, Version, level_bits, dimension};

verus! {

/// The row and column coordinates of the alignment pattern centres of each version.
pub open spec fn alignment_centres(version: int) -> Seq<int> {
    if version == 2 {
        seq![6int, 18int]
    } else if version == 3 {
        seq![6int, 22int]
    } else if version == 4 {
        seq![6int, 26int]
    } else if version == 5 {
        seq![6int, 30int]
    } else if version == 6 {
        seq![6int, 34int]
    } else if version == 7 {
        seq![6int, 22int, 38int]
    } else if version == 8 {
        seq![6int, 24int, 42int]
    } else if version == 9 {
        seq![6int, 26int, 46int]
    } else if version == 10 {
        seq![6int, 28int, 50int]
    } else if version == 11 {
        seq![6int, 30int, 54int]
    } else if version == 12 {
        seq![6int, 32int, 58int]
    } else if version == 13 {
        seq![6int, 34int, 62int]
    } else if version == 14 {
        seq![6int, 26int, 46int, 66int]
    } else if version == 15 {
        seq![6int, 26int, 48int, 70int]
    } else if version == 16 {
        seq![6int, 26int, 50int, 74int]
    } else if version == 17 {
        seq![6int, 30int, 54int, 78int]
    } else if version == 18 {
        seq![6int, 30int, 56int, 82int]
    } else if version == 19 {
        seq![6int, 30int, 58int, 86int]
    } else if version == 20 {
        seq![6int, 34int, 62int, 90int]
    } else if version == 21 {
        seq![6int, 28int, 50int, 72int, 94int]
    } else if version == 22 {
        seq![6int, 26int, 50int, 74int, 98int]
    } else if version == 23 {
        seq![6int, 30int, 54int, 78int, 102int]
    } else if version == 24 {
        seq![6int, 28int, 54int, 80int, 106int]
    } else if version == 25 {
        seq![6int, 32int, 58int, 84int, 110int]
    } else if version == 26 {
        seq![6int, 30int, 58int, 86int, 114int]
    } else if version == 27 {
        seq![6int, 34int, 62int, 90int, 118int]
    } else if version == 28 {
        seq![6int, 26int, 50int, 74int, 98int, 122int]
    } else if version == 29 {
        seq![6int, 30int, 54int, 78int, 102int, 126int]
    } else if version == 30 {
        seq![6int, 26int, 52int, 78int, 104int, 130int]
    } else if version == 31 {
        seq![6int, 30int, 56int, 82int, 108int, 134int]
    } else if version == 32 {
        seq![6int, 34int, 60int, 86int, 112int, 138int]
    } else if version == 33 {
        seq![6int, 30int, 58int, 86int, 114int, 142int]
    } else if version == 34 {
        seq![6int, 34int, 62int, 90int, 118int, 146int]
    } else if version == 35 {
        seq![6int, 30int, 54int, 78int, 102int, 126int, 150int]
    } else if version == 36 {
        seq![6int, 24int, 50int, 76int, 102int, 128int, 154int]
    } else if version == 37 {
        seq![6int, 28int, 54int, 80int, 106int, 132int, 158int]
    } else if version == 38 {
        seq![6int, 32int, 58int, 84int, 110int, 136int, 162int]
    } else if version == 39 {
        seq![6int, 26int, 54int, 82int, 110int, 138int, 166int]
    } else if version == 40 {
        seq![6int, 30int, 58int, 86int, 114int, 142int, 170int]
    } else {
        Seq::<int>::empty()
    }
}

/// Whether `(x, y)` lies in one of the three 7x7 finder patterns.
pub open spec fn in_finder(d: int, x: int, y: int) -> bool {
    (x < 7 && y < 7) || (x >= d - 7 && y < 7) || (x < 7 && y >= d - 7)
}

/// The module of a finder pattern at `(x, y)`: dark on the outer ring and
/// the 3x3 centre, light in between.
pub open spec fn finder_value(d: int, x: int, y: int) -> i8 {
    let lx = if x >= d - 7 { x - (d - 7) } else { x };
    let ly = if y >= d - 7 { y - (d - 7) } else { y };
    if lx == 0 || lx == 6 || ly == 0 || ly == 6 || (2 <= lx <= 4 && 2 <= ly <= 4) {
        1
    } else {
        0
    }
}

/// Whether `(x, y)` lies in the light separators around the finder patterns.
pub open spec fn in_separator(d: int, x: int, y: int) -> bool {
    ||| (y == 7 && x <= 7) || (x == 7 && y <= 6)
    ||| (y == 7 && x >= d - 8) || (x == d - 8 && y <= 6)
    ||| (y == d - 8 && x <= 7) || (x == 7 && y >= d - 7)
}

/// The centre in `centres` within two modules of `c`, if any.
pub open spec fn near_centre(centres: Seq<int>, c: int) -> Option<int>
    decreases centres.len(),
{
    if centres.len() == 0 {
        None
    } else if centres[0] - 2 <= c <= centres[0] + 2 {
        Some(centres[0])
    } else {
        near_centre(centres.drop_first(), c)
    }
}

/// The centre of the alignment pattern covering `(x, y)`, if any; the
/// centres that fall on finder patterns carry none.
pub open spec fn alignment_at(version: int, x: int, y: int) -> Option<(int, int)> {
    let d = dimension(version);
    let centres = alignment_centres(version);
    match (near_centre(centres, x), near_centre(centres, y)) {
        (Some(cx), Some(cy)) => if (cx == 6 && cy == 6) || (cx == 6 && cy == d - 7) || (cx == d - 7
            && cy == 6) {
            None
        } else {
            Some((cx, cy))
        },
        _ => None,
    }
}

/// The module of an alignment pattern centred on `(cx, cy)`: dark on the
/// outer ring and at the centre.
pub open spec fn alignment_value(cx: int, cy: int, x: int, y: int) -> i8 {
    let dx = x - cx;
    let dy = y - cy;
    if dx == 2 || dx == -2 || dy == 2 || dy == -2 || (dx == 0 && dy == 0) {
        1
    } else {
        0
    }
}

/// Whether `(x, y)` lies on a timing pattern: row 6 or column 6 between the
/// separators.
pub open spec fn in_timing(d: int, x: int, y: int) -> bool {
    (y == 6 && 8 <= x < d - 8) || (x == 6 && 8 <= y < d - 8)
}

/// Which bit (0 = least significant) of the format information sits at
/// `(x, y)`, if any: around the top-left finder, and split between the
/// top-right and bottom-left finders.
pub open spec fn format_index(d: int, x: int, y: int) -> Option<int> {
    if x == 8 && 0 <= y <= 5 {
        Some(y)
    } else if x == 8 && y == 7 {
        Some(6)
    } else if x == 8 && y == 8 {
        Some(7)
    } else if x == 7 && y == 8 {
        Some(8)
    } else if y == 8 && 0 <= x <= 5 {
        Some(14 - x)
    } else if y == 8 && d - 8 <= x < d {
        Some(d - 1 - x)
    } else if x == 8 && d - 7 <= y < d {
        Some(y - (d - 7) + 8)
    } else {
        None
    }
}

/// Which bit (0 = least significant) of the version information sits at
/// `(x, y)`, if any; only versions 7 and up carry it.
pub open spec fn version_info_index(version: int, x: int, y: int) -> Option<int> {
    let d = dimension(version);
    if version < 7 {
        None
    } else if 0 <= x < 6 && d - 11 <= y < d - 8 {
        Some(3 * x + (y - (d - 11)))
    } else if 0 <= y < 6 && d - 11 <= x < d - 8 {
        Some(3 * y + (x - (d - 11)))
    } else {
        None
    }
}

/// The `len` bits above the low `degree` bits of `value`, divided down from
/// bit `top` by the polynomial `poly` of degree `degree` over GF(2).
pub open spec fn gf2_reduce(value: u32, poly: u32, degree: nat, top: nat) -> u32
    decreases top,
{
    if top < degree || top >= 32 {
        value
    } else {
        let next = if (value >> (top as u32)) & 1 == 1 {
            value ^ (poly << ((top - degree) as u32))
        } else {
            value
        };
        if top == 0 {
            next
        } else {
            gf2_reduce(next, poly, degree, (top - 1) as nat)
        }
    }
}

/// The BCH check bits of `value`: the remainder of `value * x^degree`
/// divided by the generator `poly` of that degree over GF(2).
pub open spec fn bch_code(value: u32, poly: u32, degree: nat) -> u32 {
    gf2_reduce(value << (degree as u32), poly, degree, 31)
}

/// The generator of the format information code, x^10+x^8+x^5+x^4+x^2+x+1.
pub open spec fn type_info_poly() -> u32 {
    0x537
}

/// The generator of the version information code, x^12+x^11+x^10+x^9+x^8+x^5+x^2+1.
pub open spec fn version_info_poly() -> u32 {
    0x1f25
}

/// The fifteen format information bits for a level and mask pattern: the
/// level's two bits and the mask's three, their ten BCH check bits, all
/// masked with 0x5412.
pub open spec fn type_info_value(level: ErrorCorrectionLevel, mask: u32) -> u32 {
    let info = (level_bits(level) << 3u32) | mask;
    ((info << 10u32) | bch_code(info, type_info_poly(), 10)) ^ 0x5412u32
}

/// Reducing by the format generator clears every bit from `top` down to
/// bit 10: what is left fits in the ten check bits.
proof fn lemma_format_reduce_bound(value: u32, top: nat)
    requires
        10 <= top <= 31,
        top == 31 || value >> ((top + 1) as u32) == 0,
    ensures
        gf2_reduce(value, type_info_poly(), 10, top) < 1024,
    decreases top,
{
    let t: u32 = top as u32;
    let s: u32 = (top - 10) as u32;
    let t1: u32 = if top == 31 { 0 } else { (top + 1) as u32 };
    let next = if (value >> t) & 1 == 1 {
        value ^ (0x537u32 << s)
    } else {
        value
    };
    assert(next >> t == 0) by (bit_vector)
        requires
            10 <= t <= 31,
            s == t - 10,
            t < 31 ==> t1 == t + 1,
            t == 31 || value >> t1 == 0,
            next == (if (value >> t) & 1 == 1 { value ^ (0x537u32 << s) } else { value }),
    ;
    if top == 10 {
        assert(next < 1024) by (bit_vector)
            requires
                next >> 10u32 == 0,
        ;
        assert(gf2_reduce((next), type_info_poly(), 10, 9) == next);
    } else {
        assert(next >> (((top - 1) + 1) as u32) == 0);
        lemma_format_reduce_bound(next, (top - 1) as nat);
    }
}

/// The format information holds the level's two bits and the mask's three
/// above its ten check bits, under the 0x5412 mask: a reader that removes
/// the mask reads the level bits from bits 13-14 and the mask from bits
/// 10-12, and the value fits in fifteen bits.
pub proof fn lemma_format_info_fields(level: ErrorCorrectionLevel, mask: u32)
    requires
        mask < 8,
    ensures
        (type_info_value(level, mask) ^ 0x5412u32) >> 13u32 == level_bits(level),
        ((type_info_value(level, mask) ^ 0x5412u32) >> 10u32) & 7u32 == mask,
        (type_info_value(level, mask) ^ 0x5412u32) & 0x3ffu32 == bch_code(
            (level_bits(level) << 3u32) | mask,
            type_info_poly(),
            10,
        ),
        type_info_value(level, mask) < 0x8000,
{
    let lb = level_bits(level);
    let info = (lb << 3u32) | mask;
    assert(info < 32 && (info << 10u32) >> 15u32 == 0) by (bit_vector)
        requires
            lb < 4,
            mask < 8,
            info == (lb << 3u32) | mask,
    ;
    lemma_format_reduce_bound(info << 10u32, 31);
    let bch = bch_code(info, type_info_poly(), 10);
    assert(bch < 1024);
    let v = ((info << 10u32) | bch) ^ 0x5412u32;
    assert(v == type_info_value(level, mask));
    assert((v ^ 0x5412u32) >> 13u32 == lb && ((v ^ 0x5412u32) >> 10u32) & 7u32 == mask && (v ^ 0x5412u32)
        & 0x3ffu32 == bch && v < 0x8000) by (bit_vector)
        requires
            lb < 4,
            mask < 8,
            info == (lb << 3u32) | mask,
            bch < 1024,
            v == ((info << 10u32) | bch) ^ 0x5412u32,
    ;
}

/// The eighteen version information bits: six for the version and twelve
/// BCH check bits.
pub open spec fn version_info_value(version: int) -> u32 {
    ((version as u32) << 12u32) | bch_code(version as u32, version_info_poly(), 12)
}

/// Bit `i` of `value` as a module.
pub open spec fn bit_module(value: u32, i: int) -> i8 {
    if (value >> (i as u32)) & 1 == 1 {
        1
    } else {
        0
    }
}

/// Whether `(x, y)` is a function module: finder, separator, dark module,
/// alignment, timing, format or version information.
pub open spec fn is_function(version: int, x: int, y: int) -> bool {
    let d = dimension(version);
    ||| in_finder(d, x, y)
    ||| in_separator(d, x, y)
    ||| (x == 8 && y == d - 8)
    ||| alignment_at(version, x, y) is Some
    ||| in_timing(d, x, y)
    ||| format_index(d, x, y) is Some
    ||| version_info_index(version, x, y) is Some
}

/// The value of the function module at `(x, y)`.
pub open spec fn function_value(level: ErrorCorrectionLevel, mask: u32, version: int, x: int, y: int) -> i8 {
    let d = dimension(version);
    if in_finder(d, x, y) {
        finder_value(d, x, y)
    } else if in_separator(d, x, y) {
        0
    } else if x == 8 && y == d - 8 {
        1
    } else if alignment_at(version, x, y) is Some {
        match alignment_at(version, x, y) {
            Some((cx, cy)) => alignment_value(cx, cy, x, y),
            None => 0,
        }
    } else if in_timing(d, x, y) {
        if (x + y) % 2 == 0 { 1 } else { 0 }
    } else if format_index(d, x, y) is Some {
        bit_module(type_info_value(level, mask), format_index(d, x, y)->0)
    } else {
        bit_module(version_info_value(version), version_info_index(version, x, y)->0)
    }
}

/// Whether mask pattern `mask` inverts the module at `(x, y)`.
pub open spec fn mask_bit(mask: u32, x: int, y: int) -> bool {
    let intermediate = if mask == 0 {
        (y + x) % 2
    } else if mask == 1 {
        y % 2
    } else if mask == 2 {
        x % 3
    } else if mask == 3 {
        (y + x) % 3
    } else if mask == 4 {
        ((y / 2) + (x / 3)) % 2
    } else if mask == 5 {
        (y * x) % 2 + (y * x) % 3
    } else if mask == 6 {
        ((y * x) % 2 + (y * x) % 3) % 2
    } else {
        ((y * x) % 3 + (y + x) % 2) % 2
    };
    intermediate == 0
}

/// The right column of the `p`-th column pair of the zigzag, counting from
/// the right; the pairs skip the vertical timing column 6.
pub open spec fn pair_column(d: int, p: int) -> int {
    if d - 1 - 2 * p > 6 {
        d - 1 - 2 * p
    } else {
        d - 2 - 2 * p
    }
}

/// The module that the zigzag visits at row `step` of column pair `p`,
/// right (`i == 0`) or left (`i == 1`): upward in even pairs, downward in
/// odd ones.
pub open spec fn zigzag_module(d: int, p: int, step: int, i: int) -> (int, int) {
    (pair_column(d, p) - i, if p % 2 == 0 { d - 1 - step } else { step })
}

/// The (column pair, row step, side) at which the zigzag visits `(x, y)`,
/// for `x != 6`.
pub open spec fn zigzag_coords(d: int, x: int, y: int) -> (int, int, int) {
    let c = if x > 6 { x } else { x + 1 };
    let i = c % 2;
    let p = (d - 1 - (c + i)) / 2;
    let step = if p % 2 == 0 { d - 1 - y } else { y };
    (p, step, i)
}

/// The number of column pairs: every column but column 6, two at a time.
pub open spec fn num_pairs(d: int) -> int {
    (d - 1) / 2
}

/// Whether the zigzag visits `(p1, s1, i1)` before `(p2, s2, i2)`.
pub open spec fn zigzag_before(a: (int, int, int), b: (int, int, int)) -> bool {
    a.0 < b.0 || (a.0 == b.0 && (a.1 < b.1 || (a.1 == b.1 && a.2 < b.2)))
}

/// How many data modules (not function modules) the zigzag visits before
/// it reaches `(p, step, i)`.
pub open spec fn slots_before(version: int, p: int, step: int, i: int) -> int
    decreases p, step, i,
{
    let d = dimension(version);
    if p < 0 || step < 0 || i < 0 || (p == 0 && step == 0 && i == 0) {
        0
    } else {
        let prev: (int, int, int) = if i > 0 {
            (p, step, i - 1)
        } else if step > 0 {
            (p, step - 1, 1)
        } else {
            (p - 1, d - 1, 1)
        };
        let m = zigzag_module(d, prev.0, prev.1, prev.2);
        slots_before(version, prev.0, prev.1, prev.2) + if is_function(version, m.0, m.1) {
            0int
        } else {
            1int
        }
    }
}

/// The number of data modules of a symbol of `version`.
pub open spec fn data_capacity(version: int) -> int {
    slots_before(version, num_pairs(dimension(version)), 0, 0)
}

/// The module at `(x, y)` of the symbol for `bits` at `level` in `version`
/// with mask pattern `mask`: the function pattern module, or else the data
/// bit of its zigzag slot (clear past the end of `bits`), inverted where
/// the mask says.
pub open spec fn symbol_module(bits: Seq<bool>, level: ErrorCorrectionLevel, version: int, mask: u32, x: int, y: int) -> i8 {
    if is_function(version, x, y) {
        function_value(level, mask, version, x, y)
    } else {
        let z = zigzag_coords(dimension(version), x, y);
        let k = slots_before(version, z.0, z.1, z.2);
        let bit = k < bits.len() && bits[k];
        if bit != mask_bit(mask, x, y) { 1 } else { 0 }
    }
}

/// The whole symbol, row by row.
pub open spec fn symbol_matrix(bits: Seq<bool>, level: ErrorCorrectionLevel, version: int, mask: u32) -> Seq<i8> {
    let d = dimension(version);
    Seq::new((d * d) as nat, |k: int| symbol_module(bits, level, version, mask, k % d, k / d))
}

/// The alignment pattern centre coordinates of `version`.
pub fn alignment_centre_list(version: u32) -> (r: Vec<u32>)
    requires
        1 <= version <= 40,
    ensures
        r@.len() == alignment_centres(version as int).len(),
        forall|i: int| 0 <= i < r@.len() ==> r@[i] as int == #[trigger] alignment_centres(version as int)[i],
{
    let r: Vec<u32> = match version {
        1 => Vec::new(),
        2 => vec![6u32, 18u32],
        3 => vec![6u32, 22u32],
        4 => vec![6u32, 26u32],
        5 => vec![6u32, 30u32],
        6 => vec![6u32, 34u32],
        7 => vec![6u32, 22u32, 38u32],
        8 => vec![6u32, 24u32, 42u32],
        9 => vec![6u32, 26u32, 46u32],
        10 => vec![6u32, 28u32, 50u32],
        11 => vec![6u32, 30u32, 54u32],
        12 => vec![6u32, 32u32, 58u32],
        13 => vec![6u32, 34u32, 62u32],
        14 => vec![6u32, 26u32, 46u32, 66u32],
        15 => vec![6u32, 26u32, 48u32, 70u32],
        16 => vec![6u32, 26u32, 50u32, 74u32],
        17 => vec![6u32, 30u32, 54u32, 78u32],
        18 => vec![6u32, 30u32, 56u32, 82u32],
        19 => vec![6u32, 30u32, 58u32, 86u32],
        20 => vec![6u32, 34u32, 62u32, 90u32],
        21 => vec![6u32, 28u32, 50u32, 72u32, 94u32],
        22 => vec![6u32, 26u32, 50u32, 74u32, 98u32],
        23 => vec![6u32, 30u32, 54u32, 78u32, 102u32],
        24 => vec![6u32, 28u32, 54u32, 80u32, 106u32],
        25 => vec![6u32, 32u32, 58u32, 84u32, 110u32],
        26 => vec![6u32, 30u32, 58u32, 86u32, 114u32],
        27 => vec![6u32, 34u32, 62u32, 90u32, 118u32],
        28 => vec![6u32, 26u32, 50u32, 74u32, 98u32, 122u32],
        29 => vec![6u32, 30u32, 54u32, 78u32, 102u32, 126u32],
        30 => vec![6u32, 26u32, 52u32, 78u32, 104u32, 130u32],
        31 => vec![6u32, 30u32, 56u32, 82u32, 108u32, 134u32],
        32 => vec![6u32, 34u32, 60u32, 86u32, 112u32, 138u32],
        33 => vec![6u32, 30u32, 58u32, 86u32, 114u32, 142u32],
        34 => vec![6u32, 34u32, 62u32, 90u32, 118u32, 146u32],
        35 => vec![6u32, 30u32, 54u32, 78u32, 102u32, 126u32, 150u32],
        36 => vec![6u32, 24u32, 50u32, 76u32, 102u32, 128u32, 154u32],
        37 => vec![6u32, 28u32, 54u32, 80u32, 106u32, 132u32, 158u32],
        38 => vec![6u32, 32u32, 58u32, 84u32, 110u32, 136u32, 162u32],
        39 => vec![6u32, 26u32, 54u32, 82u32, 110u32, 138u32, 166u32],
        _ => vec![6u32, 30u32, 58u32, 86u32, 114u32, 142u32, 170u32],
    };
    proof {
        assert(r@ =~= alignment_centres(version as int).map_values(|c: int| c as u32));
    }
    r
}

/// The centre in `centres` within two modules of `c`, if any.
fn near_centre_exec(centres: &Vec<u32>, c: u32, Ghost(spec_centres): Ghost<Seq<int>>) -> (r: Option<u32>)
    requires
        centres@.len() == spec_centres.len(),
        forall|i: int| 0 <= i < centres@.len() ==> centres@[i] as int == #[trigger] spec_centres[i],
        forall|i: int| 0 <= i < centres@.len() ==> 2 <= #[trigger] centres@[i] <= 1000,
        c <= 1000,
    ensures
        match r {
            Some(v) => near_centre(spec_centres, c as int) == Some(v as int) && v <= 1000,
            None => near_centre(spec_centres, c as int) is None,
        },
{
    let n = centres.len();
    let mut i: usize = 0;
    assert(spec_centres.skip(0) =~= spec_centres);
    while i < n
        invariant
            n == centres@.len(),
            n == spec_centres.len(),
            i <= n,
            forall|j: int| 0 <= j < n ==> centres@[j] as int == #[trigger] spec_centres[j],
            forall|j: int| 0 <= j < n ==> 2 <= #[trigger] centres@[j] <= 1000,
            c <= 1000,
            near_centre(spec_centres, c as int) == near_centre(spec_centres.skip(i as int), c as int),
        decreases n - i,
    {
        let ghost rest = spec_centres.skip(i as int);
        assert(rest[0] == spec_centres[i as int]);
        let centre = centres[i];
        if centre - 2 <= c && c <= centre + 2 {
            return Some(centre);
        }
        assert(rest.drop_first() =~= spec_centres.skip(i + 1));
        i = i + 1;
    }
    None
}

/// The alignment pattern centre covering `(x, y)`, if any.
fn alignment_at_exec(version: u32, x: u32, y: u32) -> (r: Option<(u32, u32)>)
    requires
        1 <= version <= 40,
        x < dimension(version as int),
        y < dimension(version as int),
    ensures
        match r {
            Some((cx, cy)) => alignment_at(version as int, x as int, y as int) == Some((cx as int, cy as int))
                && cx <= 1000 && cy <= 1000,
            None => alignment_at(version as int, x as int, y as int) is None,
        },
{
    let centres = alignment_centre_list(version);
    let ghost sc = alignment_centres(version as int);
    proof {
        lemma_alignment_centre_bounds(version as int);
    }
    let d = 17 + 4 * version;
    match (near_centre_exec(&centres, x, Ghost(sc)), near_centre_exec(&centres, y, Ghost(sc))) {
        (Some(cx), Some(cy)) => {
            if (cx == 6 && cy == 6) || (cx == 6 && cy == d - 7) || (cx == d - 7 && cy == 6) {
                None
            } else {
                Some((cx, cy))
            }
        },
        _ => None,
    }
}

/// Every alignment centre lies between 6 and 170.
proof fn lemma_alignment_centre_bounds(version: int)
    requires
        1 <= version <= 40,
    ensures
        forall|i: int| 0 <= i < alignment_centres(version).len() ==> 6 <= #[trigger] alignment_centres(version)[i] <= 170,
{
}

/// The BCH check bits of `value` for the generator `poly` of degree `degree`.
pub fn calculateBCHCode(value: u32, poly: u32, degree: u32) -> (r: u32)
    requires
        1 <= degree <= 31,
    ensures
        r == bch_code(value, poly, degree as nat),
{
    let mut v: u32 = value << degree;
    let mut top: u32 = 31;
    while top >= degree
        invariant
            1 <= degree <= 31,
            degree - 1 <= top <= 31,
            gf2_reduce(v, poly, degree as nat, top as nat) == bch_code(value, poly, degree as nat),
        decreases top,
    {
        if (v >> top) & 1 == 1 {
            v = v ^ (poly << (top - degree));
        }
        top = top - 1;
    }
    v
}

/// The fifteen format information bits for `level` and `mask`.
pub fn type_info_bits(level: ErrorCorrectionLevel, mask: u32) -> (r: u32)
    requires
        mask < 8,
    ensures
        r == type_info_value(level, mask),
{
    let info = (level.get_bits() << 3) | mask;
    let bch = calculateBCHCode(info, 0x537, 10);
    ((info << 10) | bch) ^ 0x5412
}

/// The eighteen version information bits for `version`.
pub fn version_info_bits(version: u32) -> (r: u32)
    requires
        1 <= version <= 40,
    ensures
        r == version_info_value(version as int),
{
    let bch = calculateBCHCode(version, 0x1f25, 12);
    (version << 12) | bch
}

/// Whether `(x, y)` is a function module of `version`.
pub fn is_function_module(version: u32, x: u32, y: u32) -> (r: bool)
    requires
        1 <= version <= 40,
        x < dimension(version as int),
        y < dimension(version as int),
    ensures
        r == is_function(version as int, x as int, y as int),
{
    let d = 17 + 4 * version;
    let finder = (x < 7 && y < 7) || (x >= d - 7 && y < 7) || (x < 7 && y >= d - 7);
    let separator = (y == 7 && x <= 7) || (x == 7 && y <= 6) || (y == 7 && x >= d - 8) || (x == d - 8
        && y <= 6) || (y == d - 8 && x <= 7) || (x == 7 && y >= d - 7);
    let dark = x == 8 && y == d - 8;
    let alignment = alignment_at_exec(version, x, y).is_some();
    let timing = (y == 6 && 8 <= x && x < d - 8) || (x == 6 && 8 <= y && y < d - 8);
    let format = (x == 8 && y <= 5) || (x == 8 && y == 7) || (x == 8 && y == 8) || (x == 7 && y == 8)
        || (y == 8 && x <= 5) || (y == 8 && d - 8 <= x) || (x == 8 && d - 7 <= y);
    let version_info = version >= 7 && ((x < 6 && d - 11 <= y && y < d - 8) || (y < 6 && d - 11 <= x
        && x < d - 8));
    finder || separator || dark || alignment || timing || format || version_info
}

/// The value of the function module at `(x, y)`, given the format and
/// version information bits.
pub fn function_module_value(
    level: ErrorCorrectionLevel,
    mask: u32,
    version: u32,
    x: u32,
    y: u32,
    type_info: u32,
    version_info: u32,
) -> (r: i8)
    requires
        1 <= version <= 40,
        mask < 8,
        x < dimension(version as int),
        y < dimension(version as int),
        is_function(version as int, x as int, y as int),
        type_info == type_info_value(level, mask),
        version_info == version_info_value(version as int),
    ensures
        r == function_value(level, mask, version as int, x as int, y as int),
{
    let d = 17 + 4 * version;
    if (x < 7 && y < 7) || (x >= d - 7 && y < 7) || (x < 7 && y >= d - 7) {
        let lx = if x >= d - 7 { x - (d - 7) } else { x };
        let ly = if y >= d - 7 { y - (d - 7) } else { y };
        if lx == 0 || lx == 6 || ly == 0 || ly == 6 || (2 <= lx && lx <= 4 && 2 <= ly && ly <= 4) {
            1
        } else {
            0
        }
    } else if (y == 7 && x <= 7) || (x == 7 && y <= 6) || (y == 7 && x >= d - 8) || (x == d - 8 && y
        <= 6) || (y == d - 8 && x <= 7) || (x == 7 && y >= d - 7) {
        0
    } else if x == 8 && y == d - 8 {
        1
    } else {
        match alignment_at_exec(version, x, y) {
            Some((cx, cy)) => {
                let outer = x + 2 == cx || x == cx + 2 || y + 2 == cy || y == cy + 2;
                if outer || (x == cx && y == cy) {
                    1
                } else {
                    0
                }
            },
            None => {
                if (y == 6 && 8 <= x && x < d - 8) || (x == 6 && 8 <= y && y < d - 8) {
                    if (x + y) % 2 == 0 {
                        1
                    } else {
                        0
                    }
                } else {
                    let format: Option<u32> = if x == 8 && y <= 5 {
                        Some(y)
                    } else if x == 8 && y == 7 {
                        Some(6)
                    } else if x == 8 && y == 8 {
                        Some(7)
                    } else if x == 7 && y == 8 {
                        Some(8)
                    } else if y == 8 && x <= 5 {
                        Some(14 - x)
                    } else if y == 8 && d - 8 <= x {
                        Some(d - 1 - x)
                    } else if x == 8 && d - 7 <= y {
                        Some(y - (d - 7) + 8)
                    } else {
                        None
                    };
                    match format {
                        Some(i) => {
                            if (type_info >> i) & 1 == 1 {
                                1
                            } else {
                                0
                            }
                        },
                        None => {
                            let i: u32 = if x < 6 {
                                3 * x + (y - (d - 11))
                            } else {
                                3 * y + (x - (d - 11))
                            };
                            if (version_info >> i) & 1 == 1 {
                                1
                            } else {
                                0
                            }
                        },
                    }
                }
            },
        }
    }
}

/// Column 6 holds only function modules.
pub proof fn lemma_column_six_function(version: int, y: int)
    requires
        1 <= version <= 40,
        0 <= y < dimension(version),
    ensures
        is_function(version, 6, y),
{
}

/// The zigzag visits, at each of its steps, a module off column 6 inside
/// the symbol, and `zigzag_coords` gives the step back.
pub proof fn lemma_zigzag_module(d: int, p: int, step: int, i: int)
    requires
        d >= 21,
        d % 2 == 1,
        0 <= p < num_pairs(d),
        0 <= step < d,
        0 <= i < 2,
    ensures
        0 <= zigzag_module(d, p, step, i).0 < d,
        zigzag_module(d, p, step, i).0 != 6,
        0 <= zigzag_module(d, p, step, i).1 < d,
        zigzag_coords(d, zigzag_module(d, p, step, i).0, zigzag_module(d, p, step, i).1) == (p, step, i),
{
}

/// Every module off column 6 is visited by the zigzag.
pub proof fn lemma_zigzag_coords(d: int, x: int, y: int)
    requires
        d >= 21,
        d % 2 == 1,
        0 <= x < d,
        x != 6,
        0 <= y < d,
    ensures
        0 <= zigzag_coords(d, x, y).0 < num_pairs(d),
        0 <= zigzag_coords(d, x, y).1 < d,
        0 <= zigzag_coords(d, x, y).2 < 2,
        zigzag_module(d, zigzag_coords(d, x, y).0, zigzag_coords(d, x, y).1, zigzag_coords(d, x, y).2) == (x, y),
{
}

/// Whether mask pattern `mask` inverts the module at `(x, y)`.
pub fn getDataMaskBit(mask: u32, x: u32, y: u32) -> (r: bool)
    requires
        mask < 8,
        x <= 1000,
        y <= 1000,
    ensures
        r == mask_bit(mask, x as int, y as int),
{
    assert(y * x <= 1000000) by (nonlinear_arith)
        requires
            x <= 1000,
            y <= 1000,
    ;
    let intermediate: u32 = if mask == 0 {
        (y + x) % 2
    } else if mask == 1 {
        y % 2
    } else if mask == 2 {
        x % 3
    } else if mask == 3 {
        (y + x) % 3
    } else if mask == 4 {
        ((y / 2) + (x / 3)) % 2
    } else if mask == 5 {
        (y * x) % 2 + (y * x) % 3
    } else if mask == 6 {
        ((y * x) % 2 + (y * x) % 3) % 2
    } else {
        ((y * x) % 3 + (y + x) % 2) % 2
    };
    intermediate == 0
}

/// The step of the zigzag after `(p, step, i)`.
pub open spec fn zigzag_next(d: int, cur: (int, int, int)) -> (int, int, int) {
    if cur.2 == 0 {
        (cur.0, cur.1, 1)
    } else if cur.1 + 1 < d {
        (cur.0, cur.1 + 1, 0)
    } else {
        (cur.0 + 1, 0, 0)
    }
}

/// The matrix while it is being built, when the zigzag has reached `cur`:
/// function modules set, data modules set where the zigzag has passed,
/// -1 elsewhere.
pub open spec fn build_stage(bits: Seq<bool>, level: ErrorCorrectionLevel, version: int, mask: u32, j: int, cur: (int, int, int)) -> i8 {
    let d = dimension(version);
    let x = j % d;
    let y = j / d;
    if is_function(version, x, y) {
        function_value(level, mask, version, x, y)
    } else if zigzag_before(zigzag_coords(d, x, y), cur) {
        symbol_module(bits, level, version, mask, x, y)
    } else {
        -1i8
    }
}

/// The smaller of two integers.
pub open spec fn min_int(a: int, b: int) -> int {
    if a < b { a } else { b }
}

/// Row and column of a flat index.
proof fn lemma_flat_index(j: int, d: int)
    requires
        d > 0,
        0 <= j < d * d,
    ensures
        0 <= j % d < d,
        0 <= j / d < d,
        j == (j / d) * d + j % d,
{
    vstd::arithmetic::div_mod::lemma_fundamental_div_mod(j, d);
    vstd::arithmetic::div_mod::lemma_mod_bound(j, d);
    vstd::arithmetic::div_mod::lemma_div_pos_is_pos(j, d);
    vstd::arithmetic::mul::lemma_mul_is_commutative(d, j / d);
    if j / d >= d {
        vstd::arithmetic::mul::lemma_mul_inequality(d, j / d, d);
    }
}

/// The flat index of `(x, y)` has `x` as remainder and `y` as quotient.
proof fn lemma_flat_index_converse(x: int, y: int, d: int)
    requires
        0 <= x < d,
        0 <= y,
    ensures
        (y * d + x) % d == x,
        (y * d + x) / d == y,
{
    vstd::arithmetic::div_mod::lemma_fundamental_div_mod_converse(y * d + x, d, y, x);
}

/// Places the data module visited at zigzag step `(p, step, i)`, if that
/// module is not a function module.
fn place_module(
    cells: &mut Vec<i8>,
    bits: &BitArray,
    bit_index: &mut usize,
    level: ErrorCorrectionLevel,
    version: u32,
    mask: u32,
    p: u32,
    step: u32,
    i: u32,
)
    requires
        1 <= version <= 40,
        mask < 8,
        p < num_pairs(dimension(version as int)),
        step < dimension(version as int),
        i < 2,
        old(cells)@.len() == dimension(version as int) * dimension(version as int),
        forall|j: int| 0 <= j < old(cells)@.len() ==> #[trigger] old(cells)@[j] == build_stage(bits@, level, version as int, mask, j, (p as int, step as int, i as int)),
        *old(bit_index) == min_int(bits@.len() as int, slots_before(version as int, p as int, step as int, i as int)),
    ensures
        final(cells)@.len() == old(cells)@.len(),
        forall|j: int| 0 <= j < final(cells)@.len() ==> #[trigger] final(cells)@[j] == build_stage(bits@, level, version as int, mask, j, zigzag_next(dimension(version as int), (p as int, step as int, i as int))),
        *final(bit_index) == ({
            let nx = zigzag_next(dimension(version as int), (p as int, step as int, i as int));
            min_int(bits@.len() as int, slots_before(version as int, nx.0, nx.1, nx.2))
        }),
{
    let ghost v = version as int;
    let ghost d = dimension(v);
    let ghost cur = (p as int, step as int, i as int);
    let ghost nx = zigzag_next(d, cur);
    let dd: u32 = 17 + 4 * version;
    let xp: u32 = if dd - 1 - 2 * p > 6 { dd - 1 - 2 * p } else { dd - 2 - 2 * p };
    let x: u32 = xp - i;
    let y: u32 = if p % 2 == 0 { dd - 1 - step } else { step };
    proof {
        lemma_zigzag_module(d, p as int, step as int, i as int);
        assert(zigzag_module(d, p as int, step as int, i as int) == (x as int, y as int));
        lemma_index_bounds(x as int, y as int, d);
        lemma_flat_index_converse(x as int, y as int, d);
        assert(slots_before(v, nx.0, nx.1, nx.2) == slots_before(v, cur.0, cur.1, cur.2) + if is_function(v, x as int, y as int) { 0int } else { 1int });
    }
    let idx: usize = (y as usize) * (dd as usize) + (x as usize);
    let ghost old_cells = cells@;
    if cells[idx] == -1 {
        assert(!is_function(v, x as int, y as int));
        let bit = if *bit_index < bits.get_size() {
            let b = bits.get(*bit_index);
            *bit_index = *bit_index + 1;
            b
        } else {
            false
        };
        let masked = bit != getDataMaskBit(mask, x, y);
        let value: i8 = if masked { 1 } else { 0 };
        cells[idx] = value;
        assert(value == symbol_module(bits@, level, v, mask, x as int, y as int));
    } else {
        assert(is_function(v, x as int, y as int));
    }
    proof {
        assert forall|j: int| 0 <= j < cells@.len() implies #[trigger] cells@[j] == build_stage(bits@, level, v, mask, j, nx) by {
            lemma_flat_index(j, d);
            let xj = j % d;
            let yj = j / d;
            if j != idx {
                assert(cells@[j] == old_cells[j]);
                if !is_function(v, xj, yj) {
                    if xj == 6 {
                        lemma_column_six_function(v, yj);
                    }
                    lemma_zigzag_coords(d, xj, yj);
                    if zigzag_coords(d, xj, yj) == cur {
                        assert(xj == x && yj == y);
                    }
                }
            }
        }
    }
}

/// A module `(x, y)` inside a `d` by `d` matrix has a flat index inside it.
proof fn lemma_index_bounds(x: int, y: int, d: int)
    requires
        0 <= x < d,
        0 <= y < d,
        d <= 177,
    ensures
        0 <= y * d + x < d * d,
        d * d <= 177 * 177,
{
    crate::byte_matrix::lemma_index_in_bounds(x, y, d, d);
    assert(d * d <= 177 * 177) by (nonlinear_arith)
        requires
            0 <= d <= 177,
    ;
}

/// Builds the symbol for the final `bits` at `level` in `version` with mask
/// pattern `mask`; an error where the mask pattern is not 0 to 7 or the
/// bits exceed the data modules.
pub fn buildMatrix(bits: &BitArray, level: ErrorCorrectionLevel, version: &Version, mask: u32) -> (r: Result<ByteMatrix, EncodeError>)
    ensures
        mask >= 8 ==> r == Err::<ByteMatrix, EncodeError>(EncodeError::InvalidMaskPattern),
        mask < 8 && bits@.len() > data_capacity(version.number()) ==> r == Err::<ByteMatrix, EncodeError>(EncodeError::DataTooBig),
        mask < 8 && bits@.len() <= data_capacity(version.number()) ==> r is Ok,
        r matches Ok(m) ==> m.width_spec() == dimension(version.number())
            && m.height_spec() == dimension(version.number())
            && m.cells() == symbol_matrix(bits@, level, version.number(), mask),
{
    if mask >= 8 {
        return Err(EncodeError::InvalidMaskPattern);
    }
    let number = version.get_version_number();
    let ghost v = number as int;
    let ghost d = dimension(v);
    let dd: u32 = version.getDimensionForVersion();
    let type_info = type_info_bits(level, mask);
    let version_info = version_info_bits(number);
    proof {
        lemma_index_bounds(0, 0, d);
    }
    let total: usize = (dd as usize) * (dd as usize);
    let mut cells: Vec<i8> = Vec::new();
    let mut k: usize = 0;
    while k < total
        invariant
            d == dd,
            d == dimension(v),
            v == version.number(),
            v == number,
            1 <= v <= 40,
            mask < 8,
            total == d * d,
            total <= 177 * 177,
            type_info == type_info_value(level, mask),
            version_info == version_info_value(v),
            k <= total,
            cells@.len() == k,
            forall|j: int| 0 <= j < k ==> #[trigger] cells@[j] == build_stage(bits@, level, v, mask, j, (0, 0, 0)),
        decreases total - k,
    {
        let x: u32 = (k % (dd as usize)) as u32;
        let y: u32 = (k / (dd as usize)) as u32;
        proof {
            lemma_flat_index(k as int, d);
        }
        let value: i8 = if is_function_module(number, x, y) {
            function_module_value(level, mask, number, x, y, type_info, version_info)
        } else {
            -1
        };
        cells.push(value);
        k = k + 1;
    }
    let mut bit_index: usize = 0;
    let pairs: u32 = (dd - 1) / 2;
    let mut p: u32 = 0;
    while p < pairs
        invariant
            d == dd,
            d == dimension(v),
            v == version.number(),
            v == number,
            1 <= v <= 40,
            mask < 8,
            pairs == num_pairs(d),
            p <= pairs,
            cells@.len() == d * d,
            forall|j: int| 0 <= j < cells@.len() ==> #[trigger] cells@[j] == build_stage(bits@, level, v, mask, j, (p as int, 0, 0)),
            bit_index == min_int(bits@.len() as int, slots_before(v, p as int, 0, 0)),
        decreases pairs - p,
    {
        let mut step: u32 = 0;
        while step < dd
            invariant
                d == dd,
                d == dimension(v),
                v == version.number(),
                v == number,
                1 <= v <= 40,
                mask < 8,
                pairs == num_pairs(d),
                p < pairs,
                step <= dd,
                cells@.len() == d * d,
                forall|j: int| 0 <= j < cells@.len() ==> #[trigger] cells@[j] == build_stage(bits@, level, v, mask, j, if step < dd { (p as int, step as int, 0) } else { (p + 1, 0, 0) }),
                bit_index == (if step < dd { min_int(bits@.len() as int, slots_before(v, p as int, step as int, 0)) } else { min_int(bits@.len() as int, slots_before(v, p + 1, 0, 0)) }),
            decreases dd - step,
        {
            place_module(&mut cells, bits, &mut bit_index, level, number, mask, p, step, 0);
            place_module(&mut cells, bits, &mut bit_index, level, number, mask, p, step, 1);
            step = step + 1;
        }
        p = p + 1;
    }
    if bit_index != bits.get_size() {
        return Err(EncodeError::DataTooBig);
    }
    proof {
        assert forall|j: int| 0 <= j < cells@.len() implies #[trigger] cells@[j] == symbol_matrix(bits@, level, v, mask)[j] by {
            lemma_flat_index(j, d);
            let xj = j % d;
            let yj = j / d;
            if !is_function(v, xj, yj) {
                if xj == 6 {
                    lemma_column_six_function(v, yj);
                }
                lemma_zigzag_coords(d, xj, yj);
            }
        }
        assert(cells@ =~= symbol_matrix(bits@, level, v, mask));
    }
    Ok(ByteMatrix::from_cells(dd as usize, dd as usize, cells))
}

} // verus!
