//! The shortest encoding of a text as a sequence of segments: a search
//! over the ways of cutting the text into numeric, alphanumeric, Kanji and
//! byte segments, byte segments in any of the character sets that the text
//! calls for, each way costed in bits for the version sizes 1-9, 10-26 and
//! 27-40.
use vstd::prelude::*;
use crate::charset::{CharacterSetECI, text_bytes};
use crate::eci_encoder_set::{ECIEncoderSet, char_encodable, encoder_sets, priority_position};
use crate::encoder::{
    alphanumeric_code, getAlphanumericCode, is_digit, is_only_double_byte_kanji, isOnlyDoubleByteKanji,
};
use crate::error::EncodeError;
use crate::version::{
    ErrorCorrectionLevel, Mode, Version, character_count_bits, mode_name, data_codewords, lemma_data_codewords_grow,
};
use crate::encoder::{will_fit, willFit, lemma_codeword_counts, chars_of};
use crate::encoder::{appendModeInfo, appendBytes, append_byte_values, lemma_bytes_to_bits_len, mode_data_bits};
use crate::encoder::{numeric_bits, alphanumeric_bits, all_digits, all_alphanumeric};
use crate::bit_array::{BitArray, bits_of, bytes_to_bits};
use crate::charset::eci_value;
use crate::version::mode_bits;

verus! {

/// The position of a mode among the four data modes: Kanji, alphanumeric,
/// numeric, byte.
pub open spec fn compacted_ordinal(mode: Mode) -> int {
    match mode {
        Mode::KANJI => 0,
        Mode::ALPHANUMERIC => 1,
        Mode::NUMERIC => 2,
        _ => 3,
    }
}

/// A segment of the result: `character_length` characters from
/// `from_position` in `mode`, byte mode in the set at
/// `charset_encoder_index`; or, for an ECI or FNC1 node, the indicator
/// alone.
#[derive(Debug, Clone, Copy)]
pub struct ResultNode {
    pub mode: Mode,
    pub from_position: usize,
    pub charset_encoder_index: usize,
    pub character_length: usize,
}

/// Whether a node is an indicator that carries no characters.
pub open spec fn is_indicator(mode: Mode) -> bool {
    mode == Mode::ECI || mode == Mode::FNC1_FIRST_POSITION
}

/// Whether the data nodes of `nodes`, in order, cut the text from `start`
/// to its end into pieces that their modes hold; indicator nodes carry no
/// characters and name a set of `sets`.
pub open spec fn nodes_cover(nodes: Seq<ResultNode>, text: Seq<char>, sets: Seq<CharacterSetECI>, start: int) -> bool
    decreases nodes.len(),
{
    if nodes.len() == 0 {
        start == text.len()
    } else {
        let h = nodes[0];
        if is_indicator(h.mode) {
            h.from_position == start && h.charset_encoder_index < sets.len() && h.character_length == 0 && nodes_cover(
                nodes.drop_first(),
                text,
                sets,
                start,
            )
        } else {
            h.from_position == start && segment_holds(
                text,
                sets,
                h.mode,
                h.charset_encoder_index as int,
                h.from_position as int,
                h.character_length as int,
            ) && nodes_cover(nodes.drop_first(), text, sets, start + h.character_length)
        }
    }
}

/// Whether each data node of `nodes` is in the set in effect: the set of
/// the last ECI node before it, or `current` where there is none.
pub open spec fn eci_consistent(nodes: Seq<ResultNode>, current: int) -> bool
    decreases nodes.len(),
{
    if nodes.len() == 0 {
        true
    } else if nodes[0].mode == Mode::ECI {
        eci_consistent(nodes.drop_first(), nodes[0].charset_encoder_index as int)
    } else if nodes[0].mode == Mode::FNC1_FIRST_POSITION {
        eci_consistent(nodes.drop_first(), current)
    } else {
        nodes[0].charset_encoder_index == current && eci_consistent(nodes.drop_first(), current)
    }
}

/// Whether `mode` can hold the `len` characters of `text` from `from` on,
/// byte mode in the set at position `charset` of `sets`.
pub open spec fn segment_holds(text: Seq<char>, sets: Seq<CharacterSetECI>, mode: Mode, charset: int, from: int, len: int) -> bool {
    &&& 0 <= from
    &&& 1 <= len
    &&& from + len <= text.len()
    &&& 0 <= charset < sets.len()
    &&& match mode {
        Mode::NUMERIC => forall|i: int| from <= i < from + len ==> is_digit(#[trigger] text[i]),
        Mode::ALPHANUMERIC => forall|i: int| from <= i < from + len ==> alphanumeric_code(#[trigger] text[i] as u32) != -1,
        Mode::KANJI => forall|i: int| from <= i < from + len ==> is_only_double_byte_kanji(seq![#[trigger] text[i]]),
        Mode::BYTE => forall|i: int| from <= i < from + len ==> char_encodable(sets[charset], #[trigger] text[i]),
        _ => false,
    }
}

/// A step of the search: a segment piece from `from` of `length`
/// characters in `mode` (byte mode in the set at `charset`), following the
/// step at `previous`, with the bits of the whole encoding up to its end.
struct Edge {
    mode: Mode,
    from: usize,
    charset: usize,
    length: usize,
    previous: Option<usize>,
    size: u64,
}

/// Whether the step at `x` holds its characters and follows on from the
/// step before it, which comes earlier in `arena`; a first step starts the
/// text.
spec fn edge_ok(text: Seq<char>, sets: Seq<CharacterSetECI>, arena: Seq<Edge>, x: int) -> bool {
    let e = arena[x];
    &&& segment_holds(text, sets, e.mode, e.charset as int, e.from as int, e.length as int)
    &&& match e.previous {
        Some(p) => p < x && arena[p as int].from + arena[p as int].length == e.from,
        None => e.from == 0 && (e.mode != Mode::BYTE ==> e.charset == 0),
    }
}

/// Whether every step of `arena` is sound.
spec fn arena_ok(text: Seq<char>, sets: Seq<CharacterSetECI>, arena: Seq<Edge>) -> bool {
    forall|x: int| 0 <= x < arena.len() ==> #[trigger] edge_ok(text, sets, arena, x)
}

/// The cell of the state that ends at `end` in the set `charset` and the
/// mode `mode`: one row per position, four cells per set.
pub open spec fn cell_index(end: int, charset: int, mode: Mode, width: int) -> int {
    end * width + charset * 4 + compacted_ordinal(mode)
}

/// The cell of the state a step ends in.
spec fn cell_of(e: Edge, width: int) -> int {
    cell_index(e.from + e.length, e.charset as int, e.mode, width)
}

/// Whether each cell of `table` names a step of `arena` that ends in it.
spec fn table_ok(table: Seq<Option<usize>>, arena: Seq<Edge>, width: int) -> bool {
    forall|idx: int|
        0 <= idx < table.len() ==> match #[trigger] table[idx] {
            Some(x) => x < arena.len() && cell_of(arena[x as int], width) == idx,
            None => true,
        }
}

/// Whether every filled cell of `t0` stays filled in `t1` with a step no
/// costlier.
spec fn improves(t0: Seq<Option<usize>>, a0: Seq<Edge>, t1: Seq<Option<usize>>, a1: Seq<Edge>) -> bool {
    &&& t1.len() == t0.len()
    &&& a0.len() <= a1.len()
    &&& forall|x: int| 0 <= x < a0.len() ==> #[trigger] a1[x] == a0[x]
    &&& forall|idx: int|
        0 <= idx < t0.len() && t0[idx] is Some ==> #[trigger] t1[idx] is Some && a1[t1[idx]->0 as int].size
            <= a0[t0[idx]->0 as int].size && (a1[t1[idx]->0 as int].size == a0[t0[idx]->0 as int].size ==> t1[idx]
            == t0[idx])
}

/// The state a step leaves: its mode, its set and its length.
spec fn edge_state(e: Edge) -> (Mode, int, int) {
    (e.mode, e.charset as int, e.length as int)
}

/// The characters an alphanumeric step from `from` takes: two where the
/// next character is alphanumeric too, else one.
pub open spec fn alnum_step_len(text: Seq<char>, from: int) -> int {
    if from + 1 < text.len() && alphanumeric_code(text[from + 1] as u32) != -1 {
        2
    } else {
        1
    }
}

/// The characters a numeric step from `from` takes: up to three digits.
pub open spec fn numeric_step_len(text: Seq<char>, from: int) -> int {
    if from + 1 < text.len() && is_digit(text[from + 1]) {
        if from + 2 < text.len() && is_digit(text[from + 2]) {
            3
        } else {
            2
        }
    } else {
        1
    }
}

/// Whether `step` (mode, set, length) may follow the step `prev` at
/// position `from`: a byte step of one character in a set that holds it,
/// the preferred set `prio` only where that set holds it; a Kanji step of
/// one character; an alphanumeric or numeric step of the length its
/// characters allow; the last three keep the set of the step before them
/// (ISO-8859-1 first).
pub open spec fn step_allowed(
    text: Seq<char>,
    sets: Seq<CharacterSetECI>,
    prio: Option<nat>,
    from: int,
    prev: Option<(Mode, int, int)>,
    step: (Mode, int, int),
) -> bool {
    let inherited = match prev {
        Some(p) => p.1,
        None => 0,
    };
    &&& 0 <= from < text.len()
    &&& match step.0 {
        Mode::BYTE => step.2 == 1 && 0 <= step.1 < sets.len() && char_encodable(sets[step.1], text[from]) && (
        match prio {
            Some(p) => p < sets.len() && char_encodable(sets[p as int], text[from]) ==> step.1 == p,
            None => true,
        }),
        Mode::KANJI => step.2 == 1 && step.1 == inherited && is_only_double_byte_kanji(seq![text[from]]),
        Mode::ALPHANUMERIC => step.1 == inherited && alphanumeric_code(text[from] as u32) != -1 && step.2
            == alnum_step_len(text, from),
        Mode::NUMERIC => step.1 == inherited && is_digit(text[from]) && step.2 == numeric_step_len(text, from),
        _ => false,
    }
}

/// Whether `step` needs an ECI segment after `prev`: its set differs
/// from the one before, or, first, a byte step is not in ISO-8859-1.
pub open spec fn step_needs_eci(prev: Option<(Mode, int, int)>, step: (Mode, int, int)) -> bool {
    match prev {
        Some(p) => step.1 != p.1,
        None => step.0 == Mode::BYTE && step.1 != 0,
    }
}

/// The bits `step` adds at position `from` after `prev` in `version`: a
/// mode indicator and character count where a new segment starts, then
/// its characters, and for byte mode the ECI segment it needs; `None`
/// where its set cannot represent its character.
pub open spec fn step_cost(
    text: Seq<char>,
    sets: Seq<CharacterSetECI>,
    version: int,
    from: int,
    prev: Option<(Mode, int, int)>,
    step: (Mode, int, int),
) -> Option<int> {
    let eci = step_needs_eci(prev, step);
    let new_mode = match prev {
        Some(p) => p.0 != step.0,
        None => true,
    };
    let header = if new_mode || eci {
        4 + character_count_bits(step.0, version)
    } else {
        0int
    };
    match step.0 {
        Mode::KANJI => Some(header + 13),
        Mode::ALPHANUMERIC => Some(header + if step.2 == 1 { 6int } else { 11int }),
        Mode::NUMERIC => Some(header + if step.2 == 1 {
            4int
        } else if step.2 == 2 {
            7int
        } else {
            10int
        }),
        Mode::BYTE => match text_bytes(sets[step.1], seq![text[from]]) {
            Ok(b) => Some(header + 8 * b.len() + if eci { 12int } else { 0int }),
            Err(_) => None,
        },
        _ => None,
    }
}

/// The position where the steps of `path` end.
pub open spec fn path_end(path: Seq<(Mode, int, int)>) -> int
    decreases path.len(),
{
    if path.len() == 0 {
        0
    } else {
        path_end(path.drop_last()) + path.last().2
    }
}

/// The state the steps of `path` leave, if there are any.
pub open spec fn last_state(path: Seq<(Mode, int, int)>) -> Option<(Mode, int, int)> {
    if path.len() == 0 {
        None
    } else {
        Some(path.last())
    }
}

/// Whether each step of `path` may follow the steps before it.
pub open spec fn path_ok(text: Seq<char>, sets: Seq<CharacterSetECI>, prio: Option<nat>, path: Seq<(Mode, int, int)>) -> bool
    decreases path.len(),
{
    if path.len() == 0 {
        true
    } else {
        let q = path.drop_last();
        path_ok(text, sets, prio, q) && step_allowed(text, sets, prio, path_end(q), last_state(q), path.last())
    }
}

/// The bits of the steps of `path` in `version`.
pub open spec fn path_cost(text: Seq<char>, sets: Seq<CharacterSetECI>, version: int, path: Seq<(Mode, int, int)>) -> Option<int>
    decreases path.len(),
{
    if path.len() == 0 {
        Some(0)
    } else {
        let q = path.drop_last();
        match (path_cost(text, sets, version, q), step_cost(text, sets, version, path_end(q), last_state(q), path.last())) {
            (Some(a), Some(b)) => Some(a + b),
            _ => None,
        }
    }
}

/// The steps that lead to the step at `x`, it included.
spec fn edge_path(arena: Seq<Edge>, x: int) -> Seq<(Mode, int, int)>
    decreases x,
{
    if x < 0 || x >= arena.len() {
        Seq::empty()
    } else {
        match arena[x].previous {
            Some(p) => if p < x {
                edge_path(arena, p as int).push(edge_state(arena[x]))
            } else {
                seq![edge_state(arena[x])]
            },
            None => seq![edge_state(arena[x])],
        }
    }
}

/// The state left by the step `previous`, if any.
spec fn prev_state_of(arena: Seq<Edge>, previous: Option<usize>) -> Option<(Mode, int, int)> {
    match previous {
        Some(p) => Some(edge_state(arena[p as int])),
        None => None,
    }
}

/// The bits up to the end of the step `previous`, if any.
spec fn base_of(arena: Seq<Edge>, previous: Option<usize>) -> int {
    match previous {
        Some(p) => arena[p as int].size as int,
        None => 0,
    }
}

/// Whether the steps leading to the step at `x` make a sound path that
/// ends where it ends and costs what it records.
spec fn edge_path_ok(
    text: Seq<char>,
    sets: Seq<CharacterSetECI>,
    prio: Option<nat>,
    version: int,
    arena: Seq<Edge>,
    x: int,
) -> bool {
    let p = edge_path(arena, x);
    &&& p.len() >= 1
    &&& p.last() == edge_state(arena[x])
    &&& path_ok(text, sets, prio, p)
    &&& path_end(p) == arena[x].from + arena[x].length
    &&& path_cost(text, sets, version, p) == Some(arena[x].size as int)
}

/// Whether every step of `arena` records a sound path.
spec fn paths_ok(text: Seq<char>, sets: Seq<CharacterSetECI>, prio: Option<nat>, version: int, arena: Seq<Edge>) -> bool {
    forall|x: int| 0 <= x < arena.len() ==> #[trigger] edge_path_ok(text, sets, prio, version, arena, x)
}

/// Adding a step leaves the paths of the steps before it as they were.
proof fn lemma_edge_path_push(arena: Seq<Edge>, e: Edge, x: int)
    requires
        0 <= x < arena.len(),
    ensures
        edge_path(arena.push(e), x) == edge_path(arena, x),
    decreases x,
{
    let a = arena.push(e);
    assert(a[x] == arena[x]);
    if let Some(p) = arena[x].previous {
        if p < x {
            lemma_edge_path_push(arena, e, p as int);
        }
    }
}

/// The cell of a position and a (set, mode) pair lies in its position's row.
proof fn lemma_cell_row(pos: int, slot: int, width: int)
    requires
        0 <= pos,
        0 <= slot < width,
    ensures
        (pos * width + slot) / width == pos,
{
    vstd::arithmetic::div_mod::lemma_fundamental_div_mod_converse(pos * width + slot, width, pos, slot);
}

/// The cell a step of at least one character from `from` ends in lies
/// beyond the row of `from`.
proof fn lemma_cell_after_row(from: int, len: int, charset: int, mode: Mode, width: int)
    requires
        from >= 0,
        len >= 1,
        charset >= 0,
        width >= 0,
    ensures
        cell_index(from + len, charset, mode, width) >= (from + 1) * width,
{
    assert((from + len) * width >= (from + 1) * width) by (nonlinear_arith)
        requires
            len >= 1,
            width >= 0,
    ;
    assert(compacted_ordinal(mode) >= 0);
}

/// Whether the step before the step at `x`, if any, is the step its cell
/// keeps.
spec fn pred_kept(table: Seq<Option<usize>>, arena: Seq<Edge>, width: int, x: int) -> bool {
    match arena[x].previous {
        Some(p) => table[cell_of(arena[p as int], width)] == Some(p),
        None => true,
    }
}

/// A cell of a row no later than `i` lies before row `i + 1`.
proof fn lemma_cell_before_row(end: int, charset: int, mode: Mode, width: int, i: int)
    requires
        0 <= end <= i,
        0 <= charset * 4 + compacted_ordinal(mode) < width,
    ensures
        cell_index(end, charset, mode, width) < (i + 1) * width,
{
    assert((end + 1) * width <= (i + 1) * width) by (nonlinear_arith)
        requires
            end <= i,
            width >= 0,
    ;
    assert((end + 1) * width == end * width + width) by (nonlinear_arith);
}

/// The cell of a position and pair lies within a table of `rows` rows.
proof fn lemma_cell_bound(pos: int, slot: int, width: int, rows: int)
    requires
        0 <= pos < rows,
        0 <= slot < width,
    ensures
        0 <= pos * width + slot < rows * width,
{
    assert(pos * width + slot < rows * width) by (nonlinear_arith)
        requires
            0 <= pos < rows,
            0 <= slot < width,
    ;
    assert(0 <= pos * width) by (nonlinear_arith)
        requires
            0 <= pos,
            0 <= width,
    ;
}

/// The search over the ways of encoding one text.
struct Search<'a> {
    text: &'a str,
    chars: Vec<char>,
    encoders: ECIEncoderSet,
}

impl<'a> Search<'a> {
    spec fn wf(&self) -> bool {
        &&& self.chars@ == self.text@
        &&& 1 <= self.encoders.sets().len() <= 20
        &&& self.text@.len() < 0x1_0000_0000
    }

    /// Whether `mode` can hold the character at `i`.
    fn can_encode(&self, mode: Mode, i: usize) -> (r: bool)
        requires
            self.wf(),
            i < self.text@.len(),
        ensures
            r == (match mode {
                Mode::KANJI => is_only_double_byte_kanji(seq![self.text@[i as int]]),
                Mode::ALPHANUMERIC => alphanumeric_code(self.text@[i as int] as u32) != -1,
                Mode::NUMERIC => is_digit(self.text@[i as int]),
                Mode::BYTE => true,
                _ => false,
            }),
    {
        let c = self.chars[i];
        match mode {
            Mode::KANJI => {
                let s = self.text.substring_char(i, i + 1);
                assert(s@ =~= seq![self.text@[i as int]]);
                isOnlyDoubleByteKanji(s)
            },
            Mode::ALPHANUMERIC => getAlphanumericCode(c as u32) != -1,
            Mode::NUMERIC => '0' <= c && c <= '9',
            Mode::BYTE => true,
            _ => false,
        }
    }

    /// The step of `length` characters from `from` in `mode` after the
    /// step `previous`, with the bits of the encoding up to its end in
    /// `version`: a header where the mode changes or an ECI segment is
    /// needed, then the piece's own bits. A byte step keeps the set
    /// `charset`; another step keeps the set of the step before it.
    /// `None` where the count of bits overflows.
    fn make_edge(
        &self,
        arena: &Vec<Edge>,
        mode: Mode,
        from: usize,
        charset: usize,
        length: usize,
        previous: Option<usize>,
        version: &Version,
    ) -> (r: Option<Edge>)
        requires
            self.wf(),
            from + length <= self.text@.len(),
            charset < self.encoders.sets().len(),
            previous matches Some(p) ==> p < arena@.len() && arena@[p as int].charset < self.encoders.sets().len(),
            mode == Mode::BYTE || mode == Mode::KANJI || mode == Mode::ALPHANUMERIC || mode == Mode::NUMERIC,
            mode == Mode::BYTE ==> length == 1,
        ensures
            r matches Some(e) ==> e.mode == mode && e.from == from && e.length == length && e.previous == previous
                && e.charset == (match previous {
                    Some(p) => if mode == Mode::BYTE {
                        charset
                    } else {
                        arena@[p as int].charset
                    },
                    None => charset,
                }),
            ({
                let eff: int = match previous {
                    Some(p) => if mode == Mode::BYTE {
                        charset as int
                    } else {
                        arena@[p as int].charset as int
                    },
                    None => charset as int,
                };
                let prev_state = match previous {
                    Some(p) => Some(edge_state(arena@[p as int])),
                    None => None,
                };
                let base: int = match previous {
                    Some(p) => arena@[p as int].size as int,
                    None => 0,
                };
                let cost = step_cost(self.text@, self.encoders.sets(), version.number(), from as int, prev_state, (mode, eff, length as int));
                &&& r matches Some(e) ==> cost == Some(e.size - base)
                &&& r is None ==> (cost is None || base + cost->0 > u64::MAX)
            }),
    {
        let cs: usize = match previous {
            Some(p) => if mode == Mode::BYTE {
                charset
            } else {
                arena[p].charset
            },
            None => charset,
        };
        let ghost prev_state = match previous {
            Some(p) => Some(edge_state(arena@[p as int])),
            None => None,
        };
        let ghost step = (mode, cs as int, length as int);
        let ghost cost = step_cost(self.text@, self.encoders.sets(), version.number(), from as int, prev_state, step);
        let need_eci = match previous {
            Some(p) => cs != arena[p].charset,
            None => mode == Mode::BYTE && cs != 0,
        };
        assert(need_eci == step_needs_eci(prev_state, step));
        let base: u64 = match previous {
            Some(p) => arena[p].size,
            None => 0,
        };
        let new_segment = match previous {
            Some(p) => mode != arena[p].mode || need_eci,
            None => true,
        };
        let header: u64 = if new_segment {
            4 + mode.getCharacterCountBits(version) as u64
        } else {
            0
        };
        let piece: u64 = match mode {
            Mode::KANJI => 13,
            Mode::ALPHANUMERIC => if length == 1 {
                6
            } else {
                11
            },
            Mode::NUMERIC => if length == 1 {
                4
            } else if length == 2 {
                7
            } else {
                10
            },
            Mode::BYTE => {
                let sub = self.text.substring_char(from, from + length);
                assert(sub@ =~= seq![self.text@[from as int]]);
                let bytes = match self.encoders.get(cs).encode(sub) {
                    Ok(b) => b,
                    Err(_) => {
                        assert(cost is None);
                        return None;
                    },
                };
                let n = bytes.len() as u64;
                let bits = match n.checked_mul(8) {
                    Some(v) => v,
                    None => {
                        assert(cost->0 >= 8 * n);
                        return None;
                    },
                };
                if need_eci {
                    match bits.checked_add(12) {
                        Some(v) => v,
                        None => {
                            assert(cost->0 >= bits + 12);
                            return None;
                        },
                    }
                } else {
                    bits
                }
            },
            _ => 0,
        };
        assert(cost == Some(header as int + piece as int));
        let with_header = match base.checked_add(header) {
            Some(v) => v,
            None => return None,
        };
        let size = match with_header.checked_add(piece) {
            Some(v) => v,
            None => return None,
        };
        Some(Edge { mode, from, charset: cs, length, previous, size })
    }
}

/// Whether the cell `idx` holds a step of at most `bound` bits.
spec fn reached(table: Seq<Option<usize>>, arena: Seq<Edge>, idx: int, bound: int) -> bool {
    0 <= idx < table.len() && table[idx] is Some && arena[table[idx]->0 as int].size <= bound
}

/// The (set, mode) slot of the state a step leaves.
spec fn slot_of(e: Edge) -> int {
    e.charset * 4 + compacted_ordinal(e.mode)
}

/// The place the step at `x` was found from: the position where it starts
/// and the slot of the step before it, or (0, -1) for a first step.
spec fn edge_key(arena: Seq<Edge>, x: int) -> (int, int) {
    match arena[x].previous {
        Some(p) => (arena[x].from as int, slot_of(arena[p as int])),
        None => (0, -1),
    }
}

/// The place that steps made at `from` after `previous` are found from.
spec fn key_of(arena: Seq<Edge>, previous: Option<usize>, from: int) -> (int, int) {
    match previous {
        Some(p) => (from, slot_of(arena[p as int])),
        None => (0, -1),
    }
}

/// Position-then-slot order of places.
pub open spec fn key_le(a: (int, int), b: (int, int)) -> bool {
    a.0 < b.0 || (a.0 == b.0 && a.1 <= b.1)
}

/// Whether the cell `idx` holds a step of at most `bound` bits, found from
/// a place no later than `key` where it costs exactly `bound`.
spec fn reached_by(table: Seq<Option<usize>>, arena: Seq<Edge>, idx: int, bound: int, key: (int, int)) -> bool {
    reached(table, arena, idx, bound) && (arena[table[idx]->0 as int].size == bound ==> key_le(
        edge_key(arena, table[idx]->0 as int),
        key,
    ))
}

/// Whether the step `step` at `from` after `previous`, where allowed and
/// within 64 bits, reaches its cell at no more than its cost.
spec fn step_covered(
    text: Seq<char>,
    sets: Seq<CharacterSetECI>,
    prio: Option<nat>,
    version: int,
    a0: Seq<Edge>,
    previous: Option<usize>,
    from: int,
    step: (Mode, int, int),
    table: Seq<Option<usize>>,
    arena: Seq<Edge>,
    width: int,
) -> bool {
    let prev = prev_state_of(a0, previous);
    let cost = step_cost(text, sets, version, from, prev, step);
    step_allowed(text, sets, prio, from, prev, step) && cost is Some && base_of(a0, previous) + cost->0 <= u64::MAX
        ==> reached_by(
        table,
        arena,
        cell_index(from + step.2, step.1, step.0, width),
        base_of(a0, previous) + cost->0,
        key_of(a0, previous, from),
    )
}

/// A step that reaches its cell still does after an improvement.
proof fn lemma_covered_improves(
    text: Seq<char>,
    sets: Seq<CharacterSetECI>,
    prio: Option<nat>,
    version: int,
    a0: Seq<Edge>,
    previous: Option<usize>,
    from: int,
    step: (Mode, int, int),
    t1: Seq<Option<usize>>,
    a1: Seq<Edge>,
    t2: Seq<Option<usize>>,
    a2: Seq<Edge>,
    width: int,
)
    requires
        step_covered(text, sets, prio, version, a0, previous, from, step, t1, a1, width),
        improves(t1, a1, t2, a2),
        table_ok(t1, a1, width),
        arena_ok(text, sets, a1),
    ensures
        step_covered(text, sets, prio, version, a0, previous, from, step, t2, a2, width),
{
    let prev = prev_state_of(a0, previous);
    let cost = step_cost(text, sets, version, from, prev, step);
    if step_allowed(text, sets, prio, from, prev, step) && cost is Some && base_of(a0, previous) + cost->0 <= u64::MAX {
        let idx = cell_index(from + step.2, step.1, step.0, width);
        lemma_reached_improves(text, sets, t1, a1, t2, a2, idx, base_of(a0, previous) + cost->0, key_of(a0, previous, from), width);
    }
}

/// A cell reached from a place stays reached from it after an improvement.
proof fn lemma_reached_improves(
    text: Seq<char>,
    sets: Seq<CharacterSetECI>,
    t1: Seq<Option<usize>>,
    a1: Seq<Edge>,
    t2: Seq<Option<usize>>,
    a2: Seq<Edge>,
    idx: int,
    bound: int,
    key: (int, int),
    width: int,
)
    requires
        reached_by(t1, a1, idx, bound, key),
        improves(t1, a1, t2, a2),
        table_ok(t1, a1, width),
        arena_ok(text, sets, a1),
    ensures
        reached_by(t2, a2, idx, bound, key),
{
    let x = t1[idx]->0;
    assert(t2[idx] is Some);
    if a2[t2[idx]->0 as int].size == bound {
        assert(t2[idx] == t1[idx]);
        assert(x < a1.len());
        assert(a2[x as int] == a1[x as int]);
        assert(edge_ok(text, sets, a1, x as int));
        if let Some(p) = a1[x as int].previous {
            assert(a2[p as int] == a1[p as int]);
        }
        assert(edge_key(a2, x as int) == edge_key(a1, x as int));
    }
}

/// Improvement is transitive.
proof fn lemma_improves_trans(
    t0: Seq<Option<usize>>,
    a0: Seq<Edge>,
    t1: Seq<Option<usize>>,
    a1: Seq<Edge>,
    t2: Seq<Option<usize>>,
    a2: Seq<Edge>,
)
    requires
        improves(t0, a0, t1, a1),
        improves(t1, a1, t2, a2),
    ensures
        improves(t0, a0, t2, a2),
{
    assert forall|idx: int| 0 <= idx < t0.len() && t0[idx] is Some implies #[trigger] t2[idx] is Some
        && a2[t2[idx]->0 as int].size <= a0[t0[idx]->0 as int].size by {
        assert(t1[idx] is Some);
    }
}

impl<'a> Search<'a> {
    /// Adds one step made by `make_edge`, where it was made.
    fn add_made(
        &self,
        made: Option<Edge>,
        arena: &mut Vec<Edge>,
        table: &mut Vec<Option<usize>>,
        width: usize,
        Ghost(version): Ghost<int>,
        Ghost(from): Ghost<int>,
        Ghost(previous): Ghost<Option<usize>>,
        Ghost(step): Ghost<(Mode, int, int)>,
    )
        requires
            self.wf(),
            search_ok(self.text@, self.encoders.sets(), self.encoders.priority_spec(), version, old(arena)@, old(table)@, width as int),
            old(arena)@.len() < usize::MAX,
            0 <= from < self.text@.len(),
            match previous {
                Some(p) => p < old(arena)@.len() && old(arena)@[p as int].from + old(arena)@[p as int].length == from,
                None => from == 0,
            },
            step.0 == Mode::BYTE || step.0 == Mode::KANJI || step.0 == Mode::ALPHANUMERIC || step.0 == Mode::NUMERIC,
            segment_holds(self.text@, self.encoders.sets(), step.0, step.1, from, step.2),
            previous is None && step.0 != Mode::BYTE ==> step.1 == 0,
            step_allowed(self.text@, self.encoders.sets(), self.encoders.priority_spec(), from, prev_state_of(old(arena)@, previous), step),
            match made {
                Some(e) => e.mode == step.0 && e.charset == step.1 && e.from == from && e.length == step.2 && e.previous == previous
                    && step_cost(self.text@, self.encoders.sets(), version, from, prev_state_of(old(arena)@, previous), step)
                    == Some(e.size - base_of(old(arena)@, previous)),
                None => step_cost(self.text@, self.encoders.sets(), version, from, prev_state_of(old(arena)@, previous), step) is None
                    || base_of(old(arena)@, previous) + step_cost(self.text@, self.encoders.sets(), version, from, prev_state_of(old(arena)@, previous), step)->0 > u64::MAX,
            },
            forall|x: int|
                0 <= x < old(arena)@.len() ==> key_le(#[trigger] edge_key(old(arena)@, x), key_of(old(arena)@, previous, from)),
        ensures
            search_ok(self.text@, self.encoders.sets(), self.encoders.priority_spec(), version, final(arena)@, final(table)@, width as int),
            old(arena)@.len() <= final(arena)@.len() <= old(arena)@.len() + 1,
            forall|x: int| 0 <= x < old(arena)@.len() ==> #[trigger] final(arena)@[x] == old(arena)@[x],
            improves(old(table)@, old(arena)@, final(table)@, final(arena)@),
            step_covered(self.text@, self.encoders.sets(), self.encoders.priority_spec(), version, old(arena)@, previous, from, step, final(table)@, final(arena)@, width as int),
            forall|x: int|
                0 <= x < final(arena)@.len() ==> key_le(#[trigger] edge_key(final(arena)@, x), key_of(old(arena)@, previous, from)),
            forall|j: int| 0 <= j < (from + 1) * width ==> #[trigger] final(table)@[j] == old(table)@[j],
            forall|x: int|
                old(arena)@.len() <= x < final(arena)@.len() ==> (#[trigger] final(arena)@[x]).previous == previous
                    && final(arena)@[x].from == from,
    {
        let ghost text = self.text@;
        let ghost sets = self.encoders.sets();
        if let Some(edge) = made {
            proof {
                let ext = arena@.push(edge);
                assert(ext[arena@.len() as int] == edge);
                if let Some(p) = previous {
                    assert(ext[p as int] == arena@[p as int]);
                }
                assert(edge_ok(text, sets, ext, arena@.len() as int));
                assert(edge_state(edge) == step);
            }
            let ghost t0 = table@;
            add_edge(arena, table, width, edge, Ghost(text), Ghost(sets), Ghost(self.encoders.priority_spec()), Ghost(version));
            proof {
                lemma_cell_after_row(from, step.2, step.1, step.0, width as int);
                assert forall|j: int| 0 <= j < (from + 1) * width implies #[trigger] table@[j] == t0[j] by {
                    assert(j != cell_of(edge, width as int));
                }
            }
        } else {
            assert(improves(table@, arena@, table@, arena@));
        }
    }
}

impl<'a> Search<'a> {
    /// Adds the steps that start at `from` after the step `previous`: a
    /// byte step in each set that holds the character (only the preferred
    /// set where it does), a Kanji step, an alphanumeric step of one or two
    /// characters and a numeric step of one to three, each where its mode
    /// holds the characters. Each step allowed there ends up in its cell
    /// at no more than its cost.
    #[verifier::rlimit(100)]
    fn add_edges(
        &self,
        version: &Version,
        arena: &mut Vec<Edge>,
        table: &mut Vec<Option<usize>>,
        width: usize,
        from: usize,
        previous: Option<usize>,
    )
        requires
            self.wf(),
            search_ok(self.text@, self.encoders.sets(), self.encoders.priority_spec(), version.number(), old(arena)@, old(table)@, width as int),
            from < self.text@.len(),
            match previous {
                Some(p) => p < old(arena)@.len() && old(arena)@[p as int].from + old(arena)@[p as int].length == from,
                None => from == 0,
            },
            old(arena)@.len() <= 0x00FF_FFFF,
            forall|x: int|
                0 <= x < old(arena)@.len() ==> key_le(#[trigger] edge_key(old(arena)@, x), key_of(old(arena)@, previous, from as int)),
        ensures
            forall|x: int|
                0 <= x < final(arena)@.len() ==> key_le(#[trigger] edge_key(final(arena)@, x), key_of(old(arena)@, previous, from as int)),
            forall|j: int| 0 <= j < (from + 1) * width ==> #[trigger] final(table)@[j] == old(table)@[j],
            forall|x: int|
                old(arena)@.len() <= x < final(arena)@.len() ==> (#[trigger] final(arena)@[x]).previous == previous
                    && final(arena)@[x].from == from,
            search_ok(self.text@, self.encoders.sets(), self.encoders.priority_spec(), version.number(), final(arena)@, final(table)@, width as int),
            old(arena)@.len() <= final(arena)@.len() <= old(arena)@.len() + 24,
            forall|x: int| 0 <= x < old(arena)@.len() ==> #[trigger] final(arena)@[x] == old(arena)@[x],
            improves(old(table)@, old(arena)@, final(table)@, final(arena)@),
            forall|step: (Mode, int, int)|
                #[trigger] step_allowed(self.text@, self.encoders.sets(), self.encoders.priority_spec(), from as int, prev_state_of(old(arena)@, previous), step)
                    ==> step_covered(self.text@, self.encoders.sets(), self.encoders.priority_spec(), version.number(), old(arena)@, previous, from as int, step, final(table)@, final(arena)@, width as int),
    {
        let ghost text = self.text@;
        let ghost sets = self.encoders.sets();
        let ghost prio = self.encoders.priority_spec();
        let ghost v = version.number();
        let ghost start = arena@;
        let ghost start_table = table@;
        let ghost prev = prev_state_of(start, previous);
        let ghost k0 = key_of(start, previous, from as int);
        let n = self.chars.len();
        let num_sets = self.encoders.length();
        proof {
            if let Some(p) = previous {
                assert(edge_ok(text, sets, arena@, p as int));
            }
        }
        let ghost inherited: int = match previous {
            Some(p) => start[p as int].charset as int,
            None => 0,
        };
        let c = self.text.substring_char(from, from + 1);
        assert(c@ =~= seq![text[from as int]]);
        let mut first: usize = 0;
        let mut end: usize = num_sets;
        if let Some(p) = self.encoders.getPriorityEncoderIndex() {
            if p < num_sets && self.encoders.canEncode(c, p) {
                first = p;
                end = p + 1;
            }
        }
        assert forall|step: (Mode, int, int)| step.0 == Mode::BYTE && step_allowed(text, sets, prio, from as int, prev, step) implies first <= step.1 < end by {
        }
        let mut i = first;
        while i < end
            invariant
                self.wf(),
                text == self.text@,
                sets == self.encoders.sets(),
                prio == self.encoders.priority_spec(),
                v == version.number(),
                num_sets == sets.len(),
                first <= i <= end <= num_sets,
                end - first <= 20,
                c@ == seq![text[from as int]],
                from < text.len(),
                search_ok(text, sets, prio, v, arena@, table@, width as int),
                start.len() <= arena@.len() <= start.len() + (i - first),
                forall|x: int| 0 <= x < start.len() ==> #[trigger] arena@[x] == start[x],
                start.len() <= 0x00FF_FFFF,
                prev == prev_state_of(start, previous),
                match previous {
                    Some(p) => p < start.len() && start[p as int].from + start[p as int].length == from,
                    None => from == 0,
                },
                improves(start_table, start, table@, arena@),
                k0 == key_of(start, previous, from as int),
                forall|x: int| 0 <= x < arena@.len() ==> key_le(#[trigger] edge_key(arena@, x), k0),
                forall|j: int| 0 <= j < (from + 1) * width ==> #[trigger] table@[j] == start_table[j],
                forall|x: int|
                    start.len() <= x < arena@.len() ==> (#[trigger] arena@[x]).previous == previous && arena@[x].from == from,
                match prio {
                    Some(p) => p < sets.len() && char_encodable(sets[p as int], text[from as int]) ==> first == p && end == p + 1,
                    None => true,
                },
                forall|step: (Mode, int, int)|
                    step.0 == Mode::BYTE && first <= step.1 < i ==> #[trigger] step_covered(text, sets, prio, v, start, previous, from as int, step, table@, arena@, width as int),
            decreases end - i,
        {
            let ghost t0 = table@;
            let ghost a0 = arena@;
            if self.encoders.canEncode(c, i) {
                proof {
                    if let Some(p) = previous {
                        assert(arena@[p as int] == start[p as int]);
                        assert(edge_ok(text, sets, arena@, p as int));
                    }
                }
                let made = self.make_edge(arena, Mode::BYTE, from, i, 1, previous, version);
                proof {
                    if let Some(p) = previous {
                        assert(arena@[p as int] == start[p as int]);
                    }
                    assert(prev_state_of(arena@, previous) == prev);
                    assert(key_of(arena@, previous, from as int) == k0);
                    assert(base_of(arena@, previous) == base_of(start, previous));
                                    }
                self.add_made(made, arena, table, width, Ghost(v), Ghost(from as int), Ghost(previous), Ghost((Mode::BYTE, i as int, 1int)));
            }
            proof {
                lemma_improves_trans(start_table, start, t0, a0, table@, arena@);
                assert forall|step: (Mode, int, int)|
                    step.0 == Mode::BYTE && first <= step.1 < i + 1 implies #[trigger] step_covered(text, sets, prio, v, start, previous, from as int, step, table@, arena@, width as int) by {
                    if step.1 < i {
                        assert(step_covered(text, sets, prio, v, start, previous, from as int, step, t0, a0, width as int));
                    }
                }
            }
            i = i + 1;
        }
        // Kanji.
        let ghost t1 = table@;
        let ghost a1 = arena@;
        let ghost kanji_step = (Mode::KANJI, inherited, 1int);
        proof {
            if let Some(p) = previous {
                assert(arena@[p as int] == start[p as int]);
                assert(edge_ok(text, sets, arena@, p as int));
            }
        }
        if self.can_encode(Mode::KANJI, from) {
            let made = self.make_edge(arena, Mode::KANJI, from, 0, 1, previous, version);
            proof {
                if let Some(p) = previous {
                    assert(arena@[p as int] == start[p as int]);
                }
                assert(prev_state_of(arena@, previous) == prev);
                assert(key_of(arena@, previous, from as int) == k0);
                assert(base_of(arena@, previous) == base_of(start, previous));
                            }
            self.add_made(made, arena, table, width, Ghost(v), Ghost(from as int), Ghost(previous), Ghost(kanji_step));
        } else {
            assert(improves(table@, arena@, table@, arena@));
            assert(!step_allowed(text, sets, prio, from as int, prev, kanji_step));
        }
        proof {
            lemma_improves_trans(start_table, start, t1, a1, table@, arena@);
            assert forall|step: (Mode, int, int)|
                step.0 == Mode::BYTE && first <= step.1 < end implies #[trigger] step_covered(text, sets, prio, v, start, previous, from as int, step, table@, arena@, width as int) by {
                assert(step_covered(text, sets, prio, v, start, previous, from as int, step, t1, a1, width as int));
                lemma_covered_improves(text, sets, prio, v, start, previous, from as int, step, t1, a1, table@, arena@, width as int);
            }
        }
        // Alphanumeric.
        let ghost t2 = table@;
        let ghost a2 = arena@;
        let ghost kanji_done = step_covered(text, sets, prio, v, start, previous, from as int, kanji_step, table@, arena@, width as int);
        assert(kanji_done);
        let alnum_len: usize = if from + 1 >= n || !self.can_encode(Mode::ALPHANUMERIC, from + 1) {
            1
        } else {
            2
        };
        let ghost alnum_step = (Mode::ALPHANUMERIC, inherited, alnum_len as int);
        assert(alnum_len as int == alnum_step_len(text, from as int));
        proof {
            if let Some(p) = previous {
                assert(arena@[p as int] == start[p as int]);
                assert(edge_ok(text, sets, arena@, p as int));
            }
        }
        if self.can_encode(Mode::ALPHANUMERIC, from) {
            let made = self.make_edge(arena, Mode::ALPHANUMERIC, from, 0, alnum_len, previous, version);
            proof {
                if let Some(p) = previous {
                    assert(arena@[p as int] == start[p as int]);
                }
                assert(prev_state_of(arena@, previous) == prev);
                assert(key_of(arena@, previous, from as int) == k0);
                assert(base_of(arena@, previous) == base_of(start, previous));
                assert forall|k: int| from <= k < from + alnum_len implies alphanumeric_code(#[trigger] text[k] as u32) != -1 by {
                    if k > from {
                        assert(k == from + 1);
                    }
                }
            }
            self.add_made(made, arena, table, width, Ghost(v), Ghost(from as int), Ghost(previous), Ghost(alnum_step));
        } else {
            assert(improves(table@, arena@, table@, arena@));
            assert(!step_allowed(text, sets, prio, from as int, prev, alnum_step));
        }
        proof {
            lemma_improves_trans(start_table, start, t2, a2, table@, arena@);
            lemma_covered_improves(text, sets, prio, v, start, previous, from as int, kanji_step, t2, a2, table@, arena@, width as int);
            assert forall|step: (Mode, int, int)|
                step.0 == Mode::BYTE && first <= step.1 < end implies #[trigger] step_covered(text, sets, prio, v, start, previous, from as int, step, table@, arena@, width as int) by {
                assert(step_covered(text, sets, prio, v, start, previous, from as int, step, t2, a2, width as int));
                lemma_covered_improves(text, sets, prio, v, start, previous, from as int, step, t2, a2, table@, arena@, width as int);
            }
        }
        // Numeric.
        let ghost t3 = table@;
        let ghost a3 = arena@;
        let numeric_len: usize = if from + 1 >= n || !self.can_encode(Mode::NUMERIC, from + 1) {
            1
        } else if from + 2 >= n || !self.can_encode(Mode::NUMERIC, from + 2) {
            2
        } else {
            3
        };
        let ghost numeric_step = (Mode::NUMERIC, inherited, numeric_len as int);
        assert(numeric_len as int == numeric_step_len(text, from as int));
        proof {
            if let Some(p) = previous {
                assert(arena@[p as int] == start[p as int]);
                assert(edge_ok(text, sets, arena@, p as int));
            }
        }
        if self.can_encode(Mode::NUMERIC, from) {
            let made = self.make_edge(arena, Mode::NUMERIC, from, 0, numeric_len, previous, version);
            proof {
                if let Some(p) = previous {
                    assert(arena@[p as int] == start[p as int]);
                }
                assert(prev_state_of(arena@, previous) == prev);
                assert(key_of(arena@, previous, from as int) == k0);
                assert(base_of(arena@, previous) == base_of(start, previous));
                assert forall|k: int| from <= k < from + numeric_len implies is_digit(#[trigger] text[k]) by {
                    if k == from + 1 {
                    } else if k == from + 2 {
                    }
                }
            }
            self.add_made(made, arena, table, width, Ghost(v), Ghost(from as int), Ghost(previous), Ghost(numeric_step));
        } else {
            assert(improves(table@, arena@, table@, arena@));
            assert(!step_allowed(text, sets, prio, from as int, prev, numeric_step));
        }
        proof {
            lemma_improves_trans(start_table, start, t3, a3, table@, arena@);
            lemma_covered_improves(text, sets, prio, v, start, previous, from as int, kanji_step, t3, a3, table@, arena@, width as int);
            lemma_covered_improves(text, sets, prio, v, start, previous, from as int, alnum_step, t3, a3, table@, arena@, width as int);
            assert forall|step: (Mode, int, int)|
                #[trigger] step_allowed(text, sets, prio, from as int, prev, step) implies step_covered(text, sets, prio, v, start, previous, from as int, step, table@, arena@, width as int) by {
                match step.0 {
                    Mode::BYTE => {
                        assert(first <= step.1 < end);
                        assert(step_covered(text, sets, prio, v, start, previous, from as int, step, t3, a3, width as int));
                        lemma_covered_improves(text, sets, prio, v, start, previous, from as int, step, t3, a3, table@, arena@, width as int);
                    },
                    Mode::KANJI => {
                        assert(step == kanji_step);
                    },
                    Mode::ALPHANUMERIC => {
                        assert(step == alnum_step);
                    },
                    Mode::NUMERIC => {
                        assert(step == numeric_step);
                    },
                    _ => {},
                }
            }
        }
    }
}

/// The cell at `slot` of row `pos`.
spec fn row_cell(pos: int, width: int, slot: int) -> int {
    pos * width + slot
}

/// Where the last step of `path` starts.
spec fn last_start(path: Seq<(Mode, int, int)>) -> int {
    path_end(path.drop_last())
}

/// The (set, mode) slot of the state before the last step of `path`, or
/// -1 where the last step is the first.
spec fn prev_slot(path: Seq<(Mode, int, int)>) -> int {
    match last_state(path.drop_last()) {
        Some(q) => q.1 * 4 + compacted_ordinal(q.0),
        None => -1,
    }
}

/// The cell of the state that `path` ends in.
spec fn path_cell(path: Seq<(Mode, int, int)>, width: int) -> int {
    cell_index(path_end(path), path.last().1, path.last().0, width)
}

/// Whether every sound path whose last step starts before position `i`,
/// or at `i` after a state of slot below `slot`, and whose cost fits in 64
/// bits, has its end cell filled by a step no costlier.
spec fn optimal_upto(
    text: Seq<char>,
    sets: Seq<CharacterSetECI>,
    prio: Option<nat>,
    version: int,
    table: Seq<Option<usize>>,
    arena: Seq<Edge>,
    width: int,
    i: int,
    slot: int,
) -> bool {
    forall|path: Seq<(Mode, int, int)>|
        #[trigger] path_ok(text, sets, prio, path) && path.len() >= 1 && path_cost(text, sets, version, path) is Some
            && path_cost(text, sets, version, path)->0 <= u64::MAX && (last_start(path) < i || (last_start(path) == i
            && prev_slot(path) < slot)) ==> reached_by(
            table,
            arena,
            path_cell(path, width),
            path_cost(text, sets, version, path)->0,
            (last_start(path), prev_slot(path)),
        )
}

/// A step's length does not bear on what may follow it or what that costs.
proof fn lemma_prev_length(
    text: Seq<char>,
    sets: Seq<CharacterSetECI>,
    prio: Option<nat>,
    version: int,
    from: int,
    p1: (Mode, int, int),
    p2: (Mode, int, int),
    step: (Mode, int, int),
)
    requires
        p1.0 == p2.0,
        p1.1 == p2.1,
    ensures
        step_allowed(text, sets, prio, from, Some(p1), step) == step_allowed(text, sets, prio, from, Some(p2), step),
        step_cost(text, sets, version, from, Some(p1), step) == step_cost(text, sets, version, from, Some(p2), step),
{
}

/// Sound paths end no earlier than they are long, cost no less than their
/// first steps, and leave a set of `sets`.
proof fn lemma_path_facts(text: Seq<char>, sets: Seq<CharacterSetECI>, prio: Option<nat>, version: int, path: Seq<(Mode, int, int)>)
    requires
        path_ok(text, sets, prio, path),
        sets.len() >= 1,
    ensures
        path_end(path) >= path.len(),
        path.len() >= 1 ==> 0 <= path.last().1 < sets.len(),
        path.len() >= 1 ==> path.last().2 >= 1,
        path.len() >= 1 ==> path_end(path) == last_start(path) + path.last().2,
        path_cost(text, sets, version, path) matches Some(c) ==> c >= 0,
        path.len() >= 1 && path_cost(text, sets, version, path) is Some ==> path_cost(text, sets, version, path.drop_last()) is Some
            && path_cost(text, sets, version, path.drop_last())->0 <= path_cost(text, sets, version, path)->0,
    decreases path.len(),
{
    if path.len() > 0 {
        let q = path.drop_last();
        lemma_path_facts(text, sets, prio, version, q);
        let s = path.last();
        let c = step_cost(text, sets, version, path_end(q), last_state(q), s);
        if let Some(x) = c {
            assert(x >= 0);
        }
    }
}

/// Cells of one row are told apart by their slot, and states by their
/// cell.
proof fn lemma_cell_unique(e1: int, c1: int, m1: Mode, e2: int, c2: int, m2: Mode, width: int, sets_len: int)
    requires
        width == 4 * sets_len,
        0 <= e1,
        0 <= e2,
        0 <= c1 < sets_len,
        0 <= c2 < sets_len,
        m1 == Mode::BYTE || m1 == Mode::KANJI || m1 == Mode::ALPHANUMERIC || m1 == Mode::NUMERIC,
        m2 == Mode::BYTE || m2 == Mode::KANJI || m2 == Mode::ALPHANUMERIC || m2 == Mode::NUMERIC,
        cell_index(e1, c1, m1, width) == cell_index(e2, c2, m2, width),
    ensures
        e1 == e2,
        c1 == c2,
        m1 == m2,
{
    let s1 = c1 * 4 + compacted_ordinal(m1);
    let s2 = c2 * 4 + compacted_ordinal(m2);
    lemma_cell_row(e1, s1, width);
    lemma_cell_row(e2, s2, width);
}

/// The place where `path` ends: its end position and the (set, mode) slot
/// of the state it leaves.
pub open spec fn step_key(path: Seq<(Mode, int, int)>) -> (int, int) {
    (path_end(path), path.last().1 * 4 + compacted_ordinal(path.last().0))
}

/// Strict position-then-slot order of places.
pub open spec fn key_lt(a: (int, int), b: (int, int)) -> bool {
    a.0 < b.0 || (a.0 == b.0 && a.1 < b.1)
}

/// The order in which the search prefers paths of equal cost: compare the
/// places where the paths end, then where the steps before end, and so on
/// back to the start; a path that goes back to the start sooner comes
/// first.
pub open spec fn rev_le(p: Seq<(Mode, int, int)>, q: Seq<(Mode, int, int)>) -> bool
    decreases p.len(),
{
    if p.len() == 0 {
        true
    } else if q.len() == 0 {
        false
    } else if step_key(p) == step_key(q) {
        rev_le(p.drop_last(), q.drop_last())
    } else {
        key_lt(step_key(p), step_key(q))
    }
}

/// The path a cell keeps comes first, by `rev_le`, among the sound paths
/// into that cell that cost what it costs.
proof fn lemma_kept_first(
    text: Seq<char>,
    sets: Seq<CharacterSetECI>,
    prio: Option<nat>,
    version: int,
    table: Seq<Option<usize>>,
    arena: Seq<Edge>,
    width: int,
    n: int,
    q: Seq<(Mode, int, int)>,
)
    requires
        search_ok(text, sets, prio, version, arena, table, width),
        n == text.len(),
        optimal_upto(text, sets, prio, version, table, arena, width, n, 0),
        forall|x: int| 0 <= x < arena.len() ==> #[trigger] pred_kept(table, arena, width, x),
        path_ok(text, sets, prio, q),
        q.len() >= 1,
        path_cost(text, sets, version, q) is Some,
        path_cost(text, sets, version, q)->0 <= u64::MAX,
        path_end(q) <= n,
        table[path_cell(q, width)] is Some,
        arena[table[path_cell(q, width)]->0 as int].size == path_cost(text, sets, version, q)->0,
    ensures
        rev_le(edge_path(arena, table[path_cell(q, width)]->0 as int), q),
    decreases q.len(),
{
    lemma_path_facts(text, sets, prio, version, q);
    let pc = path_cell(q, width);
    let y = table[pc]->0 as int;
    let cq = path_cost(text, sets, version, q)->0;
    assert(last_start(q) < n);
    assert(reached_by(table, arena, pc, cq, (last_start(q), prev_slot(q))));
    assert(key_le(edge_key(arena, y), (last_start(q), prev_slot(q))));
    assert(y < arena.len());
    let ey = arena[y];
    assert(edge_ok(text, sets, arena, y));
    assert(edge_path_ok(text, sets, prio, version, arena, y));
    assert(cell_of(ey, width) == pc);
    lemma_cell_unique(ey.from + ey.length, ey.charset as int, ey.mode, path_end(q), q.last().1, q.last().0, width, sets.len() as int);
    let pp = edge_path(arena, y);
    assert(step_key(pp) == step_key(q));
    match ey.previous {
        None => {
            assert(pp =~= seq![edge_state(ey)]);
            assert(pp.drop_last() =~= Seq::<(Mode, int, int)>::empty());
            assert(rev_le(pp.drop_last(), q.drop_last()));
            assert(rev_le(pp, q));
            assert(pp == edge_path(arena, table[path_cell(q, width)]->0 as int));
        },
        Some(p) => {
            let qq = q.drop_last();
            assert(pp.drop_last() == edge_path(arena, p as int));
            let ep = arena[p as int];
            assert(edge_ok(text, sets, arena, p as int));
            assert(edge_path_ok(text, sets, prio, version, arena, p as int));
            if qq.len() == 0 {
                assert(qq =~= Seq::<(Mode, int, int)>::empty());
                assert(false);
            }
            lemma_path_facts(text, sets, prio, version, qq);
            assert(step_key(qq) == (last_start(q), prev_slot(q)));
            assert(step_key(edge_path(arena, p as int)) == edge_key(arena, y));
            if edge_key(arena, y) != (last_start(q), prev_slot(q)) {
                assert(key_lt(edge_key(arena, y), (last_start(q), prev_slot(q))));
                assert(pp.drop_last().len() >= 1);
                assert(rev_le(pp.drop_last(), qq));
            } else {
                lemma_cell_unique(
                    ep.from + ep.length,
                    ep.charset as int,
                    ep.mode,
                    path_end(qq),
                    qq.last().1,
                    qq.last().0,
                    width,
                    sets.len() as int,
                );
                assert(cell_of(ep, width) == path_cell(qq, width));
                assert(pred_kept(table, arena, width, y));
                assert(table[path_cell(qq, width)] == Some(p));
                assert(edge_state(ey) == q.last());
                lemma_prev_length(text, sets, prio, version, ey.from as int, edge_state(ep), qq.last(), q.last());
                assert(last_state(qq) == Some(qq.last()));
                assert(last_state(pp.drop_last()) == Some(edge_state(ep)));
                assert(path_cost(text, sets, version, qq)->0 == ep.size);
                lemma_kept_first(text, sets, prio, version, table, arena, width, n, qq);
            }
            assert(rev_le(pp.drop_last(), qq));
            assert(rev_le(pp, q));
        },
    }
}

impl<'a> Search<'a> {
    /// Runs the search for `version`: the steps kept, and the step that
    /// ends an encoding of the whole text of least cost among all sound
    /// paths whose cost fits in 64 bits; `UnencodableText` exactly where
    /// there is no such path.
    fn encode_specific_version(&self, version: &Version) -> (r: Result<(Vec<Edge>, usize), EncodeError>)
        requires
            self.wf(),
            self.text@.len() >= 1,
            self.text@.len() <= 7089,
        ensures
            r matches Ok((arena, last)) ==> arena_ok(self.text@, self.encoders.sets(), arena@)
                && paths_ok(self.text@, self.encoders.sets(), self.encoders.priority_spec(), version.number(), arena@)
                && last < arena@.len() && arena@[last as int].from + arena@[last as int].length == self.text@.len()
                && forall|path: Seq<(Mode, int, int)>|
                #[trigger] path_ok(self.text@, self.encoders.sets(), self.encoders.priority_spec(), path) && path.len() >= 1
                    && path_end(path) == self.text@.len() && path_cost(self.text@, self.encoders.sets(), version.number(), path) is Some
                    && path_cost(self.text@, self.encoders.sets(), version.number(), path)->0 <= u64::MAX
                    ==> arena@[last as int].size <= path_cost(self.text@, self.encoders.sets(), version.number(), path)->0,
            r is Ok <==> exists|path: Seq<(Mode, int, int)>|
                #[trigger] fitting_path(self.text@, self.encoders.sets(), self.encoders.priority_spec(), version.number(), path),
            r is Err ==> r == Err::<(Vec<Edge>, usize), EncodeError>(EncodeError::UnencodableText),
            r matches Ok((arena, last)) ==> forall|path: Seq<(Mode, int, int)>|
                #[trigger] fitting_path(self.text@, self.encoders.sets(), self.encoders.priority_spec(), version.number(), path)
                    ==> arena@[last as int].size < path_cost(self.text@, self.encoders.sets(), version.number(), path)->0
                    || (arena@[last as int].size == path_cost(self.text@, self.encoders.sets(), version.number(), path)->0
                    && rev_le(edge_path(arena@, last as int), path)),
    {
        let ghost text = self.text@;
        let ghost sets = self.encoders.sets();
        let ghost prio = self.encoders.priority_spec();
        let ghost v = version.number();
        let n = self.chars.len();
        let num_sets = self.encoders.length();
        let width: usize = 4 * num_sets;
        let rows: usize = n + 1;
        assert(rows * width <= 7090 * 80) by (nonlinear_arith)
            requires
                rows <= 7090,
                width <= 80,
        ;
        let cells: usize = rows * width;
        let mut table: Vec<Option<usize>> = vec![None; cells];
        let mut arena: Vec<Edge> = Vec::new();
        assert(search_ok(text, sets, prio, v, arena@, table@, width as int));
        let ghost t0 = table@;
        let ghost a0 = arena@;
        self.add_edges(version, &mut arena, &mut table, width, 0, None);
        assert forall|path: Seq<(Mode, int, int)>|
            #[trigger] path_ok(text, sets, prio, path) && path.len() >= 1 && path_cost(text, sets, v, path) is Some
                && path_cost(text, sets, v, path)->0 <= u64::MAX && (last_start(path) < 1 || (last_start(path) == 1
                && prev_slot(path) < 0)) implies reached_by(table@, arena@, path_cell(path, width as int), path_cost(text, sets, v, path)->0, (last_start(path), prev_slot(path))) by {
            lemma_path_facts(text, sets, prio, v, path);
            let q = path.drop_last();
            if q.len() > 0 {
                lemma_path_facts(text, sets, prio, v, q);
            }
            assert(q.len() == 0);
            assert(q =~= Seq::<(Mode, int, int)>::empty());
            let s = path.last();
            assert(step_allowed(text, sets, prio, 0, None, s));
            assert(prev_state_of(a0, None) is None);
            assert(step_covered(text, sets, prio, v, a0, None, 0, s, table@, arena@, width as int));
        }
        let mut i: usize = 1;
        while i < n
            invariant
                self.wf(),
                text == self.text@,
                sets == self.encoders.sets(),
                prio == self.encoders.priority_spec(),
                v == version.number(),
                n == text.len(),
                1 <= n <= 7089,
                num_sets == sets.len(),
                width == 4 * num_sets,
                rows == n + 1,
                cells == rows * width,
                1 <= i <= n,
                search_ok(text, sets, prio, v, arena@, table@, width as int),
                table@.len() == cells,
                arena@.len() <= 24 * (1 + i * width),
                optimal_upto(text, sets, prio, v, table@, arena@, width as int, i as int, 0),
                forall|x: int| 0 <= x < arena@.len() ==> key_le(#[trigger] edge_key(arena@, x), (i as int, -1int)),
                forall|x: int| 0 <= x < arena@.len() ==> #[trigger] pred_kept(table@, arena@, width as int, x),
            decreases n - i,
        {
            let mut slot: usize = 0;
            while slot < width
                invariant
                    self.wf(),
                    text == self.text@,
                    sets == self.encoders.sets(),
                    prio == self.encoders.priority_spec(),
                    v == version.number(),
                    n == text.len(),
                    1 <= n <= 7089,
                    num_sets == sets.len(),
                    width == 4 * num_sets,
                    rows == n + 1,
                    cells == rows * width,
                    1 <= i < n,
                    slot <= width,
                    search_ok(text, sets, prio, v, arena@, table@, width as int),
                    table@.len() == cells,
                    arena@.len() <= 24 * (1 + i * width + slot),
                    optimal_upto(text, sets, prio, v, table@, arena@, width as int, i as int, slot as int),
                    forall|x: int| 0 <= x < arena@.len() ==> key_le(#[trigger] edge_key(arena@, x), (i as int, slot - 1)),
                    forall|x: int| 0 <= x < arena@.len() ==> #[trigger] pred_kept(table@, arena@, width as int, x),
                decreases width - slot,
            {
                proof {
                    lemma_cell_bound(i as int, slot as int, width as int, rows as int);
                }
                let idx = i * width + slot;
                let ghost t1 = table@;
                let ghost a1 = arena@;
                let cell = table[idx];
                if let Some(x) = cell {
                    proof {
                        lemma_arena_room(i as int, slot as int, n as int, width as int);
                    }
                    proof {
                        assert(edge_ok(text, sets, arena@, x as int));
                        let e = arena@[x as int];
                        lemma_cell_row(i as int, slot as int, width as int);
                        lemma_cell_row(e.from + e.length, e.charset * 4 + compacted_ordinal(e.mode), width as int);
                        assert(slot_of(e) == slot);
                        assert(key_of(arena@, Some(x), i as int) == (i as int, slot as int));
                    }
                    self.add_edges(version, &mut arena, &mut table, width, i, Some(x));
                    proof {
                        assert forall|z: int| 0 <= z < arena@.len() implies #[trigger] pred_kept(table@, arena@, width as int, z) by {
                            if let Some(p) = arena@[z].previous {
                                if z < a1.len() {
                                    assert(arena@[z] == a1[z]);
                                    assert(edge_ok(text, sets, a1, z));
                                    assert(key_le(edge_key(a1, z), (i as int, slot - 1)));
                                    let pe = a1[p as int];
                                    assert(arena@[p as int] == pe);
                                    assert(edge_ok(text, sets, a1, p as int));
                                    assert(pred_kept(t1, a1, width as int, z));
                                    lemma_cell_before_row(pe.from + pe.length, pe.charset as int, pe.mode, width as int, i as int);
                                    let c = cell_of(pe, width as int);
                                    assert(table@[c] == t1[c]);
                                } else {
                                    assert(p == x);
                                    assert(arena@[x as int] == a1[x as int]);
                                    assert(cell_of(a1[x as int], width as int) == idx);
                                    assert((i + 1) * width == i * width + width) by (nonlinear_arith);
                                    assert(table@[idx as int] == t1[idx as int]);
                                }
                            }
                        }
                    }
                } else {
                    assert(improves(table@, arena@, table@, arena@));
                }
                proof {
                    assert forall|path: Seq<(Mode, int, int)>|
                        #[trigger] path_ok(text, sets, prio, path) && path.len() >= 1 && path_cost(text, sets, v, path) is Some
                            && path_cost(text, sets, v, path)->0 <= u64::MAX && (last_start(path) < i || (last_start(path) == i
                            && prev_slot(path) < slot + 1)) implies reached_by(table@, arena@, path_cell(path, width as int), path_cost(text, sets, v, path)->0, (last_start(path), prev_slot(path))) by {
                        lemma_path_facts(text, sets, prio, v, path);
                        let cp = path_cost(text, sets, v, path)->0;
                        let pc = path_cell(path, width as int);
                        if last_start(path) < i || prev_slot(path) < slot {
                            assert(reached_by(t1, a1, pc, cp, (last_start(path), prev_slot(path))));
                            lemma_reached_improves(text, sets, t1, a1, table@, arena@, pc, cp, (last_start(path), prev_slot(path)), width as int);
                        } else {
                            let q = path.drop_last();
                            let s = path.last();
                            if q.len() == 0 {
                                assert(q =~= Seq::<(Mode, int, int)>::empty());
                                assert(false);
                            }
                            lemma_path_facts(text, sets, prio, v, q);
                            let cq = path_cost(text, sets, v, q)->0;
                            assert(path_ok(text, sets, prio, q));
                            assert(last_start(q) < i);
                            assert(reached(t1, a1, path_cell(q, width as int), cq));
                            assert(path_cell(q, width as int) == idx);
                            let x = cell->0;
                            assert(cell == t1[idx as int]);
                            let e = a1[x as int];
                            assert(edge_ok(text, sets, a1, x as int));
                            lemma_cell_unique(e.from + e.length, e.charset as int, e.mode, path_end(q), q.last().1, q.last().0, width as int, sets.len() as int);
                            lemma_prev_length(text, sets, prio, v, i as int, edge_state(e), q.last(), s);
                            assert(prev_state_of(a1, Some(x)) == Some(edge_state(e)));
                            assert(last_state(q) == Some(q.last()));
                            assert(step_allowed(text, sets, prio, i as int, Some(edge_state(e)), s));
                            assert(step_covered(text, sets, prio, v, a1, Some(x), i as int, s, table@, arena@, width as int));
                            assert(path_end(path) == i + s.2);
                            assert(key_of(a1, Some(x), i as int) == (last_start(path), prev_slot(path)));
                        }
                    }
                }
                slot = slot + 1;
            }
            proof {
                assert((i + 1) * width == i * width + width) by (nonlinear_arith);
                assert forall|path: Seq<(Mode, int, int)>|
                    #[trigger] path_ok(text, sets, prio, path) && path.len() >= 1 && path_cost(text, sets, v, path) is Some
                        && path_cost(text, sets, v, path)->0 <= u64::MAX && (last_start(path) < i + 1 || (last_start(path) == i + 1
                        && prev_slot(path) < 0)) implies reached_by(table@, arena@, path_cell(path, width as int), path_cost(text, sets, v, path)->0, (last_start(path), prev_slot(path))) by {
                    lemma_path_facts(text, sets, prio, v, path);
                    let q = path.drop_last();
                    if q.len() > 0 {
                        lemma_path_facts(text, sets, prio, v, q);
                        assert(prev_slot(path) < width);
                    } else {
                        assert(q =~= Seq::<(Mode, int, int)>::empty());
                    }
                }
            }
            i = i + 1;
        }
        let mut best: Option<usize> = None;
        let mut best_size: u64 = 0;
        let mut slot: usize = 0;
        let ghost mut best_slot: int = 0;
        while slot < width
            invariant
                best matches Some(b) ==> 0 <= best_slot < slot && table@[row_cell(n as int, width as int, best_slot)] == Some(b)
                    && forall|s2: int|
                    0 <= s2 < best_slot && (#[trigger] table@[row_cell(n as int, width as int, s2)]) is Some ==> best_size
                        < arena@[table@[row_cell(n as int, width as int, s2)]->0 as int].size,
                n == text.len(),
                width == 4 * num_sets,
                num_sets == sets.len(),
                rows == n + 1,
                cells == rows * width,
                slot <= width,
                search_ok(text, sets, prio, v, arena@, table@, width as int),
                table@.len() == cells,
                best matches Some(b) ==> b < arena@.len() && arena@[b as int].from + arena@[b as int].length == n
                    && arena@[b as int].size == best_size,
                forall|s2: int|
                    0 <= s2 < slot && (#[trigger] table@[row_cell(n as int, width as int, s2)]) is Some ==> best is Some
                        && best_size <= arena@[table@[row_cell(n as int, width as int, s2)]->0 as int].size,
            decreases width - slot,
        {
            proof {
                lemma_cell_bound(n as int, slot as int, width as int, rows as int);
            }
            let idx = n * width + slot;
            assert(idx == row_cell(n as int, width as int, slot as int));
            if let Some(x) = table[idx] {
                proof {
                    assert(edge_ok(text, sets, arena@, x as int));
                    let e = arena@[x as int];
                    lemma_cell_row(n as int, slot as int, width as int);
                    lemma_cell_row(e.from + e.length, e.charset * 4 + compacted_ordinal(e.mode), width as int);
                }
                let better = match best {
                    None => true,
                    Some(_) => arena[x].size < best_size,
                };
                if better {
                    best = Some(x);
                    best_size = arena[x].size;
                    proof {
                        best_slot = slot as int;
                    }
                }
            }
            slot = slot + 1;
        }
        match best {
            Some(b) => {
                proof {
                    assert forall|path: Seq<(Mode, int, int)>|
                        #[trigger] path_ok(text, sets, prio, path) && path.len() >= 1 && path_end(path) == n
                            && path_cost(text, sets, v, path) is Some && path_cost(text, sets, v, path)->0 <= u64::MAX
                            implies arena@[b as int].size <= path_cost(text, sets, v, path)->0 by {
                        lemma_path_facts(text, sets, prio, v, path);
                        let pc = path_cell(path, width as int);
                        assert(reached(table@, arena@, pc, path_cost(text, sets, v, path)->0));
                        let sl = path.last().1 * 4 + compacted_ordinal(path.last().0);
                        assert(pc == row_cell(n as int, width as int, sl));
                        assert(0 <= sl < width);
                    }
                }
                proof {
                    let p = edge_path(arena@, b as int);
                    assert(edge_path_ok(text, sets, prio, v, arena@, b as int));
                    assert(fitting_path(text, sets, prio, v, p));
                    let eb = arena@[b as int];
                    assert(edge_ok(text, sets, arena@, b as int));
                    lemma_cell_bound(n as int, best_slot, width as int, rows as int);
                    let bi = row_cell(n as int, width as int, best_slot);
                    assert(table@[bi] == Some(b));
                    assert(match table@[bi] {
                        Some(x) => x < arena@.len() && cell_of(arena@[x as int], width as int) == bi,
                        None => true,
                    });
                    assert(cell_of(eb, width as int) == row_cell(n as int, width as int, best_slot));
                    lemma_cell_row(n as int, best_slot, width as int);
                    lemma_cell_row(eb.from + eb.length, eb.charset * 4 + compacted_ordinal(eb.mode), width as int);
                    assert(step_key(p) == (n as int, best_slot));
                    assert forall|path: Seq<(Mode, int, int)>| #[trigger] fitting_path(text, sets, prio, v, path) implies
                        arena@[b as int].size < path_cost(text, sets, v, path)->0 || (arena@[b as int].size == path_cost(
                        text,
                        sets,
                        v,
                        path,
                    )->0 && rev_le(p, path)) by {
                        lemma_path_facts(text, sets, prio, v, path);
                        let cp = path_cost(text, sets, v, path)->0;
                        let pc = path_cell(path, width as int);
                        assert(reached_by(table@, arena@, pc, cp, (last_start(path), prev_slot(path))));
                        let sl = path.last().1 * 4 + compacted_ordinal(path.last().0);
                        assert(pc == row_cell(n as int, width as int, sl));
                        assert(0 <= sl < width);
                        assert(table@[row_cell(n as int, width as int, sl)] is Some);
                        if arena@[b as int].size == cp {
                            assert(step_key(path) == (n as int, sl));
                            if sl < best_slot {
                                assert(false);
                            } else if sl == best_slot {
                                lemma_kept_first(text, sets, prio, v, table@, arena@, width as int, n as int, path);
                            } else {
                                assert(key_lt(step_key(p), step_key(path)));
                            }
                        }
                    }
                }
                Ok((arena, b))
            },
            None => {
                proof {
                    assert forall|path: Seq<(Mode, int, int)>| #[trigger] fitting_path(text, sets, prio, v, path) implies false by {
                        lemma_path_facts(text, sets, prio, v, path);
                        let pc = path_cell(path, width as int);
                        assert(reached(table@, arena@, pc, path_cost(text, sets, v, path)->0));
                        let sl = path.last().1 * 4 + compacted_ordinal(path.last().0);
                        assert(pc == row_cell(n as int, width as int, sl));
                        assert(0 <= sl < width);
                        assert(table@[row_cell(n as int, width as int, sl)] is Some);
                    }
                }
                Err(EncodeError::UnencodableText)
            },
        }
    }
}

/// Room for another round of steps: the rounds before the one at `i` and
/// `slot` kept the steps within what `add_edges` may be given.
proof fn lemma_arena_room(i: int, slot: int, n: int, width: int)
    requires
        0 <= i < n <= 7089,
        0 <= slot < width <= 80,
    ensures
        24 * (1 + i * width + slot) <= 0x00FF_FFFF,
{
    assert(i * width + slot < n * width) by (nonlinear_arith)
        requires
            0 <= i < n,
            0 <= slot < width,
    ;
    assert(n * width <= 7089 * 80) by (nonlinear_arith)
        requires
            n <= 7089,
            width <= 80,
            0 <= n,
            0 <= width,
    ;
}

/// Two pieces that a mode holds, one right after the other, make one
/// piece that it holds; byte pieces must be in the same set.
proof fn lemma_segment_join(
    text: Seq<char>,
    sets: Seq<CharacterSetECI>,
    mode: Mode,
    c1: int,
    c2: int,
    from: int,
    len1: int,
    len2: int,
)
    requires
        segment_holds(text, sets, mode, c1, from, len1),
        segment_holds(text, sets, mode, c2, from + len1, len2),
        mode == Mode::BYTE ==> c1 == c2,
    ensures
        segment_holds(text, sets, mode, c1, from, len1 + len2),
{
    match mode {
        Mode::NUMERIC => {
            assert forall|i: int| from <= i < from + len1 + len2 implies is_digit(#[trigger] text[i]) by {
                if i >= from + len1 {
                }
            }
        },
        Mode::ALPHANUMERIC => {
            assert forall|i: int| from <= i < from + len1 + len2 implies alphanumeric_code(#[trigger] text[i] as u32) != -1 by {
                if i >= from + len1 {
                }
            }
        },
        Mode::KANJI => {
            assert forall|i: int| from <= i < from + len1 + len2 implies is_only_double_byte_kanji(seq![#[trigger] text[i]]) by {
                if i >= from + len1 {
                }
            }
        },
        Mode::BYTE => {
            assert forall|i: int| from <= i < from + len1 + len2 implies char_encodable(sets[c1], #[trigger] text[i]) by {
                if i >= from + len1 {
                }
            }
        },
        _ => {},
    }
}

/// `nodes` with `more` characters added to the last node.
pub open spec fn extend_last(nodes: Seq<ResultNode>, more: int) -> Seq<ResultNode> {
    if more == 0 || nodes.len() == 0 {
        nodes
    } else {
        let l = nodes.last();
        nodes.update(
            nodes.len() - 1,
            ResultNode {
                mode: l.mode,
                from_position: l.from_position,
                charset_encoder_index: l.charset_encoder_index,
                character_length: (l.character_length + more) as usize,
            },
        )
    }
}

/// The nodes of a path: a step starts a new node where its mode differs
/// from the step before or it needs an ECI segment, which then comes just
/// before it; else it lengthens the last node.
pub open spec fn path_nodes(path: Seq<(Mode, int, int)>) -> Seq<ResultNode>
    decreases path.len(),
{
    if path.len() == 0 {
        Seq::empty()
    } else {
        let q = path.drop_last();
        let s = path.last();
        let from = path_end(q);
        let eci = step_needs_eci(last_state(q), s);
        let new_node = match last_state(q) {
            Some(p) => p.0 != s.0 || eci,
            None => true,
        };
        let prior = path_nodes(q);
        if new_node {
            prior + (if eci {
                seq![
                    ResultNode {
                        mode: Mode::ECI,
                        from_position: from as usize,
                        charset_encoder_index: s.1 as usize,
                        character_length: 0,
                    },
                ]
            } else {
                Seq::<ResultNode>::empty()
            }) + seq![
                ResultNode {
                    mode: s.0,
                    from_position: from as usize,
                    charset_encoder_index: s.1 as usize,
                    character_length: s.2 as usize,
                },
            ]
        } else {
            extend_last(prior, s.2)
        }
    }
}

/// Lengthening the last node twice is lengthening it once by both.
proof fn lemma_extend_twice(nodes: Seq<ResultNode>, a: int, b: int)
    requires
        nodes.len() >= 1,
        a >= 0,
        b >= 0,
        nodes.last().character_length + a + b <= usize::MAX,
    ensures
        extend_last(extend_last(nodes, a), b) == extend_last(nodes, a + b),
{
    if a != 0 && b != 0 {
        assert(extend_last(extend_last(nodes, a), b) =~= extend_last(nodes, a + b));
    } else if a == 0 {
        assert(extend_last(nodes, 0) == nodes);
    } else {
        assert(extend_last(extend_last(nodes, a), 0) == extend_last(nodes, a));
    }
}

/// The last node of a sound path is no longer than the path.
proof fn lemma_path_nodes_last(text: Seq<char>, sets: Seq<CharacterSetECI>, prio: Option<nat>, path: Seq<(Mode, int, int)>)
    requires
        path_ok(text, sets, prio, path),
        path.len() >= 1,
        path_end(path) <= usize::MAX,
        sets.len() >= 1,
    ensures
        path_nodes(path).len() >= 1,
        path_nodes(path).last().character_length <= path_end(path),
    decreases path.len(),
{
    let q = path.drop_last();
    lemma_path_facts(text, sets, prio, 0, path);
    lemma_path_nodes_nonempty(path);
    if q.len() >= 1 {
        lemma_path_facts(text, sets, prio, 0, q);
        lemma_path_nodes_last(text, sets, prio, q);
    }
}

/// The nodes of a nonempty path are not empty.
proof fn lemma_path_nodes_nonempty(path: Seq<(Mode, int, int)>)
    requires
        path.len() >= 1,
    ensures
        path_nodes(path).len() >= 1,
    decreases path.len(),
{
    let q = path.drop_last();
    if q.len() >= 1 {
        lemma_path_nodes_nonempty(q);
    }
}

/// The nodes of the encoding that ends with the step `last`, read back
/// from it: runs of steps in one mode (and, in byte mode, one set) make one
/// node, and an ECI node comes before each step whose set differs from the
/// one before it (or, first, from ISO-8859-1 in byte mode). Also whether
/// some ECI node was made.
#[verifier::rlimit(100)]
fn build_nodes(
    arena: &Vec<Edge>,
    last: usize,
    Ghost(text): Ghost<Seq<char>>,
    Ghost(sets): Ghost<Seq<CharacterSetECI>>,
    Ghost(prio): Ghost<Option<nat>>,
    Ghost(version): Ghost<int>,
) -> (r: (Vec<ResultNode>, bool))
    requires
        arena_ok(text, sets, arena@),
        paths_ok(text, sets, prio, version, arena@),
        last < arena@.len(),
        arena@[last as int].from + arena@[last as int].length == text.len(),
        text.len() <= 7089,
    ensures
        nodes_cover(r.0@, text, sets, 0),
        eci_consistent(r.0@, 0),
        r.0@ == path_nodes(edge_path(arena@, last as int)),
        r.0@.len() >= 1,
        r.1 ==> exists|i: int| 0 <= i < r.0@.len() && (#[trigger] r.0@[i]).mode == Mode::ECI,
        !r.1 ==> forall|i: int| 0 <= i < r.0@.len() ==> (#[trigger] r.0@[i]).mode != Mode::ECI,
{
    let mut list: Vec<ResultNode> = Vec::new();
    let mut length: usize = 0;
    let mut contains_eci = false;
    let mut current: usize = last;
    let ghost mut pm: Mode = arena@[last as int].mode;
    let ghost mut pc: int = arena@[last as int].charset as int;
    loop
        invariant_except_break
            arena_ok(text, sets, arena@),
            current < arena@.len(),
            text.len() <= 7089,
            arena@[current as int].from + arena@[current as int].length + length <= text.len(),
            nodes_cover(list@, text, sets, arena@[current as int].from + arena@[current as int].length + length),
            length > 0 ==> segment_holds(
                text,
                sets,
                pm,
                pc,
                arena@[current as int].from + arena@[current as int].length,
                length as int,
            ) && arena@[current as int].mode == pm && (pm == Mode::BYTE ==> arena@[current as int].charset == pc),
            contains_eci ==> exists|i: int| 0 <= i < list@.len() && (#[trigger] list@[i]).mode == Mode::ECI,
            !contains_eci ==> forall|i: int| 0 <= i < list@.len() ==> (#[trigger] list@[i]).mode != Mode::ECI,
            eci_consistent(list@, arena@[current as int].charset as int),
            paths_ok(text, sets, prio, version, arena@),
            path_nodes(edge_path(arena@, last as int)) == extend_last(path_nodes(edge_path(arena@, current as int)), length as int)
                + list@,
            length > 0 ==> path_nodes(edge_path(arena@, current as int)).len() >= 1,
        ensures
            nodes_cover(list@, text, sets, 0),
            eci_consistent(list@, 0),
            path_nodes(edge_path(arena@, last as int)) == list@,
            list@.len() >= 1,
            contains_eci ==> exists|i: int| 0 <= i < list@.len() && (#[trigger] list@[i]).mode == Mode::ECI,
            !contains_eci ==> forall|i: int| 0 <= i < list@.len() ==> (#[trigger] list@[i]).mode != Mode::ECI,
        decreases current,
    {
        let mode = arena[current].mode;
        let from = arena[current].from;
        let charset = arena[current].charset;
        let previous = arena[current].previous;
        proof {
            assert(edge_ok(text, sets, arena@, current as int));
            if length > 0 {
                lemma_segment_join(
                    text,
                    sets,
                    mode,
                    charset as int,
                    pc,
                    from as int,
                    arena@[current as int].length as int,
                    length as int,
                );
            }
        }
        let ghost old_list = list@;
        let ghost boundary = from + arena@[current as int].length + length;
        length = length + arena[current].length;
        let need_eci = match previous {
            Some(p) => charset != arena[p].charset,
            None => mode == Mode::BYTE && charset != 0,
        };
        let new_node = match previous {
            Some(p) => arena[p].mode != mode || need_eci,
            None => true,
        };
        let ghost px = edge_path(arena@, current as int);
        let ghost q = px.drop_last();
        let ghost old_length: int = boundary - from - arena@[current as int].length;
        proof {
            assert(edge_path_ok(text, sets, prio, version, arena@, current as int));
            match previous {
                Some(p) => {
                    assert(edge_ok(text, sets, arena@, current as int));
                    assert(px == edge_path(arena@, p as int).push(edge_state(arena@[current as int])));
                    assert(q =~= edge_path(arena@, p as int));
                    assert(edge_path_ok(text, sets, prio, version, arena@, p as int));
                    assert(last_state(q) == Some(edge_state(arena@[p as int])));
                    assert(path_end(q) == from);
                    lemma_path_nodes_nonempty(q);
                },
                None => {
                    assert(px =~= seq![edge_state(arena@[current as int])]);
                    assert(q =~= Seq::<(Mode, int, int)>::empty());
                },
            }
            assert(px.last() == edge_state(arena@[current as int]));
            assert(need_eci == step_needs_eci(last_state(q), px.last()));
        }
        if new_node {
            let node = ResultNode { mode, from_position: from, charset_encoder_index: charset, character_length: length };
            proof {
                let eci_part = if need_eci {
                    seq![
                        ResultNode {
                            mode: Mode::ECI,
                            from_position: from,
                            charset_encoder_index: charset,
                            character_length: 0,
                        },
                    ]
                } else {
                    Seq::<ResultNode>::empty()
                };
                let own = ResultNode {
                    mode,
                    from_position: from,
                    charset_encoder_index: charset,
                    character_length: arena@[current as int].length,
                };
                assert(path_nodes(px) == path_nodes(q) + eci_part + seq![own]);
                assert(extend_last(path_nodes(px), old_length) =~= path_nodes(q) + eci_part + seq![node]);
            }
            list.insert(0, node);
            assert(list@ =~= seq![node] + old_list);
            assert(list@.drop_first() =~= old_list);
            assert(!is_indicator(mode));
            assert(segment_holds(text, sets, mode, charset as int, from as int, length as int));
            assert(nodes_cover(old_list, text, sets, from + length));
            assert(nodes_cover(list@, text, sets, from as int));
            assert(eci_consistent(list@, charset as int));
            length = 0;
            proof {
                if contains_eci {
                    let w = choose|i: int| 0 <= i < old_list.len() && (#[trigger] old_list[i]).mode == Mode::ECI;
                    assert(list@[w + 1] == old_list[w]);
                }
            }
        } else {
            proof {
                pm = mode;
                pc = charset as int;
                let pn = path_nodes(q);
                assert(path_nodes(px) == extend_last(pn, arena@[current as int].length as int));
                let p = previous->0;
                assert(edge_path_ok(text, sets, prio, version, arena@, p as int));
                lemma_path_nodes_last(text, sets, prio, q);
                lemma_extend_twice(pn, arena@[current as int].length as int, old_length);
            }
        }
        if need_eci {
            let ghost before_eci = list@;
            let node = ResultNode { mode: Mode::ECI, from_position: from, charset_encoder_index: charset, character_length: 0 };
            list.insert(0, node);
            assert(list@ =~= seq![node] + before_eci);
            assert(list@.drop_first() =~= before_eci);
            assert(list@[0].mode == Mode::ECI);
            assert(nodes_cover(before_eci, text, sets, from + length) ==> nodes_cover(list@, text, sets, from + length));
            assert(eci_consistent(before_eci, charset as int) ==> eci_consistent(list@, 0));
            contains_eci = true;
        }
        match previous {
            None => {
                break;
            },
            Some(p) => {
                proof {
                    assert(edge_ok(text, sets, arena@, current as int));
                    assert(q =~= edge_path(arena@, p as int));
                    if new_node {
                        assert(extend_last(path_nodes(q), 0) == path_nodes(q));
                        assert(list@ =~= (if need_eci {
                            seq![
                                ResultNode {
                                    mode: Mode::ECI,
                                    from_position: from,
                                    charset_encoder_index: charset,
                                    character_length: 0,
                                },
                            ]
                        } else {
                            Seq::<ResultNode>::empty()
                        }) + seq![
                            ResultNode {
                                mode,
                                from_position: from,
                                charset_encoder_index: charset,
                                character_length: (boundary - from) as usize,
                            },
                        ] + old_list);
                    }
                }
                current = p;
            },
        }
    }
    (list, contains_eci)
}

/// Whether the search state is sound: every step holds its characters
/// and records a sound path, every cell names a step that ends in it.
spec fn search_ok(
    text: Seq<char>,
    sets: Seq<CharacterSetECI>,
    prio: Option<nat>,
    version: int,
    arena: Seq<Edge>,
    table: Seq<Option<usize>>,
    width: int,
) -> bool {
    &&& arena_ok(text, sets, arena)
    &&& paths_ok(text, sets, prio, version, arena)
    &&& table_ok(table, arena, width)
    &&& width == 4 * sets.len()
    &&& sets.len() >= 1
    &&& table.len() == (text.len() + 1) * width
}

/// Keeps `edge` as the step into its cell where the cell is empty or holds
/// a costlier step.
fn add_edge(
    arena: &mut Vec<Edge>,
    table: &mut Vec<Option<usize>>,
    width: usize,
    edge: Edge,
    Ghost(text): Ghost<Seq<char>>,
    Ghost(sets): Ghost<Seq<CharacterSetECI>>,
    Ghost(prio): Ghost<Option<nat>>,
    Ghost(version): Ghost<int>,
)
    requires
        search_ok(text, sets, prio, version, old(arena)@, old(table)@, width as int),
        edge_ok(text, sets, old(arena)@.push(edge), old(arena)@.len() as int),
        step_allowed(text, sets, prio, edge.from as int, prev_state_of(old(arena)@, edge.previous), edge_state(edge)),
        step_cost(text, sets, version, edge.from as int, prev_state_of(old(arena)@, edge.previous), edge_state(edge))
            == Some(edge.size - base_of(old(arena)@, edge.previous)),
        (edge.mode == Mode::KANJI || edge.mode == Mode::ALPHANUMERIC || edge.mode == Mode::NUMERIC
            || edge.mode == Mode::BYTE),
        old(arena)@.len() < usize::MAX,
        forall|x: int|
            0 <= x < old(arena)@.len() ==> key_le(
                #[trigger] edge_key(old(arena)@, x),
                key_of(old(arena)@, edge.previous, edge.from as int),
            ),
    ensures
        search_ok(text, sets, prio, version, final(arena)@, final(table)@, width as int),
        old(arena)@.len() <= final(arena)@.len() <= old(arena)@.len() + 1,
        forall|x: int| 0 <= x < old(arena)@.len() ==> #[trigger] final(arena)@[x] == old(arena)@[x],
        improves(old(table)@, old(arena)@, final(table)@, final(arena)@),
        final(table)@[cell_of(edge, width as int)] is Some,
        final(arena)@[final(table)@[cell_of(edge, width as int)]->0 as int].size <= edge.size,
        0 <= cell_of(edge, width as int) < final(table)@.len(),
        final(arena)@[final(table)@[cell_of(edge, width as int)]->0 as int].size == edge.size ==> key_le(
            edge_key(final(arena)@, final(table)@[cell_of(edge, width as int)]->0 as int),
            key_of(old(arena)@, edge.previous, edge.from as int),
        ),
        forall|x: int|
            0 <= x < final(arena)@.len() ==> key_le(
                #[trigger] edge_key(final(arena)@, x),
                key_of(old(arena)@, edge.previous, edge.from as int),
            ),
        forall|j: int| 0 <= j < final(table)@.len() && j != cell_of(edge, width as int) ==> #[trigger] final(table)@[j] == old(table)@[j],
        forall|x: int| old(arena)@.len() <= x < final(arena)@.len() ==> #[trigger] final(arena)@[x] == edge,
{
    assert(old(arena)@.push(edge)[old(arena)@.len() as int] == edge);
    let table_len = table.len();
    assert((text.len() + 1) * width >= text.len() + 1) by (nonlinear_arith)
        requires
            width >= 1,
    ;
    let pos = edge.from + edge.length;
    let ordinal: usize = match edge.mode {
        Mode::KANJI => 0,
        Mode::ALPHANUMERIC => 1,
        Mode::NUMERIC => 2,
        _ => 3,
    };
    let slot = edge.charset * 4 + ordinal;
    proof {
        lemma_cell_bound(pos as int, slot as int, width as int, (text.len() + 1) as int);
    }
    let idx = pos * width + slot;
    assert(idx == cell_of(edge, width as int));
    let keep = match table[idx] {
        None => true,
        Some(x) => arena[x].size > edge.size,
    };
    if keep {
        let ghost before = arena@;
        let new_index = arena.len();
        arena.push(edge);
        assert forall|x: int| 0 <= x < arena@.len() implies #[trigger] edge_ok(text, sets, arena@, x) by {
            if x < before.len() {
                assert(edge_ok(text, sets, before, x));
                let e = before[x];
                if let Some(p) = e.previous {
                    assert(arena@[p as int] == before[p as int]);
                }
            } else {
                assert(arena@ =~= before.push(edge));
            }
        }
        assert forall|x: int| 0 <= x < arena@.len() implies #[trigger] edge_path_ok(text, sets, prio, version, arena@, x) by {
            assert(arena@ =~= before.push(edge));
            if x < before.len() {
                lemma_edge_path_push(before, edge, x);
                assert(edge_path_ok(text, sets, prio, version, before, x));
            } else {
                assert(x == before.len());
                match edge.previous {
                    Some(p) => {
                        assert(edge_ok(text, sets, arena@, x));
                        lemma_edge_path_push(before, edge, p as int);
                        assert(edge_path_ok(text, sets, prio, version, before, p as int));
                        let q = edge_path(before, p as int);
                        let path = edge_path(arena@, x);
                        assert(arena@[x] == edge);
                        assert(edge_path(arena@, p as int) == q);
                        assert(path == q.push(edge_state(edge)));
                        assert(path.drop_last() =~= q);
                        assert(path.last() == edge_state(edge));
                        assert(last_state(q) == prev_state_of(before, edge.previous));
                        assert(path_end(q) == edge.from);
                        assert(path_ok(text, sets, prio, path));
                        assert(path_end(path) == edge.from + edge.length);
                        assert(path_cost(text, sets, version, q) == Some(before[p as int].size as int));
                        assert(path_cost(text, sets, version, path) == Some(edge.size as int));
                    },
                    None => {
                        let path = edge_path(arena@, x);
                        assert(arena@[x] == edge);
                        assert(path =~= seq![edge_state(edge)]);
                        let q = path.drop_last();
                        assert(q =~= Seq::<(Mode, int, int)>::empty());
                        assert(path.last() == edge_state(edge));
                        assert(path_end(q) == 0);
                        assert(last_state(q) is None);
                        assert(path_ok(text, sets, prio, q));
                        assert(path_ok(text, sets, prio, path));
                        assert(path_cost(text, sets, version, q) == Some(0int));
                        assert(path_cost(text, sets, version, path) == Some(edge.size as int));
                        assert(path_end(path) == edge.from + edge.length);
                    },
                }
            }
        }
        table.set(idx, Some(new_index));
        assert forall|i: int| 0 <= i < table@.len() implies match #[trigger] table@[i] {
            Some(x) => x < arena@.len() && cell_of(arena@[x as int], width as int) == i,
            None => true,
        } by {
            if i != idx {
                assert(table@[i] == old(table)@[i]);
                if let Some(x) = table@[i] {
                    assert(arena@[x as int] == before[x as int]);
                }
            }
        }
        assert forall|i: int| 0 <= i < old(table)@.len() && old(table)@[i] is Some implies #[trigger] table@[i] is Some
            && arena@[table@[i]->0 as int].size <= old(arena)@[old(table)@[i]->0 as int].size by {
            if i != idx {
                assert(table@[i] == old(table)@[i]);
                assert(arena@[table@[i]->0 as int] == before[table@[i]->0 as int]);
            }
        }
        assert forall|x: int| 0 <= x < arena@.len() implies key_le(
            #[trigger] edge_key(arena@, x),
            key_of(before, edge.previous, edge.from as int),
        ) by {
            if x < before.len() {
                assert(edge_ok(text, sets, before, x));
                if let Some(p) = before[x].previous {
                    assert(arena@[p as int] == before[p as int]);
                }
                assert(edge_key(arena@, x) == edge_key(before, x));
            } else {
                assert(arena@[x] == edge);
                if let Some(p) = edge.previous {
                    assert(arena@[p as int] == before[p as int]);
                }
            }
        }
    } else {
        proof {
            let y = table@[idx as int]->0;
            assert(y < arena@.len());
            assert(edge_key(arena@, y as int) == edge_key(old(arena)@, y as int));
        }
    }
}

/// The bits of one node in `version`: the mode indicator and character
/// count, then the characters; an ECI node's set number in eight bits.
/// `None` where a byte node's set cannot represent its characters.
pub open spec fn node_bits(node: ResultNode, text: Seq<char>, sets: Seq<CharacterSetECI>, version: int) -> Option<int> {
    let len = node.character_length as int;
    let header = 4 + character_count_bits(node.mode, version);
    match node.mode {
        Mode::KANJI => Some(header + 13 * len),
        Mode::ALPHANUMERIC => Some(header + (len / 2) * 11 + if len % 2 == 1 { 6int } else { 0int }),
        Mode::NUMERIC => Some(header + (len / 3) * 10 + if len % 3 == 1 {
            4int
        } else if len % 3 == 2 {
            7int
        } else {
            0int
        }),
        Mode::BYTE => match text_bytes(
            sets[node.charset_encoder_index as int],
            text.subrange(node.from_position as int, node.from_position + len),
        ) {
            Ok(b) => Some(header + 8 * b.len()),
            Err(_) => None,
        },
        Mode::ECI => Some(header + 8),
        _ => Some(header),
    }
}

/// The bits of all the nodes in `version`.
pub open spec fn nodes_bits(nodes: Seq<ResultNode>, text: Seq<char>, sets: Seq<CharacterSetECI>, version: int) -> Option<int>
    decreases nodes.len(),
{
    if nodes.len() == 0 {
        Some(0)
    } else {
        match (node_bits(nodes[0], text, sets, version), nodes_bits(nodes.drop_first(), text, sets, version)) {
            (Some(a), Some(b)) => Some(a + b),
            _ => None,
        }
    }
}

/// Node bits are never negative.
proof fn lemma_node_bits_nonneg(node: ResultNode, text: Seq<char>, sets: Seq<CharacterSetECI>, version: int)
    ensures
        node_bits(node, text, sets, version) matches Some(b) ==> b >= 0,
{
    let len = node.character_length as int;
    assert(len / 2 >= 0 && len / 3 >= 0);
    assert((len / 2) * 11 >= 0 && (len / 3) * 10 >= 0 && 13 * len >= 0) by (nonlinear_arith)
        requires
            len / 2 >= 0,
            len / 3 >= 0,
            len >= 0,
    ;
}

/// The bits of nodes are never negative.
proof fn lemma_nodes_bits_nonneg(nodes: Seq<ResultNode>, text: Seq<char>, sets: Seq<CharacterSetECI>, version: int)
    ensures
        nodes_bits(nodes, text, sets, version) matches Some(b) ==> b >= 0,
    decreases nodes.len(),
{
    if nodes.len() > 0 {
        lemma_node_bits_nonneg(nodes[0], text, sets, version);
        lemma_nodes_bits_nonneg(nodes.drop_first(), text, sets, version);
    }
}

/// A cover starts within the text.
proof fn lemma_cover_start(nodes: Seq<ResultNode>, text: Seq<char>, sets: Seq<CharacterSetECI>, start: int)
    requires
        nodes_cover(nodes, text, sets, start),
    ensures
        start <= text.len(),
    decreases nodes.len(),
{
    if nodes.len() > 0 {
        let h = nodes[0];
        let next = if is_indicator(h.mode) { start } else { start + h.character_length };
        lemma_cover_start(nodes.drop_first(), text, sets, next);
    }
}

/// Every node of a cover lies in the text and names a set.
proof fn lemma_cover_nodes(nodes: Seq<ResultNode>, text: Seq<char>, sets: Seq<CharacterSetECI>, start: int, i: int)
    requires
        nodes_cover(nodes, text, sets, start),
        0 <= i < nodes.len(),
    ensures
        nodes[i].from_position + nodes[i].character_length <= text.len(),
        nodes[i].charset_encoder_index < sets.len(),
    decreases nodes.len(),
{
    let h = nodes[0];
    let next = if is_indicator(h.mode) { start } else { start + h.character_length };
    if i > 0 {
        lemma_cover_nodes(nodes.drop_first(), text, sets, next, i - 1);
        assert(nodes.drop_first()[i - 1] == nodes[i]);
    } else {
        lemma_cover_start(nodes.drop_first(), text, sets, next);
    }
}

/// Where the nodes from `i` on have no bit count, neither have all nodes.
proof fn lemma_nodes_bits_none(nodes: Seq<ResultNode>, text: Seq<char>, sets: Seq<CharacterSetECI>, version: int, i: int)
    requires
        0 <= i <= nodes.len(),
        nodes_bits(nodes.skip(i), text, sets, version) is None,
    ensures
        nodes_bits(nodes, text, sets, version) is None,
    decreases i,
{
    if i > 0 {
        assert(nodes.skip(i - 1).drop_first() =~= nodes.skip(i));
        lemma_nodes_bits_none(nodes, text, sets, version, i - 1);
    } else {
        assert(nodes.skip(0) =~= nodes);
    }
}

/// The bits of the nodes `nodes` of a cover of the text in `version`;
/// `None` where a byte node's set cannot represent its characters or the
/// count passes 64 bits.
fn get_size(nodes: &Vec<ResultNode>, text: &str, encoders: &ECIEncoderSet, version: &Version) -> (r: Option<u64>)
    requires
        nodes_cover(nodes@, text@, encoders.sets(), 0),
        text@.len() <= 7089,
    ensures
        match nodes_bits(nodes@, text@, encoders.sets(), version.number()) {
            Some(b) => if b <= u64::MAX {
                r == Some(b as u64)
            } else {
                r is None
            },
            None => r is None,
        },
{
    let ghost sets = encoders.sets();
    let ghost v = version.number();
    let count = nodes.len();
    let mut total: u64 = 0;
    let mut overflow = false;
    let mut i: usize = count;
    assert(nodes@.skip(count as int) =~= Seq::<ResultNode>::empty());
    while i > 0
        invariant
            i <= count,
            count == nodes@.len(),
            text@.len() <= 7089,
            nodes_cover(nodes@, text@, sets, 0),
            sets == encoders.sets(),
            v == version.number(),
            nodes_bits(nodes@.skip(i as int), text@, sets, v) matches Some(b) && b >= 0 && (overflow ==> b
                > u64::MAX) && (!overflow ==> b == total),
        decreases i,
    {
        i = i - 1;
        let ghost rest = nodes@.skip(i as int + 1);
        assert(nodes@.skip(i as int).drop_first() =~= rest);
        assert(nodes@.skip(i as int)[0] == nodes@[i as int]);
        let node = nodes[i];
        proof {
            lemma_cover_nodes(nodes@, text@, sets, 0, i as int);
            lemma_node_bits_nonneg(node, text@, sets, v);
        }
        let header: u64 = 4 + node.mode.getCharacterCountBits(version) as u64;
        let len = node.character_length as u64;
        let bits: Option<u64> = match node.mode {
            Mode::KANJI => Some(header + 13 * len),
            Mode::ALPHANUMERIC => Some(header + (len / 2) * 11 + if len % 2 == 1 { 6 } else { 0 }),
            Mode::NUMERIC => Some(header + (len / 3) * 10 + if len % 3 == 1 {
                4
            } else if len % 3 == 2 {
                7
            } else {
                0
            }),
            Mode::BYTE => {
                let sub = text.substring_char(node.from_position, node.from_position + node.character_length);
                match encoders.get(node.charset_encoder_index).encode(sub) {
                    Ok(b) => {
                        let n = b.len() as u64;
                        match n.checked_mul(8) {
                            Some(m) => m.checked_add(header),
                            None => None,
                        }
                    },
                    Err(_) => {
                        assert(node_bits(node, text@, sets, v) is None);
                        proof {
                            lemma_nodes_bits_none(nodes@, text@, sets, v, i as int);
                        }
                        return None;
                    },
                }
            },
            Mode::ECI => Some(header + 8),
            _ => Some(header),
        };
        assert(match bits {
            Some(x) => node_bits(node, text@, sets, v) == Some(x as int),
            None => node_bits(node, text@, sets, v) matches Some(y) && y > u64::MAX,
        });
        if !overflow {
            match bits {
                None => {
                    overflow = true;
                },
                Some(x) => match total.checked_add(x) {
                    Some(t) => {
                        total = t;
                    },
                    None => {
                        overflow = true;
                    },
                },
            }
        }
    }
    assert(nodes@.skip(0) =~= nodes@);
    if overflow {
        None
    } else {
        Some(total)
    }
}

/// The first version of the size class of `version`: 1, 10 or 27.
pub open spec fn class_low(version: int) -> int {
    if version <= 9 {
        1
    } else if version <= 26 {
        10
    } else {
        27
    }
}

/// Whether the nodes open with the GS1 indicator, behind an ECI node if
/// there is one first.
pub open spec fn gs1_header(nodes: Seq<ResultNode>) -> bool {
    ||| nodes.len() >= 1 && nodes[0].mode == Mode::FNC1_FIRST_POSITION
    ||| nodes.len() >= 2 && nodes[0].mode == Mode::ECI && nodes[1].mode == Mode::FNC1_FIRST_POSITION
}

/// Versions of one size class give the nodes the same bits.
proof fn lemma_nodes_bits_class(nodes: Seq<ResultNode>, text: Seq<char>, sets: Seq<CharacterSetECI>, v1: int, v2: int)
    requires
        class_low(v1) == class_low(v2),
    ensures
        nodes_bits(nodes, text, sets, v1) == nodes_bits(nodes, text, sets, v2),
    decreases nodes.len(),
{
    if nodes.len() > 0 {
        lemma_nodes_bits_class(nodes.drop_first(), text, sets, v1, v2);
        assert(character_count_bits(nodes[0].mode, v1) == character_count_bits(nodes[0].mode, v2));
    }
}

/// Whether holding `bits` bits grows with the version: a version that
/// holds them is followed by versions that hold them too.
proof fn lemma_will_fit_grows(bits: int, level: ErrorCorrectionLevel, u: int, v: int)
    requires
        1 <= u <= v <= 40,
        will_fit(bits, u, level),
    ensures
        will_fit(bits, v, level),
    decreases v - u,
{
    if u < v {
        lemma_data_codewords_grow(u, level);
        lemma_will_fit_grows(bits, level, u + 1, v);
    }
}

/// Whether a count of bits, where there is one, fits in `version`.
fn fits(size: Option<u64>, version: u32, level: ErrorCorrectionLevel) -> (r: bool)
    requires
        1 <= version <= 40,
    ensures
        r == (size matches Some(s) && will_fit(s as int, version as int, level)),
{
    match size {
        None => false,
        Some(s) => {
            proof {
                lemma_codeword_counts(version as int, level);
            }
            if s > 30000 {
                false
            } else {
                let v = match Version::getVersionForNumber(version) {
                    Ok(v) => v,
                    Err(_) => return false,
                };
                willFit(s as usize, &v, level)
            }
        },
    }
}

/// The nodes with the GS1 indicator in front: behind the first node where
/// that is an ECI node; and, where an ECI node comes later but not first,
/// behind a leading ECI node for ISO-8859-1.
pub open spec fn gs1_wrapped(nodes: Seq<ResultNode>) -> Seq<ResultNode> {
    let has_eci = exists|i: int| 0 <= i < nodes.len() && (#[trigger] nodes[i]).mode == Mode::ECI;
    let eci0 = ResultNode { mode: Mode::ECI, from_position: 0, charset_encoder_index: 0, character_length: 0 };
    let fnc1 = ResultNode { mode: Mode::FNC1_FIRST_POSITION, from_position: 0, charset_encoder_index: 0, character_length: 0 };
    let with_eci = if nodes.len() > 0 && nodes[0].mode != Mode::ECI && has_eci {
        seq![eci0] + nodes
    } else {
        nodes
    };
    if with_eci.len() > 0 && with_eci[0].mode == Mode::ECI {
        seq![with_eci[0], fnc1] + with_eci.drop_first()
    } else {
        seq![fnc1] + with_eci
    }
}

/// Whether `path` is a sound path through the whole text whose cost in
/// `version` exists and fits in 64 bits.
pub open spec fn fitting_path(
    text: Seq<char>,
    sets: Seq<CharacterSetECI>,
    prio: Option<nat>,
    version: int,
    path: Seq<(Mode, int, int)>,
) -> bool {
    &&& path_ok(text, sets, prio, path)
    &&& path.len() >= 1
    &&& path_end(path) == text.len()
    &&& path_cost(text, sets, version, path) is Some
    &&& path_cost(text, sets, version, path)->0 <= u64::MAX
}

/// Whether `path` is the path the search gives for `text` in `version`: a
/// sound path through the whole text whose cost fits in 64 bits, least in
/// cost, and first by `rev_le` among those of its cost.
pub open spec fn canonical_path(
    text: Seq<char>,
    sets: Seq<CharacterSetECI>,
    prio: Option<nat>,
    version: int,
    path: Seq<(Mode, int, int)>,
) -> bool {
    &&& fitting_path(text, sets, prio, version, path)
    &&& forall|q: Seq<(Mode, int, int)>|
        #[trigger] fitting_path(text, sets, prio, version, q) ==> path_cost(text, sets, version, path)->0 < path_cost(
            text,
            sets,
            version,
            q,
        )->0 || (path_cost(text, sets, version, path)->0 == path_cost(text, sets, version, q)->0 && rev_le(path, q))
}

/// Sound paths that each come first of the other by `rev_le` are the same
/// path.
pub proof fn lemma_rev_le_antisymmetric(
    text: Seq<char>,
    sets: Seq<CharacterSetECI>,
    prio: Option<nat>,
    p: Seq<(Mode, int, int)>,
    q: Seq<(Mode, int, int)>,
)
    requires
        sets.len() >= 1,
        path_ok(text, sets, prio, p),
        path_ok(text, sets, prio, q),
        rev_le(p, q),
        rev_le(q, p),
    ensures
        p == q,
    decreases p.len(),
{
    if p.len() > 0 && q.len() > 0 {
        lemma_path_facts(text, sets, prio, 1, p);
        lemma_path_facts(text, sets, prio, 1, q);
        assert(step_key(p) == step_key(q));
        lemma_rev_le_antisymmetric(text, sets, prio, p.drop_last(), q.drop_last());
        let a = p.last();
        let b = q.last();
        assert(a.1 * 4 + compacted_ordinal(a.0) == b.1 * 4 + compacted_ordinal(b.0));
        assert(0 <= compacted_ordinal(a.0) < 4 && 0 <= compacted_ordinal(b.0) < 4);
        assert(a.1 == b.1);
        assert(compacted_ordinal(a.0) == compacted_ordinal(b.0));
        assert(a.0 == b.0);
        assert(a.2 == b.2);
        assert(p =~= p.drop_last().push(a));
        assert(q =~= q.drop_last().push(b));
    }
}

/// The path the search gives is one: two paths that are each the search's
/// path for the same text, sets, preferred set and version are the same.
pub proof fn lemma_canonical_unique(
    text: Seq<char>,
    sets: Seq<CharacterSetECI>,
    prio: Option<nat>,
    version: int,
    p: Seq<(Mode, int, int)>,
    q: Seq<(Mode, int, int)>,
)
    requires
        sets.len() >= 1,
        canonical_path(text, sets, prio, version, p),
        canonical_path(text, sets, prio, version, q),
    ensures
        p == q,
{
    assert(fitting_path(text, sets, prio, version, q));
    assert(fitting_path(text, sets, prio, version, p));
    lemma_rev_le_antisymmetric(text, sets, prio, p, q);
}

/// Versions of one size class have the same paths of the search.
proof fn lemma_canonical_class(
    text: Seq<char>,
    sets: Seq<CharacterSetECI>,
    prio: Option<nat>,
    v1: int,
    v2: int,
    p: Seq<(Mode, int, int)>,
)
    requires
        class_low(v1) == class_low(v2),
        canonical_path(text, sets, prio, v1, p),
    ensures
        canonical_path(text, sets, prio, v2, p),
{
    lemma_path_cost_class(text, sets, p, v1, v2);
    assert forall|q: Seq<(Mode, int, int)>| #[trigger] fitting_path(text, sets, prio, v2, q) implies path_cost(
        text,
        sets,
        v2,
        p,
    )->0 < path_cost(text, sets, v2, q)->0 || (path_cost(text, sets, v2, p)->0 == path_cost(text, sets, v2, q)->0
        && rev_le(p, q)) by {
        lemma_path_cost_class(text, sets, q, v1, v2);
        assert(fitting_path(text, sets, prio, v1, q));
    }
}

/// Whether `path` is a sound path through the whole text whose cost in
/// `version` is no more than that of any other sound path through the
/// whole text (of those whose cost fits in 64 bits).
pub open spec fn least_cost_path(
    text: Seq<char>,
    sets: Seq<CharacterSetECI>,
    prio: Option<nat>,
    version: int,
    path: Seq<(Mode, int, int)>,
) -> bool {
    &&& path_ok(text, sets, prio, path)
    &&& path.len() >= 1
    &&& path_end(path) == text.len()
    &&& path_cost(text, sets, version, path) is Some
    &&& forall|other: Seq<(Mode, int, int)>|
        #[trigger] path_ok(text, sets, prio, other) && other.len() >= 1 && path_end(other) == text.len() && path_cost(
            text,
            sets,
            version,
            other,
        ) is Some && path_cost(text, sets, version, other)->0 <= u64::MAX ==> path_cost(text, sets, version, path)->0
            <= path_cost(text, sets, version, other)->0
}

/// Versions of one size class give a path the same cost.
proof fn lemma_path_cost_class(text: Seq<char>, sets: Seq<CharacterSetECI>, path: Seq<(Mode, int, int)>, v1: int, v2: int)
    requires
        class_low(v1) == class_low(v2),
    ensures
        path_cost(text, sets, v1, path) == path_cost(text, sets, v2, path),
    decreases path.len(),
{
    if path.len() > 0 {
        lemma_path_cost_class(text, sets, path.drop_last(), v1, v2);
        assert(character_count_bits(path.last().0, v1) == character_count_bits(path.last().0, v2));
    }
}

/// The shortest encoding found: its nodes, its version, and the text and
/// sets they refer to.
pub struct ResultList {
    nodes: Vec<ResultNode>,
    version: Version,
    text: String,
    encoders: ECIEncoderSet,
    path: Ghost<Seq<(Mode, int, int)>>,
}

impl ResultList {
    /// The nodes cover the text, and the sets are not empty.
    #[verifier::type_invariant]
    spec fn wf(self) -> bool {
        &&& nodes_cover(self.nodes@, self.text@, self.encoders.sets(), 0)
        &&& self.encoders.sets().len() >= 1
        &&& self.text@.len() <= 7089
    }

    /// The nodes, in order.
    pub closed spec fn nodes_spec(self) -> Seq<ResultNode> {
        self.nodes@
    }

    /// The version number.
    pub closed spec fn version_spec(self) -> int {
        self.version.number()
    }

    /// The steps whose nodes the result holds.
    pub closed spec fn path_spec(self) -> Seq<(Mode, int, int)> {
        self.path@
    }

    /// The position of the preferred set among the sets, if it is there.
    pub closed spec fn priority_spec(self) -> Option<nat> {
        self.encoders.priority_spec()
    }

    /// The text encoded.
    pub closed spec fn text_spec(self) -> Seq<char> {
        self.text@
    }

    /// The character sets that byte nodes refer to.
    pub closed spec fn sets_spec(self) -> Seq<CharacterSetECI> {
        self.encoders.sets()
    }

    /// The version.
    pub fn getVersion(&self) -> (r: &Version)
        ensures
            r.number() == self.version_spec(),
    {
        &self.version
    }

    /// The nodes.
    pub fn nodes(&self) -> (r: &Vec<ResultNode>)
        ensures
            r@ == self.nodes_spec(),
    {
        &self.nodes
    }
}

/// Whether `r` is a sound result for `text` at `level`: its nodes cut the
/// text into pieces their modes hold, each in the set in effect, and their
/// bits fit its version, the first of its size class that holds them.
pub open spec fn sound_result(r: ResultList, text: Seq<char>, level: ErrorCorrectionLevel) -> bool {
    &&& r.text_spec() == text
    &&& nodes_cover(r.nodes_spec(), text, r.sets_spec(), 0)
    &&& eci_consistent(r.nodes_spec(), 0)
    &&& 1 <= r.version_spec() <= 40
    &&& nodes_bits(r.nodes_spec(), text, r.sets_spec(), r.version_spec()) is Some
    &&& will_fit(nodes_bits(r.nodes_spec(), text, r.sets_spec(), r.version_spec())->0, r.version_spec(), level)
    &&& forall|u: int|
        class_low(r.version_spec()) <= u < r.version_spec() ==> !#[trigger] will_fit(
            nodes_bits(r.nodes_spec(), text, r.sets_spec(), r.version_spec())->0,
            u,
            level,
        )
}

/// Whether `res` is a result that the search with no version given may
/// give for `text` at `level` with the preferred set `priority`: sound,
/// minimal in its size class, behind the GS1 indicator where `is_gs1`, and
/// no larger than what each size class may give (smaller than what an
/// earlier class may give).
pub open spec fn encoded_minimally(
    res: ResultList,
    text: Seq<char>,
    level: ErrorCorrectionLevel,
    priority: Option<CharacterSetECI>,
    is_gs1: bool,
) -> bool {
    &&& sound_result(res, text, level)
    &&& minimal_result(res, text, priority, is_gs1)
    &&& is_gs1 ==> gs1_header(res.nodes_spec())
    &&& canonical_path(
        text,
        encoder_sets(text, priority),
        priority_position(encoder_sets(text, priority), priority),
        res.version_spec(),
        res.path_spec(),
    )
    &&& forall|k: int|
        0 <= k < 3 ==> class_compared(
            text,
            encoder_sets(text, priority),
            priority_position(encoder_sets(text, priority), priority),
            #[trigger] class_version(k),
            is_gs1,
            level,
            Some(size_and_class(res)),
        )
}

/// Whether `res` holds the nodes of a least-cost path through `text`, the
/// sets being those `text` calls for with the preferred set `priority`,
/// behind the GS1 indicator where `is_gs1`.
pub open spec fn minimal_result(res: ResultList, text: Seq<char>, priority: Option<CharacterSetECI>, is_gs1: bool) -> bool {
    &&& res.sets_spec() == encoder_sets(text, priority)
    &&& res.priority_spec() == priority_position(res.sets_spec(), priority)
    &&& least_cost_path(text, res.sets_spec(), res.priority_spec(), res.version_spec(), res.path_spec())
    &&& res.nodes_spec() == (if is_gs1 {
        gs1_wrapped(path_nodes(res.path_spec()))
    } else {
        path_nodes(res.path_spec())
    })
}

/// The last version of the size class of `version`: 9, 26 or 40.
pub open spec fn class_high(version: int) -> int {
    if version <= 9 {
        9
    } else if version <= 26 {
        26
    } else {
        40
    }
}

/// The nodes read back from the steps of `path`, behind the GS1 indicator
/// where `is_gs1`.
pub open spec fn result_nodes(path: Seq<(Mode, int, int)>, is_gs1: bool) -> Seq<ResultNode> {
    if is_gs1 {
        gs1_wrapped(path_nodes(path))
    } else {
        path_nodes(path)
    }
}

/// Whether the bits of `nodes` in `version` can be counted within 64 bits
/// and fit the last version of the size class of `version` at `level`.
pub open spec fn fits_class(
    nodes: Seq<ResultNode>,
    text: Seq<char>,
    sets: Seq<CharacterSetECI>,
    version: int,
    level: ErrorCorrectionLevel,
) -> bool {
    nodes_bits(nodes, text, sets, version) matches Some(b) && b <= u64::MAX && will_fit(b, class_high(version), level)
}

/// The result of the search for `version`: the nodes read back from the
/// cheapest encoding, with the GS1 indicator in front where asked for,
/// and the first version of the size class of `version` that holds them.
/// `UnencodableText` where no sound path through the text has a cost
/// within 64 bits; `DataTooBig` where the nodes of the cheapest path found
/// do not fit the last version of the class.
#[verifier::rlimit(50)]
fn result_for_version(search: &Search, version: &Version, is_gs1: bool, level: ErrorCorrectionLevel) -> (r: Result<ResultList, EncodeError>)
    requires
        search.wf(),
        1 <= search.text@.len() <= 7089,
    ensures
        r matches Ok(res) ==> sound_result(res, search.text@, level) && res.sets_spec() == search.encoders.sets()
            && res.priority_spec() == search.encoders.priority_spec()
            && class_low(res.version_spec()) == class_low(version.number()) && (is_gs1 ==> gs1_header(
            res.nodes_spec(),
        )) && least_cost_path(search.text@, res.sets_spec(), res.priority_spec(), res.version_spec(), res.path_spec())
            && res.nodes_spec() == (if is_gs1 {
            gs1_wrapped(path_nodes(res.path_spec()))
        } else {
            path_nodes(res.path_spec())
        }),
        r matches Ok(res) ==> least_cost_path(
            search.text@,
            search.encoders.sets(),
            search.encoders.priority_spec(),
            version.number(),
            res.path_spec(),
        ) && fits_class(res.nodes_spec(), search.text@, search.encoders.sets(), version.number(), level) && nodes_bits(
            res.nodes_spec(),
            search.text@,
            search.encoders.sets(),
            version.number(),
        ) == nodes_bits(res.nodes_spec(), search.text@, search.encoders.sets(), res.version_spec()),
        r is Ok || r == Err::<ResultList, EncodeError>(EncodeError::UnencodableText) || r == Err::<
            ResultList,
            EncodeError,
        >(EncodeError::DataTooBig),
        r == Err::<ResultList, EncodeError>(EncodeError::UnencodableText) <==> !exists|path: Seq<(Mode, int, int)>|
            #[trigger] fitting_path(search.text@, search.encoders.sets(), search.encoders.priority_spec(), version.number(), path),
        r == Err::<ResultList, EncodeError>(EncodeError::DataTooBig) ==> exists|path: Seq<(Mode, int, int)>|
            #[trigger] canonical_path(search.text@, search.encoders.sets(), search.encoders.priority_spec(), version.number(), path)
                && !fits_class(result_nodes(path, is_gs1), search.text@, search.encoders.sets(), version.number(), level),
        r matches Ok(res) ==> canonical_path(
            search.text@,
            search.encoders.sets(),
            search.encoders.priority_spec(),
            version.number(),
            res.path_spec(),
        ) && canonical_path(
            search.text@,
            search.encoders.sets(),
            search.encoders.priority_spec(),
            res.version_spec(),
            res.path_spec(),
        ),
{
    let ghost text = search.text@;
    let ghost sets = search.encoders.sets();
    let ghost prio = search.encoders.priority_spec();
    let (arena, last) = match search.encode_specific_version(version) {
        Ok(t) => t,
        Err(e) => return Err(e),
    };
    let (mut nodes, contains_eci) = build_nodes(&arena, last, Ghost(text), Ghost(sets), Ghost(search.encoders.priority_spec()), Ghost(version.number()));
    let ghost path = edge_path(arena@, last as int);
    let ghost plain = nodes@;
    assert(plain == path_nodes(path));
    proof {
        assert(edge_path_ok(text, sets, prio, version.number(), arena@, last as int));
    }
    if is_gs1 {
        if nodes[0].mode != Mode::ECI && contains_eci {
            let ghost before = nodes@;
            let node = ResultNode { mode: Mode::ECI, from_position: 0, charset_encoder_index: 0, character_length: 0 };
            nodes.insert(0, node);
            assert(nodes@ =~= seq![node] + before);
            assert(nodes@.drop_first() =~= before);
            assert(nodes_cover(nodes@, text, sets, 0));
            assert(eci_consistent(nodes@, 0));
        }
        let ghost before = nodes@;
        let fnc1 = ResultNode {
            mode: Mode::FNC1_FIRST_POSITION,
            from_position: 0,
            charset_encoder_index: 0,
            character_length: 0,
        };
        if nodes[0].mode != Mode::ECI {
            nodes.insert(0, fnc1);
            assert(nodes@ =~= seq![fnc1] + before);
            assert(nodes@.drop_first() =~= before);
            assert(nodes_cover(nodes@, text, sets, 0));
            assert(eci_consistent(nodes@, 0));
        } else {
            nodes.insert(1, fnc1);
            assert(nodes@ =~= seq![before[0], fnc1] + before.drop_first());
            assert(nodes@.drop_first() =~= seq![fnc1] + before.drop_first());
            assert(nodes@.drop_first().drop_first() =~= before.drop_first());
            assert(nodes@[0] == before[0]);
            assert(nodes_cover(before.drop_first(), text, sets, 0));
            assert(nodes_cover(nodes@.drop_first(), text, sets, 0));
            assert(nodes_cover(nodes@, text, sets, 0));
            assert(eci_consistent(before.drop_first(), before[0].charset_encoder_index as int));
            assert(eci_consistent(nodes@.drop_first(), before[0].charset_encoder_index as int));
            assert(eci_consistent(nodes@, 0));
        }
    }
    assert(nodes_cover(nodes@, text, sets, 0));
    assert(eci_consistent(nodes@, 0));
    proof {
        if is_gs1 {
            assert(nodes@ =~= gs1_wrapped(plain));
        }
        assert(nodes@ == result_nodes(path, is_gs1));
        assert(least_cost_path(text, sets, prio, version.number(), path));
        assert(canonical_path(text, sets, prio, version.number(), path));
    }
    let number = version.get_version_number();
    let size = get_size(&nodes, search.text, &search.encoders, version);
    let lower: u32 = if number <= 9 {
        1
    } else if number <= 26 {
        10
    } else {
        27
    };
    let upper: u32 = if number <= 9 {
        9
    } else if number <= 26 {
        26
    } else {
        40
    };
    let ghost b = nodes_bits(nodes@, text, sets, number as int);
    let mut vn = number;
    while vn < upper && !fits(size, vn, level)
        invariant
            lower <= number <= vn <= upper,
            1 <= lower,
            upper <= 40,
            size is Some ==> forall|u: int| number <= u < vn ==> !#[trigger] will_fit(size->0 as int, u, level),
        decreases upper - vn,
    {
        vn = vn + 1;
    }
    let found = fits(size, vn, level);
    if !found {
        proof {
            assert(vn == upper);
            assert(upper == class_high(number as int));
            assert(nodes@ == result_nodes(path, is_gs1));
            assert(!fits_class(result_nodes(path, is_gs1), text, sets, version.number(), level)) by {
                let nb = nodes_bits(nodes@, text, sets, number as int);
                lemma_nodes_bits_nonneg(nodes@, text, sets, number as int);
                if let Some(b) = nb {
                    if b <= u64::MAX {
                        assert(size == Some(b as u64));
                        assert(!will_fit(b, upper as int, level));
                    }
                }
            }
        }
        return Err(EncodeError::DataTooBig);
    }
    while vn > lower && fits(size, vn - 1, level)
        invariant
            lower <= vn <= upper,
            1 <= lower,
            upper <= 40,
            found,
            size matches Some(s) && will_fit(s as int, vn as int, level),
        decreases vn,
    {
        vn = vn - 1;
    }
    let adjusted = match Version::getVersionForNumber(vn) {
        Ok(v) => v,
        Err(e) => return Err(e),
    };
    proof {
        lemma_nodes_bits_class(nodes@, text, sets, number as int, vn as int);
        lemma_nodes_bits_nonneg(nodes@, text, sets, number as int);
        let s = size->0;
        assert forall|u: int| lower <= u < vn implies !#[trigger] will_fit(s as int, u, level) by {
            if will_fit(s as int, u, level) {
                lemma_will_fit_grows(s as int, level, u, (vn - 1) as int);
            }
        }
    }
    let text_copy = String::from_str(search.text);
    proof {
        if is_gs1 {
            assert(nodes@ =~= gs1_wrapped(plain));
        }
    }
    let res = ResultList {
        nodes,
        version: adjusted,
        text: text_copy,
        encoders: search.encoders.duplicate(),
        path: Ghost(path),
    };
    proof {
        lemma_path_cost_class(text, sets, path, version.number(), vn as int);
        assert forall|other: Seq<(Mode, int, int)>|
            #[trigger] path_ok(text, sets, prio, other) && other.len() >= 1 && path_end(other) == text.len() && path_cost(
                text,
                sets,
                vn as int,
                other,
            ) is Some && path_cost(text, sets, vn as int, other)->0 <= u64::MAX implies path_cost(text, sets, vn as int, path)->0
                <= path_cost(text, sets, vn as int, other)->0 by {
            lemma_path_cost_class(text, sets, other, version.number(), vn as int);
        }
        assert(least_cost_path(text, sets, prio, vn as int, path));
    }
    assert(res.text_spec() == text);
    assert(res.sets_spec() == sets);
    assert(nodes_cover(res.nodes_spec(), text, sets, 0));
    assert(eci_consistent(res.nodes_spec(), 0));
    assert(1 <= res.version_spec() <= 40);
    assert(nodes_bits(res.nodes_spec(), text, sets, res.version_spec()) is Some);
    assert(will_fit(nodes_bits(res.nodes_spec(), text, sets, res.version_spec())->0, res.version_spec(), level));
    assert(class_low(res.version_spec()) == class_low(version.number()));
    assert(is_gs1 ==> gs1_header(res.nodes_spec()));
    assert(nodes_bits(res.nodes_spec(), text, sets, res.version_spec()) == Some(size->0 as int));
    assert(class_low(res.version_spec()) == lower);
    assert forall|u: int| class_low(res.version_spec()) <= u < res.version_spec() implies !#[trigger] will_fit(
        nodes_bits(res.nodes_spec(), text, sets, res.version_spec())->0,
        u,
        level,
    ) by {
        assert(!will_fit(size->0 as int, u, level));
    }
    proof {
        lemma_will_fit_grows(size->0 as int, level, vn as int, upper as int);
        assert(fits_class(res.nodes_spec(), text, sets, version.number(), level));
        lemma_canonical_class(text, sets, prio, version.number(), vn as int, path);
    }
    Ok(res)
}

/// The character, or a full stop where it is not printable ASCII.
pub open spec fn printable(c: char) -> char {
    if (c as u32) < 32 || (c as u32) > 126 {
        '.'
    } else {
        c
    }
}

/// The name of a character set, as the text form of a result writes it.
pub open spec fn charset_name(cs: CharacterSetECI) -> Seq<char> {
    match cs {
        CharacterSetECI::Cp437 => "IBM437"@,
        CharacterSetECI::ISO8859_1 => "ISO-8859-1"@,
        CharacterSetECI::ISO8859_2 => "ISO-8859-2"@,
        CharacterSetECI::ISO8859_3 => "ISO-8859-3"@,
        CharacterSetECI::ISO8859_4 => "ISO-8859-4"@,
        CharacterSetECI::ISO8859_5 => "ISO-8859-5"@,
        CharacterSetECI::ISO8859_6 => "ISO-8859-6"@,
        CharacterSetECI::ISO8859_7 => "ISO-8859-7"@,
        CharacterSetECI::ISO8859_8 => "ISO-8859-8"@,
        CharacterSetECI::ISO8859_9 => "ISO-8859-9"@,
        CharacterSetECI::ISO8859_10 => "ISO-8859-10"@,
        CharacterSetECI::ISO8859_11 => "x-iso-8859-11"@,
        CharacterSetECI::ISO8859_13 => "ISO-8859-13"@,
        CharacterSetECI::ISO8859_14 => "ISO-8859-14"@,
        CharacterSetECI::ISO8859_15 => "ISO-8859-15"@,
        CharacterSetECI::ISO8859_16 => "ISO-8859-16"@,
        CharacterSetECI::SJIS => "Shift_JIS"@,
        CharacterSetECI::Cp1250 => "windows-1250"@,
        CharacterSetECI::Cp1251 => "windows-1251"@,
        CharacterSetECI::Cp1252 => "windows-1252"@,
        CharacterSetECI::Cp1256 => "windows-1256"@,
        CharacterSetECI::UnicodeBigUnmarked => "UTF-16BE"@,
        CharacterSetECI::UTF8 => "UTF-8"@,
        CharacterSetECI::ASCII => "US-ASCII"@,
        CharacterSetECI::Big5 => "Big5"@,
        CharacterSetECI::GB18030 => "GB18030"@,
        CharacterSetECI::EUC_KR => "EUC-KR"@,
    }
}

/// The name of a character set.
pub fn charset_display_name(cs: CharacterSetECI) -> (r: &'static str)
    ensures
        r@ == charset_name(cs),
{
    match cs {
        CharacterSetECI::Cp437 => "IBM437",
        CharacterSetECI::ISO8859_1 => "ISO-8859-1",
        CharacterSetECI::ISO8859_2 => "ISO-8859-2",
        CharacterSetECI::ISO8859_3 => "ISO-8859-3",
        CharacterSetECI::ISO8859_4 => "ISO-8859-4",
        CharacterSetECI::ISO8859_5 => "ISO-8859-5",
        CharacterSetECI::ISO8859_6 => "ISO-8859-6",
        CharacterSetECI::ISO8859_7 => "ISO-8859-7",
        CharacterSetECI::ISO8859_8 => "ISO-8859-8",
        CharacterSetECI::ISO8859_9 => "ISO-8859-9",
        CharacterSetECI::ISO8859_10 => "ISO-8859-10",
        CharacterSetECI::ISO8859_11 => "x-iso-8859-11",
        CharacterSetECI::ISO8859_13 => "ISO-8859-13",
        CharacterSetECI::ISO8859_14 => "ISO-8859-14",
        CharacterSetECI::ISO8859_15 => "ISO-8859-15",
        CharacterSetECI::ISO8859_16 => "ISO-8859-16",
        CharacterSetECI::SJIS => "Shift_JIS",
        CharacterSetECI::Cp1250 => "windows-1250",
        CharacterSetECI::Cp1251 => "windows-1251",
        CharacterSetECI::Cp1252 => "windows-1252",
        CharacterSetECI::Cp1256 => "windows-1256",
        CharacterSetECI::UnicodeBigUnmarked => "UTF-16BE",
        CharacterSetECI::UTF8 => "UTF-8",
        CharacterSetECI::ASCII => "US-ASCII",
        CharacterSetECI::Big5 => "Big5",
        CharacterSetECI::GB18030 => "GB18030",
        CharacterSetECI::EUC_KR => "EUC-KR",
    }
}

/// The text form of a node: its mode, then in brackets the name of an ECI
/// node's set or the node's characters, printable ASCII as it is and any
/// other character as a full stop.
pub open spec fn node_text(node: ResultNode, text: Seq<char>, sets: Seq<CharacterSetECI>) -> Seq<char> {
    mode_name(node.mode) + seq!['('] + (if node.mode == Mode::ECI {
        charset_name(sets[node.charset_encoder_index as int])
    } else {
        text.subrange(node.from_position as int, node.from_position + node.character_length).map_values(
            |c: char| printable(c),
        )
    }) + seq![')']
}

/// The text forms of the nodes, separated by commas.
pub open spec fn nodes_text(nodes: Seq<ResultNode>, text: Seq<char>, sets: Seq<CharacterSetECI>) -> Seq<char>
    decreases nodes.len(),
{
    if nodes.len() == 0 {
        Seq::empty()
    } else if nodes.len() == 1 {
        node_text(nodes[0], text, sets)
    } else {
        nodes_text(nodes.drop_last(), text, sets) + seq![','] + node_text(nodes.last(), text, sets)
    }
}

impl ResultList {
    /// The bits of the result in its version; `None` where they pass 64
    /// bits or a byte node's set cannot represent its characters.
    pub fn getSize(&self) -> (r: Option<u64>)
        ensures
            match nodes_bits(self.nodes_spec(), self.text_spec(), self.sets_spec(), self.version_spec()) {
                Some(b) => if b <= u64::MAX {
                    r == Some(b as u64)
                } else {
                    r is None
                },
                None => r is None,
            },
    {
        proof {
            use_type_invariant(self);
        }
        get_size(&self.nodes, self.text.as_str(), &self.encoders, &self.version)
    }

    /// The text form: the nodes' text forms, separated by commas.
    pub fn to_string(&self) -> (r: String)
        ensures
            r@ == nodes_text(self.nodes_spec(), self.text_spec(), self.sets_spec()),
    {
        proof {
            use_type_invariant(self);
            reveal_strlit("(");
            reveal_strlit(")");
            reveal_strlit(",");
            reveal_strlit(".");
        }
        let ghost nodes = self.nodes@;
        let ghost text = self.text@;
        let ghost sets = self.encoders.sets();
        let t = self.text.as_str();
        let mut out = String::new();
        let count = self.nodes.len();
        let mut i: usize = 0;
        while i < count
            invariant
                count == nodes.len(),
                i <= count,
                nodes == self.nodes@,
                text == self.text@,
                t@ == text,
                sets == self.encoders.sets(),
                nodes_cover(nodes, text, sets, 0),
                text.len() <= 7089,
                out@ == nodes_text(nodes.take(i as int), text, sets),
            decreases count - i,
        {
            proof {
                reveal_strlit("(");
                reveal_strlit(")");
                reveal_strlit(",");
            }
            let ghost before = out@;
            if i > 0 {
                out.append(",");
            }
            let node = self.nodes[i];
            proof {
                lemma_cover_nodes(nodes, text, sets, 0, i as int);
            }
            out.append(node.mode.name());
            out.append("(");
            let ghost head = out@;
            if node.mode == Mode::ECI {
                out.append(charset_display_name(self.encoders.get(node.charset_encoder_index)));
            } else {
                let end = node.from_position + node.character_length;
                let mut k = node.from_position;
                while k < end
                    invariant
                        node.from_position <= k <= end,
                        end <= text.len(),
                        t@ == text,
                        out@ == head + text.subrange(node.from_position as int, k as int).map_values(
                            |c: char| printable(c),
                        ),
                    decreases end - k,
                {
                    let c = t.get_char(k);
                    proof {
                        reveal_strlit(".");
                    }
                    let ghost prev = out@;
                    if (c as u32) < 32 || (c as u32) > 126 {
                        out.append(".");
                        assert(out@ =~= prev.push('.'));
                    } else {
                        let one = t.substring_char(k, k + 1);
                        out.append(one);
                        assert(one@ =~= seq![c]);
                        assert(out@ =~= prev.push(c));
                    }
                    assert(printable(text[k as int]) == out@.last());
                    assert(text.subrange(node.from_position as int, k + 1).map_values(|c: char| printable(c))
                        =~= text.subrange(node.from_position as int, k as int).map_values(|c: char| printable(c)).push(
                        printable(text[k as int]),
                    ));
                    k = k + 1;
                    assert(out@ =~= head + text.subrange(node.from_position as int, k as int).map_values(
                        |c: char| printable(c),
                    ));
                }
            }
            out.append(")");
            assert(out@ =~= before + (if i > 0 { seq![','] } else { Seq::<char>::empty() }) + node_text(nodes[i as int], text, sets));
            i = i + 1;
            assert(nodes.take(i as int).drop_last() =~= nodes.take(i - 1));
            assert(nodes.take(i as int).last() == nodes[i - 1]);
        }
        assert(nodes.take(count as int) =~= nodes);
        out
    }
}

/// The bits of one node in `version`, as a symbol holds them: the mode
/// indicator; for an ECI node, the number of its set in eight bits; for a
/// data node, the character count (for byte mode, the number of bytes) in
/// the width of its mode, then its characters in its mode, bytes in its
/// set. An error where the mode cannot hold the node's characters.
pub open spec fn node_bit_seq(node: ResultNode, text: Seq<char>, sets: Seq<CharacterSetECI>, version: int) -> Result<Seq<bool>, EncodeError> {
    let indicator = bits_of(mode_bits(node.mode), 4);
    if node.mode == Mode::ECI {
        Ok(indicator + bits_of(eci_value(sets[node.charset_encoder_index as int]), 8))
    } else if node.character_length == 0 {
        Ok(indicator)
    } else {
        let piece = text.subrange(node.from_position as int, node.from_position + node.character_length);
        match mode_data_bits(piece, node.mode, sets[node.charset_encoder_index as int]) {
            Err(e) => Err(e),
            Ok(data) => {
                let count = if node.mode == Mode::BYTE {
                    (data.len() / 8) as int
                } else {
                    node.character_length as int
                };
                Ok(indicator + bits_of(count as u32, character_count_bits(node.mode, version) as nat) + data)
            },
        }
    }
}

/// The bits of the nodes in order in `version`, or the error of the first
/// node whose mode cannot hold its characters.
pub open spec fn nodes_bit_seq(nodes: Seq<ResultNode>, text: Seq<char>, sets: Seq<CharacterSetECI>, version: int) -> Result<Seq<bool>, EncodeError>
    decreases nodes.len(),
{
    if nodes.len() == 0 {
        Ok(Seq::empty())
    } else {
        match node_bit_seq(nodes[0], text, sets, version) {
            Err(e) => Err(e),
            Ok(a) => match nodes_bit_seq(nodes.drop_first(), text, sets, version) {
                Err(e) => Err(e),
                Ok(b) => Ok(a + b),
            },
        }
    }
}

/// What writing the nodes in order gives with room for `room` bits: their
/// bits; or, at the first node that fails, its error, or `DataTooBig`
/// where its bits pass the room left.
pub open spec fn bits_outcome(
    nodes: Seq<ResultNode>,
    text: Seq<char>,
    sets: Seq<CharacterSetECI>,
    version: int,
    room: int,
) -> Result<Seq<bool>, EncodeError>
    decreases nodes.len(),
{
    if nodes.len() == 0 {
        Ok(Seq::empty())
    } else {
        match node_bit_seq(nodes[0], text, sets, version) {
            Err(e) => Err(e),
            Ok(a) => if a.len() > room {
                Err(EncodeError::DataTooBig)
            } else {
                match bits_outcome(nodes.drop_first(), text, sets, version, room - a.len()) {
                    Err(e) => Err(e),
                    Ok(b) => Ok(a + b),
                }
            },
        }
    }
}

/// Writing the nodes with room for `room` bits gives their bits where they
/// fit the room, `DataTooBig` where they do not, and otherwise the error
/// of the first node that fails, unless the nodes before it pass the room.
pub proof fn lemma_bits_outcome(
    nodes: Seq<ResultNode>,
    text: Seq<char>,
    sets: Seq<CharacterSetECI>,
    version: int,
    room: int,
)
    requires
        room >= 0,
    ensures
        bits_outcome(nodes, text, sets, version, room) matches Ok(b) ==> nodes_bit_seq(nodes, text, sets, version)
            == Ok::<Seq<bool>, EncodeError>(b) && b.len() <= room,
        nodes_bit_seq(nodes, text, sets, version) matches Ok(b) ==> bits_outcome(nodes, text, sets, version, room) == (
        if b.len() <= room {
            Ok::<Seq<bool>, EncodeError>(b)
        } else {
            Err::<Seq<bool>, EncodeError>(EncodeError::DataTooBig)
        }),
        bits_outcome(nodes, text, sets, version, room) matches Err(e) ==> e == EncodeError::DataTooBig
            || nodes_bit_seq(nodes, text, sets, version) == Err::<Seq<bool>, EncodeError>(e),
    decreases nodes.len(),
{
    if nodes.len() > 0 {
        if let Ok(a) = node_bit_seq(nodes[0], text, sets, version) {
            if a.len() <= room {
                lemma_bits_outcome(nodes.drop_first(), text, sets, version, room - a.len());
            }
        }
    }
}

/// The bits of `node` in `version`; `DataTooBig` where they would not fit
/// in memory.
fn node_bits_of(node: &ResultNode, text: &str, encoders: &ECIEncoderSet, version: &Version) -> (r: Result<BitArray, EncodeError>)
    requires
        node.charset_encoder_index < encoders.sets().len(),
        node.from_position + node.character_length <= text@.len(),
        text@.len() <= 7089,
    ensures
        match node_bit_seq(*node, text@, encoders.sets(), version.number()) {
            Ok(b) => (r is Ok && r->Ok_0@ == b) || (r == Err::<BitArray, EncodeError>(EncodeError::DataTooBig)
                && b.len() > usize::MAX - 64),
            Err(e) => r == Err::<BitArray, EncodeError>(e),
        },
{
    let mut out = BitArray::new();
    appendModeInfo(node.mode, &mut out);
    if node.mode == Mode::ECI {
        let cs = encoders.get(node.charset_encoder_index);
        out.append_bits(cs.getValue(), 8);
        return Ok(out);
    }
    if node.character_length == 0 {
        return Ok(out);
    }
    let piece = text.substring_char(node.from_position, node.from_position + node.character_length);
    let cs = encoders.get(node.charset_encoder_index);
    let mut data = BitArray::new();
    let count: usize;
    if node.mode == Mode::BYTE {
        let bytes = match cs.encode(piece) {
            Ok(b) => b,
            Err(e) => return Err(e),
        };
        proof {
            lemma_bytes_to_bits_len(bytes@);
        }
        if bytes.len() > (usize::MAX - 64) / 8 {
            return Err(EncodeError::DataTooBig);
        }
        append_byte_values(&bytes, &mut data);
        assert(data@ =~= bytes_to_bits(bytes@));
        count = bytes.len();
    } else {
        match appendBytes(piece, node.mode, &mut data, cs) {
            Ok(()) => {},
            Err(e) => return Err(e),
        }
        count = node.character_length;
    }
    if data.get_size() > usize::MAX - 64 {
        return Err(EncodeError::DataTooBig);
    }
    let width = node.mode.getCharacterCountBits(version);
    out.append_bits(count as u32, width as usize);
    out.append_bit_array(&data);
    Ok(out)
}

impl ResultList {
    /// Appends the bits of the nodes, in order, as a symbol holds them (see
    /// `node_bit_seq`). An error, with nothing appended, at the first node
    /// whose mode cannot hold its characters (that node's error), or whose
    /// bits would take the bits past memory (`DataTooBig`).
    pub fn getBits(&self, bits: &mut BitArray) -> (r: Result<(), EncodeError>)
        ensures
            match bits_outcome(
                self.nodes_spec(),
                self.text_spec(),
                self.sets_spec(),
                self.version_spec(),
                usize::MAX - 64 - old(bits)@.len(),
            ) {
                Ok(b) => r is Ok && final(bits)@ == old(bits)@ + b,
                Err(e) => r == Err::<(), EncodeError>(e) && final(bits)@ == old(bits)@,
            },
    {
        proof {
            use_type_invariant(self);
        }
        let ghost nodes = self.nodes@;
        let ghost text = self.text@;
        let ghost sets = self.encoders.sets();
        let ghost v = self.version.number();
        let ghost start = bits@;
        let ghost room0: int = usize::MAX - 64 - start.len();
        let t = self.text.as_str();
        let count = self.nodes.len();
        let mut out = BitArray::new();
        let mut i: usize = 0;
        assert(nodes.skip(0) =~= nodes);
        assert(out@ + Seq::<bool>::empty() =~= out@);
        while i < count
            invariant
                count == nodes.len(),
                i <= count,
                nodes == self.nodes@,
                text == self.text@,
                t@ == text,
                sets == self.encoders.sets(),
                v == self.version.number(),
                nodes_cover(nodes, text, sets, 0),
                text.len() <= 7089,
                bits@ == start,
                room0 == usize::MAX - 64 - start.len(),
                i > 0 ==> start.len() + out@.len() <= usize::MAX - 64,
                i == 0 ==> out@.len() == 0,
                bits_outcome(nodes, text, sets, v, room0) == match bits_outcome(
                    nodes.skip(i as int),
                    text,
                    sets,
                    v,
                    room0 - out@.len(),
                ) {
                    Ok(c) => Ok::<Seq<bool>, EncodeError>(out@ + c),
                    Err(e) => Err::<Seq<bool>, EncodeError>(e),
                },
            decreases count - i,
        {
            let node = self.nodes[i];
            proof {
                lemma_cover_nodes(nodes, text, sets, 0, i as int);
                assert(nodes.skip(i as int)[0] == nodes[i as int]);
                assert(nodes.skip(i as int).drop_first() =~= nodes.skip(i as int + 1));
            }
            let piece = match node_bits_of(&node, t, &self.encoders, &self.version) {
                Ok(p) => p,
                Err(e) => return Err(e),
            };
            if bits.get_size() > usize::MAX - 64 || piece.get_size() > usize::MAX - 64 - bits.get_size() - out.get_size() {
                return Err(EncodeError::DataTooBig);
            }
            let ghost before = out@;
            out.append_bit_array(&piece);
            proof {
                assert(out@ =~= before + piece@);
                match bits_outcome(nodes.skip(i as int + 1), text, sets, v, room0 - out@.len()) {
                    Ok(c) => {
                        assert(before + (piece@ + c) =~= out@ + c);
                    },
                    Err(_) => {},
                }
            }
            i = i + 1;
        }
        assert(nodes.skip(count as int) =~= Seq::<ResultNode>::empty());
        assert(out@ + Seq::<bool>::empty() =~= out@);
        let _ = bits.get_size();
        bits.append_bit_array(&out);
        Ok(())
    }
}

/// Numeric mode writes ten bits per three digits, and seven or four bits
/// for a final pair or digit.
proof fn lemma_numeric_bits_len(t: Seq<char>)
    ensures
        numeric_bits(t).len() == (t.len() / 3) * 10 + if t.len() % 3 == 1 {
            4int
        } else if t.len() % 3 == 2 {
            7int
        } else {
            0int
        },
    decreases t.len(),
{
    if t.len() >= 3 {
        lemma_numeric_bits_len(t.skip(3));
    }
}

/// Alphanumeric mode writes eleven bits per pair, and six bits for a final
/// character.
proof fn lemma_alphanumeric_bits_len(t: Seq<char>)
    ensures
        alphanumeric_bits(t).len() == (t.len() / 2) * 11 + if t.len() % 2 == 1 {
            6int
        } else {
            0int
        },
    decreases t.len(),
{
    if t.len() >= 2 {
        lemma_alphanumeric_bits_len(t.skip(2));
    }
}

/// Whether a node holds what it claims: an indicator names a set and
/// carries no characters; a data node's mode holds its characters.
spec fn node_holds(node: ResultNode, text: Seq<char>, sets: Seq<CharacterSetECI>) -> bool {
    if is_indicator(node.mode) {
        node.charset_encoder_index < sets.len() && node.character_length == 0
    } else {
        segment_holds(
            text,
            sets,
            node.mode,
            node.charset_encoder_index as int,
            node.from_position as int,
            node.character_length as int,
        )
    }
}

/// Each node of a cover holds what it claims.
proof fn lemma_cover_node_holds(nodes: Seq<ResultNode>, text: Seq<char>, sets: Seq<CharacterSetECI>, start: int, i: int)
    requires
        nodes_cover(nodes, text, sets, start),
        0 <= i < nodes.len(),
    ensures
        node_holds(nodes[i], text, sets),
    decreases nodes.len(),
{
    let h = nodes[0];
    let next = if is_indicator(h.mode) { start } else { start + h.character_length };
    if i > 0 {
        lemma_cover_node_holds(nodes.drop_first(), text, sets, next, i - 1);
        assert(nodes.drop_first()[i - 1] == nodes[i]);
    }
}

/// One node that holds what it claims, other than a Kanji node, is counted
/// at the number of bits it writes.
proof fn lemma_node_size_is_bits_written(node: ResultNode, text: Seq<char>, sets: Seq<CharacterSetECI>, version: int)
    requires
        node_holds(node, text, sets),
        node.mode != Mode::KANJI,
    ensures
        node_bits(node, text, sets, version) is Some <==> node_bit_seq(node, text, sets, version) is Ok,
        node_bit_seq(node, text, sets, version) matches Ok(b) ==> node_bits(node, text, sets, version) == Some(
            b.len() as int,
        ),
{
    let len = node.character_length as int;
    let from = node.from_position as int;
    let piece = text.subrange(from, from + len);
    let cs = sets[node.charset_encoder_index as int];
    if !is_indicator(node.mode) {
        match node.mode {
            Mode::NUMERIC => {
                assert(all_digits(piece)) by {
                    assert forall|i: int| 0 <= i < piece.len() implies is_digit(#[trigger] piece[i]) by {
                        assert(piece[i] == text[from + i]);
                    }
                }
                lemma_numeric_bits_len(piece);
            },
            Mode::ALPHANUMERIC => {
                assert(all_alphanumeric(piece)) by {
                    assert forall|i: int| 0 <= i < piece.len() implies alphanumeric_code(#[trigger] piece[i] as u32)
                        != -1 by {
                        assert(piece[i] == text[from + i]);
                    }
                }
                lemma_alphanumeric_bits_len(piece);
            },
            Mode::BYTE => {
                if let Ok(b) = text_bytes(cs, piece) {
                    lemma_bytes_to_bits_len(b);
                }
            },
            _ => {},
        }
    }
}

/// Nodes that each hold what they claim, none in Kanji mode, are counted at
/// the number of bits they write.
proof fn lemma_nodes_size_is_bits_written(nodes: Seq<ResultNode>, text: Seq<char>, sets: Seq<CharacterSetECI>, version: int)
    requires
        forall|i: int| 0 <= i < nodes.len() ==> node_holds(#[trigger] nodes[i], text, sets) && nodes[i].mode != Mode::KANJI,
    ensures
        nodes_bits(nodes, text, sets, version) is Some <==> nodes_bit_seq(nodes, text, sets, version) is Ok,
        nodes_bit_seq(nodes, text, sets, version) matches Ok(b) ==> nodes_bits(nodes, text, sets, version) == Some(
            b.len() as int,
        ),
    decreases nodes.len(),
{
    if nodes.len() > 0 {
        let rest = nodes.drop_first();
        assert forall|i: int| 0 <= i < rest.len() implies node_holds(#[trigger] rest[i], text, sets)
            && rest[i].mode != Mode::KANJI by {
            assert(rest[i] == nodes[i + 1]);
        }
        assert(node_holds(nodes[0], text, sets) && nodes[0].mode != Mode::KANJI);
        lemma_nodes_size_is_bits_written(rest, text, sets, version);
        lemma_node_size_is_bits_written(nodes[0], text, sets, version);
    }
}

/// The size that the search counts for a result is the number of bits the
/// result writes: for nodes that cover a text, none of them in Kanji mode,
/// `nodes_bits` (what `getSize` reports) exists exactly where
/// `nodes_bit_seq` (what `getBits` appends) does, and is its length.
pub proof fn lemma_size_is_bits_written(nodes: Seq<ResultNode>, text: Seq<char>, sets: Seq<CharacterSetECI>, version: int)
    requires
        nodes_cover(nodes, text, sets, 0),
        forall|i: int| 0 <= i < nodes.len() ==> (#[trigger] nodes[i]).mode != Mode::KANJI,
    ensures
        nodes_bits(nodes, text, sets, version) is Some <==> nodes_bit_seq(nodes, text, sets, version) is Ok,
        nodes_bit_seq(nodes, text, sets, version) matches Ok(b) ==> nodes_bits(nodes, text, sets, version) == Some(
            b.len() as int,
        ),
{
    assert forall|i: int| 0 <= i < nodes.len() implies node_holds(#[trigger] nodes[i], text, sets)
        && nodes[i].mode != Mode::KANJI by {
        lemma_cover_node_holds(nodes, text, sets, 0, i);
    }
    lemma_nodes_size_is_bits_written(nodes, text, sets, version);
}

/// The version that stands for the size class numbered `k`: 9, 26, 40.
pub open spec fn class_version(k: int) -> int {
    if k == 0 {
        9
    } else if k == 1 {
        26
    } else {
        40
    }
}

/// Whether the search in the size class of `cv` may find no room: some
/// least-cost path in `cv` has nodes that do not fit the class.
pub open spec fn class_may_overflow(
    text: Seq<char>,
    sets: Seq<CharacterSetECI>,
    prio: Option<nat>,
    cv: int,
    is_gs1: bool,
    level: ErrorCorrectionLevel,
) -> bool {
    exists|p: Seq<(Mode, int, int)>|
        #[trigger] canonical_path(text, sets, prio, cv, p) && !fits_class(result_nodes(p, is_gs1), text, sets, cv, level)
}

/// Whether some least-cost path in `cv` has nodes that fit the class and
/// take at least `size` bits (more than `size` where `strict`).
pub open spec fn class_no_smaller(
    text: Seq<char>,
    sets: Seq<CharacterSetECI>,
    prio: Option<nat>,
    cv: int,
    is_gs1: bool,
    level: ErrorCorrectionLevel,
    size: int,
    strict: bool,
) -> bool {
    exists|p: Seq<(Mode, int, int)>|
        #[trigger] canonical_path(text, sets, prio, cv, p) && fits_class(result_nodes(p, is_gs1), text, sets, cv, level)
            && (if strict {
            size < nodes_bits(result_nodes(p, is_gs1), text, sets, cv)->0
        } else {
            size <= nodes_bits(result_nodes(p, is_gs1), text, sets, cv)->0
        })
}

/// How the size class of `cv` compares with a result of `best.0` bits in
/// the class ending at version `best.1`: either its search may find no
/// room, or an encoding it may give is no smaller, and larger where the
/// class of `cv` comes first.
pub open spec fn class_compared(
    text: Seq<char>,
    sets: Seq<CharacterSetECI>,
    prio: Option<nat>,
    cv: int,
    is_gs1: bool,
    level: ErrorCorrectionLevel,
    best: Option<(int, int)>,
) -> bool {
    class_may_overflow(text, sets, prio, cv, is_gs1, level) || (best matches Some(b) && class_no_smaller(
        text,
        sets,
        prio,
        cv,
        is_gs1,
        level,
        b.0,
        cv < b.1,
    ))
}

/// The size and the size class of a result.
pub open spec fn size_and_class(res: ResultList) -> (int, int) {
    (
        nodes_bits(res.nodes_spec(), res.text_spec(), res.sets_spec(), res.version_spec())->0,
        class_high(res.version_spec()),
    )
}

/// The size and the size class of the best result so far, if any.
pub open spec fn best_info(best: Option<ResultList>) -> Option<(int, int)> {
    match best {
        Some(res) => Some(size_and_class(res)),
        None => None,
    }
}

/// A smaller result compares with a class at least as well.
proof fn lemma_compared_better(
    text: Seq<char>,
    sets: Seq<CharacterSetECI>,
    prio: Option<nat>,
    cv: int,
    is_gs1: bool,
    level: ErrorCorrectionLevel,
    old_best: (int, int),
    new_best: (int, int),
)
    requires
        class_compared(text, sets, prio, cv, is_gs1, level, Some(old_best)),
        new_best.0 < old_best.0,
    ensures
        class_compared(text, sets, prio, cv, is_gs1, level, Some(new_best)),
{
    if !class_may_overflow(text, sets, prio, cv, is_gs1, level) {
        let p = choose|p: Seq<(Mode, int, int)>|
            #[trigger] canonical_path(text, sets, prio, cv, p) && fits_class(result_nodes(p, is_gs1), text, sets, cv, level)
                && (if cv < old_best.1 {
                old_best.0 < nodes_bits(result_nodes(p, is_gs1), text, sets, cv)->0
            } else {
                old_best.0 <= nodes_bits(result_nodes(p, is_gs1), text, sets, cv)->0
            });
        assert(canonical_path(text, sets, prio, cv, p));
    }
}

/// The shortest encoding of `text` at `level` that this search finds:
/// with a version given, in the size class of that version; without one,
/// the cheapest of the three size classes that holds it (the smallest
/// class on a tie). Byte segments use ISO-8859-1 where possible, the
/// preferred set `priority` where it holds the character, and else the
/// sets the text calls for; `is_gs1` puts the GS1 indicator in front.
/// Errors: `UnencodableText` for an empty text and where the search finds
/// no sound path, `DataTooBig` for a text of more than 7089 characters and
/// where the encoding found does not fit.
pub fn encode(
    text: &str,
    version: Option<Version>,
    priority: Option<CharacterSetECI>,
    is_gs1: bool,
    level: ErrorCorrectionLevel,
) -> (r: Result<ResultList, EncodeError>)
    ensures
        text@.len() == 0 ==> r == Err::<ResultList, EncodeError>(EncodeError::UnencodableText),
        text@.len() > 7089 ==> r == Err::<ResultList, EncodeError>(EncodeError::DataTooBig),
        version is None ==> (r matches Ok(res) ==> encoded_minimally(res, text@, level, priority, is_gs1)),
        r is Ok || r == Err::<ResultList, EncodeError>(EncodeError::UnencodableText) || r == Err::<
            ResultList,
            EncodeError,
        >(EncodeError::DataTooBig),
        r matches Ok(res) ==> sound_result(res, text@, level) && minimal_result(res, text@, priority, is_gs1)
            && (is_gs1 ==> gs1_header(res.nodes_spec())) && (version matches Some(v) ==> class_low(
            res.version_spec(),
        ) == class_low(v.number())) && canonical_path(
            text@,
            encoder_sets(text@, priority),
            priority_position(encoder_sets(text@, priority), priority),
            res.version_spec(),
            res.path_spec(),
        ),
        ({
            let sets = encoder_sets(text@, priority);
            let prio = priority_position(sets, priority);
            1 <= text@.len() <= 7089 ==> match version {
                Some(v) => {
                    &&& (r == Err::<ResultList, EncodeError>(EncodeError::UnencodableText) <==> !exists|
                        path: Seq<(Mode, int, int)>,
                    | #[trigger] fitting_path(text@, sets, prio, v.number(), path))
                    &&& (r == Err::<ResultList, EncodeError>(EncodeError::DataTooBig) ==> class_may_overflow(
                        text@,
                        sets,
                        prio,
                        v.number(),
                        is_gs1,
                        level,
                    ))
                },
                None => {
                    &&& ((!exists|path: Seq<(Mode, int, int)>| #[trigger] fitting_path(text@, sets, prio, 9, path))
                        ==> r == Err::<ResultList, EncodeError>(EncodeError::UnencodableText))
                    &&& (r == Err::<ResultList, EncodeError>(EncodeError::UnencodableText) ==> (!exists|
                        path: Seq<(Mode, int, int)>,
                    | #[trigger] fitting_path(text@, sets, prio, 9, path)) || (!exists|
                        path: Seq<(Mode, int, int)>,
                    | #[trigger] fitting_path(text@, sets, prio, 26, path)) || (!exists|path: Seq<(Mode, int, int)>|
                        #[trigger] fitting_path(text@, sets, prio, 40, path)))
                    &&& (r == Err::<ResultList, EncodeError>(EncodeError::DataTooBig) ==> forall|k: int|
                        0 <= k < 3 ==> class_may_overflow(text@, sets, prio, #[trigger] class_version(k), is_gs1, level))
                    &&& (r matches Ok(res) ==> forall|k: int|
                        0 <= k < 3 ==> class_compared(
                            text@,
                            sets,
                            prio,
                            #[trigger] class_version(k),
                            is_gs1,
                            level,
                            Some(size_and_class(res)),
                        ))
                },
            }
        }),
{
    let n = text.unicode_len();
    if n == 0 {
        return Err(EncodeError::UnencodableText);
    }
    if n > 7089 {
        return Err(EncodeError::DataTooBig);
    }
    let search = Search { text, chars: chars_of(text), encoders: ECIEncoderSet::new(text, priority) };
    let ghost sets = encoder_sets(text@, priority);
    let ghost prio = priority_position(sets, priority);
    match version {
        Some(v) => result_for_version(&search, &v, is_gs1, level),
        None => {
            let mut best: Option<ResultList> = None;
            let mut best_size: u64 = 0;
            let mut k: u32 = 0;
            while k < 3
                invariant
                    search.wf(),
                    version is None,
                    search.text@ == text@,
                    search.encoders.sets() == sets,
                    sets == encoder_sets(text@, priority),
                    prio == priority_position(sets, priority),
                    search.encoders.priority_spec() == prio,
                    1 <= search.text@.len() <= 7089,
                    k <= 3,
                    k == 0 || (exists|path: Seq<(Mode, int, int)>| #[trigger] fitting_path(text@, sets, prio, 9, path)),
                    best matches Some(res) ==> sound_result(res, text@, level) && minimal_result(res, text@, priority, is_gs1)
                        && (is_gs1 ==> gs1_header(res.nodes_spec())) && res.text_spec() == text@ && res.sets_spec() == sets
                        && canonical_path(text@, sets, prio, res.version_spec(), res.path_spec())
                        && size_and_class(res).0 == best_size && (k < 3 ==> size_and_class(res).1 < class_version(
                        k as int,
                    )),
                    forall|j: int|
                        0 <= j < k ==> class_compared(
                            text@,
                            sets,
                            prio,
                            #[trigger] class_version(j),
                            is_gs1,
                            level,
                            best_info(best),
                        ),
                decreases 3 - k,
            {
                let number: u32 = if k == 0 {
                    9
                } else if k == 1 {
                    26
                } else {
                    40
                };
                assert(number == class_version(k as int));
                let class_rep = match Version::getVersionForNumber(number) {
                    Ok(v) => v,
                    Err(e) => return Err(e),
                };
                let ghost info = best_info(best);
                match result_for_version(&search, &class_rep, is_gs1, level) {
                    Ok(res) => {
                        let ghost bits_here = nodes_bits(res.nodes_spec(), text@, sets, number as int);
                        assert(res.text_spec() == text@);
                        assert(res.sets_spec() == sets);
                        assert(bits_here is Some && bits_here->0 <= u64::MAX);
                        proof {
                            lemma_nodes_bits_nonneg(res.nodes_spec(), text@, sets, number as int);
                        }
                        assert(class_high(res.version_spec()) == number);
                        assert(size_and_class(res).0 == bits_here->0);
                        assert(res.nodes_spec() == result_nodes(res.path_spec(), is_gs1));
                        assert(canonical_path(text@, sets, prio, number as int, res.path_spec()));
                        assert(fits_class(result_nodes(res.path_spec(), is_gs1), text@, sets, number as int, level));
                        if let Some(size) = res.getSize() {
                            assert(size as int == size_and_class(res).0);
                            let better = match best {
                                None => true,
                                Some(_) => size < best_size,
                            };
                            if better {
                                proof {
                                    assert forall|j: int| 0 <= j < k implies class_compared(
                                        text@,
                                        sets,
                                        prio,
                                        #[trigger] class_version(j),
                                        is_gs1,
                                        level,
                                        Some(size_and_class(res)),
                                    ) by {
                                        if info is Some {
                                            lemma_compared_better(
                                                text@,
                                                sets,
                                                prio,
                                                class_version(j),
                                                is_gs1,
                                                level,
                                                info->0,
                                                size_and_class(res),
                                            );
                                        }
                                    }
                                    assert(class_no_smaller(
                                        text@,
                                        sets,
                                        prio,
                                        number as int,
                                        is_gs1,
                                        level,
                                        size as int,
                                        false,
                                    )) by {
                                        assert(canonical_path(text@, sets, prio, number as int, res.path_spec()));
                                    }
                                }
                                best = Some(res);
                                best_size = size;
                            } else {
                                proof {
                                    assert(class_no_smaller(
                                        text@,
                                        sets,
                                        prio,
                                        number as int,
                                        is_gs1,
                                        level,
                                        best_size as int,
                                        false,
                                    )) by {
                                        assert(canonical_path(text@, sets, prio, number as int, res.path_spec()));
                                    }
                                }
                            }
                        }
                    },
                    Err(EncodeError::DataTooBig) => {},
                    Err(e) => {
                        proof {
                            assert(e == EncodeError::UnencodableText);
                            assert(!exists|path: Seq<(Mode, int, int)>|
                                #[trigger] fitting_path(text@, sets, prio, number as int, path));
                            assert(number == 9 || number == 26 || number == 40);
                            assert((!exists|path: Seq<(Mode, int, int)>| #[trigger] fitting_path(text@, sets, prio, 9, path))
                                || (!exists|path: Seq<(Mode, int, int)>| #[trigger] fitting_path(text@, sets, prio, 26, path))
                                || (!exists|path: Seq<(Mode, int, int)>| #[trigger] fitting_path(text@, sets, prio, 40, path)));
                        }
                        return Err(e);
                    },
                }
                k = k + 1;
            }
            match best {
                Some(res) => Ok(res),
                None => Err(EncodeError::DataTooBig),
            }
        },
    }
}

/// The size class of a sound result holds its search path and nodes: the
/// path is the search's path in the last version of the class, and the
/// nodes fit that class.
proof fn lemma_result_in_class(
    res: ResultList,
    text: Seq<char>,
    level: ErrorCorrectionLevel,
    priority: Option<CharacterSetECI>,
    is_gs1: bool,
)
    requires
        encoded_minimally(res, text, level, priority, is_gs1),
    ensures
        ({
            let sets = encoder_sets(text, priority);
            let prio = priority_position(sets, priority);
            let c = class_high(res.version_spec());
            &&& canonical_path(text, sets, prio, c, res.path_spec())
            &&& fits_class(result_nodes(res.path_spec(), is_gs1), text, sets, c, level)
            &&& nodes_bits(result_nodes(res.path_spec(), is_gs1), text, sets, c)->0 == size_and_class(res).0
            &&& (c == 9 || c == 26 || c == 40)
        }),
{
    let sets = encoder_sets(text, priority);
    let prio = priority_position(sets, priority);
    let v = res.version_spec();
    let c = class_high(v);
    lemma_canonical_class(text, sets, prio, v, c, res.path_spec());
    assert(res.nodes_spec() == result_nodes(res.path_spec(), is_gs1));
    lemma_nodes_bits_class(res.nodes_spec(), text, sets, v, c);
    let b = nodes_bits(res.nodes_spec(), text, sets, v)->0;
    lemma_codeword_counts(v, level);
    lemma_will_fit_grows(b, level, v, c);
}

/// A result in an earlier size class than another cannot stand beside it,
/// for each would have to be smaller than the other: `r1` is in no earlier
/// class than `r2`.
proof fn lemma_result_class_order(
    r1: ResultList,
    r2: ResultList,
    text: Seq<char>,
    level: ErrorCorrectionLevel,
    priority: Option<CharacterSetECI>,
    is_gs1: bool,
)
    requires
        encoded_minimally(r1, text, level, priority, is_gs1),
        encoded_minimally(r2, text, level, priority, is_gs1),
    ensures
        class_high(r1.version_spec()) >= class_high(r2.version_spec()),
{
    if class_high(r1.version_spec()) < class_high(r2.version_spec()) {
        let sets = encoder_sets(text, priority);
        let prio = priority_position(sets, priority);
        let c1 = class_high(r1.version_spec());
        let c2 = class_high(r2.version_spec());
        lemma_result_in_class(r1, text, level, priority, is_gs1);
        lemma_result_in_class(r2, text, level, priority, is_gs1);
        let k1: int = if c1 == 9 { 0 } else if c1 == 26 { 1 } else { 2 };
        let k2: int = if c2 == 9 { 0 } else if c2 == 26 { 1 } else { 2 };
        assert(class_version(k1) == c1);
        assert(class_version(k2) == c2);
        assert(class_compared(text, sets, prio, class_version(k2), is_gs1, level, Some(size_and_class(r1))));
        assert(class_compared(text, sets, prio, class_version(k1), is_gs1, level, Some(size_and_class(r2))));
        // The class of r2 seen from r1: its search path fits, so r1 is no larger.
        if class_may_overflow(text, sets, prio, c2, is_gs1, level) {
            let p = choose|p: Seq<(Mode, int, int)>|
                #[trigger] canonical_path(text, sets, prio, c2, p) && !fits_class(result_nodes(p, is_gs1), text, sets, c2, level);
            lemma_canonical_unique(text, sets, prio, c2, p, r2.path_spec());
            assert(false);
        }
        let p2 = choose|p: Seq<(Mode, int, int)>|
            #[trigger] canonical_path(text, sets, prio, c2, p) && fits_class(result_nodes(p, is_gs1), text, sets, c2, level)
                && (if c2 < c1 {
                size_and_class(r1).0 < nodes_bits(result_nodes(p, is_gs1), text, sets, c2)->0
            } else {
                size_and_class(r1).0 <= nodes_bits(result_nodes(p, is_gs1), text, sets, c2)->0
            });
        lemma_canonical_unique(text, sets, prio, c2, p2, r2.path_spec());
        assert(size_and_class(r1).0 <= size_and_class(r2).0);
        // The class of r1 seen from r2: it comes first, so r2 is smaller.
        if class_may_overflow(text, sets, prio, c1, is_gs1, level) {
            let p = choose|p: Seq<(Mode, int, int)>|
                #[trigger] canonical_path(text, sets, prio, c1, p) && !fits_class(result_nodes(p, is_gs1), text, sets, c1, level);
            lemma_canonical_unique(text, sets, prio, c1, p, r1.path_spec());
            assert(false);
        }
        let p1 = choose|p: Seq<(Mode, int, int)>|
            #[trigger] canonical_path(text, sets, prio, c1, p) && fits_class(result_nodes(p, is_gs1), text, sets, c1, level)
                && (if c1 < c2 {
                size_and_class(r2).0 < nodes_bits(result_nodes(p, is_gs1), text, sets, c1)->0
            } else {
                size_and_class(r2).0 <= nodes_bits(result_nodes(p, is_gs1), text, sets, c1)->0
            });
        lemma_canonical_unique(text, sets, prio, c1, p1, r1.path_spec());
        assert(size_and_class(r2).0 < size_and_class(r1).0);
    }
}

/// The shortest encoding is a function of its arguments: two results that
/// `encode` may give, with no version, for the same text, level, preferred
/// set and GS1 flag have the same steps, the same nodes and the same
/// version.
pub proof fn lemma_encoding_deterministic(
    r1: ResultList,
    r2: ResultList,
    text: Seq<char>,
    level: ErrorCorrectionLevel,
    priority: Option<CharacterSetECI>,
    is_gs1: bool,
)
    requires
        encoded_minimally(r1, text, level, priority, is_gs1),
        encoded_minimally(r2, text, level, priority, is_gs1),
    ensures
        r1.path_spec() == r2.path_spec(),
        r1.nodes_spec() == r2.nodes_spec(),
        r1.version_spec() == r2.version_spec(),
{
    let sets = encoder_sets(text, priority);
    let prio = priority_position(sets, priority);
    let c1 = class_high(r1.version_spec());
    let c2 = class_high(r2.version_spec());
    lemma_result_class_order(r1, r2, text, level, priority, is_gs1);
    lemma_result_class_order(r2, r1, text, level, priority, is_gs1);
    lemma_result_in_class(r1, text, level, priority, is_gs1);
    lemma_result_in_class(r2, text, level, priority, is_gs1);
    lemma_canonical_unique(text, sets, prio, c1, r1.path_spec(), r2.path_spec());
    assert(r1.nodes_spec() == result_nodes(r1.path_spec(), is_gs1));
    assert(r2.nodes_spec() == result_nodes(r2.path_spec(), is_gs1));
    let v1 = r1.version_spec();
    let v2 = r2.version_spec();
    lemma_nodes_bits_class(r1.nodes_spec(), text, sets, v1, v2);
    if v1 < v2 {
        assert(!will_fit(nodes_bits(r2.nodes_spec(), text, sets, v2)->0, v1, level));
    } else if v2 < v1 {
        assert(!will_fit(nodes_bits(r1.nodes_spec(), text, sets, v1)->0, v2, level));
    }
}

/// Where the search may give a result, it fails for neither reason: every
/// size class has a sound path, and the search path of the result's class
/// fits that class.
pub proof fn lemma_result_excludes_errors(
    res: ResultList,
    text: Seq<char>,
    level: ErrorCorrectionLevel,
    priority: Option<CharacterSetECI>,
    is_gs1: bool,
)
    requires
        encoded_minimally(res, text, level, priority, is_gs1),
    ensures
        ({
            let sets = encoder_sets(text, priority);
            let prio = priority_position(sets, priority);
            &&& exists|path: Seq<(Mode, int, int)>| #[trigger] fitting_path(text, sets, prio, 9, path)
            &&& exists|path: Seq<(Mode, int, int)>| #[trigger] fitting_path(text, sets, prio, 26, path)
            &&& exists|path: Seq<(Mode, int, int)>| #[trigger] fitting_path(text, sets, prio, 40, path)
            &&& exists|k: int| 0 <= k < 3 && !class_may_overflow(text, sets, prio, #[trigger] class_version(k), is_gs1, level)
        }),
{
    let sets = encoder_sets(text, priority);
    let prio = priority_position(sets, priority);
    assert forall|k: int| 0 <= k < 3 implies exists|path: Seq<(Mode, int, int)>|
        fitting_path(text, sets, prio, #[trigger] class_version(k), path) by {
        assert(class_compared(text, sets, prio, class_version(k), is_gs1, level, Some(size_and_class(res))));
        if class_may_overflow(text, sets, prio, class_version(k), is_gs1, level) {
            let p = choose|p: Seq<(Mode, int, int)>|
                #[trigger] canonical_path(text, sets, prio, class_version(k), p) && !fits_class(
                    result_nodes(p, is_gs1),
                    text,
                    sets,
                    class_version(k),
                    level,
                );
            assert(fitting_path(text, sets, prio, class_version(k), p));
        } else {
            let p = choose|p: Seq<(Mode, int, int)>|
                #[trigger] canonical_path(text, sets, prio, class_version(k), p) && fits_class(
                    result_nodes(p, is_gs1),
                    text,
                    sets,
                    class_version(k),
                    level,
                ) && (if class_version(k) < size_and_class(res).1 {
                    size_and_class(res).0 < nodes_bits(result_nodes(p, is_gs1), text, sets, class_version(k))->0
                } else {
                    size_and_class(res).0 <= nodes_bits(result_nodes(p, is_gs1), text, sets, class_version(k))->0
                });
            assert(fitting_path(text, sets, prio, class_version(k), p));
        }
    }
    assert(class_version(0) == 9 && class_version(1) == 26 && class_version(2) == 40);
    lemma_result_in_class(res, text, level, priority, is_gs1);
    let c = class_high(res.version_spec());
    let k: int = if c == 9 { 0 } else if c == 26 { 1 } else { 2 };
    assert(class_version(k) == c);
    if class_may_overflow(text, sets, prio, c, is_gs1, level) {
        let p = choose|p: Seq<(Mode, int, int)>|
            #[trigger] canonical_path(text, sets, prio, c, p) && !fits_class(result_nodes(p, is_gs1), text, sets, c, level);
        lemma_canonical_unique(text, sets, prio, c, p, res.path_spec());
    }
    assert(!class_may_overflow(text, sets, prio, class_version(k), is_gs1, level));
}

} // verus!
