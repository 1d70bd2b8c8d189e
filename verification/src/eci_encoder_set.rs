//! The character sets that byte mode may use for a given text: ISO-8859-1
//! always, the single-byte sets that characters outside ISO-8859-1 need,
//! and UTF-8 and UTF-16BE where one set is not enough or a Unicode set is
//! preferred.
use vstd::prelude::*;
use crate::charset::{CharacterSetECI, text_bytes};

verus! {

/// The single-byte sets tried, in order, for a character that the sets
/// already chosen cannot hold.
pub open spec fn candidate_sets() -> Seq<CharacterSetECI> {
    seq![
        CharacterSetECI::ISO8859_2,
        CharacterSetECI::ISO8859_3,
        CharacterSetECI::ISO8859_4,
        CharacterSetECI::ISO8859_5,
        CharacterSetECI::ISO8859_6,
        CharacterSetECI::ISO8859_7,
        CharacterSetECI::ISO8859_8,
        CharacterSetECI::ISO8859_10,
        CharacterSetECI::ISO8859_13,
        CharacterSetECI::ISO8859_14,
        CharacterSetECI::ISO8859_15,
        CharacterSetECI::ISO8859_16,
        CharacterSetECI::Cp1250,
        CharacterSetECI::Cp1251,
        CharacterSetECI::Cp1252,
        CharacterSetECI::Cp1256,
        CharacterSetECI::SJIS,
    ]
}

/// Whether the set `cs` can represent the character `c`.
pub open spec fn char_encodable(cs: CharacterSetECI, c: char) -> bool {
    text_bytes(cs, seq![c]) is Ok
}

/// The first candidate set from position `k` on that can represent `c`.
pub open spec fn first_candidate_from(c: char, k: nat) -> Option<CharacterSetECI>
    decreases candidate_sets().len() - k,
{
    if k >= candidate_sets().len() {
        None
    } else if char_encodable(candidate_sets()[k as int], c) {
        Some(candidate_sets()[k as int])
    } else {
        first_candidate_from(c, k + 1)
    }
}

/// Whether one of `sets` can represent `c`.
pub open spec fn some_set_holds(sets: Seq<CharacterSetECI>, c: char) -> bool {
    exists|j: int| 0 <= j < sets.len() && char_encodable(#[trigger] sets[j], c)
}

/// The sets that the first `i` characters of `text` need, ISO-8859-1
/// first, and whether one of them needs a Unicode set: each character that
/// no chosen set holds adds the first candidate that holds it, or, where
/// none does, calls for Unicode.
pub open spec fn needed_sets(text: Seq<char>, i: nat) -> (Seq<CharacterSetECI>, bool)
    decreases i,
{
    if i == 0 || i > text.len() {
        (seq![CharacterSetECI::ISO8859_1], false)
    } else {
        let prev = needed_sets(text, (i - 1) as nat);
        let c = text[i - 1];
        if some_set_holds(prev.0, c) {
            prev
        } else {
            match first_candidate_from(c, 0) {
                Some(cs) => (prev.0.push(cs), prev.1),
                None => (prev.0, true),
            }
        }
    }
}

/// Whether `cs` is one of the Unicode sets, UTF-8 or UTF-16BE.
pub open spec fn is_unicode_set(cs: CharacterSetECI) -> bool {
    cs == CharacterSetECI::UTF8 || cs == CharacterSetECI::UnicodeBigUnmarked
}

/// The sets for `text` with the preferred set `priority`: ISO-8859-1 alone
/// where it holds the whole text and no Unicode set is preferred; else the
/// needed sets followed by UTF-8 and UTF-16BE.
pub open spec fn encoder_sets(text: Seq<char>, priority: Option<CharacterSetECI>) -> Seq<CharacterSetECI> {
    let needed = needed_sets(text, text.len());
    let unicode = needed.1 || (priority matches Some(p) && is_unicode_set(p));
    if needed.0.len() == 1 && !unicode {
        needed.0
    } else {
        needed.0 + seq![CharacterSetECI::UTF8, CharacterSetECI::UnicodeBigUnmarked]
    }
}

/// The first position of `cs` in `sets` from `k` on.
pub open spec fn position_from(sets: Seq<CharacterSetECI>, cs: CharacterSetECI, k: nat) -> Option<nat>
    decreases sets.len() - k,
{
    if k >= sets.len() {
        None
    } else if sets[k as int] == cs {
        Some(k)
    } else {
        position_from(sets, cs, k + 1)
    }
}

/// The position of the preferred set among `sets`, if it is there.
pub open spec fn priority_position(sets: Seq<CharacterSetECI>, priority: Option<CharacterSetECI>) -> Option<nat> {
    match priority {
        Some(p) => position_from(sets, p, 0),
        None => None,
    }
}

/// The sets chosen for a text, with the position of the preferred one.
pub struct ECIEncoderSet {
    encoders: Vec<CharacterSetECI>,
    priority: Option<usize>,
}

impl ECIEncoderSet {
    /// The sets, in order.
    pub closed spec fn sets(self) -> Seq<CharacterSetECI> {
        self.encoders@
    }

    /// The position of the preferred set, if it is among the sets.
    pub closed spec fn priority_spec(self) -> Option<nat> {
        match self.priority {
            Some(p) => Some(p as nat),
            None => None,
        }
    }

    /// The sets for `text` with the preferred set `priority`.
    pub fn new(text: &str, priority: Option<CharacterSetECI>) -> (r: ECIEncoderSet)
        ensures
            r.sets() == encoder_sets(text@, priority),
            r.priority_spec() == priority_position(encoder_sets(text@, priority), priority),
            1 <= r.sets().len() <= 20,
            r.sets()[0] == CharacterSetECI::ISO8859_1,
    {
        let n = text.unicode_len();
        let mut needed: Vec<CharacterSetECI> = Vec::new();
        needed.push(CharacterSetECI::ISO8859_1);
        let mut unicode = false;
        let mut i: usize = 0;
        while i < n
            invariant
                n == text@.len(),
                i <= n,
                needed@ == needed_sets(text@, i as nat).0,
                unicode == needed_sets(text@, i as nat).1,
                1 <= needed@.len(),
                needed@[0] == CharacterSetECI::ISO8859_1,
                forall|j: int| 1 <= j < needed@.len() ==> candidate_sets().contains(#[trigger] needed@[j]),
                forall|j: int, k: int| 0 <= j < k < needed@.len() ==> needed@[j] != needed@[k],
            decreases n - i,
        {
            let c = text.substring_char(i, i + 1);
            assert(c@ =~= seq![text@[i as int]]);
            let mut held = false;
            let mut j: usize = 0;
            while j < needed.len()
                invariant
                    j <= needed@.len(),
                    i < n,
                    n == text@.len(),
                    held <==> exists|k: int| 0 <= k < j && char_encodable(#[trigger] needed@[k], text@[i as int]),
                    c@ == seq![text@[i as int]],
                decreases needed@.len() - j,
            {
                if needed[j].encode(c).is_ok() {
                    held = true;
                }
                j = j + 1;
            }
            if !held {
                let found = first_candidate(c);
                match found {
                    Some(cs) => {
                        proof {
                            lemma_first_candidate_not_needed(needed@, text@[i as int]);
                        }
                        needed.push(cs);
                    },
                    None => {
                        unicode = true;
                    },
                }
            }
            i = i + 1;
        }
        proof {
            lemma_needed_bound(needed@);
        }
        let priority_unicode = match priority {
            Some(p) => match p {
                CharacterSetECI::UTF8 => true,
                CharacterSetECI::UnicodeBigUnmarked => true,
                _ => false,
            },
            None => false,
        };
        if needed.len() != 1 || unicode || priority_unicode {
            needed.push(CharacterSetECI::UTF8);
            needed.push(CharacterSetECI::UnicodeBigUnmarked);
        }
        let encoders = needed;
        assert(encoders@ == encoder_sets(text@, priority));
        let mut position: Option<usize> = None;
        if let Some(p) = priority {
            let mut k: usize = encoders.len();
            while k > 0
                invariant
                    k <= encoders@.len(),
                    encoders@.len() <= 20,
                    position_from(encoders@, p, k as nat) == match position {
                        Some(q) => Some(q as nat),
                        None => None::<nat>,
                    },
                decreases k,
            {
                k = k - 1;
                if encoders[k] == p {
                    position = Some(k);
                }
            }
            assert(position_from(encoders@, p, 0) == match position {
                Some(q) => Some(q as nat),
                None => None::<nat>,
            });
        }
        ECIEncoderSet { encoders, priority: position }
    }

    /// A copy of the set list.
    pub fn duplicate(&self) -> (r: ECIEncoderSet)
        ensures
            r.sets() == self.sets(),
            r.priority_spec() == self.priority_spec(),
    {
        let mut encoders: Vec<CharacterSetECI> = Vec::new();
        let mut i: usize = 0;
        while i < self.encoders.len()
            invariant
                i <= self.encoders@.len(),
                encoders@ == self.encoders@.take(i as int),
            decreases self.encoders@.len() - i,
        {
            encoders.push(self.encoders[i]);
            i = i + 1;
            assert(encoders@ =~= self.encoders@.take(i as int));
        }
        assert(self.encoders@.take(i as int) =~= self.encoders@);
        ECIEncoderSet { encoders, priority: self.priority }
    }

    /// The number of sets.
    pub fn length(&self) -> (r: usize)
        ensures
            r == self.sets().len(),
    {
        self.encoders.len()
    }

    /// The set at `index`.
    pub fn get(&self, index: usize) -> (r: CharacterSetECI)
        requires
            index < self.sets().len(),
        ensures
            r == self.sets()[index as int],
    {
        self.encoders[index]
    }

    /// The position of the preferred set, if it is among the sets.
    pub fn getPriorityEncoderIndex(&self) -> (r: Option<usize>)
        ensures
            match r {
                Some(p) => self.priority_spec() == Some(p as nat),
                None => self.priority_spec() is None,
            },
    {
        self.priority
    }

    /// Whether the set at `index` can represent the one character of `c`.
    pub fn canEncode(&self, c: &str, index: usize) -> (r: bool)
        requires
            index < self.sets().len(),
            c@.len() == 1,
        ensures
            r == char_encodable(self.sets()[index as int], c@[0]),
    {
        assert(c@ =~= seq![c@[0]]);
        self.encoders[index].encode(c).is_ok()
    }
}

/// The first candidate set that can represent the one character of `c`.
fn first_candidate(c: &str) -> (r: Option<CharacterSetECI>)
    requires
        c@.len() == 1,
    ensures
        r == first_candidate_from(c@[0], 0),
        r matches Some(cs) ==> candidate_sets().contains(cs) && char_encodable(cs, c@[0]),
{
    assert(c@ =~= seq![c@[0]]);
    let sets: [CharacterSetECI; 17] = [
        CharacterSetECI::ISO8859_2,
        CharacterSetECI::ISO8859_3,
        CharacterSetECI::ISO8859_4,
        CharacterSetECI::ISO8859_5,
        CharacterSetECI::ISO8859_6,
        CharacterSetECI::ISO8859_7,
        CharacterSetECI::ISO8859_8,
        CharacterSetECI::ISO8859_10,
        CharacterSetECI::ISO8859_13,
        CharacterSetECI::ISO8859_14,
        CharacterSetECI::ISO8859_15,
        CharacterSetECI::ISO8859_16,
        CharacterSetECI::Cp1250,
        CharacterSetECI::Cp1251,
        CharacterSetECI::Cp1252,
        CharacterSetECI::Cp1256,
        CharacterSetECI::SJIS,
    ];
    assert(sets@ =~= candidate_sets());
    let mut k: usize = 17;
    let mut found: Option<CharacterSetECI> = None;
    while k > 0
        invariant
            k <= 17,
            sets@ == candidate_sets(),
            c@ == seq![c@[0]],
            found == first_candidate_from(c@[0], k as nat),
            found matches Some(cs) ==> candidate_sets().contains(cs) && char_encodable(cs, c@[0]),
        decreases k,
    {
        k = k - 1;
        if sets[k].encode(c).is_ok() {
            found = Some(sets[k]);
        }
    }
    found
}

/// Distinct candidates after ISO-8859-1 number at most seventeen.
proof fn lemma_needed_bound(needed: Seq<CharacterSetECI>)
    requires
        needed.len() >= 1,
        forall|j: int| 1 <= j < needed.len() ==> candidate_sets().contains(#[trigger] needed[j]),
        forall|j: int, k: int| 0 <= j < k < needed.len() ==> needed[j] != needed[k],
    ensures
        needed.len() <= 18,
{
    let tail = needed.subrange(1, needed.len() as int);
    assert forall|j: int, k: int| 0 <= j < tail.len() && 0 <= k < tail.len() && j != k implies tail[j] != tail[k] by {
        if j < k {
            assert(needed[j + 1] != needed[k + 1]);
        } else {
            assert(needed[k + 1] != needed[j + 1]);
        }
    }
    assert(tail.no_duplicates());
    tail.unique_seq_to_set();
    assert forall|x: CharacterSetECI| tail.to_set().contains(x) implies candidate_sets().to_set().contains(x) by {
        let j = choose|j: int| 0 <= j < tail.len() && tail[j] == x;
        assert(needed[j + 1] == x);
    }
    vstd::seq_lib::seq_to_set_is_finite(candidate_sets());
    candidate_sets().lemma_cardinality_of_set();
    vstd::set_lib::lemma_len_subset(tail.to_set(), candidate_sets().to_set());
}

/// A candidate chosen for a character that no needed set holds is not
/// among the needed sets already.
proof fn lemma_first_candidate_not_needed(needed: Seq<CharacterSetECI>, c: char)
    requires
        !some_set_holds(needed, c),
        first_candidate_from(c, 0) is Some,
    ensures
        !needed.contains(first_candidate_from(c, 0)->0),
        char_encodable(first_candidate_from(c, 0)->0, c),
        candidate_sets().contains(first_candidate_from(c, 0)->0),
{
    lemma_first_candidate_holds(c, 0);
    let cs = first_candidate_from(c, 0)->0;
    if needed.contains(cs) {
        let j = choose|j: int| 0 <= j < needed.len() && needed[j] == cs;
        assert(char_encodable(needed[j], c));
    }
}

/// The first candidate from `k` on, where there is one, holds `c`.
proof fn lemma_first_candidate_holds(c: char, k: nat)
    requires
        first_candidate_from(c, k) is Some,
    ensures
        char_encodable(first_candidate_from(c, k)->0, c),
        candidate_sets().contains(first_candidate_from(c, k)->0),
    decreases candidate_sets().len() - k,
{
    if k < candidate_sets().len() && !char_encodable(candidate_sets()[k as int], c) {
        lemma_first_candidate_holds(c, k + 1);
    }
}

} // verus!
