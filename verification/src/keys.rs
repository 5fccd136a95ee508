use vstd::prelude::*;

use crate::bytes::{lemma_contains_split, split_byte, split_on, views_of};
use crate::codemap::{lookup, CodeMap};

verus! {

/// Modifier bits of a key identity, with the values the display protocol
/// uses in an input event's state field.
pub const MASK_SHIFT: u16 = 1;

pub const MASK_CONTROL: u16 = 4;

/// The first extra modifier, conventionally Alt.
pub const MASK_ALT: u16 = 8;

/// The fourth extra modifier, conventionally Super.
pub const MASK_SUPER: u16 = 64;

/// Canonical key identity: a modifier mask over Super, Alt, Control and
/// Shift, plus the raw code of the physical key. A value type, compared
/// and hashed by both fields.
#[derive(Debug, Clone, Copy, PartialEq, Eq, Hash, Structural)]
pub struct KeyCode {
    pub mask: u16,
    pub code: u8,
}

impl KeyCode {
    /// The identity of a key-press event, taken from the state and detail
    /// fields that the server reports.
    pub fn from_key_press(state: u16, detail: u8) -> (r: KeyCode)
        ensures
            r == (KeyCode { mask: state, code: detail }),
    {
        KeyCode { mask: state, code: detail }
    }
}

/// The modifier bit of a single-letter prefix: M for Super, A for Alt,
/// C for Control, S for Shift; anything else is no modifier.
pub open spec fn mod_bit(s: Seq<u8>) -> Option<u16> {
    if s == seq![77u8] {
        Some(MASK_SUPER)
    } else if s == seq![65u8] {
        Some(MASK_ALT)
    } else if s == seq![67u8] {
        Some(MASK_CONTROL)
    } else if s == seq![83u8] {
        Some(MASK_SHIFT)
    } else {
        None
    }
}

pub open spec fn mods_ok(mods: Seq<Seq<u8>>) -> bool {
    forall|i: int| 0 <= i < mods.len() ==> mod_bit(#[trigger] mods[i]) is Some
}

pub open spec fn bit_or_zero(s: Seq<u8>) -> u16 {
    match mod_bit(s) {
        Some(b) => b,
        None => 0,
    }
}

/// OR of the modifier bits of `mods`, left to right.
pub open spec fn mask_of(mods: Seq<Seq<u8>>) -> u16
    decreases mods.len(),
{
    if mods.len() == 0 {
        0
    } else {
        mask_of(mods.drop_last()) | bit_or_zero(mods.last())
    }
}

/// Index of the first segment that is not a known modifier prefix.
pub open spec fn first_bad_mod(mods: Seq<Seq<u8>>) -> nat
    decreases mods.len(),
{
    if mods.len() == 0 {
        0
    } else if mod_bit(mods[0]) is None {
        0
    } else {
        1 + first_bad_mod(mods.skip(1))
    }
}

/// Why a pattern did not resolve to a key identity.
#[derive(Debug, Clone, Copy, PartialEq, Eq, Structural)]
pub enum ParseError {
    /// The final segment names no key in the code map. Recoverable: the
    /// caller may report the pattern and go on.
    UnknownKeyName,
    /// The segment at `index` is not one of the four modifier prefixes.
    /// The caller treats this as fatal.
    UnknownModifier { index: usize },
}

/// What parsing a pattern against a code map yields: the pattern splits at
/// every `-`; the final segment must name a key, or nothing matches; every
/// earlier segment must be a modifier prefix, whose bits are ORed.
/// The name is looked up first, so an unknown name is reported whatever
/// the modifiers.
pub open spec fn spec_parse(p: Seq<u8>, codes: Seq<(Seq<u8>, u8)>) -> Result<KeyCode, ParseError> {
    let segs = split_on(p, 45);
    let front = segs.drop_last();
    match lookup(codes, segs.last()) {
        None => Err(ParseError::UnknownKeyName),
        Some(code) => if mods_ok(front) {
            Ok(KeyCode { mask: mask_of(front), code })
        } else {
            Err(ParseError::UnknownModifier { index: first_bad_mod(front) as usize })
        },
    }
}

proof fn lemma_first_bad_mod_at(mods: Seq<Seq<u8>>, i: int)
    requires
        0 <= i <= mods.len(),
        forall|j: int| 0 <= j < i ==> mod_bit(#[trigger] mods[j]) is Some,
        i < mods.len() ==> mod_bit(mods[i]) is None,
    ensures
        first_bad_mod(mods) == i,
    decreases i,
{
    if i == 0 {
    } else {
        assert(mod_bit(mods[0]) is Some);
        let t = mods.skip(1);
        assert forall|j: int| 0 <= j < i - 1 implies mod_bit(#[trigger] t[j]) is Some by {
            assert(t[j] == mods[j + 1]);
        }
        if i - 1 < t.len() {
            assert(t[i - 1] == mods[i]);
        }
        lemma_first_bad_mod_at(t, i - 1);
    }
}

/// Resolves one textual binding pattern to a canonical key identity.
///
/// The pattern splits on `-`; the final segment is the key name, looked up
/// in `known_codes`; each earlier segment must be one of the modifier
/// prefixes M, A, C, S (ASCII 77, 65, 67, 83), combined by OR, so their order and repetition do
/// not matter.
pub fn parse_key_binding(pattern: &[u8], known_codes: &CodeMap) -> (r: Result<KeyCode, ParseError>)
    ensures
        r == spec_parse(pattern@, known_codes@),
{
    let ghost segs_spec = split_on(pattern@, 45);
    let ghost front = segs_spec.drop_last();
    let segs = split_byte(pattern, 45);
    proof {
        assert(segs_spec.len() >= 1);
        assert(segs@.len() == segs_spec.len());
    }
    let name = &segs[segs.len() - 1];
    proof {
        assert(name@ == segs_spec.last());
    }
    let code = match known_codes.get(name.as_slice()) {
        None => {
            return Err(ParseError::UnknownKeyName);
        },
        Some(c) => c,
    };
    let n = segs.len() - 1;
    let mut mask: u16 = 0;
    let mut i: usize = 0;
    proof {
        assert(front.take(0) =~= Seq::<Seq<u8>>::empty());
    }
    while i < n
        invariant
            segs_spec == split_on(pattern@, 45),
            front == segs_spec.drop_last(),
            views_of(segs@) == segs_spec,
            n == segs@.len() - 1,
            i <= n,
            lookup(known_codes@, segs_spec.last()) == Some(code),
            forall|j: int| 0 <= j < i ==> mod_bit(#[trigger] front[j]) is Some,
            mask == mask_of(front.take(i as int)),
        decreases n - i,
    {
        let seg = &segs[i];
        proof {
            assert(seg@ == segs_spec[i as int]);
            assert(front[i as int] == segs_spec[i as int]);
        }
        let bit: Option<u16> = if seg.len() == 1 {
            let c = seg[0];
            proof {
                assert(seg@ =~= seq![seg@[0]]);
            }
            if c == 77u8 {
                Some(MASK_SUPER)
            } else if c == 65u8 {
                Some(MASK_ALT)
            } else if c == 67u8 {
                Some(MASK_CONTROL)
            } else if c == 83u8 {
                Some(MASK_SHIFT)
            } else {
                None
            }
        } else {
            None
        };
        proof {
            assert(bit == mod_bit(front[i as int]));
        }
        match bit {
            None => {
                proof {
                    lemma_first_bad_mod_at(front, i as int);
                    assert(!mods_ok(front));
                }
                return Err(ParseError::UnknownModifier { index: i });
            },
            Some(b) => {
                proof {
                    assert(front.take(i as int + 1).drop_last() =~= front.take(i as int));
                    assert(front.take(i as int + 1).last() == front[i as int]);
                }
                mask = mask | b;
            },
        }
        i += 1;
    }
    proof {
        assert(front.take(i as int) =~= front);
        assert(mods_ok(front));
    }
    Ok(KeyCode { mask, code })
}

/// The mask as a function of which prefix letters occur at all, however
/// often and in whatever order.
pub open spec fn mask_of_set(mods: Seq<Seq<u8>>) -> u16 {
    (if mods.contains(seq![77u8]) {
        MASK_SUPER
    } else {
        0
    }) | (if mods.contains(seq![65u8]) {
        MASK_ALT
    } else {
        0
    }) | (if mods.contains(seq![67u8]) {
        MASK_CONTROL
    } else {
        0
    }) | (if mods.contains(seq![83u8]) {
        MASK_SHIFT
    } else {
        0
    })
}


/// A mask is determined by the set of prefix letters alone: it equals the
/// OR of one bit per letter that occurs, wherever and however often each
/// occurs in the list.
pub proof fn lemma_mask_of_set(mods: Seq<Seq<u8>>)
    requires
        mods_ok(mods),
    ensures
        mask_of(mods) == mask_of_set(mods),
    decreases mods.len(),
{
    if mods.len() == 0 {
        assert(0u16 | 0u16 | 0u16 | 0u16 == 0u16) by (bit_vector);
    } else {
        let dl = mods.drop_last();
        let lst = mods.last();
        assert(mods[mods.len() - 1] == lst);
        assert(mod_bit(lst) is Some);
        assert forall|j: int| 0 <= j < dl.len() implies mod_bit(#[trigger] dl[j]) is Some by {
            assert(dl[j] == mods[j]);
        }
        lemma_mask_of_set(dl);
        assert(seq![77u8][0] == 77u8);
        assert(seq![65u8][0] == 65u8);
        assert(seq![67u8][0] == 67u8);
        assert(seq![83u8][0] == 83u8);
        lemma_contains_split(mods, seq![77u8]);
        lemma_contains_split(mods, seq![65u8]);
        lemma_contains_split(mods, seq![67u8]);
        lemma_contains_split(mods, seq![83u8]);
        let m: u16 = if dl.contains(seq![77u8]) {
            MASK_SUPER
        } else {
            0
        };
        let a: u16 = if dl.contains(seq![65u8]) {
            MASK_ALT
        } else {
            0
        };
        let c: u16 = if dl.contains(seq![67u8]) {
            MASK_CONTROL
        } else {
            0
        };
        let s: u16 = if dl.contains(seq![83u8]) {
            MASK_SHIFT
        } else {
            0
        };
        assert(mask_of(mods) == (m | a | c | s) | bit_or_zero(lst));
        if lst == seq![77u8] {
            assert((m | a | c | s) | 64u16 == 64u16 | a | c | s) by (bit_vector)
                requires
                    m == 64u16 || m == 0u16,
            ;
            assert(mask_of_set(mods) == 64u16 | a | c | s);
        } else if lst == seq![65u8] {
            assert((m | a | c | s) | 8u16 == m | 8u16 | c | s) by (bit_vector)
                requires
                    a == 8u16 || a == 0u16,
            ;
            assert(mask_of_set(mods) == m | 8u16 | c | s);
        } else if lst == seq![67u8] {
            assert((m | a | c | s) | 4u16 == m | a | 4u16 | s) by (bit_vector)
                requires
                    c == 4u16 || c == 0u16,
            ;
            assert(mask_of_set(mods) == m | a | 4u16 | s);
        } else {
            assert(lst == seq![83u8]);
            assert((m | a | c | s) | 1u16 == m | a | c | 1u16) by (bit_vector)
                requires
                    s == 1u16 || s == 0u16,
            ;
            assert(mask_of_set(mods) == m | a | c | 1u16);
        }
    }
}

/// Modifier order and repetition never change the mask: two modifier lists
/// holding the same letters produce the same mask.
pub proof fn lemma_mask_order_immaterial(m1: Seq<Seq<u8>>, m2: Seq<Seq<u8>>)
    requires
        mods_ok(m1),
        mods_ok(m2),
        forall|s: Seq<u8>| #[trigger] m1.contains(s) <==> m2.contains(s),
    ensures
        mask_of(m1) == mask_of(m2),
{
    lemma_mask_of_set(m1);
    lemma_mask_of_set(m2);
    assert(m1.contains(seq![77u8]) == m2.contains(seq![77u8]));
    assert(m1.contains(seq![65u8]) == m2.contains(seq![65u8]));
    assert(m1.contains(seq![67u8]) == m2.contains(seq![67u8]));
    assert(m1.contains(seq![83u8]) == m2.contains(seq![83u8]));
}

/// Parsing is insensitive to modifier order and repetition: two patterns
/// with the same key name whose modifier lists hold the same letters parse
/// to the same result against any code map.
pub proof fn lemma_parse_order_immaterial(p1: Seq<u8>, p2: Seq<u8>, codes: Seq<(Seq<u8>, u8)>)
    requires
        split_on(p1, 45).last() == split_on(p2, 45).last(),
        mods_ok(split_on(p1, 45).drop_last()),
        mods_ok(split_on(p2, 45).drop_last()),
        forall|s: Seq<u8>| #[trigger] split_on(p1, 45).drop_last().contains(s) <==> split_on(
            p2,
            45,
        ).drop_last().contains(s),
    ensures
        spec_parse(p1, codes) == spec_parse(p2, codes),
{
    lemma_mask_order_immaterial(split_on(p1, 45).drop_last(), split_on(p2, 45).drop_last());
}

/// A pattern whose key name is absent from the code map never yields a key
/// identity, whatever its modifiers.
pub proof fn lemma_parse_unknown_name(p: Seq<u8>, codes: Seq<(Seq<u8>, u8)>)
    requires
        lookup(codes, split_on(p, 45).last()) is None,
    ensures
        spec_parse(p, codes) == Err::<KeyCode, ParseError>(ParseError::UnknownKeyName),
{
}

} // verus!
