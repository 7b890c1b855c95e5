//! The order in which a point keeps its entries: by key text, then by
//! insertion sequence.
use vstd::prelude::*;

verus! {

/// Lexicographic order on texts, character by character (by code point),
/// where a proper prefix comes first.
pub open spec fn text_lt(a: Seq<char>, b: Seq<char>) -> bool
    decreases a.len(),
{
    if a.len() == 0 {
        b.len() > 0
    } else if b.len() == 0 {
        false
    } else if (a[0] as u32) < (b[0] as u32) {
        true
    } else if a[0] == b[0] {
        text_lt(a.drop_first(), b.drop_first())
    } else {
        false
    }
}

/// The position of an entry: its key text and its insertion sequence.
pub type EntryPos = (Seq<char>, u64);

/// Entries are ordered by key text first, then by sequence.
pub open spec fn pos_lt(a: EntryPos, b: EntryPos) -> bool {
    text_lt(a.0, b.0) || (a.0 == b.0 && a.1 < b.1)
}

pub open spec fn pos_le(a: EntryPos, b: EntryPos) -> bool {
    a == b || pos_lt(a, b)
}

pub proof fn lemma_text_lt_irreflexive(a: Seq<char>)
    ensures
        !text_lt(a, a),
    decreases a.len(),
{
    if a.len() > 0 {
        lemma_text_lt_irreflexive(a.drop_first());
    }
}

pub proof fn lemma_text_lt_asymmetric(a: Seq<char>, b: Seq<char>)
    ensures
        !(text_lt(a, b) && text_lt(b, a)),
    decreases a.len(),
{
    if a.len() > 0 && b.len() > 0 && a[0] == b[0] {
        lemma_text_lt_asymmetric(a.drop_first(), b.drop_first());
    }
}

/// Two positions with the same key text are ordered by their sequences alone.
pub proof fn lemma_pos_le_same_text(k: Seq<char>, s: u64, t: u64)
    ensures
        pos_le((k, s), (k, t)) <==> s <= t,
{
    lemma_text_lt_irreflexive(k);
}

/// `pos_lt` is a strict order.
pub proof fn lemma_pos_lt_asymmetric(a: EntryPos, b: EntryPos)
    ensures
        !(pos_lt(a, b) && pos_lt(b, a)),
        !pos_lt(a, a),
{
    lemma_text_lt_asymmetric(a.0, b.0);
    lemma_text_lt_irreflexive(a.0);
    lemma_text_lt_irreflexive(b.0);
}

} // verus!
