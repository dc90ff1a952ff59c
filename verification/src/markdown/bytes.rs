//! The bytes that Markdown gives a meaning to, and how often a byte occurs
//! in a text.

use vstd::prelude::*;

verus! {

/// Line feed.
pub const NEWLINE: u8 = 0x0a;

/// Space.
pub const SPACE: u8 = 0x20;

/// Hyphen, the filler of a table's separator row.
pub const DASH: u8 = 0x2d;

/// Backslash, which is put in front of an escaped byte.
pub const BACKSLASH: u8 = 0x5c;

/// Vertical bar, the column boundary of a table.
pub const PIPE: u8 = 0x7c;

/// How often `byte` occurs in `bytes`.
pub open spec fn occurrences(bytes: Seq<u8>, byte: u8) -> nat
    decreases bytes.len(),
{
    if bytes.len() == 0 {
        0
    } else if bytes.last() == byte {
        occurrences(bytes.drop_last(), byte) + 1
    } else {
        occurrences(bytes.drop_last(), byte)
    }
}

/// The occurrences in a concatenation are those of its two parts.
pub proof fn lemma_occurrences_concat(front: Seq<u8>, back: Seq<u8>, byte: u8)
    ensures
        occurrences(front + back, byte) == occurrences(front, byte) + occurrences(back, byte),
    decreases back.len(),
{
    if back.len() > 0 {
        assert((front + back).drop_last() == front + back.drop_last());
        lemma_occurrences_concat(front, back.drop_last(), byte);
    }
}

/// A byte does not occur in a text exactly if no position holds it.
pub proof fn lemma_occurrences_none(bytes: Seq<u8>, byte: u8)
    ensures
        occurrences(bytes, byte) == 0 <==> forall|i: int| 0 <= i < bytes.len() ==> bytes[i] != byte,
    decreases bytes.len(),
{
    if bytes.len() > 0 {
        let front = bytes.drop_last();
        lemma_occurrences_none(front, byte);
        if occurrences(bytes, byte) == 0 {
            assert forall|i: int| 0 <= i < bytes.len() implies bytes[i] != byte by {
                if i < front.len() {
                    assert(bytes[i] == front[i]);
                }
            }
        }
    }
}

/// Texts none of which holds `byte` do not hold it when put together either.
pub proof fn lemma_occurrences_none_in_all(texts: Seq<Seq<u8>>, byte: u8)
    requires
        forall|j: int| 0 <= j < texts.len() ==> occurrences(#[trigger] texts[j], byte) == 0,
    ensures
        occurrences(texts.flatten(), byte) == 0,
    decreases texts.len(),
{
    if texts.len() > 0 {
        let front = texts.drop_last();
        assert(front.push(texts.last()) == texts);
        lemma_occurrences_none_in_all(front, byte);
        front.lemma_flatten_push(texts.last());
        lemma_occurrences_concat(front.flatten(), texts.last(), byte);
    }
}

} // verus!
