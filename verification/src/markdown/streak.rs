//! Runs of one repeated byte inside a text, and the longest of them.
//!
//! A scan may start with a run already in progress: the `carry` handed in is
//! the length of a run that ends exactly where the text begins. It lengthens
//! the run that the text starts with, and nothing else. What a scan hands on
//! is the length of the run that the text ends with.

use vstd::prelude::*;

verus! {

/// Whether the bytes of `text` at positions `from..to` all equal `byte`.
pub open spec fn is_run(text: Seq<u8>, byte: u8, from: int, to: int) -> bool {
    &&& 0 <= from <= to <= text.len()
    &&& forall|i: int| from <= i < to ==> text[i] == byte
}

/// The length that the run at `from..to` counts for: its own, and the carry
/// on top of it where the run starts the text.
pub open spec fn run_length(from: int, to: int, carry: nat) -> int {
    if from == 0 && to > 0 {
        carry + to
    } else {
        to - from
    }
}

/// Length of the run of `byte` that `text` starts with.
pub open spec fn leading_run(text: Seq<u8>, byte: u8) -> nat
    decreases text.len(),
{
    if text.len() > 0 && text.first() == byte {
        1 + leading_run(text.drop_first(), byte)
    } else {
        0
    }
}

/// Length of the run of `byte` that `text` ends with.
pub open spec fn trailing_run(text: Seq<u8>, byte: u8) -> nat
    decreases text.len(),
{
    if text.len() > 0 && text.last() == byte {
        1 + trailing_run(text.drop_last(), byte)
    } else {
        0
    }
}

/// Length of the longest run of `byte` anywhere in `text`.
pub open spec fn longest_run(text: Seq<u8>, byte: u8) -> nat
    decreases text.len(),
{
    if text.len() == 0 {
        0
    } else {
        let before = longest_run(text.drop_last(), byte);
        let at_end = trailing_run(text, byte);
        if at_end > before {
            at_end
        } else {
            before
        }
    }
}

/// Length of the run that `text` starts with, lengthened by a run of `carry`
/// bytes that ends right before it. A text that does not start with `byte`
/// has no such run, whatever was carried in.
pub open spec fn merged_leading_run(text: Seq<u8>, byte: u8, carry: nat) -> nat {
    if leading_run(text, byte) > 0 {
        carry + leading_run(text, byte)
    } else {
        0
    }
}

/// The streak report of a text: first the length of the longest run of
/// `byte` in it, where the leading run counts together with `carry`; then the
/// length of the run still open at its end.
pub open spec fn max_streak(text: Seq<u8>, byte: u8, carry: nat) -> (nat, nat) {
    let inside = longest_run(text, byte);
    let merged = merged_leading_run(text, byte, carry);
    (
        if merged > inside {
            merged
        } else {
            inside
        },
        trailing_run(text, byte),
    )
}

/// The largest of `counts`, and 0 if there are none.
pub open spec fn largest(counts: Seq<nat>) -> nat
    decreases counts.len(),
{
    if counts.len() == 0 {
        0
    } else {
        let before = largest(counts.drop_last());
        if counts.last() > before {
            counts.last()
        } else {
            before
        }
    }
}

/// The leading run is a run from the start that cannot be extended.
pub proof fn lemma_leading_run(text: Seq<u8>, byte: u8)
    ensures
        is_run(text, byte, 0, leading_run(text, byte) as int),
        leading_run(text, byte) < text.len() ==> text[leading_run(text, byte) as int] != byte,
    decreases text.len(),
{
    if text.len() > 0 && text.first() == byte {
        let rest = text.drop_first();
        lemma_leading_run(rest, byte);
        assert forall|i: int| 0 <= i < leading_run(text, byte) implies text[i] == byte by {
            if i > 0 {
                assert(text[i] == rest[i - 1]);
            }
        }
    }
}

/// The trailing run is a run up to the end that cannot be extended.
pub proof fn lemma_trailing_run(text: Seq<u8>, byte: u8)
    ensures
        is_run(text, byte, text.len() - trailing_run(text, byte), text.len() as int),
        trailing_run(text, byte) < text.len() ==> text[text.len() - trailing_run(text, byte) - 1]
            != byte,
    decreases text.len(),
{
    if text.len() > 0 && text.last() == byte {
        let rest = text.drop_last();
        lemma_trailing_run(rest, byte);
        assert forall|i: int|
            text.len() - trailing_run(text, byte) <= i < text.len() implies text[i] == byte by {
            if i < text.len() - 1 {
                assert(text[i] == rest[i]);
            }
        }
        if trailing_run(text, byte) < text.len() {
            assert(text[text.len() - trailing_run(text, byte) - 1] == rest[rest.len()
                - trailing_run(rest, byte) - 1]);
        }
    }
}

/// Every run that starts the text is part of the leading run.
pub proof fn lemma_leading_run_bounds(text: Seq<u8>, byte: u8, to: int)
    requires
        is_run(text, byte, 0, to),
    ensures
        to <= leading_run(text, byte),
    decreases text.len(),
{
    if to > 0 {
        lemma_leading_run_bounds(text.drop_first(), byte, to - 1);
    }
}

/// Every run that ends the text is part of the trailing run.
pub proof fn lemma_trailing_run_bounds(text: Seq<u8>, byte: u8, from: int)
    requires
        is_run(text, byte, from, text.len() as int),
    ensures
        text.len() - from <= trailing_run(text, byte),
    decreases text.len(),
{
    if from < text.len() {
        lemma_trailing_run_bounds(text.drop_last(), byte, from);
    }
}

/// No run in the text is longer than the longest run.
pub proof fn lemma_longest_run_bounds(text: Seq<u8>, byte: u8, from: int, to: int)
    requires
        is_run(text, byte, from, to),
    ensures
        to - from <= longest_run(text, byte),
    decreases text.len(),
{
    if text.len() > 0 {
        if to == text.len() {
            lemma_trailing_run_bounds(text, byte, from);
        } else {
            lemma_longest_run_bounds(text.drop_last(), byte, from, to);
        }
    }
}

/// Some run in the text is as long as the longest run.
pub proof fn lemma_longest_run_attained(text: Seq<u8>, byte: u8) -> (at: (int, int))
    ensures
        is_run(text, byte, at.0, at.1),
        at.1 - at.0 == longest_run(text, byte),
    decreases text.len(),
{
    if text.len() == 0 {
        (0, 0)
    } else {
        let rest = text.drop_last();
        if trailing_run(text, byte) > longest_run(rest, byte) {
            lemma_trailing_run(text, byte);
            (text.len() - trailing_run(text, byte), text.len() as int)
        } else {
            let at = lemma_longest_run_attained(rest, byte);
            assert forall|i: int| at.0 <= i < at.1 implies text[i] == byte by {
                assert(text[i] == rest[i]);
            }
            at
        }
    }
}

/// The runs of a text are bounded by its length, and the carry adds at most
/// itself.
pub proof fn lemma_max_streak_bounds(text: Seq<u8>, byte: u8, carry: nat)
    ensures
        leading_run(text, byte) <= longest_run(text, byte) <= text.len(),
        trailing_run(text, byte) <= longest_run(text, byte),
        longest_run(text, byte) <= max_streak(text, byte, carry).0 <= carry + text.len(),
        max_streak(text, byte, carry).1 <= max_streak(text, byte, carry).0,
{
    lemma_leading_run(text, byte);
    lemma_trailing_run(text, byte);
    lemma_longest_run_bounds(text, byte, 0, leading_run(text, byte) as int);
    lemma_longest_run_attained(text, byte);
}

/// The first count of a streak report is the length of the longest run in
/// the text, each run taken at the length it counts for: no run counts for
/// more.
pub proof fn lemma_max_streak_bounds_every_run(
    text: Seq<u8>,
    byte: u8,
    carry: nat,
    from: int,
    to: int,
)
    requires
        is_run(text, byte, from, to),
    ensures
        run_length(from, to, carry) <= max_streak(text, byte, carry).0,
{
    lemma_longest_run_bounds(text, byte, from, to);
    if from == 0 && to > 0 {
        lemma_leading_run_bounds(text, byte, to);
    }
}

/// And some run counts for exactly that much.
pub proof fn lemma_max_streak_attained(text: Seq<u8>, byte: u8, carry: nat) -> (at: (int, int))
    ensures
        is_run(text, byte, at.0, at.1),
        run_length(at.0, at.1, carry) == max_streak(text, byte, carry).0,
{
    if merged_leading_run(text, byte, carry) > longest_run(text, byte) {
        lemma_leading_run(text, byte);
        (0, leading_run(text, byte) as int)
    } else {
        let at = lemma_longest_run_attained(text, byte);
        if at.0 == 0 && at.1 > 0 {
            lemma_leading_run_bounds(text, byte, at.1);
        }
        at
    }
}

/// What one more byte at the end does to the three run lengths.
pub proof fn lemma_runs_push(text: Seq<u8>, byte: u8, next: u8)
    ensures
        trailing_run(text.push(next), byte) == if next == byte {
            trailing_run(text, byte) + 1
        } else {
            0
        },
        leading_run(text.push(next), byte) == if next == byte && leading_run(text, byte)
            == text.len() {
            text.len() + 1
        } else {
            leading_run(text, byte)
        },
        longest_run(text.push(next), byte) == if trailing_run(text.push(next), byte) > longest_run(
            text,
            byte,
        ) {
            trailing_run(text.push(next), byte)
        } else {
            longest_run(text, byte)
        },
    decreases text.len(),
{
    let longer = text.push(next);
    assert(longer.drop_last() == text);
    if text.len() == 0 {
        assert(longer.drop_first() == text);
    } else {
        assert(longer.drop_first() == text.drop_first().push(next));
        lemma_runs_push(text.drop_first(), byte, next);
    }
}

/// Reading more of a text never shortens the longest streak seen so far.
pub proof fn lemma_max_streak_grows(text: Seq<u8>, byte: u8, carry: nat, seen: int)
    requires
        0 <= seen <= text.len(),
    ensures
        max_streak(text.take(seen), byte, carry).0 <= max_streak(text, byte, carry).0,
    decreases text.len() - seen,
{
    if seen == text.len() {
        assert(text.take(seen) == text);
    } else {
        lemma_runs_push(text.take(seen), byte, text[seen]);
        assert(text.take(seen).push(text[seen]) == text.take(seen + 1));
        lemma_max_streak_grows(text, byte, carry, seen + 1);
    }
}

/// The largest count is no smaller than any of the counts.
pub proof fn lemma_largest_bounds(counts: Seq<nat>, at: int)
    requires
        0 <= at < counts.len(),
    ensures
        counts[at] <= largest(counts),
    decreases counts.len(),
{
    if at < counts.len() - 1 {
        lemma_largest_bounds(counts.drop_last(), at);
    }
}

/// The largest count is one of the counts, unless there are none.
pub proof fn lemma_largest_attained(counts: Seq<nat>) -> (at: int)
    requires
        counts.len() > 0,
    ensures
        0 <= at < counts.len(),
        counts[at] == largest(counts),
    decreases counts.len(),
{
    let front = counts.drop_last();
    if front.len() == 0 || counts.last() > largest(front) {
        counts.len() - 1
    } else {
        lemma_largest_attained(front)
    }
}

/// The largest of two lists of counts is the larger of their largest counts.
pub proof fn lemma_largest_concat(front: Seq<nat>, back: Seq<nat>)
    ensures
        largest(front + back) == if largest(back) > largest(front) {
            largest(back)
        } else {
            largest(front)
        },
    decreases back.len(),
{
    if back.len() > 0 {
        assert((front + back).drop_last() == front + back.drop_last());
        lemma_largest_concat(front, back.drop_last());
    }
}

/// The largest count of several lists taken together is no smaller than any
/// count in any of them.
pub proof fn lemma_largest_flatten_bounds(lists: Seq<Seq<nat>>, i: int, j: int)
    requires
        0 <= i < lists.len(),
        0 <= j < lists[i].len(),
    ensures
        lists[i][j] <= largest(lists.flatten()),
    decreases lists.len(),
{
    let front = lists.drop_last();
    assert(front.push(lists.last()) == lists);
    front.lemma_flatten_push(lists.last());
    lemma_largest_concat(front.flatten(), lists.last());
    if i < lists.len() - 1 {
        lemma_largest_flatten_bounds(front, i, j);
    } else {
        lemma_largest_bounds(lists.last(), j);
    }
}

/// The largest count of several lists taken together stands in one of them,
/// unless it is 0.
pub proof fn lemma_largest_flatten_attained(lists: Seq<Seq<nat>>) -> (at: (int, int))
    requires
        largest(lists.flatten()) > 0,
    ensures
        0 <= at.0 < lists.len(),
        0 <= at.1 < lists[at.0].len(),
        lists[at.0][at.1] == largest(lists.flatten()),
    decreases lists.len(),
{
    if lists.len() == 0 {
        (0, 0)
    } else {
        let front = lists.drop_last();
        assert(front.push(lists.last()) == lists);
        front.lemma_flatten_push(lists.last());
        lemma_largest_concat(front.flatten(), lists.last());
        if largest(lists.last()) > largest(front.flatten()) {
            (lists.len() - 1, lemma_largest_attained(lists.last()))
        } else {
            lemma_largest_flatten_attained(front)
        }
    }
}

/// Scans `text` once for runs of `byte`. Returns the length of the longest
/// run, where the run that the text starts with counts together with the
/// `carry` bytes right before it, and the length of the run that the text
/// ends with.
///
/// The longest run has to fit a `usize`. It does whenever `carry` and the
/// length of the text together do.
pub fn count_max_streak(text: &[u8], byte: u8, carry: usize) -> (streak: (usize, usize))
    requires
        max_streak(text@, byte, carry as nat).0 <= usize::MAX,
    ensures
        streak.0 == max_streak(text@, byte, carry as nat).0,
        streak.1 == max_streak(text@, byte, carry as nat).1,
{
    let mut longest: usize = 0;
    let mut run: usize = 0;
    let mut from_start = true;
    let mut i: usize = 0;
    while i < text.len()
        invariant
            i <= text.len(),
            max_streak(text@, byte, carry as nat).0 <= usize::MAX,
            run == trailing_run(text@.take(i as int), byte),
            run <= i,
            from_start == (leading_run(text@.take(i as int), byte) == i),
            from_start ==> run == i,
            longest == max_streak(text@.take(i as int), byte, carry as nat).0,
        decreases text.len() - i,
    {
        proof {
            lemma_runs_push(text@.take(i as int), byte, text@[i as int]);
            lemma_leading_run(text@.take(i as int), byte);
            assert(text@.take(i as int).push(text@[i as int]) == text@.take(i + 1));
            lemma_max_streak_grows(text@, byte, carry as nat, i + 1);
        }
        if text[i] == byte {
            run += 1;
            let reach = if from_start {
                carry + run
            } else {
                run
            };
            if reach > longest {
                longest = reach;
            }
        } else {
            run = 0;
            from_start = false;
        }
        i += 1;
    }
    proof {
        assert(text@.take(i as int) == text@);
    }
    (longest, run)
}

} // verus!
