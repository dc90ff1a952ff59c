//! The rendering contract shared by every Markdown element.
//!
//! An element renders itself into a byte buffer and reports the longest run
//! of a given byte in its text. Both are stated against spec functions of the
//! element, so that a composite is specified through its children.

use vstd::prelude::*;

pub mod bytes;
pub mod layout;
pub mod streak;
pub mod tables;
pub mod text;

verus! {

/// Whether `byte` is one of the punctuation characters that Markdown lets a
/// backslash escape: `` \ ` * _ { } [ ] ( ) # + - . ! ``.
pub open spec fn is_markdown_punctuation(byte: u8) -> bool {
    ||| byte == 0x21
    ||| byte == 0x23
    ||| byte == 0x28
    ||| byte == 0x29
    ||| byte == 0x2a
    ||| byte == 0x2b
    ||| byte == 0x2d
    ||| byte == 0x2e
    ||| byte == 0x5b
    ||| byte == 0x5c
    ||| byte == 0x5d
    ||| byte == 0x5f
    ||| byte == 0x60
    ||| byte == 0x7b
    ||| byte == 0x7d
}

/// Which bytes of a text are escaped when it is rendered. A composite hands
/// the policy it was given to each of its children unchanged.
#[derive(Clone, Copy, Debug, PartialEq, Eq, Structural)]
pub enum Escaping {
    /// Running text: Markdown punctuation is escaped.
    Normal,
    /// Text inside a code span: nothing is escaped.
    InlineCode,
}

impl Escaping {
    /// Whether this policy escapes `byte`.
    pub open spec fn escapes(self, byte: u8) -> bool {
        self == Escaping::Normal && is_markdown_punctuation(byte)
    }

    /// Whether `byte` has to be written with a backslash in front of it.
    pub fn must_escape(self, byte: u8) -> (escaped: bool)
        ensures
            escaped == self.escapes(byte),
    {
        match self {
            Escaping::Normal => {
                byte == 0x21 || byte == 0x23 || byte == 0x28 || byte == 0x29 || byte == 0x2a
                    || byte == 0x2b || byte == 0x2d || byte == 0x2e || byte == 0x5b || byte == 0x5c
                    || byte == 0x5d || byte == 0x5f || byte == 0x60 || byte == 0x7b || byte == 0x7d
            },
            Escaping::InlineCode => false,
        }
    }
}

/// The line prefix as contracts see it: the bytes behind the slice.
pub open spec fn line_prefix_view(line_prefix: Option<&[u8]>) -> Option<Seq<u8>> {
    match line_prefix {
        Some(prefix) => Some(prefix@),
        None => None,
    }
}

/// An element of a Markdown document.
///
/// `rendered` is the element's Markdown text in a given context and
/// `max_streak` its streak report. The two executable methods compute exactly
/// these.
pub trait MarkdownWritable {
    /// The Markdown text of this element. `inner` says that the element is
    /// part of a larger block and must not end it with a blank line; `escape`
    /// and `line_prefix` are handed on to every text the element contains.
    spec fn rendered(
        &self,
        inner: bool,
        escape: Escaping,
        line_prefix: Option<Seq<u8>>,
    ) -> Seq<u8>;

    /// The longest run of `byte` in this element and the length of the run
    /// still open at its end, where `carry` is the length of a run that ends
    /// exactly where the element starts.
    spec fn max_streak(&self, byte: u8, carry: nat) -> (nat, nat);

    /// Whether `count_max_streak` can return the counts of that report: a
    /// `usize` has to hold them.
    spec fn streak_fits(&self, byte: u8, carry: nat) -> bool;

    /// Appends the element's Markdown text to `writer`.
    fn write_to(
        &self,
        writer: &mut Vec<u8>,
        inner: bool,
        escape: Escaping,
        line_prefix: Option<&[u8]>,
    )
        ensures
            final(writer)@ == old(writer)@ + self.rendered(
                inner,
                escape,
                line_prefix_view(line_prefix),
            ),
    ;

    /// Reports the longest run of `byte` in the element and the length of the
    /// run that is still open at its end.
    fn count_max_streak(&self, byte: u8, carry: usize) -> (streak: (usize, usize))
        requires
            self.streak_fits(byte, carry as nat),
        ensures
            streak.0 == self.max_streak(byte, carry as nat).0,
            streak.1 == self.max_streak(byte, carry as nat).1,
    ;
}

/// Rendering is deterministic: two calls of `write_to` on one element in one
/// context, on buffers that hold the same bytes, leave the same bytes.
pub proof fn lemma_write_to_is_deterministic<W: MarkdownWritable + ?Sized>(
    element: &W,
    inner: bool,
    escape: Escaping,
    line_prefix: Option<Seq<u8>>,
    before: Seq<u8>,
    first: Seq<u8>,
    second: Seq<u8>,
)
    requires
        first == before + element.rendered(inner, escape, line_prefix),
        second == before + element.rendered(inner, escape, line_prefix),
    ensures
        first == second,
{
}

} // verus!
