//! Plain text as a Markdown element.
//!
//! A text leaf is rendered byte by byte: a byte that the escaping policy
//! selects gets a backslash in front of it, and every line feed is followed
//! by the line prefix. A leaf that is not part of a larger block ends with a
//! blank line. Its streak report is that of its bytes as they stand, before
//! any escaping.

use crate::markdown::bytes::{
    lemma_occurrences_concat, lemma_occurrences_none, occurrences, BACKSLASH, NEWLINE,
};
use crate::markdown::streak;
use crate::markdown::{line_prefix_view, Escaping, MarkdownWritable};
use vstd::prelude::*;
use vstd::utf8::encode_utf8;

verus! {

/// The bytes that follow each line feed of a rendered text.
pub open spec fn prefix_bytes(line_prefix: Option<Seq<u8>>) -> Seq<u8> {
    match line_prefix {
        Some(prefix) => prefix,
        None => Seq::empty(),
    }
}

/// What one byte of a text is rendered as: an escaped byte gets a backslash
/// in front of it, a line feed is followed by the line prefix, and any other
/// byte stands for itself.
pub open spec fn rendered_byte(
    byte: u8,
    escape: Escaping,
    line_prefix: Option<Seq<u8>>,
) -> Seq<u8> {
    if escape.escapes(byte) {
        seq![BACKSLASH, byte]
    } else if byte == NEWLINE {
        seq![NEWLINE] + prefix_bytes(line_prefix)
    } else {
        seq![byte]
    }
}

/// The bytes of a text, each rendered by `rendered_byte`, in order.
pub open spec fn rendered_bytes(
    text: Seq<u8>,
    escape: Escaping,
    line_prefix: Option<Seq<u8>>,
) -> Seq<u8> {
    Seq::new(text.len(), |i: int| rendered_byte(text[i], escape, line_prefix)).flatten()
}

/// The blank line that ends a block of text: two line feeds, each followed by
/// the line prefix.
pub open spec fn block_end(line_prefix: Option<Seq<u8>>) -> Seq<u8> {
    seq![NEWLINE] + prefix_bytes(line_prefix) + seq![NEWLINE] + prefix_bytes(line_prefix)
}

/// The Markdown text of a text leaf: its rendered bytes, and after them the
/// end of the block unless the leaf is part of a larger one.
pub open spec fn rendered_text(
    text: Seq<u8>,
    inner: bool,
    escape: Escaping,
    line_prefix: Option<Seq<u8>>,
) -> Seq<u8> {
    if inner {
        rendered_bytes(text, escape, line_prefix)
    } else {
        rendered_bytes(text, escape, line_prefix) + block_end(line_prefix)
    }
}

/// Rendering a text with one more byte appends what that byte is rendered as.
pub proof fn lemma_rendered_bytes_push(
    text: Seq<u8>,
    byte: u8,
    escape: Escaping,
    line_prefix: Option<Seq<u8>>,
)
    ensures
        rendered_bytes(text.push(byte), escape, line_prefix) == rendered_bytes(
            text,
            escape,
            line_prefix,
        ) + rendered_byte(byte, escape, line_prefix),
{
    let pieces = Seq::new(text.len(), |i: int| rendered_byte(text[i], escape, line_prefix));
    let longer = Seq::new(
        text.push(byte).len(),
        |i: int| rendered_byte(text.push(byte)[i], escape, line_prefix),
    );
    assert(longer == pieces.push(rendered_byte(byte, escape, line_prefix)));
    pieces.lemma_flatten_push(rendered_byte(byte, escape, line_prefix));
}

/// A text leaf that is not `inner` ends its block; nothing else differs.
pub proof fn lemma_outer_text_ends_block(
    text: Seq<u8>,
    escape: Escaping,
    line_prefix: Option<Seq<u8>>,
)
    ensures
        rendered_text(text, false, escape, line_prefix) == rendered_text(
            text,
            true,
            escape,
            line_prefix,
        ) + block_end(line_prefix),
{
}

/// Inside a code span and without a line prefix a text is rendered as it
/// stands.
pub proof fn lemma_inline_code_is_verbatim(text: Seq<u8>)
    ensures
        rendered_text(text, true, Escaping::InlineCode, None) == text,
    decreases text.len(),
{
    if text.len() > 0 {
        let front = text.drop_last();
        lemma_inline_code_is_verbatim(front);
        lemma_rendered_bytes_push(front, text.last(), Escaping::InlineCode, None);
        assert(front.push(text.last()) == text);
    }
}

/// A byte other than backslash and line feed that occurs neither in a text
/// nor in the line prefix does not occur in the rendered bytes of the text.
pub proof fn lemma_rendered_bytes_without(
    text: Seq<u8>,
    byte: u8,
    escape: Escaping,
    line_prefix: Option<Seq<u8>>,
)
    requires
        byte != BACKSLASH,
        byte != NEWLINE,
        occurrences(text, byte) == 0,
        occurrences(prefix_bytes(line_prefix), byte) == 0,
    ensures
        occurrences(rendered_bytes(text, escape, line_prefix), byte) == 0,
    decreases text.len(),
{
    if text.len() > 0 {
        let front = text.drop_last();
        let last = text.last();
        let piece = rendered_byte(last, escape, line_prefix);
        assert(front.push(last) == text);
        lemma_rendered_bytes_without(front, byte, escape, line_prefix);
        lemma_rendered_bytes_push(front, last, escape, line_prefix);
        lemma_occurrences_concat(rendered_bytes(front, escape, line_prefix), piece, byte);
        assert(occurrences(piece, byte) == 0) by {
            if !escape.escapes(last) && last == NEWLINE {
                lemma_occurrences_concat(seq![NEWLINE], prefix_bytes(line_prefix), byte);
                lemma_occurrences_none(seq![NEWLINE], byte);
            } else {
                lemma_occurrences_none(piece, byte);
            }
        }
    }
}

/// The same of the whole rendered text, whether it ends its block or not.
pub proof fn lemma_rendered_text_without(
    text: Seq<u8>,
    byte: u8,
    inner: bool,
    escape: Escaping,
    line_prefix: Option<Seq<u8>>,
)
    requires
        byte != BACKSLASH,
        byte != NEWLINE,
        occurrences(text, byte) == 0,
        occurrences(prefix_bytes(line_prefix), byte) == 0,
    ensures
        occurrences(rendered_text(text, inner, escape, line_prefix), byte) == 0,
{
    let line_break = seq![NEWLINE] + prefix_bytes(line_prefix);
    lemma_rendered_bytes_without(text, byte, escape, line_prefix);
    if !inner {
        lemma_occurrences_none(seq![NEWLINE], byte);
        lemma_occurrences_concat(seq![NEWLINE], prefix_bytes(line_prefix), byte);
        lemma_occurrences_concat(line_break, line_break, byte);
        assert(block_end(line_prefix) == line_break + line_break);
        lemma_occurrences_concat(
            rendered_bytes(text, escape, line_prefix),
            block_end(line_prefix),
            byte,
        );
    }
}

/// Appends `bytes` to `writer`.
fn write_bytes(writer: &mut Vec<u8>, bytes: &[u8])
    ensures
        final(writer)@ == old(writer)@ + bytes@,
{
    let mut i: usize = 0;
    while i < bytes.len()
        invariant
            i <= bytes.len(),
            writer@ == old(writer)@ + bytes@.take(i as int),
        decreases bytes.len() - i,
    {
        writer.push(bytes[i]);
        i += 1;
    }
}

/// Appends a line feed and, after it, the line prefix.
fn write_line_break(writer: &mut Vec<u8>, line_prefix: Option<&[u8]>)
    ensures
        final(writer)@ == old(writer)@ + seq![NEWLINE] + prefix_bytes(
            line_prefix_view(line_prefix),
        ),
{
    writer.push(NEWLINE);
    match line_prefix {
        Some(prefix) => write_bytes(writer, prefix),
        None => {},
    }
}

/// Appends the Markdown text of the text leaf `text` to `writer`.
pub fn write_text(
    text: &[u8],
    writer: &mut Vec<u8>,
    inner: bool,
    escape: Escaping,
    line_prefix: Option<&[u8]>,
)
    ensures
        final(writer)@ == old(writer)@ + rendered_text(
            text@,
            inner,
            escape,
            line_prefix_view(line_prefix),
        ),
{
    let ghost prefix = line_prefix_view(line_prefix);
    let mut i: usize = 0;
    while i < text.len()
        invariant
            i <= text.len(),
            prefix == line_prefix_view(line_prefix),
            writer@ == old(writer)@ + rendered_bytes(text@.take(i as int), escape, prefix),
        decreases text.len() - i,
    {
        let byte = text[i];
        proof {
            lemma_rendered_bytes_push(text@.take(i as int), byte, escape, prefix);
            assert(text@.take(i as int).push(byte) == text@.take(i + 1));
        }
        if escape.must_escape(byte) {
            writer.push(BACKSLASH);
            writer.push(byte);
        } else if byte == NEWLINE {
            write_line_break(writer, line_prefix);
        } else {
            writer.push(byte);
        }
        i += 1;
    }
    assert(text@.take(i as int) == text@);
    if !inner {
        write_line_break(writer, line_prefix);
        write_line_break(writer, line_prefix);
    }
}

impl<'s> MarkdownWritable for &'s str {
    /// A string slice is rendered as the text leaf of its UTF-8 bytes.
    open spec fn rendered(
        &self,
        inner: bool,
        escape: Escaping,
        line_prefix: Option<Seq<u8>>,
    ) -> Seq<u8> {
        rendered_text(encode_utf8(self@), inner, escape, line_prefix)
    }

    /// The streak report of the string's UTF-8 bytes.
    open spec fn max_streak(&self, byte: u8, carry: nat) -> (nat, nat) {
        streak::max_streak(encode_utf8(self@), byte, carry)
    }

    /// With nothing carried in the counts fit, as the string is held in
    /// memory. With a carry, the longest streak has to fit.
    open spec fn streak_fits(&self, byte: u8, carry: nat) -> bool {
        carry == 0 || streak::max_streak(encode_utf8(self@), byte, carry).0 <= usize::MAX
    }

    fn write_to(
        &self,
        writer: &mut Vec<u8>,
        inner: bool,
        escape: Escaping,
        line_prefix: Option<&[u8]>,
    ) {
        write_text(self.as_bytes(), writer, inner, escape, line_prefix);
        assert(self.rendered(inner, escape, line_prefix_view(line_prefix)) == rendered_text(
            encode_utf8(self@),
            inner,
            escape,
            line_prefix_view(line_prefix),
        ));
    }

    fn count_max_streak(&self, byte: u8, carry: usize) -> (streak: (usize, usize)) {
        let text = self.as_bytes();
        proof {
            streak::lemma_max_streak_bounds(text@, byte, carry as nat);
            assert(text@.len() == vstd::slice::spec_slice_len(text));
        }
        streak::count_max_streak(text, byte, carry)
    }
}

impl MarkdownWritable for String {
    /// A string is rendered as the text leaf of its UTF-8 bytes.
    open spec fn rendered(
        &self,
        inner: bool,
        escape: Escaping,
        line_prefix: Option<Seq<u8>>,
    ) -> Seq<u8> {
        rendered_text(encode_utf8(self@), inner, escape, line_prefix)
    }

    /// The streak report of the string's UTF-8 bytes.
    open spec fn max_streak(&self, byte: u8, carry: nat) -> (nat, nat) {
        streak::max_streak(encode_utf8(self@), byte, carry)
    }

    /// With nothing carried in the counts fit, as the string is held in
    /// memory. With a carry, the longest streak has to fit.
    open spec fn streak_fits(&self, byte: u8, carry: nat) -> bool {
        carry == 0 || streak::max_streak(encode_utf8(self@), byte, carry).0 <= usize::MAX
    }

    fn write_to(
        &self,
        writer: &mut Vec<u8>,
        inner: bool,
        escape: Escaping,
        line_prefix: Option<&[u8]>,
    ) {
        self.as_str().write_to(writer, inner, escape, line_prefix)
    }

    fn count_max_streak(&self, byte: u8, carry: usize) -> (streak: (usize, usize)) {
        self.as_str().count_max_streak(byte, carry)
    }
}

} // verus!
