//! The lines of a pipe table, as a function of what its cells are rendered
//! as.
//!
//! A row is an opening pipe, every cell between two spaces and closed by a
//! pipe, and a line feed. The separator row holds one cell of six dashes for
//! each column, whatever the cells of the other rows contain.

use crate::markdown::bytes::{
    lemma_occurrences_concat, lemma_occurrences_none, lemma_occurrences_none_in_all, occurrences,
    DASH, NEWLINE, PIPE, SPACE,
};
use vstd::prelude::*;

verus! {

/// A cell of a row: a space, the cell's content, a space and the closing
/// pipe.
pub open spec fn framed_cell(content: Seq<u8>) -> Seq<u8> {
    seq![SPACE] + content + seq![SPACE, PIPE]
}

/// The framed cells of a row, one after the other.
pub open spec fn framed_cells(cells: Seq<Seq<u8>>) -> Seq<u8> {
    Seq::new(cells.len(), |j: int| framed_cell(cells[j])).flatten()
}

/// A header or data row: the opening pipe, the framed cells and a line feed.
pub open spec fn row_line(cells: Seq<Seq<u8>>) -> Seq<u8> {
    seq![PIPE] + framed_cells(cells) + seq![NEWLINE]
}

/// A cell of the separator row: six dashes and the closing pipe.
pub open spec fn dash_cell() -> Seq<u8> {
    seq![DASH, DASH, DASH, DASH, DASH, DASH, PIPE]
}

/// The dash cells of a separator row for `columns` columns.
pub open spec fn dash_cells(columns: nat) -> Seq<u8> {
    Seq::new(columns, |j: int| dash_cell()).flatten()
}

/// The separator row: the opening pipe, one dash cell for each column and a
/// line feed.
pub open spec fn separator_line(columns: nat) -> Seq<u8> {
    seq![PIPE] + dash_cells(columns) + seq![NEWLINE]
}

/// The data rows of a table, in order.
pub open spec fn row_lines(rows: Seq<Seq<Seq<u8>>>) -> Seq<u8> {
    Seq::new(rows.len(), |i: int| row_line(rows[i])).flatten()
}

/// The text of a table: the header row, the separator row and the data rows,
/// followed by one blank line unless the table is part of a larger block.
pub open spec fn table_text(
    headers: Seq<Seq<u8>>,
    rows: Seq<Seq<Seq<u8>>>,
    inner: bool,
) -> Seq<u8> {
    if inner {
        row_line(headers) + separator_line(headers.len()) + row_lines(rows)
    } else {
        row_line(headers) + separator_line(headers.len()) + row_lines(rows) + seq![NEWLINE]
    }
}

/// A row with one more cell: the new cell is framed after the others.
pub proof fn lemma_framed_cells_push(cells: Seq<Seq<u8>>, content: Seq<u8>)
    ensures
        framed_cells(cells.push(content)) == framed_cells(cells) + framed_cell(content),
{
    let framed = Seq::new(cells.len(), |j: int| framed_cell(cells[j]));
    let longer = Seq::new(cells.push(content).len(), |j: int| framed_cell(cells.push(content)[j]));
    assert(longer == framed.push(framed_cell(content)));
    framed.lemma_flatten_push(framed_cell(content));
}

/// A separator row with one more column has one more dash cell.
pub proof fn lemma_dash_cells_push(columns: nat)
    ensures
        dash_cells(columns + 1) == dash_cells(columns) + dash_cell(),
{
    let cells = Seq::new(columns, |j: int| dash_cell());
    let longer = Seq::new(columns + 1, |j: int| dash_cell());
    assert(longer == cells.push(dash_cell()));
    cells.lemma_flatten_push(dash_cell());
}

/// A table with one more row: the new row's line follows the others.
pub proof fn lemma_row_lines_push(rows: Seq<Seq<Seq<u8>>>, cells: Seq<Seq<u8>>)
    ensures
        row_lines(rows.push(cells)) == row_lines(rows) + row_line(cells),
{
    let lines = Seq::new(rows.len(), |i: int| row_line(rows[i]));
    let longer = Seq::new(rows.push(cells).len(), |i: int| row_line(rows.push(cells)[i]));
    assert(longer == lines.push(row_line(cells)));
    lines.lemma_flatten_push(row_line(cells));
}

/// The framed cells of a row hold one pipe for each cell, besides the pipes
/// inside the cells' contents.
pub proof fn lemma_framed_cells_pipes(cells: Seq<Seq<u8>>)
    ensures
        occurrences(framed_cells(cells), PIPE) == cells.len() + occurrences(cells.flatten(), PIPE),
    decreases cells.len(),
{
    if cells.len() > 0 {
        let front = cells.drop_last();
        let content = cells.last();
        assert(front.push(content) == cells);
        lemma_framed_cells_pipes(front);
        lemma_framed_cells_push(front, content);
        front.lemma_flatten_push(content);
        lemma_occurrences_concat(framed_cells(front), framed_cell(content), PIPE);
        lemma_occurrences_concat(front.flatten(), content, PIPE);
        lemma_occurrences_concat(seq![SPACE] + content, seq![SPACE, PIPE], PIPE);
        lemma_occurrences_concat(seq![SPACE], content, PIPE);
        lemma_occurrences_concat(seq![SPACE], seq![PIPE], PIPE);
        lemma_occurrences_none(seq![SPACE], PIPE);
        assert(seq![SPACE, PIPE] == seq![SPACE] + seq![PIPE]);
        assert(occurrences(seq![PIPE], PIPE) == 1) by {
            reveal_with_fuel(occurrences, 2);
        }
    }
}

/// A row of `k` cells holds `k + 1` pipes, besides the pipes inside the
/// cells' contents.
pub proof fn lemma_row_line_pipes(cells: Seq<Seq<u8>>)
    ensures
        occurrences(row_line(cells), PIPE) == cells.len() + 1 + occurrences(cells.flatten(), PIPE),
{
    lemma_framed_cells_pipes(cells);
    lemma_occurrences_concat(seq![PIPE] + framed_cells(cells), seq![NEWLINE], PIPE);
    lemma_occurrences_concat(seq![PIPE], framed_cells(cells), PIPE);
    lemma_occurrences_none(seq![NEWLINE], PIPE);
    assert(occurrences(seq![PIPE], PIPE) == 1) by {
        reveal_with_fuel(occurrences, 2);
    }
}

/// A row of `k` cells none of which holds a pipe holds exactly `k + 1`
/// pipes.
pub proof fn lemma_row_line_pipes_without(cells: Seq<Seq<u8>>)
    requires
        forall|j: int| 0 <= j < cells.len() ==> occurrences(#[trigger] cells[j], PIPE) == 0,
    ensures
        occurrences(row_line(cells), PIPE) == cells.len() + 1,
{
    lemma_row_line_pipes(cells);
    lemma_occurrences_none_in_all(cells, PIPE);
}

/// The dash cells of `columns` columns are `7 * columns` bytes, of which
/// every seventh is a pipe and all others are dashes.
pub proof fn lemma_dash_cells(columns: nat)
    ensures
        dash_cells(columns).len() == 7 * columns,
        forall|i: int|
            0 <= i < 7 * columns ==> #[trigger] dash_cells(columns)[i] == if i % 7 == 6 {
                PIPE
            } else {
                DASH
            },
        occurrences(dash_cells(columns), PIPE) == columns,
    decreases columns,
{
    if columns > 0 {
        let fewer = (columns - 1) as nat;
        let dashes = seq![DASH, DASH, DASH, DASH, DASH, DASH];
        lemma_dash_cells(fewer);
        lemma_dash_cells_push(fewer);
        lemma_occurrences_concat(dash_cells(fewer), dash_cell(), PIPE);
        assert(occurrences(dash_cell(), PIPE) == 1) by {
            assert(dash_cell() == dashes + seq![PIPE]);
            lemma_occurrences_concat(dashes, seq![PIPE], PIPE);
            lemma_occurrences_none(dashes, PIPE);
            reveal_with_fuel(occurrences, 2);
        }
    }
}

/// The separator row of `columns` columns is a pipe, then `columns` times six
/// dashes and a pipe, then a line feed. It holds `columns + 1` pipes, and
/// nothing in it depends on a cell.
pub proof fn lemma_separator_line(columns: nat)
    ensures
        separator_line(columns).len() == 7 * columns + 2,
        separator_line(columns).first() == PIPE,
        separator_line(columns).last() == NEWLINE,
        forall|i: int|
            1 <= i <= 7 * columns ==> #[trigger] separator_line(columns)[i] == if i % 7 == 0 {
                PIPE
            } else {
                DASH
            },
        occurrences(separator_line(columns), PIPE) == columns + 1,
{
    lemma_dash_cells(columns);
    lemma_occurrences_concat(seq![PIPE] + dash_cells(columns), seq![NEWLINE], PIPE);
    lemma_occurrences_concat(seq![PIPE], dash_cells(columns), PIPE);
    lemma_occurrences_none(seq![NEWLINE], PIPE);
    assert(occurrences(seq![PIPE], PIPE) == 1) by {
        reveal_with_fuel(occurrences, 2);
    }
}

/// Appends the separator row of a table with `columns` columns to `writer`.
pub fn write_separator_line(writer: &mut Vec<u8>, columns: usize)
    ensures
        final(writer)@ == old(writer)@ + separator_line(columns as nat),
{
    writer.push(PIPE);
    let mut j: usize = 0;
    while j < columns
        invariant
            j <= columns,
            writer@ == old(writer)@ + seq![PIPE] + dash_cells(j as nat),
        decreases columns - j,
    {
        proof {
            lemma_dash_cells_push(j as nat);
        }
        writer.push(DASH);
        writer.push(DASH);
        writer.push(DASH);
        writer.push(DASH);
        writer.push(DASH);
        writer.push(DASH);
        writer.push(PIPE);
        j += 1;
    }
    writer.push(NEWLINE);
}

} // verus!
