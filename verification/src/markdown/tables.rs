//! A Markdown pipe table: a fixed list of column headers and rows of cells.
//!
//! The column count is that of the headers and never changes. Rows are only
//! ever added at the end, and each has one cell for each column.

use crate::markdown::bytes::{occurrences, NEWLINE, PIPE, SPACE};
use crate::markdown::layout::{
    framed_cells, lemma_framed_cells_push, lemma_row_line_pipes, lemma_row_line_pipes_without,
    lemma_row_lines_push,
    lemma_separator_line, row_line, row_lines, separator_line, table_text, write_separator_line,
};
use crate::markdown::streak;
use crate::markdown::text::rendered_text;
use crate::markdown::{line_prefix_view, Escaping, MarkdownWritable};
use vstd::prelude::*;
use vstd::utf8::encode_utf8;

verus! {

/// A row was offered with another number of cells than the table has
/// columns.
#[derive(Clone, Copy, Debug, PartialEq, Eq, Structural)]
pub struct RowLengthMismatch {
    /// The number of cells in the row that was offered.
    pub supplied: usize,
    /// The number of columns of the table.
    pub expected: usize,
}

/// A cell of a table: some Markdown element, owned by its row.
pub struct TableCell<'a> {
    content: Box<dyn MarkdownWritable + 'a>,
}

impl<'a> TableCell<'a> {
    /// With nothing carried in, the streak of a cell can be counted.
    #[verifier::type_invariant]
    spec fn countable(&self) -> bool {
        forall|byte: u8| self.content.streak_fits(byte, 0)
    }

    /// The Markdown text of the cell's content.
    pub closed spec fn rendered(
        &self,
        inner: bool,
        escape: Escaping,
        line_prefix: Option<Seq<u8>>,
    ) -> Seq<u8> {
        self.content.rendered(inner, escape, line_prefix)
    }

    /// The streak report of the cell's content.
    pub closed spec fn max_streak(&self, byte: u8, carry: nat) -> (nat, nat) {
        self.content.max_streak(byte, carry)
    }

    /// Whether the cell renders and counts as the text leaf `text` does.
    pub open spec fn holds_text(&self, text: Seq<char>) -> bool {
        &&& forall|inner: bool, escape: Escaping, line_prefix: Option<Seq<u8>>|
            #![trigger self.rendered(inner, escape, line_prefix)]
            self.rendered(inner, escape, line_prefix) == rendered_text(
                encode_utf8(text),
                inner,
                escape,
                line_prefix,
            )
        &&& forall|byte: u8, carry: nat|
            #![trigger self.max_streak(byte, carry)]
            self.max_streak(byte, carry) == streak::max_streak(encode_utf8(text), byte, carry)
    }

    /// Wraps a string as a cell.
    fn from_string(text: String) -> (cell: Self)
        ensures
            cell.holds_text(text@),
    {
        TableCell { content: Box::new(text) }
    }
}

/// A simple Markdown table that preserves column order.
pub struct MarkdownTable<'a> {
    headers: Vec<String>,
    rows: Vec<Vec<TableCell<'a>>>,
}

impl<'a> MarkdownTable<'a> {
    /// The column headers, in order.
    pub closed spec fn headers(&self) -> Seq<String> {
        self.headers@
    }

    /// The rows in the order in which they were added, each with its cells
    /// in column order.
    pub closed spec fn rows(&self) -> Seq<Seq<TableCell<'a>>> {
        Seq::new(self.rows@.len(), |i: int| self.rows@[i]@)
    }

    /// Every row has one cell for each column.
    pub open spec fn wf(&self) -> bool {
        forall|i: int|
            0 <= i < self.rows().len() ==> (#[trigger] self.rows()[i]).len()
                == self.headers().len()
    }

    /// What the headers are rendered as, in column order.
    pub open spec fn header_cells(
        &self,
        escape: Escaping,
        line_prefix: Option<Seq<u8>>,
    ) -> Seq<Seq<u8>> {
        Seq::new(
            self.headers().len(),
            |j: int| self.headers()[j].rendered(true, escape, line_prefix),
        )
    }

    /// What the cells of row `i` are rendered as, in column order.
    pub open spec fn row_cells(
        &self,
        i: int,
        escape: Escaping,
        line_prefix: Option<Seq<u8>>,
    ) -> Seq<Seq<u8>> {
        Seq::new(
            self.rows()[i].len(),
            |j: int| self.rows()[i][j].rendered(true, escape, line_prefix),
        )
    }

    /// What the cells of all rows are rendered as, row by row.
    pub open spec fn body_cells(
        &self,
        escape: Escaping,
        line_prefix: Option<Seq<u8>>,
    ) -> Seq<Seq<Seq<u8>>> {
        Seq::new(self.rows().len(), |i: int| self.row_cells(i, escape, line_prefix))
    }

    /// The longest run of `byte` in each header, with nothing carried in.
    pub open spec fn header_streaks(&self, byte: u8) -> Seq<nat> {
        Seq::new(self.headers().len(), |j: int| self.headers()[j].max_streak(byte, 0).0)
    }

    /// The longest run of `byte` in each cell of row `i`, with nothing
    /// carried in.
    pub open spec fn row_streaks(&self, i: int, byte: u8) -> Seq<nat> {
        Seq::new(self.rows()[i].len(), |j: int| self.rows()[i][j].max_streak(byte, 0).0)
    }

    /// The longest run of `byte` in each cell of the table, row by row.
    pub open spec fn cell_streaks(&self, byte: u8) -> Seq<nat> {
        Seq::new(self.rows().len(), |i: int| self.row_streaks(i, byte)).flatten()
    }

    /// Whether neither a header nor a cell holds `byte` once it is rendered.
    pub open spec fn cells_without(
        &self,
        byte: u8,
        escape: Escaping,
        line_prefix: Option<Seq<u8>>,
    ) -> bool {
        &&& forall|j: int|
            0 <= j < self.headers().len() ==> occurrences(
                #[trigger] self.header_cells(escape, line_prefix)[j],
                byte,
            ) == 0
        &&& forall|i: int, j: int|
            0 <= i < self.rows().len() && 0 <= j < self.rows()[i].len() ==> occurrences(
                #[trigger] self.row_cells(i, escape, line_prefix)[j],
                byte,
            ) == 0
    }

    /// Create a new table with specified headers
    pub fn new(headers: Vec<String>) -> (table: Self)
        ensures
            table.headers() == headers@,
            table.rows() == Seq::<Seq<TableCell<'a>>>::empty(),
            table.wf(),
    {
        MarkdownTable { headers, rows: Vec::new() }
    }

    /// Adds a row of text cells, one for each column. A row of any other
    /// length is turned down, and the table stays as it was.
    pub fn add_string_row(&mut self, cells: Vec<String>) -> (added: Result<(), RowLengthMismatch>)
        ensures
            final(self).headers() == old(self).headers(),
            old(self).wf() ==> final(self).wf(),
            added is Ok <==> cells@.len() == old(self).headers().len(),
            added is Ok ==> final(self).rows().len() == old(self).rows().len() + 1,
            added is Ok ==> final(self).rows().drop_last() == old(self).rows(),
            added is Ok ==> final(self).rows().last().len() == cells@.len(),
            added is Ok ==> forall|j: int|
                0 <= j < cells@.len() ==> (#[trigger] final(self).rows().last()[j]).holds_text(
                    cells@[j]@,
                ),
            added is Err ==> added->Err_0.supplied == cells@.len(),
            added is Err ==> added->Err_0.expected == old(self).headers().len(),
            added is Err ==> *final(self) == *old(self),
    {
        if cells.len() != self.headers.len() {
            return Err(RowLengthMismatch { supplied: cells.len(), expected: self.headers.len() });
        }
        // Convert each String into a cell

        let ghost texts = cells@;
        let mut converted_row: Vec<TableCell<'a>> = Vec::new();
        for text in iter: cells
            invariant
                iter.seq() == texts,
                converted_row@.len() == iter.index(),
                forall|j: int|
                    0 <= j < converted_row@.len() ==> (#[trigger] converted_row@[j]).holds_text(
                        texts[j]@,
                    ),
        {
            converted_row.push(TableCell::from_string(text));
        }

        self.rows.push(converted_row);
        proof {
            if old(self).wf() {
                assert forall|i: int| 0 <= i < self.rows().len() implies (
                #[trigger] self.rows()[i]).len() == self.headers().len() by {
                    if i < old(self).rows().len() {
                        assert(self.rows()[i] == old(self).rows()[i]);
                    }
                }
            }
        }
        Ok(())
    }

    /// In a table of `k` columns the header row, the separator row and every
    /// data row hold `k + 1` pipes each, besides the pipes that the rendered
    /// headers and cells hold themselves.
    pub proof fn lemma_pipes_in_rows(&self, escape: Escaping, line_prefix: Option<Seq<u8>>)
        requires
            self.wf(),
        ensures
            occurrences(row_line(self.header_cells(escape, line_prefix)), PIPE)
                == self.headers().len() + 1 + occurrences(
                self.header_cells(escape, line_prefix).flatten(),
                PIPE,
            ),
            occurrences(separator_line(self.headers().len()), PIPE) == self.headers().len() + 1,
            forall|i: int|
                0 <= i < self.rows().len() ==> occurrences(
                    #[trigger] row_line(self.row_cells(i, escape, line_prefix)),
                    PIPE,
                ) == self.headers().len() + 1 + occurrences(
                    self.row_cells(i, escape, line_prefix).flatten(),
                    PIPE,
                ),
    {
        lemma_row_line_pipes(self.header_cells(escape, line_prefix));
        lemma_separator_line(self.headers().len());
        assert forall|i: int| 0 <= i < self.rows().len() implies occurrences(
            #[trigger] row_line(self.row_cells(i, escape, line_prefix)),
            PIPE,
        ) == self.headers().len() + 1 + occurrences(
            self.row_cells(i, escape, line_prefix).flatten(),
            PIPE,
        ) by {
            lemma_row_line_pipes(self.row_cells(i, escape, line_prefix));
        }
    }

    /// In a table of `k` columns whose rendered headers and cells hold no
    /// pipe, every row that is written holds exactly `k + 1` pipes: the
    /// header row, the separator row and each data row.
    pub proof fn lemma_rows_hold_one_pipe_more_than_columns(
        &self,
        escape: Escaping,
        line_prefix: Option<Seq<u8>>,
    )
        requires
            self.wf(),
            self.cells_without(PIPE, escape, line_prefix),
        ensures
            occurrences(row_line(self.header_cells(escape, line_prefix)), PIPE)
                == self.headers().len() + 1,
            occurrences(separator_line(self.headers().len()), PIPE) == self.headers().len() + 1,
            forall|i: int|
                0 <= i < self.rows().len() ==> occurrences(
                    #[trigger] row_line(self.row_cells(i, escape, line_prefix)),
                    PIPE,
                ) == self.headers().len() + 1,
    {
        lemma_row_line_pipes_without(self.header_cells(escape, line_prefix));
        lemma_separator_line(self.headers().len());
        assert forall|i: int| 0 <= i < self.rows().len() implies occurrences(
            #[trigger] row_line(self.row_cells(i, escape, line_prefix)),
            PIPE,
        ) == self.headers().len() + 1 by {
            lemma_row_line_pipes_without(self.row_cells(i, escape, line_prefix));
        }
    }

    /// The row that follows the header row is the separator row of `k`
    /// columns: an opening pipe, `k` times six dashes and a pipe, and a line
    /// feed, whatever the headers and cells hold and however the table is
    /// rendered.
    pub proof fn lemma_separator_follows_header(
        &self,
        inner: bool,
        escape: Escaping,
        line_prefix: Option<Seq<u8>>,
    )
        ensures
            self.rendered(inner, escape, line_prefix).subrange(
                row_line(self.header_cells(escape, line_prefix)).len() as int,
                (row_line(self.header_cells(escape, line_prefix)).len() + 7 * self.headers().len()
                    + 2) as int,
            ) == separator_line(self.headers().len()),
    {
        lemma_separator_line(self.headers().len());
    }

    /// A table that is not `inner` is followed by exactly one blank line:
    /// its text is that of the `inner` table and one more line feed.
    pub proof fn lemma_outer_adds_one_blank_line(
        &self,
        escape: Escaping,
        line_prefix: Option<Seq<u8>>,
    )
        ensures
            self.rendered(false, escape, line_prefix) == self.rendered(true, escape, line_prefix)
                + seq![NEWLINE],
    {
    }

    /// A table without rows is rendered as its header row and its separator
    /// row.
    pub proof fn lemma_rendered_without_rows(
        &self,
        escape: Escaping,
        line_prefix: Option<Seq<u8>>,
    )
        requires
            self.rows().len() == 0,
        ensures
            self.rendered(true, escape, line_prefix) == row_line(
                self.header_cells(escape, line_prefix),
            ) + separator_line(self.headers().len()),
    {
    }

    /// The streak of a table is the longest streak of a single header or
    /// cell, each counted with nothing carried in: no run is carried from
    /// one cell into the next, and the carry handed to the table plays no
    /// part.
    pub proof fn lemma_max_streak_is_longest_cell(&self, byte: u8, carry: nat)
        ensures
            self.max_streak(byte, carry) == self.max_streak(byte, 0),
            self.max_streak(byte, carry).1 == 0,
            forall|j: int|
                0 <= j < self.headers().len() ==> (#[trigger] self.headers()[j]).max_streak(
                    byte,
                    0,
                ).0 <= self.max_streak(byte, carry).0,
            forall|i: int, j: int|
                0 <= i < self.rows().len() && 0 <= j < self.rows()[i].len() ==> (
                #[trigger] self.rows()[i][j]).max_streak(byte, 0).0 <= self.max_streak(
                    byte,
                    carry,
                ).0,
            self.max_streak(byte, carry).0 == 0 || (exists|j: int|
                0 <= j < self.headers().len() && (#[trigger] self.headers()[j]).max_streak(
                    byte,
                    0,
                ).0 == self.max_streak(byte, carry).0) || (exists|i: int, j: int|
                0 <= i < self.rows().len() && 0 <= j < self.rows()[i].len() && (
                #[trigger] self.rows()[i][j]).max_streak(byte, 0).0 == self.max_streak(
                    byte,
                    carry,
                ).0),
    {
        let in_headers = self.header_streaks(byte);
        let in_rows = Seq::new(self.rows().len(), |i: int| self.row_streaks(i, byte));
        let longest = self.max_streak(byte, carry).0;
        streak::lemma_largest_concat(in_headers, in_rows.flatten());
        assert forall|j: int| 0 <= j < self.headers().len() implies (
        #[trigger] self.headers()[j]).max_streak(byte, 0).0 <= longest by {
            streak::lemma_largest_bounds(in_headers, j);
        }
        assert forall|i: int, j: int|
            0 <= i < self.rows().len() && 0 <= j < self.rows()[i].len() implies (
        #[trigger] self.rows()[i][j]).max_streak(byte, 0).0 <= longest by {
            streak::lemma_largest_flatten_bounds(in_rows, i, j);
        }
        if longest > 0 {
            if streak::largest(in_rows.flatten()) > streak::largest(in_headers) {
                let at = streak::lemma_largest_flatten_attained(in_rows);
                assert(self.rows()[at.0][at.1].max_streak(byte, 0).0 == longest);
            } else {
                let at = streak::lemma_largest_attained(in_headers);
                assert(self.headers()[at].max_streak(byte, 0).0 == longest);
            }
        }
    }
}

impl<'a> MarkdownWritable for MarkdownTable<'a> {
    /// The header row, the separator row and the data rows in the order in
    /// which they were added, with every header and cell rendered as `inner`
    /// under the table's own policy and line prefix; then one blank line,
    /// unless the table is `inner` itself. The line prefix is not put in
    /// front of the table's own lines.
    open spec fn rendered(
        &self,
        inner: bool,
        escape: Escaping,
        line_prefix: Option<Seq<u8>>,
    ) -> Seq<u8> {
        table_text(
            self.header_cells(escape, line_prefix),
            self.body_cells(escape, line_prefix),
            inner,
        )
    }

    /// The longest run found in any single header or cell. Runs do not
    /// continue from one cell into the next, nor into the table or out of it:
    /// what is carried in is dropped, and nothing is carried out.
    open spec fn max_streak(&self, byte: u8, carry: nat) -> (nat, nat) {
        (streak::largest(self.header_streaks(byte) + self.cell_streaks(byte)), 0)
    }

    /// The streak of a table can always be counted.
    open spec fn streak_fits(&self, byte: u8, carry: nat) -> bool {
        true
    }

    fn write_to(
        &self,
        writer: &mut Vec<u8>,
        inner: bool,
        escape: Escaping,
        line_prefix: Option<&[u8]>,
    ) {
        let ghost prefix = line_prefix_view(line_prefix);
        let ghost header_cells = self.header_cells(escape, prefix);
        let ghost body = self.body_cells(escape, prefix);

        // Write header row
        writer.push(PIPE);
        let mut j: usize = 0;
        while j < self.headers.len()
            invariant
                j <= self.headers.len(),
                prefix == line_prefix_view(line_prefix),
                header_cells == self.header_cells(escape, prefix),
                writer@ == old(writer)@ + seq![PIPE] + framed_cells(header_cells.take(j as int)),
            decreases self.headers.len() - j,
        {
            proof {
                lemma_framed_cells_push(header_cells.take(j as int), header_cells[j as int]);
                assert(header_cells.take(j as int).push(header_cells[j as int])
                    == header_cells.take(j + 1));
            }
            writer.push(SPACE);
            self.headers[j].as_str().write_to(writer, true, escape, line_prefix);
            writer.push(SPACE);
            writer.push(PIPE);
            j += 1;
        }
        writer.push(NEWLINE);
        proof {
            assert(header_cells.take(j as int) == header_cells);
        }

        // Write separator row
        write_separator_line(writer, self.headers.len());

        // Write data rows
        let ghost head = old(writer)@ + row_line(header_cells) + separator_line(
            header_cells.len(),
        );
        let mut i: usize = 0;
        while i < self.rows.len()
            invariant
                i <= self.rows.len(),
                prefix == line_prefix_view(line_prefix),
                body == self.body_cells(escape, prefix),
                writer@ == head + row_lines(body.take(i as int)),
            decreases self.rows.len() - i,
        {
            let row = &self.rows[i];
            let ghost cells = body[i as int];
            let ghost above = writer@;
            writer.push(PIPE);
            let mut j: usize = 0;
            while j < row.len()
                invariant
                    j <= row.len(),
                    0 <= i < self.rows().len(),
                    prefix == line_prefix_view(line_prefix),
                    row@ == self.rows()[i as int],
                    cells == self.row_cells(i as int, escape, prefix),
                    writer@ == above + seq![PIPE] + framed_cells(cells.take(j as int)),
                decreases row.len() - j,
            {
                proof {
                    lemma_framed_cells_push(cells.take(j as int), cells[j as int]);
                    assert(cells.take(j as int).push(cells[j as int]) == cells.take(j + 1));
                }
                let cell = &row[j];
                writer.push(SPACE);
                cell.content.write_to(writer, true, escape, line_prefix);
                writer.push(SPACE);
                writer.push(PIPE);
                j += 1;
            }
            writer.push(NEWLINE);
            proof {
                assert(cells.take(j as int) == cells);
                lemma_row_lines_push(body.take(i as int), cells);
                assert(body.take(i as int).push(cells) == body.take(i + 1));
            }
            i += 1;
        }
        proof {
            assert(body.take(i as int) == body);
        }

        if !inner {
            writer.push(NEWLINE);
        }
    }

    fn count_max_streak(&self, byte: u8, carry: usize) -> (streak: (usize, usize)) {
        let ghost in_headers = self.header_streaks(byte);
        let ghost in_rows = Seq::new(self.rows().len(), |i: int| self.row_streaks(i, byte));
        let mut max_count: usize = 0;

        // Check headers
        let mut j: usize = 0;
        while j < self.headers.len()
            invariant
                j <= self.headers.len(),
                in_headers == self.header_streaks(byte),
                max_count == streak::largest(in_headers.take(j as int)),
            decreases self.headers.len() - j,
        {
            proof {
                assert(in_headers.take(j + 1).drop_last() == in_headers.take(j as int));
            }
            let (count, _) = self.headers[j].as_str().count_max_streak(byte, 0);
            if count > max_count {
                max_count = count;
            }
            j += 1;
        }
        proof {
            assert(in_headers.take(j as int) == in_headers);
        }

        // Check rows
        let mut i: usize = 0;
        while i < self.rows.len()
            invariant
                i <= self.rows.len(),
                in_headers == self.header_streaks(byte),
                in_rows == Seq::new(self.rows().len(), |i: int| self.row_streaks(i, byte)),
                max_count == streak::largest(in_headers + in_rows.take(i as int).flatten()),
            decreases self.rows.len() - i,
        {
            let row = &self.rows[i];
            let ghost above = in_headers + in_rows.take(i as int).flatten();
            let ghost in_row = in_rows[i as int];
            let mut j: usize = 0;
            while j < row.len()
                invariant
                    j <= row.len(),
                    0 <= i < self.rows().len(),
                    row@ == self.rows()[i as int],
                    in_row == self.row_streaks(i as int, byte),
                    max_count == streak::largest(above + in_row.take(j as int)),
                decreases row.len() - j,
            {
                let cell = &row[j];
                proof {
                    use_type_invariant(cell);
                    assert((above + in_row.take(j + 1)).drop_last() == above + in_row.take(
                        j as int,
                    ));
                }
                let (count, _) = cell.content.count_max_streak(byte, 0);
                if count > max_count {
                    max_count = count;
                }
                j += 1;
            }
            proof {
                assert(in_row.take(j as int) == in_row);
                in_rows.take(i as int).lemma_flatten_push(in_row);
                assert(in_rows.take(i as int).push(in_row) == in_rows.take(i + 1));
                assert(above + in_row == in_headers + in_rows.take(i + 1).flatten());
            }
            i += 1;
        }
        proof {
            assert(in_rows.take(i as int) == in_rows);
        }
        (max_count, 0)
    }
}

} // verus!
