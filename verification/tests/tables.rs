use markdown_table::markdown::tables::{MarkdownTable, RowLengthMismatch};
use markdown_table::markdown::{Escaping, MarkdownWritable};

fn strings(texts: &[&str]) -> Vec<String> {
    texts.iter().map(|text| text.to_string()).collect()
}

fn render(
    table: &MarkdownTable,
    inner: bool,
    escape: Escaping,
    line_prefix: Option<&[u8]>,
) -> String {
    let mut out = Vec::new();
    table.write_to(&mut out, inner, escape, line_prefix);
    String::from_utf8(out).unwrap()
}

fn sample() -> MarkdownTable<'static> {
    let mut table = MarkdownTable::new(strings(&["name", "kind", "size"]));
    assert_eq!(table.add_string_row(strings(&["a", "file", "12"])), Ok(()));
    assert_eq!(table.add_string_row(strings(&["a much longer name", "directory", ""])), Ok(()));
    table
}

#[test]
fn table_is_rendered_as_header_separator_and_rows() {
    let mut table = MarkdownTable::new(strings(&["h1", "h2"]));
    assert_eq!(table.add_string_row(strings(&["c1", "c2"])), Ok(()));
    assert_eq!(
        render(&table, true, Escaping::Normal, None),
        "| h1 | h2 |\n|------|------|\n| c1 | c2 |\n"
    );
    assert_eq!(
        render(&table, false, Escaping::Normal, None),
        "| h1 | h2 |\n|------|------|\n| c1 | c2 |\n\n"
    );
}

#[test]
fn rows_come_out_in_the_order_they_were_added() {
    let mut table = MarkdownTable::new(strings(&["n"]));
    for text in ["3", "1", "2"] {
        assert_eq!(table.add_string_row(strings(&[text])), Ok(()));
    }
    assert_eq!(
        render(&table, true, Escaping::Normal, None),
        "| n |\n|------|\n| 3 |\n| 1 |\n| 2 |\n"
    );
}

#[test]
fn every_row_has_one_pipe_more_than_columns() {
    let text = render(&sample(), true, Escaping::Normal, None);
    let lines: Vec<&str> = text.lines().collect();
    assert_eq!(lines.len(), 4);
    for line in lines {
        assert_eq!(line.bytes().filter(|byte| *byte == b'|').count(), 4);
    }
}

#[test]
fn pipe_inside_a_cell_adds_to_the_pipes_of_its_row() {
    let mut table = MarkdownTable::new(strings(&["a", "b"]));
    assert_eq!(table.add_string_row(strings(&["x|y", "z"])), Ok(()));
    let text = render(&table, true, Escaping::Normal, None);
    let lines: Vec<&str> = text.lines().collect();
    assert_eq!(lines[2], "| x|y | z |");
    assert_eq!(lines[2].bytes().filter(|byte| *byte == b'|').count(), 4);
    assert_eq!(lines[0].bytes().filter(|byte| *byte == b'|').count(), 3);
}

#[test]
fn separator_row_does_not_depend_on_cell_width() {
    let text = render(&sample(), true, Escaping::Normal, None);
    assert_eq!(text.lines().nth(1), Some("|------|------|------|"));
    let narrow = MarkdownTable::new(strings(&["", "", ""]));
    let text = render(&narrow, true, Escaping::Normal, None);
    assert_eq!(text.lines().nth(1), Some("|------|------|------|"));
}

#[test]
fn row_of_wrong_length_is_turned_down() {
    let mut table = sample();
    let before = render(&table, false, Escaping::Normal, None);
    assert_eq!(
        table.add_string_row(strings(&["only", "two"])),
        Err(RowLengthMismatch { supplied: 2, expected: 3 })
    );
    assert_eq!(
        table.add_string_row(strings(&["one", "two", "three", "four"])),
        Err(RowLengthMismatch { supplied: 4, expected: 3 })
    );
    assert_eq!(
        table.add_string_row(Vec::new()),
        Err(RowLengthMismatch { supplied: 0, expected: 3 })
    );
    assert_eq!(render(&table, false, Escaping::Normal, None), before);
    assert_eq!(table.add_string_row(strings(&["x", "y", "z"])), Ok(()));
    assert_eq!(render(&table, false, Escaping::Normal, None).lines().count(), 6);
}

#[test]
fn rendering_twice_gives_the_same_bytes() {
    let table = sample();
    let prefix: &[u8] = b"> ";
    let first = render(&table, false, Escaping::Normal, Some(prefix));
    let second = render(&table, false, Escaping::Normal, Some(prefix));
    assert_eq!(first, second);
}

#[test]
fn outer_table_adds_exactly_one_blank_line() {
    let table = sample();
    let inner = render(&table, true, Escaping::Normal, None);
    let outer = render(&table, false, Escaping::Normal, None);
    assert_eq!(outer, format!("{}\n", inner));
    assert!(inner.ends_with(" |\n"));
}

#[test]
fn streak_is_not_carried_across_cells() {
    let mut table = MarkdownTable::new(strings(&["aaa", "b"]));
    assert_eq!(table.add_string_row(strings(&["aa", "aaaa"])), Ok(()));
    assert_eq!(table.count_max_streak(b'a', 0), (4, 0));
}

#[test]
fn streak_of_a_table_ignores_the_carry() {
    let mut table = MarkdownTable::new(strings(&["aaa", "b"]));
    assert_eq!(table.add_string_row(strings(&["aa", "aaaa"])), Ok(()));
    assert_eq!(table.count_max_streak(b'a', 100), (4, 0));
    assert_eq!(table.count_max_streak(b'a', usize::MAX), (4, 0));
    assert_eq!(table.count_max_streak(b'b', 1), (1, 0));
    assert_eq!(table.count_max_streak(b'z', 1), (0, 0));
}

#[test]
fn streak_may_come_from_a_header() {
    let mut table = MarkdownTable::new(strings(&["x", "``````"]));
    assert_eq!(table.add_string_row(strings(&["```", "`"])), Ok(()));
    assert_eq!(table.add_string_row(strings(&["``", "`````"])), Ok(()));
    assert_eq!(table.count_max_streak(b'`', 0), (6, 0));
}

#[test]
fn structural_bytes_of_the_table_are_not_counted() {
    let mut table = MarkdownTable::new(strings(&["h"]));
    assert_eq!(table.add_string_row(strings(&["--"])), Ok(()));
    assert_eq!(table.count_max_streak(b'-', 0), (2, 0));
    assert_eq!(table.count_max_streak(b'|', 0), (0, 0));
}

#[test]
fn empty_table_renders_header_and_separator() {
    let table = MarkdownTable::new(strings(&["h1", "h2"]));
    assert_eq!(render(&table, true, Escaping::Normal, None), "| h1 | h2 |\n|------|------|\n");
    assert_eq!(
        render(&table, false, Escaping::Normal, None),
        "| h1 | h2 |\n|------|------|\n\n"
    );
    assert_eq!(table.count_max_streak(b'h', 0), (1, 0));
}

#[test]
fn table_without_columns() {
    let mut table = MarkdownTable::new(Vec::new());
    assert_eq!(render(&table, true, Escaping::Normal, None), "|\n|\n");
    assert_eq!(table.add_string_row(Vec::new()), Ok(()));
    assert_eq!(render(&table, true, Escaping::Normal, None), "|\n|\n|\n");
    assert_eq!(
        table.add_string_row(strings(&["x"])),
        Err(RowLengthMismatch { supplied: 1, expected: 0 })
    );
    assert_eq!(table.count_max_streak(b'x', 3), (0, 0));
}

#[test]
fn escaping_policy_reaches_headers_and_cells() {
    let mut table = MarkdownTable::new(strings(&["a_b"]));
    assert_eq!(table.add_string_row(strings(&["c*d"])), Ok(()));
    assert_eq!(
        render(&table, true, Escaping::Normal, None),
        "| a\\_b |\n|------|\n| c\\*d |\n"
    );
    assert_eq!(
        render(&table, true, Escaping::InlineCode, None),
        "| a_b |\n|------|\n| c*d |\n"
    );
}

#[test]
fn line_prefix_reaches_cells_but_not_the_table_lines() {
    let mut table = MarkdownTable::new(strings(&["h\n1"]));
    assert_eq!(table.add_string_row(strings(&["c\n2"])), Ok(()));
    let prefix: &[u8] = b"> ";
    assert_eq!(
        render(&table, false, Escaping::Normal, Some(prefix)),
        "| h\n> 1 |\n|------|\n| c\n> 2 |\n\n"
    );
}

#[test]
fn cells_are_rendered_without_their_own_blank_line() {
    let mut table = MarkdownTable::new(strings(&["h"]));
    assert_eq!(table.add_string_row(strings(&["c"])), Ok(()));
    let text = render(&table, false, Escaping::Normal, None);
    assert_eq!(text.matches('\n').count(), 4);
}

#[test]
fn table_is_appended_to_what_the_buffer_holds() {
    let table = MarkdownTable::new(strings(&["h"]));
    let mut out = b"intro\n".to_vec();
    table.write_to(&mut out, true, Escaping::Normal, None);
    assert_eq!(out, b"intro\n| h |\n|------|\n".to_vec());
}
