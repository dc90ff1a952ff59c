use markdown_table::markdown::streak::count_max_streak;
use markdown_table::markdown::MarkdownWritable;

#[test]
fn leading_run_merges_with_carry() {
    assert_eq!(count_max_streak(b"xxx", b'x', 2), (5, 3));
}

#[test]
fn string_leaf_merges_leading_run_with_carry() {
    let leaf = String::from("xxx");
    assert_eq!(leaf.count_max_streak(b'x', 2), (5, 3));
}

#[test]
fn str_leaf_counts_like_string_leaf() {
    let text = "ab``c```";
    assert_eq!(text.count_max_streak(b'`', 4), (3, 3));
    assert_eq!(String::from(text).count_max_streak(b'`', 4), (3, 3));
}

#[test]
fn empty_text_has_no_streak() {
    assert_eq!(count_max_streak(b"", b'x', 0), (0, 0));
    assert_eq!(count_max_streak(b"", b'x', 3), (0, 0));
}

#[test]
fn text_without_the_byte_has_no_streak() {
    assert_eq!(count_max_streak(b"abc", b'x', 0), (0, 0));
    assert_eq!(count_max_streak(b"abc", b'x', 5), (0, 0));
}

#[test]
fn carry_is_dropped_when_text_starts_with_another_byte() {
    assert_eq!(count_max_streak(b"yxx", b'x', 10), (2, 2));
}

#[test]
fn carry_lengthens_only_the_leading_run() {
    assert_eq!(count_max_streak(b"xxyxxx", b'x', 10), (12, 3));
    assert_eq!(count_max_streak(b"xxyxxx", b'x', 0), (3, 3));
}

#[test]
fn longest_run_inside_beats_short_merged_run() {
    assert_eq!(count_max_streak(b"xyxxxxxy", b'x', 2), (5, 0));
}

#[test]
fn trailing_run_is_zero_when_text_ends_with_another_byte() {
    assert_eq!(count_max_streak(b"xxyxxxy", b'x', 0), (3, 0));
}

#[test]
fn single_matching_byte() {
    assert_eq!(count_max_streak(b"x", b'x', 0), (1, 1));
    assert_eq!(count_max_streak(b"x", b'x', 7), (8, 1));
}

#[test]
fn whole_text_is_one_run() {
    assert_eq!(count_max_streak(b"------", b'-', 0), (6, 6));
}

#[test]
fn largest_carry_that_still_fits() {
    assert_eq!(count_max_streak(b"xx", b'x', usize::MAX - 2), (usize::MAX, 2));
}

#[test]
fn bytes_of_multibyte_characters_are_counted_one_by_one() {
    let text = "\u{e9}\u{e9}";
    assert_eq!(text.count_max_streak(0xc3, 0), (1, 0));
    assert_eq!(text.count_max_streak(0xa9, 0), (1, 1));
}
