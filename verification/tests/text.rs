use markdown_table::markdown::text::write_text;
use markdown_table::markdown::{Escaping, MarkdownWritable};

fn render(text: &str, inner: bool, escape: Escaping, line_prefix: Option<&[u8]>) -> Vec<u8> {
    let mut out = Vec::new();
    text.write_to(&mut out, inner, escape, line_prefix);
    out
}

#[test]
fn plain_text_is_written_as_it_is() {
    assert_eq!(render("hello world", true, Escaping::Normal, None), b"hello world".to_vec());
}

#[test]
fn markdown_punctuation_is_escaped() {
    assert_eq!(render("a*b", true, Escaping::Normal, None), b"a\\*b".to_vec());
    assert_eq!(
        render("\\`*_{}[]()#+-.!", true, Escaping::Normal, None),
        b"\\\\\\`\\*\\_\\{\\}\\[\\]\\(\\)\\#\\+\\-\\.\\!".to_vec()
    );
}

#[test]
fn other_punctuation_is_not_escaped() {
    assert_eq!(
        render("|<>&~:;,?\"'/=@$%^", true, Escaping::Normal, None),
        b"|<>&~:;,?\"'/=@$%^".to_vec()
    );
}

#[test]
fn must_escape_agrees_with_the_policy() {
    for byte in 0u8..=255 {
        let special = b"\\`*_{}[]()#+-.!".contains(&byte);
        assert_eq!(Escaping::Normal.must_escape(byte), special);
        assert!(!Escaping::InlineCode.must_escape(byte));
    }
}

#[test]
fn inline_code_is_not_escaped() {
    assert_eq!(render("a*b_c", true, Escaping::InlineCode, None), b"a*b_c".to_vec());
}

#[test]
fn outer_text_ends_with_a_blank_line() {
    assert_eq!(render("abc", false, Escaping::Normal, None), b"abc\n\n".to_vec());
    assert_eq!(render("", false, Escaping::Normal, None), b"\n\n".to_vec());
    assert_eq!(render("", true, Escaping::Normal, None), b"".to_vec());
}

#[test]
fn line_prefix_follows_every_line_feed() {
    let prefix: &[u8] = b"> ";
    assert_eq!(render("a\nb", true, Escaping::Normal, Some(prefix)), b"a\n> b".to_vec());
    assert_eq!(
        render("a\nb", false, Escaping::Normal, Some(prefix)),
        b"a\n> b\n> \n> ".to_vec()
    );
    assert_eq!(render("a\n", true, Escaping::InlineCode, Some(prefix)), b"a\n> ".to_vec());
}

#[test]
fn empty_line_prefix_is_like_none() {
    let prefix: &[u8] = b"";
    assert_eq!(
        render("a\nb", false, Escaping::Normal, Some(prefix)),
        render("a\nb", false, Escaping::Normal, None)
    );
    assert_eq!(render("a\nb", false, Escaping::Normal, None), b"a\nb\n\n".to_vec());
}

#[test]
fn escaped_bytes_of_the_line_prefix_are_not_escaped_again() {
    let prefix: &[u8] = b"* ";
    assert_eq!(render("a\n*", true, Escaping::Normal, Some(prefix)), b"a\n* \\*".to_vec());
}

#[test]
fn text_is_appended_to_what_the_buffer_holds() {
    let mut out = b"seen: ".to_vec();
    "a_b".write_to(&mut out, true, Escaping::Normal, None);
    assert_eq!(out, b"seen: a\\_b".to_vec());
}

#[test]
fn multibyte_characters_pass_unchanged() {
    assert_eq!(
        render("h\u{e9}llo \u{1f600}", true, Escaping::Normal, None),
        "h\u{e9}llo \u{1f600}".as_bytes().to_vec()
    );
}

#[test]
fn string_leaf_renders_like_str_leaf() {
    let mut out = Vec::new();
    String::from("a-b\n").write_to(&mut out, false, Escaping::Normal, Some(b"  "));
    assert_eq!(out, render("a-b\n", false, Escaping::Normal, Some(b"  ")));
    assert_eq!(out, b"a\\-b\n  \n  \n  ".to_vec());
}

#[test]
fn write_text_renders_raw_bytes() {
    let mut out = Vec::new();
    write_text(b"1. x", &mut out, true, Escaping::Normal, None);
    assert_eq!(out, b"1\\. x".to_vec());
}

#[test]
fn rendering_text_twice_gives_the_same_bytes() {
    let first = render("a*b\nc", false, Escaping::Normal, Some(b"> "));
    let second = render("a*b\nc", false, Escaping::Normal, Some(b"> "));
    assert_eq!(first, second);
}
