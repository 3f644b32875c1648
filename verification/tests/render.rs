use captains_log::events::{Kind, Token};
use captains_log::formatting::{hyperlink_end, hyperlink_start, render_events, render_markdown};

#[test]
fn plain_paragraph_renders_verbatim() {
    assert_eq!(render_markdown("hello world", false), "hello world\n\n");
    assert_eq!(render_markdown("hello world", true), "hello world\n\n");
}

#[test]
fn empty_input_renders_empty() {
    assert_eq!(render_markdown("", false), "");
}

#[test]
fn heading_prefix_plain() {
    assert_eq!(render_markdown("# Hi", false), "# Hi\n\n");
    assert_eq!(render_markdown("## Two", false), "## Two\n\n");
}

#[test]
fn heading_prefix_styled() {
    assert_eq!(
        render_markdown("# Hi", true),
        "\u{1b}[1;94m# \u{1b}[0mHi\n\n"
    );
}

#[test]
fn bold_text_styled() {
    assert_eq!(render_markdown("**x**", true), "\u{1b}[1mx\u{1b}[0m\n\n");
    assert_eq!(render_markdown("**x**", false), "x\n\n");
}

#[test]
fn italic_and_strikethrough_styled() {
    assert_eq!(render_markdown("*i*", true), "\u{1b}[3mi\u{1b}[0m\n\n");
    assert_eq!(render_markdown("~~s~~", true), "\u{1b}[9ms\u{1b}[0m\n\n");
}

#[test]
fn bold_italic_combine() {
    assert_eq!(
        render_markdown("***bi***", true),
        "\u{1b}[1;3mbi\u{1b}[0m\n\n"
    );
}

#[test]
fn block_quote_prefixes_each_line() {
    assert_eq!(
        render_markdown("> line1\n> line2", false),
        "\u{2502} line1\n\u{2502} line2\n\n"
    );
}

#[test]
fn code_block_fenced_plain() {
    assert_eq!(
        render_markdown("```rust\nlet x = 1;\n```", false),
        "```\nlet x = 1;\n```\n\n"
    );
}

#[test]
fn code_span_plain() {
    assert_eq!(render_markdown("`x`", false), "`x`\n\n");
}

#[test]
fn code_span_styled() {
    assert_eq!(render_markdown("`x`", true), "\u{1b}[92m`x`\u{1b}[0m\n\n");
}

#[test]
fn list_items_bulleted_and_indented() {
    let out = render_markdown("- a\n  - b", false);
    assert!(out.contains("\u{2022} a"));
    assert!(out.contains("  \u{2022} b"));
}

#[test]
fn list_close_never_negative() {
    let events = vec![
        Token::BlockEnd(Kind::List(false)),
        Token::BlockStart(Kind::ListItem),
    ];
    let out = render_events(&events, false);
    assert_eq!(out, "\n\u{2022} ");
}

#[test]
fn hyperlink_round_trip_events() {
    let events = vec![
        Token::BlockStart(Kind::Link("https://x".to_string())),
        Token::Text("t".to_string()),
        Token::BlockEnd(Kind::Link(String::new())),
    ];
    let out = render_events(&events, false);
    assert_eq!(out, "[\u{1b}]8;;https://x\u{1b}\\t\u{1b}]8;;\u{1b}\\]");
}

#[test]
fn hyperlink_in_rendered_markdown() {
    assert_eq!(
        render_markdown("[t](https://x)", false),
        "[\u{1b}]8;;https://x\u{1b}\\t\u{1b}]8;;\u{1b}\\]\n\n"
    );
}

#[test]
fn hyperlink_builders_exact() {
    assert_eq!(hyperlink_start("https://x"), "\u{1b}]8;;https://x\u{1b}\\");
    assert_eq!(hyperlink_end(), "\u{1b}]8;;\u{1b}\\");
}

#[test]
fn soft_break_is_space_outside_quote() {
    assert_eq!(render_markdown("a\nb", false), "a b\n\n");
}

#[test]
fn hard_break_is_newline() {
    assert_eq!(render_markdown("a  \nb", false), "a\nb\n\n");
}
