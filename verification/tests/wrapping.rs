use captains_log::wrap::{get_wrap_width, select_wrap_width, wrap_text};

#[test]
fn wrap_greedy_exact() {
    let text = "This is a long line that needs to be wrapped.";
    assert_eq!(
        wrap_text(text, 20),
        "This is a long line\nthat needs to be\nwrapped."
    );
}

#[test]
fn wrap_idempotent_at_same_width() {
    let text = "This is a long line that needs to be wrapped.";
    let once = wrap_text(text, 20);
    assert_eq!(wrap_text(&once, 20), once);
}

#[test]
fn wrap_preserves_existing_breaks() {
    assert_eq!(wrap_text("a\nb", 80), "a\nb");
    assert_eq!(
        wrap_text("first line\n\nthird line", 80),
        "first line\n\nthird line"
    );
}

#[test]
fn wrap_preserves_interior_spacing() {
    assert_eq!(wrap_text("a  b", 10), "a  b");
    assert_eq!(wrap_text("code:    indented", 40), "code:    indented");
}

#[test]
fn wrap_preserves_leading_indentation() {
    assert_eq!(wrap_text("  \u{2022} b", 80), "  \u{2022} b");
    assert_eq!(wrap_text("    four deep", 80), "    four deep");
}

#[test]
fn wrap_fitting_text_unchanged() {
    let text = "short line\n  indented  line\nlast";
    assert_eq!(wrap_text(text, 40), text);
}

#[test]
fn wrap_trims_spaces_at_break_points() {
    assert_eq!(wrap_text("aa  bb", 4), "aa\nbb");
}

#[test]
fn wrap_trims_trailing_spaces() {
    assert_eq!(wrap_text("ab  ", 10), "ab");
}

#[test]
fn wrap_force_breaks_long_words() {
    assert_eq!(wrap_text("abcdefghijkl", 5), "abcde\nfghij\nkl");
}

#[test]
fn wrap_degenerate_inputs() {
    assert_eq!(wrap_text("", 10), "");
    assert_eq!(wrap_text("x", 10), "x");
}

#[test]
fn wrap_short_lines_untouched() {
    assert_eq!(wrap_text("short", 20), "short");
}

#[test]
fn wrap_width_selection_caps_at_hundred() {
    assert_eq!(select_wrap_width(Some(80)), 80);
    assert_eq!(select_wrap_width(Some(250)), 100);
    assert_eq!(select_wrap_width(None), 100);
}

#[test]
fn wrap_width_probe_capped() {
    assert!(get_wrap_width() <= 100);
}
