use captains_log::config::Config;
use captains_log::frontmatter::{format_entry_with_frontmatter, parse_frontmatter};

#[test]
fn test_parse_frontmatter_valid() {
    let content = "---\njournal: Work\ntimestamp: 2025-10-06T14:30:00Z\n---\n\n# Entry Title\n\nEntry content";

    let result = parse_frontmatter(content);
    assert!(result.is_ok());

    let (meta, remaining) = result.unwrap();
    assert!(meta.contains("journal: Work"));
    assert!(meta.contains("timestamp: 2025-10-06T14:30:00Z"));
    assert!(remaining.contains("# Entry Title"));
    assert!(remaining.contains("Entry content"));
}

#[test]
fn test_parse_frontmatter_no_delimiter() {
    let content = "Just some content without frontmatter";
    let result = parse_frontmatter(content);
    assert!(result.is_err());
}

#[test]
fn test_parse_frontmatter_missing_closing() {
    let content = "---\njournal: Work\ntimestamp: 2025-10-06T14:30:00Z\n\nContent without closing delimiter";

    let result = parse_frontmatter(content);
    assert!(result.is_err());
}

#[test]
fn test_format_entry_with_frontmatter() {
    let content = "# Title\n\nContent";

    let formatted = format_entry_with_frontmatter("Personal", "2025-10-06T14:30:00Z", content);
    assert!(formatted.starts_with("---"));
    assert!(formatted.contains("journal: Personal"));
    assert!(formatted.contains("timestamp:"));
    assert!(formatted.contains("# Title"));
}

#[test]
fn frontmatter_frame_round_trip() {
    let formatted = format_entry_with_frontmatter("Work", "2025-01-01T00:00:00Z", "body text");
    let (meta, body) = parse_frontmatter(&formatted).unwrap();
    assert_eq!(meta, "journal: Work\ntimestamp: 2025-01-01T00:00:00Z");
    assert_eq!(body, "body text");
}

#[test]
fn config_default_values() {
    let c = Config::default();
    assert!(c.database.path.is_none());
    assert_eq!(c.editor.command, Some("vim".to_string()));
    assert!(c.display.colors_enabled);
    assert_eq!(c.display.date_format, "%Y-%m-%d %H:%M:%S");
    assert!(c.display.entries_per_page.is_none());
    assert!(!c.display.stardate_mode);
}
