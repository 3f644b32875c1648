use captains_log::export::{
    convert_markdown_to_org, format_org_export, OrgExportDay, OrgExportEntry,
};

#[test]
fn test_convert_markdown_to_org() {
    let md = "**Bold**";
    let org = convert_markdown_to_org(md, 0);
    assert_eq!(org.trim(), "*Bold*");
}

#[test]
fn heading_offset_one_marker_at_base_zero() {
    let org = convert_markdown_to_org("# H", 0);
    assert_eq!(org, "* H\n\n");
}

#[test]
fn heading_offset_two_markers_at_base_one() {
    let org = convert_markdown_to_org("# H", 1);
    assert_eq!(org, "** H\n\n");
}

#[test]
fn emphasis_symmetric_delimiters() {
    assert_eq!(convert_markdown_to_org("*i*", 0), "/i/\n\n");
    assert_eq!(convert_markdown_to_org("~~s~~", 0), "+s+\n\n");
}

#[test]
fn code_span_tildes() {
    assert_eq!(convert_markdown_to_org("`c`", 0), "~c~\n\n");
}

#[test]
fn code_block_markers_with_language() {
    assert_eq!(
        convert_markdown_to_org("```rust\ncode\n```", 0),
        "#+BEGIN_SRC rust\ncode\n#+END_SRC\n\n"
    );
}

#[test]
fn quote_block_markers() {
    assert_eq!(
        convert_markdown_to_org("> a", 0),
        "#+BEGIN_QUOTE \na\n#+END_QUOTE\n\n"
    );
}

#[test]
fn link_bracket_form() {
    assert_eq!(convert_markdown_to_org("[t](u)", 0), "[[u][t]]\n\n");
}

#[test]
fn export_document_schema() {
    let days = vec![OrgExportDay {
        date_line: "Sunday, 07/09/2025".to_string(),
        created: "20250907".to_string(),
        entries: vec![OrgExportEntry {
            time: "14:30".to_string(),
            title: Some("My Title".to_string()),
            content: "**Bold**".to_string(),
        }],
    }];
    let doc = format_org_export(&days);
    assert_eq!(
        doc,
        "* Sunday, 07/09/2025\n:PROPERTIES:\n:CREATED:  20250907\n:END:\n** 14:30 My Title\n*Bold*\n\n"
    );
}

#[test]
fn export_entry_without_title_keeps_space() {
    let days = vec![OrgExportDay {
        date_line: "D".to_string(),
        created: "C".to_string(),
        entries: vec![OrgExportEntry {
            time: "08:00".to_string(),
            title: None,
            content: "x".to_string(),
        }],
    }];
    let doc = format_org_export(&days);
    assert!(doc.contains("** 08:00 \n"));
}

#[test]
fn quote_soft_breaks_become_newlines() {
    assert_eq!(
        convert_markdown_to_org("> a\n> b", 0),
        "#+BEGIN_QUOTE \na\nb\n#+END_QUOTE\n\n"
    );
}
