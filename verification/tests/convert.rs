use captains_log::import::{
    convert_delimiter, convert_org_links, convert_org_to_markdown, parse_entry_header,
    parse_org_date_header, parse_org_journal, parse_timestamp, select_entry_title, Date,
    RichTextLine, Timestamp,
};

#[test]
fn test_parse_org_date_header() {
    let date = parse_org_date_header("Saturday, 07/09/2025");
    assert_eq!(
        date,
        Some(Date {
            year: 2025,
            month: 9,
            day: 7
        })
    );
}

#[test]
fn test_parse_entry_header() {
    let (time, title) = parse_entry_header("14:30 My Title");
    assert_eq!(time, Some("14:30".to_string()));
    assert_eq!(title, Some("My Title".to_string()));

    let (time, title) = parse_entry_header("14:30");
    assert_eq!(time, Some("14:30".to_string()));
    assert_eq!(title, None);
}

#[test]
fn test_convert_org_to_markdown() {
    let org = "*Bold* /italic/ +strikethrough+ ~code~";
    let md = convert_org_to_markdown(org);
    assert!(md.contains("**Bold**"));
    assert!(md.contains("*italic*"));
}

#[test]
fn convert_org_heading_line() {
    assert_eq!(convert_org_to_markdown("* Title"), "# Title");
}

#[test]
fn convert_org_quote_block() {
    let md = convert_org_to_markdown("#+BEGIN_QUOTE\nhello\n#+END_QUOTE");
    assert_eq!(md, "> hello");
}

#[test]
fn convert_org_code_block_passthrough() {
    let org = "#+BEGIN_SRC rust\n*not bold* /x/\n#+END_SRC";
    assert_eq!(convert_org_to_markdown(org), "```rust\n*not bold* /x/\n```");
}

#[test]
fn convert_org_bold_toggles() {
    assert_eq!(convert_org_to_markdown("hello *b* world"), "hello **b** world");
}

#[test]
fn convert_delimiter_pairs() {
    assert_eq!(convert_delimiter("+a+ +b+", '+', '~'), "~a~ ~b~");
    assert_eq!(convert_delimiter("/i/", '/', '*'), "*i*");
}

#[test]
fn convert_org_links_rewrites() {
    assert_eq!(
        convert_org_links("see [[https://x][here]] now"),
        "see [here](https://x) now"
    );
    assert_eq!(
        convert_org_links("[[a][b]] and [[c][d]]"),
        "[b](a) and [d](c)"
    );
}

#[test]
fn convert_org_links_unclosed_left_alone() {
    assert_eq!(convert_org_links("[[a][b"), "[[a][b");
    assert_eq!(convert_org_links("no links here"), "no links here");
}

#[test]
fn parse_org_date_header_rejects() {
    assert_eq!(parse_org_date_header("no comma"), None);
    assert_eq!(parse_org_date_header("Xday, 31/02/2025"), None);
    assert_eq!(parse_org_date_header("Day, 1/2"), None);
    assert_eq!(parse_org_date_header("Day, a/b/c"), None);
}

#[test]
fn parse_org_date_header_leap_year() {
    assert_eq!(
        parse_org_date_header("Day, 29/02/2024"),
        Some(Date {
            year: 2024,
            month: 2,
            day: 29
        })
    );
    assert_eq!(parse_org_date_header("Day, 29/02/2023"), None);
}

#[test]
fn parse_timestamp_bounds() {
    let d = Date {
        year: 2025,
        month: 1,
        day: 1,
    };
    assert_eq!(
        parse_timestamp(d, Some("14:30")),
        Some(Timestamp {
            date: d,
            hour: 14,
            minute: 30
        })
    );
    assert_eq!(parse_timestamp(d, Some("25:00")), None);
    assert_eq!(parse_timestamp(d, Some("12:60")), None);
    assert_eq!(parse_timestamp(d, Some("9")), None);
    assert_eq!(parse_timestamp(d, None), None);
}

#[test]
fn parse_org_journal_two_entries() {
    let content = "* Saturday, 07/09/2025\n:PROPERTIES:\n:CREATED:  20250907\n:END:\n** 14:30 My Title\nSome *bold* text\n** 15:00 \nMore text";
    let entries = parse_org_journal(content, None);
    assert_eq!(entries.len(), 2);
    assert_eq!(
        entries[0].timestamp,
        Timestamp {
            date: Date {
                year: 2025,
                month: 9,
                day: 7
            },
            hour: 14,
            minute: 30
        }
    );
    assert_eq!(entries[0].title, Some("My Title".to_string()));
    assert_eq!(entries[0].content, "Some **bold** text");
    assert_eq!(entries[1].title, None);
    assert_eq!(entries[1].content, "More text");
    assert_eq!(entries[1].timestamp.hour, 15);
}

#[test]
fn parse_org_journal_filters_by_date() {
    let content =
        "* Saturday, 07/09/2025\n:PROPERTIES:\n:CREATED:  20250907\n:END:\n** 14:30 T\nbody";
    let other = Date {
        year: 2025,
        month: 9,
        day: 8,
    };
    assert_eq!(parse_org_journal(content, Some(other)).len(), 0);
    let same = Date {
        year: 2025,
        month: 9,
        day: 7,
    };
    assert_eq!(parse_org_journal(content, Some(same)).len(), 1);
}

#[test]
fn parse_org_journal_bad_time_skipped() {
    let content = "* Day, 07/09/2025\n:PROPERTIES:\n:END:\n** not-a-time Title\nbody";
    assert_eq!(parse_org_journal(content, None).len(), 0);
}

#[test]
fn select_entry_title_first_nonblank_heading() {
    let blocks = vec![
        RichTextLine {
            text: "plain paragraph".to_string(),
            is_header: false,
        },
        RichTextLine {
            text: "   ".to_string(),
            is_header: true,
        },
        RichTextLine {
            text: "  My Title\n".to_string(),
            is_header: true,
        },
    ];
    assert_eq!(select_entry_title(&blocks), Some("My Title".to_string()));
    assert_eq!(select_entry_title(&Vec::new()), None);
}
