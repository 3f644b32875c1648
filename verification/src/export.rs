use vstd::prelude::*;
use crate::events::{events_of, tokenize, wf_events, Kind, Token};
use crate::formatting::item_indent;
use crate::style::{initial_style, initial_style_exec, style_step, style_step_exec, StyleState};
use crate::text::{append_chars, append_str, chars_to_string, push_repeat, repeat_char, str_to_chars};

verus! {

// ---------------------------------------------------------------------------
// Outline emitter
//
// The emitter consumes the event stream and writes the line-oriented outline
// dialect: marker-character headings offset by a caller-supplied base level,
// symmetric single-character delimiters for the inline styles, and
// begin/end markers for quotes and code blocks.
// ---------------------------------------------------------------------------

/// Filters restricting which entries an export covers.
#[derive(Clone, Debug)]
pub struct ExportFilters {
    pub date: Option<String>,
    pub since: Option<String>,
    pub until: Option<String>,
    pub journal: Option<String>,
}

/// The begin marker of an outline quote block, with its trailing newline.
pub open spec fn begin_quote_marker() -> Seq<char> {
    seq!['#', '+', 'B', 'E', 'G', 'I', 'N', '_', 'Q', 'U', 'O', 'T', 'E', ' ', '\n']
}

/// The end marker of an outline quote block, with its blank line.
pub open spec fn end_quote_marker() -> Seq<char> {
    seq!['#', '+', 'E', 'N', 'D', '_', 'Q', 'U', 'O', 'T', 'E', '\n', '\n']
}

/// The begin marker of an outline code block: the marker word, one space,
/// the language tag.
pub open spec fn begin_src_marker(lang: Seq<char>) -> Seq<char> {
    seq!['#', '+', 'B', 'E', 'G', 'I', 'N', '_', 'S', 'R', 'C', ' '] + lang + seq!['\n']
}

/// The end marker of an outline code block, with its blank line.
pub open spec fn end_src_marker() -> Seq<char> {
    seq!['#', '+', 'E', 'N', 'D', '_', 'S', 'R', 'C', '\n', '\n']
}

/// The language tag of a code block, as emitted: the tag itself, or nothing.
pub open spec fn lang_view(lang: Option<String>) -> Seq<char> {
    match lang {
        Some(l) => l@,
        None => seq![],
    }
}

/// What one event adds to the outline output, given the state before it.
/// The three inline styles map to symmetric one-character delimiters, the
/// same on start and end: the dialect treats them as toggles.
pub open spec fn emit_token(st: StyleState, e: Token, base_level: u32) -> Seq<char> {
    match e {
        Token::BlockStart(k) => match k {
            Kind::Emphasis => seq!['/'],
            Kind::Strong => seq!['*'],
            Kind::Strikethrough => seq!['+'],
            Kind::Heading(l) => repeat_char('*', l as int + base_level as int) + seq![' '],
            Kind::List(_) => seq!['\n'],
            Kind::ListItem => item_indent(st.list_depth) + seq!['\u{2022}', ' '],
            Kind::BlockQuote => begin_quote_marker(),
            Kind::CodeBlock(lang) => begin_src_marker(lang_view(lang)),
            Kind::Link(url) => seq!['[', '['] + url@ + seq![']', '['],
            Kind::Paragraph => seq![],
        },
        Token::BlockEnd(k) => match k {
            Kind::Paragraph => if st.in_block_quote {
                seq!['\n']
            } else {
                seq!['\n', '\n']
            },
            Kind::Emphasis => seq!['/'],
            Kind::Strong => seq!['*'],
            Kind::Strikethrough => seq!['+'],
            Kind::Heading(_) => seq!['\n', '\n'],
            Kind::List(_) => seq!['\n'],
            Kind::ListItem => seq!['\n'],
            Kind::BlockQuote => end_quote_marker(),
            Kind::CodeBlock(_) => end_src_marker(),
            Kind::Link(_) => seq![']', ']'],
        },
        Token::Text(s) => s@,
        Token::CodeSpan(s) => seq!['~'] + s@ + seq!['~'],
        Token::SoftBreak => if st.in_block_quote {
            seq!['\n']
        } else {
            seq![' ']
        },
        Token::HardBreak => seq!['\n'],
    }
}

/// The outline emission of a whole event sequence from a given state.
pub open spec fn emit_seq(events: Seq<Token>, st: StyleState, base_level: u32) -> Seq<char>
    decreases events.len(),
{
    if events.len() == 0 {
        seq![]
    } else {
        emit_token(st, events[0], base_level) + emit_seq(
            events.drop_first(),
            style_step(st, events[0]),
            base_level,
        )
    }
}

/// The outline emission of a markup text: its event stream, emitted from the
/// initial state.
pub open spec fn org_emitted(content: Seq<char>, base_level: u32) -> Seq<char> {
    emit_seq(events_of(content), initial_style(), base_level)
}

/// Append what one event emits, given the state before it.
fn emit_one(out: &mut Vec<char>, st: &StyleState, e: &Token, base_level: u32)
    requires
        base_level as int + 6 <= usize::MAX as int,
        crate::events::wf_event(*e),
    ensures
        final(out)@ == old(out)@ + emit_token(*st, *e, base_level),
{
    match e {
        Token::BlockStart(k) => match k {
            Kind::Emphasis => {
                out.push('/');
                proof {
                    assert(out@ =~= old(out)@ + seq!['/']);
                }
            },
            Kind::Strong => {
                out.push('*');
                proof {
                    assert(out@ =~= old(out)@ + seq!['*']);
                }
            },
            Kind::Strikethrough => {
                out.push('+');
                proof {
                    assert(out@ =~= old(out)@ + seq!['+']);
                }
            },
            Kind::Heading(l) => {
                push_repeat(out, '*', *l as usize + base_level as usize);
                out.push(' ');
                proof {
                    assert(out@ =~= old(out)@ + (repeat_char(
                        '*',
                        *l as int + base_level as int,
                    ) + seq![' ']));
                }
            },
            Kind::List(_) => {
                out.push('\n');
                proof {
                    assert(out@ =~= old(out)@ + seq!['\n']);
                }
            },
            Kind::ListItem => {
                crate::formatting::push_item_indent(out, st.list_depth);
                out.push('\u{2022}');
                out.push(' ');
                proof {
                    assert(out@ =~= old(out)@ + (item_indent(st.list_depth) + seq![
                        '\u{2022}',
                        ' ',
                    ]));
                }
            },
            Kind::BlockQuote => {
                let m: Vec<char> = vec![
                    '#', '+', 'B', 'E', 'G', 'I', 'N', '_', 'Q', 'U', 'O', 'T', 'E', ' ', '\n',
                ];
                proof {
                    assert(m@ =~= begin_quote_marker());
                }
                append_chars(out, &m);
            },
            Kind::CodeBlock(lang) => {
                let m: Vec<char> = vec!['#', '+', 'B', 'E', 'G', 'I', 'N', '_', 'S', 'R', 'C', ' '];
                append_chars(out, &m);
                match lang {
                    Some(l) => {
                        let lv = str_to_chars(l.as_str());
                        append_chars(out, &lv);
                    },
                    None => {},
                }
                out.push('\n');
                proof {
                    assert(out@ =~= old(out)@ + begin_src_marker(lang_view(*lang)));
                }
            },
            Kind::Link(url) => {
                out.push('[');
                out.push('[');
                let u = str_to_chars(url.as_str());
                append_chars(out, &u);
                out.push(']');
                out.push('[');
                proof {
                    assert(out@ =~= old(out)@ + (seq!['[', '['] + url@ + seq![']', '[']));
                }
            },
            Kind::Paragraph => {
                proof {
                    assert(out@ =~= old(out)@ + Seq::<char>::empty());
                }
            },
        },
        Token::BlockEnd(k) => match k {
            Kind::Paragraph => {
                out.push('\n');
                if !st.in_block_quote {
                    out.push('\n');
                    proof {
                        assert(out@ =~= old(out)@ + seq!['\n', '\n']);
                    }
                } else {
                    proof {
                        assert(out@ =~= old(out)@ + seq!['\n']);
                    }
                }
            },
            Kind::Emphasis => {
                out.push('/');
                proof {
                    assert(out@ =~= old(out)@ + seq!['/']);
                }
            },
            Kind::Strong => {
                out.push('*');
                proof {
                    assert(out@ =~= old(out)@ + seq!['*']);
                }
            },
            Kind::Strikethrough => {
                out.push('+');
                proof {
                    assert(out@ =~= old(out)@ + seq!['+']);
                }
            },
            Kind::Heading(_) => {
                out.push('\n');
                out.push('\n');
                proof {
                    assert(out@ =~= old(out)@ + seq!['\n', '\n']);
                }
            },
            Kind::List(_) => {
                out.push('\n');
                proof {
                    assert(out@ =~= old(out)@ + seq!['\n']);
                }
            },
            Kind::ListItem => {
                out.push('\n');
                proof {
                    assert(out@ =~= old(out)@ + seq!['\n']);
                }
            },
            Kind::BlockQuote => {
                let m: Vec<char> = vec![
                    '#', '+', 'E', 'N', 'D', '_', 'Q', 'U', 'O', 'T', 'E', '\n', '\n',
                ];
                proof {
                    assert(m@ =~= end_quote_marker());
                }
                append_chars(out, &m);
            },
            Kind::CodeBlock(_) => {
                let m: Vec<char> = vec!['#', '+', 'E', 'N', 'D', '_', 'S', 'R', 'C', '\n', '\n'];
                proof {
                    assert(m@ =~= end_src_marker());
                }
                append_chars(out, &m);
            },
            Kind::Link(_) => {
                out.push(']');
                out.push(']');
                proof {
                    assert(out@ =~= old(out)@ + seq![']', ']']);
                }
            },
        },
        Token::Text(s) => {
            append_str(out, s.as_str());
        },
        Token::CodeSpan(s) => {
            out.push('~');
            append_str(out, s.as_str());
            out.push('~');
            proof {
                assert(out@ =~= old(out)@ + (seq!['~'] + s@ + seq!['~']));
            }
        },
        Token::SoftBreak => {
            if st.in_block_quote {
                out.push('\n');
                proof {
                    assert(out@ =~= old(out)@ + seq!['\n']);
                }
            } else {
                out.push(' ');
                proof {
                    assert(out@ =~= old(out)@ + seq![' ']);
                }
            }
        },
        Token::HardBreak => {
            out.push('\n');
            proof {
                assert(out@ =~= old(out)@ + seq!['\n']);
            }
        },
    }
}

/// Emit an event sequence in the outline dialect from the initial state.
pub fn emit_org_events(events: &Vec<Token>, base_level: u32) -> (r: String)
    requires
        base_level as int + 6 <= usize::MAX as int,
        wf_events(events@),
    ensures
        r@ == emit_seq(events@, initial_style(), base_level),
{
    let mut out: Vec<char> = Vec::new();
    let mut st = initial_style_exec();
    proof {
        assert(events@.skip(0) =~= events@);
        assert(out@ + emit_seq(events@, initial_style(), base_level) =~= emit_seq(
            events@,
            initial_style(),
            base_level,
        ));
    }
    for i in 0..events.len()
        invariant
            base_level as int + 6 <= usize::MAX as int,
            wf_events(events@),
            emit_seq(events@, initial_style(), base_level) =~= out@ + emit_seq(
                events@.skip(i as int),
                st,
                base_level,
            ),
    {
        proof {
            assert(events@.skip(i as int)[0] == events@[i as int]);
            assert(events@.skip(i as int).drop_first() =~= events@.skip(i + 1));
            assert(crate::events::wf_event(events@[i as int]));
        }
        emit_one(&mut out, &st, &events[i], base_level);
        st = style_step_exec(&st, &events[i]);
    }
    proof {
        assert(events@.skip(events@.len() as int) =~= Seq::<Token>::empty());
    }
    chars_to_string(&out)
}

/// Convert a markup text to the outline dialect, offsetting each heading by
/// `base_level` marker characters.
pub fn convert_markdown_to_org(markdown: &str, base_level: u32) -> (r: String)
    requires
        base_level as int + 6 <= usize::MAX as int,
    ensures
        r@ == org_emitted(markdown@, base_level),
{
    let events = tokenize(markdown);
    emit_org_events(&events, base_level)
}

// ---------------------------------------------------------------------------
// Laws of the emitter
// ---------------------------------------------------------------------------

/// Heading level offset: a heading of level `l` emitted with base level `b`
/// carries exactly `l + b` marker characters, then one space, then its text.
pub proof fn lemma_heading_offset(st: StyleState, l: u8, b: u32)
    ensures
        emit_token(st, Token::BlockStart(Kind::Heading(l)), b) == repeat_char(
            '*',
            l as int + b as int,
        ) + seq![' '],
        emit_token(st, Token::BlockStart(Kind::Heading(l)), b).len() == l as int + b as int + 1,
        forall|i: int|
            0 <= i < l as int + b as int ==> emit_token(
                st,
                Token::BlockStart(Kind::Heading(l)),
                b,
            )[i] == '*',
{
    crate::text::lemma_repeat_char_len('*', l as int + b as int);
    assert forall|i: int| 0 <= i < l as int + b as int implies emit_token(
        st,
        Token::BlockStart(Kind::Heading(l)),
        b,
    )[i] == '*' by {
        assert(emit_token(st, Token::BlockStart(Kind::Heading(l)), b)[i] == repeat_char(
            '*',
            l as int + b as int,
        )[i]);
    }
}

/// Strong markup becomes a symmetric single-character delimiter pair: the
/// events of a bold text run emit as the text between two single markers.
pub proof fn lemma_strong_delimiters(st: StyleState, s: String, b: u32)
    ensures
        emit_seq(
            seq![
                Token::BlockStart(Kind::Strong),
                Token::Text(s),
                Token::BlockEnd(Kind::Strong),
            ],
            st,
            b,
        ) == seq!['*'] + s@ + seq!['*'],
{
    let evs = seq![
        Token::BlockStart(Kind::Strong),
        Token::Text(s),
        Token::BlockEnd(Kind::Strong),
    ];
    let tail1 = seq![Token::Text(s), Token::BlockEnd(Kind::Strong)];
    let tail2 = seq![Token::BlockEnd(Kind::Strong)];
    let st1 = style_step(st, evs[0]);
    let st2 = style_step(st1, tail1[0]);
    let st3 = style_step(st2, tail2[0]);
    assert(evs.drop_first() =~= tail1);
    assert(tail1.drop_first() =~= tail2);
    assert(tail2.drop_first() =~= Seq::<Token>::empty());
    assert(emit_seq(Seq::<Token>::empty(), st3, b) == Seq::<char>::empty());
    assert(emit_seq(tail2, st2, b) =~= seq!['*']);
    assert(emit_seq(tail1, st1, b) =~= s@ + seq!['*']);
    assert(emit_seq(evs, st, b) =~= seq!['*'] + s@ + seq!['*']);
}

// ---------------------------------------------------------------------------
// The outline export schema
//
// An export document is a sequence of day blocks: a first-level heading
// line, a properties block carrying the creation stamp, then one
// second-level heading per entry with its time and optional title, followed
// by the entry's content in the outline dialect.
// ---------------------------------------------------------------------------

/// One entry of an outline export: its preformatted time, its optional
/// title, and its markup content.
#[derive(Clone, Debug)]
pub struct OrgExportEntry {
    pub time: String,
    pub title: Option<String>,
    pub content: String,
}

/// One day of an outline export: its preformatted date line, its creation
/// stamp, and its entries.
#[derive(Clone, Debug)]
pub struct OrgExportDay {
    pub date_line: String,
    pub created: String,
    pub entries: Vec<OrgExportEntry>,
}

/// An optional title, as emitted: the title itself, or nothing.
pub open spec fn title_view(t: Option<String>) -> Seq<char> {
    match t {
        Option::Some(s) => s@,
        Option::None => seq![],
    }
}

/// The heading and body of one exported entry.
pub open spec fn org_entry_text(e: OrgExportEntry) -> Seq<char> {
    seq!['*', '*', ' '] + e.time@ + seq![' '] + title_view(e.title) + seq!['\n'] + org_emitted(
        e.content@,
        1,
    )
}

pub open spec fn org_entries_text(es: Seq<OrgExportEntry>) -> Seq<char>
    decreases es.len(),
{
    if es.len() == 0 {
        seq![]
    } else {
        org_entry_text(es[0]) + org_entries_text(es.drop_first())
    }
}

/// The properties block between the day heading and its entries.
pub open spec fn org_props_text(created: Seq<char>) -> Seq<char> {
    seq![':', 'P', 'R', 'O', 'P', 'E', 'R', 'T', 'I', 'E', 'S', ':', '\n', ':', 'C', 'R', 'E',
        'A', 'T', 'E', 'D', ':', ' ', ' '] + created + seq!['\n', ':', 'E', 'N', 'D', ':', '\n']
}

/// One day block of an export document.
pub open spec fn org_day_text(d: OrgExportDay) -> Seq<char> {
    seq!['*', ' '] + d.date_line@ + seq!['\n'] + org_props_text(d.created@) + org_entries_text(
        d.entries@,
    )
}

pub open spec fn org_days_text(ds: Seq<OrgExportDay>) -> Seq<char>
    decreases ds.len(),
{
    if ds.len() == 0 {
        seq![]
    } else {
        org_day_text(ds[0]) + org_days_text(ds.drop_first())
    }
}

/// Append one day block.
fn push_org_day(out: &mut Vec<char>, day: &OrgExportDay)
    ensures
        final(out)@ == old(out)@ + org_day_text(*day),
{
    out.push('*');
    out.push(' ');
    append_str(out, day.date_line.as_str());
    out.push('\n');
    let props_open: Vec<char> = vec![
        ':', 'P', 'R', 'O', 'P', 'E', 'R', 'T', 'I', 'E', 'S', ':', '\n', ':', 'C', 'R', 'E',
        'A', 'T', 'E', 'D', ':', ' ', ' ',
    ];
    append_chars(out, &props_open);
    append_str(out, day.created.as_str());
    let props_close: Vec<char> = vec!['\n', ':', 'E', 'N', 'D', ':', '\n'];
    append_chars(out, &props_close);
    let ghost before_entries = out@;
    proof {
        assert(before_entries =~= old(out)@ + (seq!['*', ' '] + day.date_line@ + seq!['\n']
            + org_props_text(day.created@)));
    }
    let n = day.entries.len();
    proof {
        assert(day.entries@.skip(0) =~= day.entries@);
    }
    for k in 0..n
        invariant
            n == day.entries@.len(),
            before_entries == old(out)@ + (seq!['*', ' '] + day.date_line@ + seq!['\n']
                + org_props_text(day.created@)),
            before_entries + org_entries_text(day.entries@) =~= out@ + org_entries_text(
                day.entries@.skip(k as int),
            ),
    {
        proof {
            assert(day.entries@.skip(k as int)[0] == day.entries@[k as int]);
            assert(day.entries@.skip(k as int).drop_first() =~= day.entries@.skip(k + 1));
        }
        let ghost out0 = out@;
        let e = &day.entries[k];
        out.push('*');
        out.push('*');
        out.push(' ');
        append_str(out, e.time.as_str());
        out.push(' ');
        match &e.title {
            Some(title) => {
                append_str(out, title.as_str());
            },
            None => {},
        }
        out.push('\n');
        let body = convert_markdown_to_org(e.content.as_str(), 1);
        append_str(out, body.as_str());
        proof {
            assert(out@ =~= out0 + org_entry_text(day.entries@[k as int]));
            assert(org_entries_text(day.entries@.skip(k as int)) =~= org_entry_text(
                day.entries@[k as int],
            ) + org_entries_text(day.entries@.skip(k + 1)));
        }
    }
    proof {
        assert(day.entries@.skip(n as int) =~= Seq::<OrgExportEntry>::empty());
        assert(out@ =~= old(out)@ + org_day_text(*day));
    }
}

/// Format a whole outline export document from its day blocks.
pub fn format_org_export(days: &Vec<OrgExportDay>) -> (r: String)
    ensures
        r@ == org_days_text(days@),
{
    let mut out: Vec<char> = Vec::new();
    proof {
        assert(days@.skip(0) =~= days@);
        assert(out@ + org_days_text(days@) =~= org_days_text(days@));
    }
    for i in 0..days.len()
        invariant
            org_days_text(days@) =~= out@ + org_days_text(days@.skip(i as int)),
    {
        proof {
            assert(days@.skip(i as int)[0] == days@[i as int]);
            assert(days@.skip(i as int).drop_first() =~= days@.skip(i + 1));
        }
        push_org_day(&mut out, &days[i]);
    }
    proof {
        assert(days@.skip(days@.len() as int) =~= Seq::<OrgExportDay>::empty());
    }
    chars_to_string(&out)
}

} // verus!
