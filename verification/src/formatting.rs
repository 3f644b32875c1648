use vstd::prelude::*;
use crate::events::{events_of, tokenize, Kind, Token};
use crate::style::{initial_style, initial_style_exec, style_step, style_step_exec, StyleState};
use crate::text::{
    append_chars, append_str, chars_to_string, join_lines, lemma_join_lines_push, push_repeat, repeat_char,
    split_lines, split_lines_exec, str_to_chars, lines_view,
};

verus! {

// ---------------------------------------------------------------------------
// Terminal renderer
//
// The renderer consumes the event stream and emits one string with ANSI
// styling and OSC-8 hyperlink escape sequences.  With styling off it emits
// the bare text; the escape sequences it does emit are stated exactly, so a
// terminal receives byte-exact control sequences.
// ---------------------------------------------------------------------------

/// An SGR control sequence: ESC `[`, the parameters, `m`.
pub open spec fn sgr(params: Seq<char>) -> Seq<char> {
    seq!['\u{1b}', '['] + params + seq!['m']
}

/// The SGR sequence that clears all styling.
pub open spec fn sgr_reset() -> Seq<char> {
    sgr(seq!['0'])
}

/// `body` wrapped in one SGR sequence and a reset, when styling is on.
pub open spec fn colorize(body: Seq<char>, params: Seq<char>, colors: bool) -> Seq<char> {
    if colors {
        sgr(params) + body + sgr_reset()
    } else {
        body
    }
}

/// SGR parameters for the three inline styles: bold 1, italic 3,
/// strikethrough 9, joined with semicolons.
pub open spec fn text_params(bold: bool, italic: bool, strike: bool) -> Seq<char> {
    if bold && italic && strike {
        seq!['1', ';', '3', ';', '9']
    } else if bold && italic {
        seq!['1', ';', '3']
    } else if bold && strike {
        seq!['1', ';', '9']
    } else if italic && strike {
        seq!['3', ';', '9']
    } else if bold {
        seq!['1']
    } else if italic {
        seq!['3']
    } else if strike {
        seq!['9']
    } else {
        seq![]
    }
}

/// Bold bright blue, for heading prefixes.
pub open spec fn heading_params() -> Seq<char> {
    seq!['1', ';', '9', '4']
}

/// Bright yellow, for list bullets.
pub open spec fn bullet_params() -> Seq<char> {
    seq!['9', '3']
}

/// Bright green, for code.
pub open spec fn code_params() -> Seq<char> {
    seq!['9', '2']
}

/// Bright black, for quoted lines.
pub open spec fn quote_params() -> Seq<char> {
    seq!['9', '0']
}

/// The OSC-8 sequence that opens a hyperlink: ESC `]8;;`, the URL, ESC `\`.
pub open spec fn osc8_open(url: Seq<char>) -> Seq<char> {
    seq!['\u{1b}', ']', '8', ';', ';'] + url + seq!['\u{1b}', '\\']
}

/// The OSC-8 sequence that closes a hyperlink: the same prefix with an empty
/// URL.
pub open spec fn osc8_close() -> Seq<char> {
    seq!['\u{1b}', ']', '8', ';', ';', '\u{1b}', '\\']
}

/// A URL fit for an OSC-8 sequence holds neither ESC nor BEL.
pub open spec fn url_clean(url: Seq<char>) -> bool {
    forall|i: int| 0 <= i < url.len() ==> url[i] != '\u{1b}' && url[i] != '\u{07}'
}

/// The two-space indentation of a list item at depth `d`: one unit per level
/// of nesting beyond the first.
pub open spec fn item_indent(d: usize) -> Seq<char> {
    if d == 0 {
        seq![]
    } else {
        repeat_char(' ', 2 * (d - 1))
    }
}

/// A run of text, rendered under the current state: code text is
/// code-colored verbatim; quoted text is split into physical lines, each
/// prefixed with the quote glyph and dimmed; other text carries the open
/// inline styles.
pub open spec fn render_text(s: Seq<char>, st: StyleState, colors: bool) -> Seq<char> {
    if st.in_code_block {
        colorize(s, code_params(), colors)
    } else if st.in_block_quote {
        join_lines(
            split_lines(s).map_values(
                |l: Seq<char>| colorize(seq!['\u{2502}', ' '] + l, quote_params(), colors),
            ),
        )
    } else if st.bold || st.italic || st.strikethrough {
        colorize(s, text_params(st.bold, st.italic, st.strikethrough), colors)
    } else {
        s
    }
}

/// What one event adds to the rendered output, given the state before it.
pub open spec fn render_token(st: StyleState, e: Token, colors: bool) -> Seq<char> {
    match e {
        Token::BlockStart(k) => match k {
            Kind::Heading(l) => colorize(
                repeat_char('#', l as int) + seq![' '],
                heading_params(),
                colors,
            ),
            Kind::List(_) => seq!['\n'],
            Kind::ListItem => colorize(
                item_indent(st.list_depth) + seq!['\u{2022}', ' '],
                bullet_params(),
                colors,
            ),
            Kind::CodeBlock(_) => colorize(seq!['`', '`', '`'], code_params(), colors)
                + seq!['\n'],
            Kind::Link(url) => seq!['['] + osc8_open(url@),
            _ => seq![],
        },
        Token::BlockEnd(k) => match k {
            Kind::Paragraph => if st.in_block_quote {
                seq!['\n']
            } else {
                seq!['\n', '\n']
            },
            Kind::Heading(_) => seq!['\n', '\n'],
            Kind::List(_) => seq!['\n'],
            Kind::ListItem => seq!['\n'],
            Kind::BlockQuote => seq!['\n'],
            Kind::CodeBlock(_) => colorize(seq!['`', '`', '`'], code_params(), colors)
                + seq!['\n', '\n'],
            Kind::Link(_) => osc8_close() + seq![']'],
            _ => seq![],
        },
        Token::Text(s) => render_text(s@, st, colors),
        Token::CodeSpan(s) => colorize(seq!['`'] + s@ + seq!['`'], code_params(), colors),
        Token::SoftBreak => if st.in_block_quote {
            seq!['\n']
        } else {
            seq![' ']
        },
        Token::HardBreak => seq!['\n'],
    }
}

/// The rendering of a whole event sequence from a given state.
pub open spec fn render_seq(events: Seq<Token>, st: StyleState, colors: bool) -> Seq<char>
    decreases events.len(),
{
    if events.len() == 0 {
        seq![]
    } else {
        render_token(st, events[0], colors) + render_seq(
            events.drop_first(),
            style_step(st, events[0]),
            colors,
        )
    }
}

/// The rendering of a markup text: its event stream, rendered from the
/// initial state.
pub open spec fn rendered(content: Seq<char>, colors: bool) -> Seq<char> {
    render_seq(events_of(content), initial_style(), colors)
}

// ---------------------------------------------------------------------------
// Executable renderer
// ---------------------------------------------------------------------------

/// Append `body` wrapped in one SGR sequence and a reset when styling is on,
/// the bare body when it is off.
fn push_colorized(out: &mut Vec<char>, body: &Vec<char>, params: &Vec<char>, colors: bool)
    ensures
        final(out)@ == old(out)@ + colorize(body@, params@, colors),
{
    if colors {
        out.push('\u{1b}');
        out.push('[');
        append_chars(out, params);
        out.push('m');
        append_chars(out, body);
        out.push('\u{1b}');
        out.push('[');
        out.push('0');
        out.push('m');
        proof {
            assert(out@ =~= old(out)@ + (sgr(params@) + body@ + sgr_reset()));
        }
    } else {
        append_chars(out, body);
    }
}

/// The SGR parameters for the open inline styles.
fn text_params_exec(bold: bool, italic: bool, strike: bool) -> (r: Vec<char>)
    ensures
        r@ == text_params(bold, italic, strike),
{
    let mut r: Vec<char> = Vec::new();
    if bold {
        r.push('1');
    }
    if italic {
        if r.len() > 0 {
            r.push(';');
        }
        r.push('3');
    }
    if strike {
        if r.len() > 0 {
            r.push(';');
        }
        r.push('9');
    }
    proof {
        assert(r@ =~= text_params(bold, italic, strike));
    }
    r
}

/// Append the two-space indent of a list item at depth `d`.
pub fn push_item_indent(out: &mut Vec<char>, d: usize)
    ensures
        final(out)@ == old(out)@ + item_indent(d),
{
    if d == 0 {
        return ;
    }
    let n = d - 1;
    for j in 0..n
        invariant
            out@ =~= old(out)@ + repeat_char(' ', 2 * j),
    {
        out.push(' ');
        out.push(' ');
        proof {
            assert(repeat_char(' ', 2 * j + 1) =~= repeat_char(' ', 2 * j) + seq![' ']);
            assert(repeat_char(' ', 2 * j + 2) =~= repeat_char(' ', 2 * j + 1) + seq![' ']);
            assert(out@ =~= old(out)@ + repeat_char(' ', 2 * j + 2));
        }
    }
}

/// Append a text run quoted line by line: each physical line prefixed with
/// the quote glyph and dimmed, the lines joined with newlines.
fn push_quoted_text(out: &mut Vec<char>, s: &Vec<char>, colors: bool)
    ensures
        final(out)@ == old(out)@ + join_lines(
            split_lines(s@).map_values(
                |l: Seq<char>| colorize(seq!['\u{2502}', ' '] + l, quote_params(), colors),
            ),
        ),
{
    let ghost mapped = split_lines(s@).map_values(
        |l: Seq<char>| colorize(seq!['\u{2502}', ' '] + l, quote_params(), colors),
    );
    let lines = split_lines_exec(s);
    proof {
        assert(mapped.take(0) =~= Seq::<Seq<char>>::empty());
    }
    let params: Vec<char> = vec!['9', '0'];
    for i in 0..lines.len()
        invariant
            lines_view(lines@) == split_lines(s@),
            mapped == split_lines(s@).map_values(
                |l: Seq<char>| colorize(seq!['\u{2502}', ' '] + l, quote_params(), colors),
            ),
            params@ =~= quote_params(),
            out@ =~= old(out)@ + join_lines(mapped.take(i as int)),
    {
        if i > 0 {
            out.push('\n');
        }
        let mut body: Vec<char> = Vec::new();
        body.push('\u{2502}');
        body.push(' ');
        append_chars(&mut body, &lines[i]);
        proof {
            assert(lines_view(lines@)[i as int] == lines@[i as int]@);
            assert(body@ =~= seq!['\u{2502}', ' '] + split_lines(s@)[i as int]);
        }
        push_colorized(out, &body, &params, colors);
        proof {
            assert(mapped[i as int] == colorize(
                seq!['\u{2502}', ' '] + split_lines(s@)[i as int],
                quote_params(),
                colors,
            ));
            assert(colorize(body@, params@, colors) == mapped[i as int]);
            lemma_join_lines_push(mapped.take(i as int), mapped[i as int]);
            assert(mapped.take(i as int).push(mapped[i as int]) =~= mapped.take(i + 1));
            assert(mapped.take(i as int).len() == i);
            assert(out@ =~= old(out)@ + join_lines(mapped.take(i + 1)));
        }
    }
    proof {
        assert(mapped.take(mapped.len() as int) =~= mapped);
    }
}

/// Append what one event renders to, given the state before it.
fn render_one(out: &mut Vec<char>, st: &StyleState, e: &Token, colors: bool)
    ensures
        final(out)@ == old(out)@ + render_token(*st, *e, colors),
{
    match e {
        Token::BlockStart(k) => match k {
            Kind::Heading(l) => {
                let mut body: Vec<char> = Vec::new();
                push_repeat(&mut body, '#', *l as usize);
                body.push(' ');
                let params: Vec<char> = vec!['1', ';', '9', '4'];
                proof {
                    assert(body@ =~= repeat_char('#', *l as int) + seq![' ']);
                    assert(params@ =~= heading_params());
                }
                push_colorized(out, &body, &params, colors);
            },
            Kind::List(_) => {
                out.push('\n');
                proof {
                    assert(out@ =~= old(out)@ + seq!['\n']);
                }
            },
            Kind::ListItem => {
                let mut body: Vec<char> = Vec::new();
                push_item_indent(&mut body, st.list_depth);
                body.push('\u{2022}');
                body.push(' ');
                let params: Vec<char> = vec!['9', '3'];
                proof {
                    assert(body@ =~= item_indent(st.list_depth) + seq!['\u{2022}', ' ']);
                    assert(params@ =~= bullet_params());
                }
                push_colorized(out, &body, &params, colors);
            },
            Kind::CodeBlock(_) => {
                let body: Vec<char> = vec!['`', '`', '`'];
                let params: Vec<char> = vec!['9', '2'];
                proof {
                    assert(body@ =~= seq!['`', '`', '`']);
                    assert(params@ =~= code_params());
                }
                push_colorized(out, &body, &params, colors);
                out.push('\n');
                proof {
                    assert(out@ =~= old(out)@ + (colorize(
                        seq!['`', '`', '`'],
                        code_params(),
                        colors,
                    ) + seq!['\n']));
                }
            },
            Kind::Link(url) => {
                out.push('[');
                out.push('\u{1b}');
                out.push(']');
                out.push('8');
                out.push(';');
                out.push(';');
                let u = str_to_chars(url.as_str());
                append_chars(out, &u);
                out.push('\u{1b}');
                out.push('\\');
                proof {
                    assert(out@ =~= old(out)@ + (seq!['['] + osc8_open(url@)));
                }
            },
            _ => {
                proof {
                    assert(out@ =~= old(out)@ + Seq::<char>::empty());
                }
            },
        },
        Token::BlockEnd(k) => match k {
            Kind::Paragraph => {
                out.push('\n');
                if !st.in_block_quote {
                    out.push('\n');
                    proof {
                        assert(out@ =~= old(out)@ + seq!['\n', '\n']);
                    }
                } else {
                    proof {
                        assert(out@ =~= old(out)@ + seq!['\n']);
                    }
                }
            },
            Kind::Heading(_) => {
                out.push('\n');
                out.push('\n');
                proof {
                    assert(out@ =~= old(out)@ + seq!['\n', '\n']);
                }
            },
            Kind::List(_) => {
                out.push('\n');
                proof {
                    assert(out@ =~= old(out)@ + seq!['\n']);
                }
            },
            Kind::ListItem => {
                out.push('\n');
                proof {
                    assert(out@ =~= old(out)@ + seq!['\n']);
                }
            },
            Kind::BlockQuote => {
                out.push('\n');
                proof {
                    assert(out@ =~= old(out)@ + seq!['\n']);
                }
            },
            Kind::CodeBlock(_) => {
                let body: Vec<char> = vec!['`', '`', '`'];
                let params: Vec<char> = vec!['9', '2'];
                proof {
                    assert(body@ =~= seq!['`', '`', '`']);
                    assert(params@ =~= code_params());
                }
                push_colorized(out, &body, &params, colors);
                out.push('\n');
                out.push('\n');
                proof {
                    assert(out@ =~= old(out)@ + (colorize(
                        seq!['`', '`', '`'],
                        code_params(),
                        colors,
                    ) + seq!['\n', '\n']));
                }
            },
            Kind::Link(_) => {
                out.push('\u{1b}');
                out.push(']');
                out.push('8');
                out.push(';');
                out.push(';');
                out.push('\u{1b}');
                out.push('\\');
                out.push(']');
                proof {
                    assert(out@ =~= old(out)@ + (osc8_close() + seq![']']));
                }
            },
            _ => {
                proof {
                    assert(out@ =~= old(out)@ + Seq::<char>::empty());
                }
            },
        },
        Token::Text(s) => {
            let v = str_to_chars(s.as_str());
            if st.in_code_block {
                let params: Vec<char> = vec!['9', '2'];
                proof {
                    assert(params@ =~= code_params());
                }
                push_colorized(out, &v, &params, colors);
            } else if st.in_block_quote {
                push_quoted_text(out, &v, colors);
            } else if st.bold || st.italic || st.strikethrough {
                let params = text_params_exec(st.bold, st.italic, st.strikethrough);
                push_colorized(out, &v, &params, colors);
            } else {
                append_chars(out, &v);
            }
        },
        Token::CodeSpan(s) => {
            let mut body: Vec<char> = Vec::new();
            body.push('`');
            append_str(&mut body, s.as_str());
            body.push('`');
            let params: Vec<char> = vec!['9', '2'];
            proof {
                assert(body@ =~= seq!['`'] + s@ + seq!['`']);
                assert(params@ =~= code_params());
            }
            push_colorized(out, &body, &params, colors);
        },
        Token::SoftBreak => {
            if st.in_block_quote {
                out.push('\n');
                proof {
                    assert(out@ =~= old(out)@ + seq!['\n']);
                }
            } else {
                out.push(' ');
                proof {
                    assert(out@ =~= old(out)@ + seq![' ']);
                }
            }
        },
        Token::HardBreak => {
            out.push('\n');
            proof {
                assert(out@ =~= old(out)@ + seq!['\n']);
            }
        },
    }
}

/// Render an event sequence from the initial state.
pub fn render_events(events: &Vec<Token>, colors: bool) -> (r: String)
    ensures
        r@ == render_seq(events@, initial_style(), colors),
{
    let mut out: Vec<char> = Vec::new();
    let mut st = initial_style_exec();
    proof {
        assert(events@.skip(0) =~= events@);
        assert(out@ + render_seq(events@, initial_style(), colors) =~= render_seq(
            events@,
            initial_style(),
            colors,
        ));
    }
    for i in 0..events.len()
        invariant
            render_seq(events@, initial_style(), colors) =~= out@ + render_seq(
                events@.skip(i as int),
                st,
                colors,
            ),
    {
        proof {
            assert(events@.skip(i as int)[0] == events@[i as int]);
            assert(events@.skip(i as int).drop_first() =~= events@.skip(i + 1));
        }
        render_one(&mut out, &st, &events[i], colors);
        st = style_step_exec(&st, &events[i]);
    }
    proof {
        assert(events@.skip(events@.len() as int) =~= Seq::<Token>::empty());
    }
    chars_to_string(&out)
}

/// Render markup text for the terminal.  The flag turns ANSI styling on or
/// off; OSC-8 hyperlink sequences are emitted either way.
pub fn render_markdown(content: &str, colors: bool) -> (r: String)
    ensures
        r@ == rendered(content@, colors),
{
    let events = tokenize(content);
    render_events(&events, colors)
}

/// The OSC-8 sequence that opens a hyperlink on the given URL.  The URL must
/// hold neither ESC nor BEL, as the OSC-8 convention requires.
pub fn hyperlink_start(link_url: &str) -> (r: String)
    requires
        url_clean(link_url@),
    ensures
        r@ == osc8_open(link_url@),
{
    let mut out: Vec<char> = Vec::new();
    out.push('\u{1b}');
    out.push(']');
    out.push('8');
    out.push(';');
    out.push(';');
    append_str(&mut out, link_url);
    out.push('\u{1b}');
    out.push('\\');
    proof {
        assert(out@ =~= osc8_open(link_url@));
    }
    chars_to_string(&out)
}

/// The OSC-8 sequence that closes a hyperlink.
pub fn hyperlink_end() -> (r: String)
    ensures
        r@ == osc8_close(),
{
    let mut out: Vec<char> = Vec::new();
    out.push('\u{1b}');
    out.push(']');
    out.push('8');
    out.push(';');
    out.push(';');
    out.push('\u{1b}');
    out.push('\\');
    proof {
        assert(out@ =~= osc8_close());
    }
    chars_to_string(&out)
}

// ---------------------------------------------------------------------------
// Laws of the renderer
// ---------------------------------------------------------------------------

/// Plain paragraph text with no markup constructs renders as the input text
/// itself, up to the required paragraph-separator newlines.
pub proof fn lemma_plain_paragraph(s: String, colors: bool)
    ensures
        render_seq(
            seq![
                Token::BlockStart(Kind::Paragraph),
                Token::Text(s),
                Token::BlockEnd(Kind::Paragraph),
            ],
            initial_style(),
            colors,
        ) == s@ + seq!['\n', '\n'],
{
    let evs = seq![
        Token::BlockStart(Kind::Paragraph),
        Token::Text(s),
        Token::BlockEnd(Kind::Paragraph),
    ];
    let tail1 = seq![Token::Text(s), Token::BlockEnd(Kind::Paragraph)];
    let tail2 = seq![Token::BlockEnd(Kind::Paragraph)];
    let st0 = initial_style();
    let st1 = style_step(st0, evs[0]);
    let st2 = style_step(st1, tail1[0]);
    let st3 = style_step(st2, tail2[0]);
    assert(evs.drop_first() =~= tail1);
    assert(tail1.drop_first() =~= tail2);
    assert(tail2.drop_first() =~= Seq::<Token>::empty());
    assert(render_seq(Seq::<Token>::empty(), st3, colors) == Seq::<char>::empty());
    assert(st1 == st0);
    assert(st2 == st0);
    assert(render_token(st1, tail1[0], colors) == s@);
    assert(render_seq(tail2, st2, colors) =~= seq!['\n', '\n']);
    assert(render_seq(tail1, st1, colors) =~= s@ + seq!['\n', '\n']);
    assert(render_seq(evs, st0, colors) =~= s@ + seq!['\n', '\n']);
}

/// Inside a block quote a soft break becomes a hard line break.
pub proof fn lemma_quote_soft_break(st: StyleState, colors: bool)
    requires
        st.in_block_quote,
    ensures
        render_token(st, Token::SoftBreak, colors) == seq!['\n'],
{
}

/// A two-line quoted text run renders as two separately prefixed output
/// lines: one quote glyph per physical line.
pub proof fn lemma_quote_two_lines(a: Seq<char>, b: Seq<char>, st: StyleState, colors: bool)
    requires
        st.in_block_quote,
        !st.in_code_block,
        !a.contains('\n'),
        !b.contains('\n'),
        b.len() > 0,
    ensures
        render_text(a + seq!['\n'] + b, st, colors) == colorize(
            seq!['\u{2502}', ' '] + a,
            quote_params(),
            colors,
        ) + seq!['\n'] + colorize(seq!['\u{2502}', ' '] + b, quote_params(), colors),
{
    crate::text::lemma_split_lines_step(a, b);
    crate::text::lemma_split_lines_flat(b);
    let t = a + seq!['\n'] + b;
    assert(split_lines(t) == seq![a] + split_lines(b));
    assert(split_lines(t) =~~= seq![a, b]);
    let mapped = split_lines(t).map_values(
        |l: Seq<char>| colorize(seq!['\u{2502}', ' '] + l, quote_params(), colors),
    );
    let fa = colorize(seq!['\u{2502}', ' '] + a, quote_params(), colors);
    let fb = colorize(seq!['\u{2502}', ' '] + b, quote_params(), colors);
    assert(mapped.len() == 2);
    assert(mapped[0] == fa);
    assert(mapped[1] == fb);
    assert(mapped.drop_first() =~= seq![fb]);
    assert(join_lines(seq![fb]) == fb) by {
        assert(seq![fb][0] == fb);
    }
    assert(join_lines(mapped) == fa + seq!['\n'] + fb);
}

/// List item indentation: no unit at the outermost level, one two-space
/// unit more for each further level of nesting.
pub proof fn lemma_item_indent_len(d: usize)
    ensures
        d == 0 ==> item_indent(d).len() == 0,
        d >= 1 ==> item_indent(d).len() == 2 * (d - 1),
        1 <= d < usize::MAX ==> item_indent(crate::style::depth_up(d)).len() == item_indent(
            d,
        ).len() + 2,
{
    crate::text::lemma_repeat_char_len(' ', 2 * (d - 1));
    if 1 <= d && d < usize::MAX {
        crate::text::lemma_repeat_char_len(' ', 2 * (crate::style::depth_up(d) - 1));
    }
}

} // verus!
