use vstd::prelude::*;
use crate::text::{
    append_chars, chars_eq, chars_to_string, dec_digits, dec_signed_val, dec_val, find_from,
    find_sub, is_ws, join_lines, join_range, lemma_find_from_props, lines_view, match_at,
    match_at_exec, trim_start_spec,
    parse_i32, parse_u32, parses_dec, parses_dec_signed, push_repeat, repeat_char, split_lines,
    split_lines_exec, str_to_chars, subvec, trim, trim_spec,
};

verus! {

// ---------------------------------------------------------------------------
// Outline-to-markup converter
//
// The inverse direction: a line-oriented state machine that scans
// outline-dialect text and rewrites it into the canonical markup.  Two flags
// carry the state from line to line: inside a code block, inside a quote.
// ---------------------------------------------------------------------------

/// Each occurrence of `from` replaced by `to`.
pub open spec fn subst_delim(s: Seq<char>, from: char, to: char) -> Seq<char> {
    s.map_values(|c: char| if c == from { to } else { c })
}

/// Each occurrence of `from` replaced by `to`, over a character vector.
fn subst_vec(v: &Vec<char>, from_delim: char, to_delim: char) -> (r: Vec<char>)
    ensures
        r@ == subst_delim(v@, from_delim, to_delim),
{
    let mut out: Vec<char> = Vec::new();
    for i in 0..v.len()
        invariant
            out@ =~= subst_delim(v@, from_delim, to_delim).take(i as int),
    {
        if v[i] == from_delim {
            out.push(to_delim);
        } else {
            out.push(v[i]);
        }
        proof {
            assert(out@ =~= subst_delim(v@, from_delim, to_delim).take(i + 1));
        }
    }
    proof {
        assert(subst_delim(v@, from_delim, to_delim).take(v@.len() as int) =~= subst_delim(
            v@,
            from_delim,
            to_delim,
        ));
    }
    out
}

/// Convert delimiter-based formatting: the delimiter character is treated as
/// a toggle and rewritten one character for one character.
pub fn convert_delimiter(text: &str, from_delim: char, to_delim: char) -> (r: String)
    ensures
        r@ == subst_delim(text@, from_delim, to_delim),
{
    let v = str_to_chars(text);
    let out = subst_vec(&v, from_delim, to_delim);
    chars_to_string(&out)
}

/// Each marker character doubled, turning the outline bold toggle into the
/// markup bold pair.
pub open spec fn double_stars(s: Seq<char>) -> Seq<char>
    decreases s.len(),
{
    if s.len() == 0 {
        seq![]
    } else {
        (if s[0] == '*' {
            seq!['*', '*']
        } else {
            seq![s[0]]
        }) + double_stars(s.drop_first())
    }
}

proof fn lemma_double_stars_push(s: Seq<char>, c: char)
    ensures
        double_stars(s.push(c)) == double_stars(s) + (if c == '*' {
            seq!['*', '*']
        } else {
            seq![c]
        }),
    decreases s.len(),
{
    if s.len() == 0 {
        assert(s.push(c)[0] == c);
        assert(s.push(c).drop_first() =~= Seq::<char>::empty());
        assert(double_stars(Seq::<char>::empty()) == Seq::<char>::empty());
        assert(double_stars(s.push(c)) =~= (if c == '*' {
            seq!['*', '*']
        } else {
            seq![c]
        }));
    } else {
        lemma_double_stars_push(s.drop_first(), c);
        assert(s.push(c).drop_first() =~= s.drop_first().push(c));
        assert(s.push(c)[0] == s[0]);
        assert(double_stars(s) + (if c == '*' {
            seq!['*', '*']
        } else {
            seq![c]
        }) =~= (if s[0] == '*' {
            seq!['*', '*']
        } else {
            seq![s[0]]
        }) + (double_stars(s.drop_first()) + (if c == '*' {
            seq!['*', '*']
        } else {
            seq![c]
        })));
    }
}

/// Double each marker character of `v` onto the end of a fresh vector.
fn double_stars_exec(v: &Vec<char>) -> (r: Vec<char>)
    ensures
        r@ == double_stars(v@),
{
    let mut out: Vec<char> = Vec::new();
    for i in 0..v.len()
        invariant
            out@ =~= double_stars(v@.take(i as int)),
    {
        if v[i] == '*' {
            out.push('*');
            out.push('*');
        } else {
            out.push(v[i]);
        }
        proof {
            lemma_double_stars_push(v@.take(i as int), v@[i as int]);
            assert(v@.take(i as int).push(v@[i as int]) =~= v@.take(i + 1));
            assert(out@ =~= double_stars(v@.take(i + 1)));
        }
    }
    proof {
        assert(v@.take(v@.len() as int) =~= v@);
    }
    out
}

// ---------------------------------------------------------------------------
// Bracket links
// ---------------------------------------------------------------------------

/// One link rewriting step: locate the first `[[url][text]]` quadruple and
/// replace it by `[text](url)`; nothing to do when the brackets cannot all be
/// found.  Search stops at the first irrecoverable point.
pub open spec fn link_step(s: Seq<char>) -> Option<Seq<char>> {
    let start = find_from(s, seq!['[', '['], 0);
    if start < 0 {
        None
    } else {
        let mid = find_from(s, seq![']', '['], start);
        if mid < 0 {
            None
        } else {
            let stop = find_from(s, seq![']', ']'], mid);
            if stop < 0 {
                None
            } else {
                Some(
                    s.take(start) + seq!['['] + s.subrange(mid + 2, stop) + seq![']', '(']
                        + s.subrange(start + 2, mid) + seq![')'] + s.skip(stop + 2),
                )
            }
        }
    }
}

/// Positions found by a link step are ordered and in range.
proof fn lemma_link_step_bounds(s: Seq<char>)
    requires
        link_step(s) is Some,
    ensures
        ({
            let start = find_from(s, seq!['[', '['], 0);
            let mid = find_from(s, seq![']', '['], start);
            let stop = find_from(s, seq![']', ']'], mid);
            &&& 0 <= start
            &&& start + 2 <= mid
            &&& mid + 2 <= stop
            &&& stop + 2 <= s.len()
            &&& link_step(s)->Some_0.len() == s.len() - 2
        }),
{
    let start = find_from(s, seq!['[', '['], 0);
    lemma_find_from_props(s, seq!['[', '['], 0);
    let mid = find_from(s, seq![']', '['], start);
    lemma_find_from_props(s, seq![']', '['], start);
    let stop = find_from(s, seq![']', ']'], mid);
    lemma_find_from_props(s, seq![']', ']'], mid);
    assert(match_at(s, seq!['[', '['], start));
    assert(match_at(s, seq![']', '['], mid));
    assert(match_at(s, seq![']', ']'], stop));
    assert(s[start] == '[') by {
        assert(s.subrange(start, start + 2)[0] == s[start]);
    }
    assert(s[start + 1] == '[') by {
        assert(s.subrange(start, start + 2)[1] == s[start + 1]);
    }
    assert(s[mid] == ']') by {
        assert(s.subrange(mid, mid + 2)[0] == s[mid]);
    }
    assert(s[mid + 1] == '[') by {
        assert(s.subrange(mid, mid + 2)[1] == s[mid + 1]);
    }
    assert(s[stop] == ']') by {
        assert(s.subrange(stop, stop + 2)[0] == s[stop]);
    }
    assert(s[stop + 1] == ']') by {
        assert(s.subrange(stop, stop + 2)[1] == s[stop + 1]);
    }
    assert(mid != start);
    assert(mid != start + 1);
    assert(stop != mid);
    assert(stop != mid + 1);
}

/// Link rewriting bounded by fuel; each step shortens the line, so any fuel
/// at least the line length rewrites every quadruple.
pub open spec fn links_rec(s: Seq<char>, fuel: nat) -> Seq<char>
    decreases fuel,
{
    if fuel == 0 {
        s
    } else {
        match link_step(s) {
            Option::None => s,
            Option::Some(t) => links_rec(t, (fuel - 1) as nat),
        }
    }
}

/// The bracket-link rewriting of one line.
pub open spec fn org_links_spec(s: Seq<char>) -> Seq<char> {
    links_rec(s, s.len())
}

/// Any fuel at least the line length gives the full rewriting.
proof fn lemma_links_fuel(s: Seq<char>, fuel: nat)
    requires
        fuel >= s.len(),
    ensures
        links_rec(s, fuel) == org_links_spec(s),
    decreases s.len(),
{
    match link_step(s) {
        Option::None => {},
        Option::Some(t) => {
            lemma_link_step_bounds(s);
            assert(t.len() == s.len() - 2);
            assert(fuel >= 2);
            assert(links_rec(s, fuel) == links_rec(t, (fuel - 1) as nat));
            assert(links_rec(s, s.len() as nat) == links_rec(t, (s.len() - 1) as nat));
            lemma_links_fuel(t, (fuel - 1) as nat);
            lemma_links_fuel(t, (s.len() - 1) as nat);
        },
    }
}

/// A rewriting step keeps the final rewriting.
proof fn lemma_links_step_stable(s: Seq<char>, t: Seq<char>)
    requires
        link_step(s) == Option::Some(t),
    ensures
        org_links_spec(s) == org_links_spec(t),
{
    lemma_link_step_bounds(s);
    assert(s.len() >= 2);
    assert(links_rec(s, s.len() as nat) == links_rec(t, (s.len() - 1) as nat));
    lemma_links_fuel(t, (s.len() - 1) as nat);
}

/// Rewrite every bracket-link quadruple of `v`, first match first.
fn org_links_vec(v: Vec<char>) -> (r: Vec<char>)
    ensures
        r@ == org_links_spec(v@),
{
    let ghost v0 = v@;
    let mut cur = v;
    let pat_open: Vec<char> = vec!['[', '['];
    let pat_mid: Vec<char> = vec![']', '['];
    let pat_close: Vec<char> = vec![']', ']'];
    loop
        invariant
            pat_open@ =~= seq!['[', '['],
            pat_mid@ =~= seq![']', '['],
            pat_close@ =~= seq![']', ']'],
            org_links_spec(cur@) == org_links_spec(v0),
        ensures
            link_step(cur@) is None,
            org_links_spec(cur@) == org_links_spec(v0),
        decreases cur@.len(),
    {
        let start = match find_sub(&cur, &pat_open, 0) {
            Some(i) => i,
            None => {
                break ;
            },
        };
        let mid = match find_sub(&cur, &pat_mid, start) {
            Some(i) => i,
            None => {
                break ;
            },
        };
        let stop = match find_sub(&cur, &pat_close, mid) {
            Some(i) => i,
            None => {
                break ;
            },
        };
        proof {
            lemma_link_step_bounds(cur@);
            assert(start + 2 <= mid as int);
            assert(mid + 2 <= stop as int);
            assert(stop + 2 <= cur@.len());
        }
        let mut next: Vec<char> = subvec(&cur, 0, start);
        next.push('[');
        let link_text = subvec(&cur, mid + 2, stop);
        append_chars(&mut next, &link_text);
        next.push(']');
        next.push('(');
        let url = subvec(&cur, start + 2, mid);
        append_chars(&mut next, &url);
        next.push(')');
        let n = cur.len();
        let rest = subvec(&cur, stop + 2, n);
        append_chars(&mut next, &rest);
        proof {
            assert(cur@.subrange(stop + 2, cur@.len() as int) =~= cur@.skip(stop + 2));
            assert(cur@.subrange(0, start as int) =~= cur@.take(start as int));
            assert(next@ =~= link_step(cur@)->Some_0);
            lemma_links_step_stable(cur@, next@);
        }
        cur = next;
    }
    proof {
        assert(org_links_spec(cur@) == cur@) by {
            if cur@.len() > 0 {
                assert(links_rec(cur@, cur@.len() as nat) == cur@);
            }
        }
    }
    cur
}

/// Convert bracket links `[[url][text]]` to markup links `[text](url)`,
/// replacing the first quadruple and repeating until no more matches exist.
pub fn convert_org_links(text: &str) -> (r: String)
    ensures
        r@ == org_links_spec(text@),
{
    let v = str_to_chars(text);
    let out = org_links_vec(v);
    chars_to_string(&out)
}

// ---------------------------------------------------------------------------
// The line state machine
// ---------------------------------------------------------------------------

/// `s` without its leading run of the character `c`.
pub open spec fn strip_char_start(s: Seq<char>, c: char) -> Seq<char>
    decreases s.len(),
{
    if s.len() > 0 && s[0] == c {
        strip_char_start(s.drop_first(), c)
    } else {
        s
    }
}

proof fn lemma_strip_char_start_chars(s: Seq<char>, c: char, k: int)
    requires
        0 <= k <= s.len(),
        forall|i: int| 0 <= i < k ==> s[i] == c,
        k < s.len() ==> s[k] != c,
    ensures
        strip_char_start(s, c) == s.skip(k),
    decreases k,
{
    if k == 0 {
        assert(s.skip(0) =~= s);
    } else {
        assert(s[0] == c);
        lemma_strip_char_start_chars(s.drop_first(), c, k - 1);
        assert(s.drop_first().skip(k - 1) =~= s.skip(k));
    }
}

/// Length of the leading run of `c` in `v`.
fn count_leading(v: &Vec<char>, c: char) -> (k: usize)
    ensures
        k <= v@.len(),
        forall|i: int| 0 <= i < k ==> v@[i] == c,
        k < v@.len() ==> v@[k as int] != c,
{
    let mut k: usize = 0;
    while k < v.len()
        invariant
            k <= v@.len(),
            forall|i: int| 0 <= i < k ==> v@[i] == c,
        decreases v@.len() - k,
    {
        if v[k] != c {
            return k;
        }
        k = k + 1;
    }
    k
}

/// The begin marker of an outline code block, as scanned on import.
pub open spec fn begin_src_pat() -> Seq<char> {
    seq!['#', '+', 'B', 'E', 'G', 'I', 'N', '_', 'S', 'R', 'C']
}

/// The end marker of an outline code block.
pub open spec fn end_src_pat() -> Seq<char> {
    seq!['#', '+', 'E', 'N', 'D', '_', 'S', 'R', 'C']
}

/// The begin marker of an outline quote block.
pub open spec fn begin_quote_pat() -> Seq<char> {
    seq!['#', '+', 'B', 'E', 'G', 'I', 'N', '_', 'Q', 'U', 'O', 'T', 'E']
}

/// The end marker of an outline quote block.
pub open spec fn end_quote_pat() -> Seq<char> {
    seq!['#', '+', 'E', 'N', 'D', '_', 'Q', 'U', 'O', 'T', 'E']
}

/// One line of outline text converted to markup, with the state it leaves
/// behind.  In order: a code-fence marker toggles the code state and emits a
/// markup fence (with the language tag on open); inside a code block the
/// line passes through verbatim; a quote marker toggles the quote state and
/// emits nothing; a heading line (a marker at the start followed by a space
/// or the line end, so that an inline bold toggle is not mistaken for a
/// heading) becomes a markup heading; any other line gets the delimiter
/// substitutions and the bracket-link rewriting, and a quote prefix when a
/// quote is open and the line is non-blank.
pub open spec fn conv_line(line: Seq<char>, in_src: bool, in_quote: bool) -> (
    Seq<char>,
    bool,
    bool,
) {
    let t = trim_spec(line);
    if match_at(t, begin_src_pat(), 0) {
        (seq!['`', '`', '`'] + trim_spec(t.skip(11)) + seq!['\n'], true, in_quote)
    } else if t == end_src_pat() {
        (seq!['`', '`', '`', '\n'], false, in_quote)
    } else if in_src {
        (line + seq!['\n'], in_src, in_quote)
    } else if match_at(t, begin_quote_pat(), 0) {
        (seq![], in_src, true)
    } else if t == end_quote_pat() {
        (seq![], in_src, false)
    } else {
        let conv = if t.len() > 0 && t[0] == '*' && (t.len() == 1 || t[1] == ' ') {
            let rest = strip_char_start(t, '*');
            repeat_char('#', t.len() - rest.len()) + seq![' '] + trim_spec(rest)
        } else {
            org_links_spec(
                subst_delim(
                    subst_delim(subst_delim(double_stars(line), '/', '*'), '+', '~'),
                    '~',
                    '`',
                ),
            )
        };
        if in_quote && trim_spec(conv).len() > 0 {
            (seq!['>', ' '] + conv + seq!['\n'], in_src, in_quote)
        } else {
            (conv + seq!['\n'], in_src, in_quote)
        }
    }
}

/// The conversion of a sequence of lines, threading the state.
pub open spec fn conv_lines(lines: Seq<Seq<char>>, in_src: bool, in_quote: bool) -> Seq<char>
    decreases lines.len(),
{
    if lines.len() == 0 {
        seq![]
    } else {
        let step = conv_line(lines[0], in_src, in_quote);
        step.0 + conv_lines(lines.drop_first(), step.1, step.2)
    }
}

/// The conversion of a whole outline text: its lines, converted in order,
/// and the result trimmed.
pub open spec fn org_to_markdown_spec(org: Seq<char>) -> Seq<char> {
    trim_spec(conv_lines(split_lines(org), false, false))
}

/// Convert one line, returning the output and the new state.
fn conv_line_exec(line: &Vec<char>, in_src: bool, in_quote: bool) -> (r: (Vec<char>, bool, bool))
    ensures
        r.0@ == conv_line(line@, in_src, in_quote).0,
        r.1 == conv_line(line@, in_src, in_quote).1,
        r.2 == conv_line(line@, in_src, in_quote).2,
{
    let t = trim(line);
    let begin_src: Vec<char> = vec!['#', '+', 'B', 'E', 'G', 'I', 'N', '_', 'S', 'R', 'C'];
    let end_src: Vec<char> = vec!['#', '+', 'E', 'N', 'D', '_', 'S', 'R', 'C'];
    let begin_quote: Vec<char> = vec![
        '#', '+', 'B', 'E', 'G', 'I', 'N', '_', 'Q', 'U', 'O', 'T', 'E',
    ];
    let end_quote: Vec<char> = vec!['#', '+', 'E', 'N', 'D', '_', 'Q', 'U', 'O', 'T', 'E'];
    proof {
        assert(begin_src@ =~= begin_src_pat());
        assert(end_src@ =~= end_src_pat());
        assert(begin_quote@ =~= begin_quote_pat());
        assert(end_quote@ =~= end_quote_pat());
    }
    if match_at_exec(&t, &begin_src, 0) {
        let lang_raw = subvec(&t, 11, t.len());
        let lang = trim(&lang_raw);
        let mut out: Vec<char> = vec!['`', '`', '`'];
        append_chars(&mut out, &lang);
        out.push('\n');
        proof {
            assert(t@.subrange(11, t@.len() as int) =~= t@.skip(11));
            assert(out@ =~= seq!['`', '`', '`'] + trim_spec(t@.skip(11)) + seq!['\n']);
        }
        (out, true, in_quote)
    } else if chars_eq(&t, &end_src) {
        let out: Vec<char> = vec!['`', '`', '`', '\n'];
        proof {
            assert(out@ =~= seq!['`', '`', '`', '\n']);
        }
        (out, false, in_quote)
    } else if in_src {
        let mut out: Vec<char> = Vec::new();
        append_chars(&mut out, line);
        out.push('\n');
        proof {
            assert(out@ =~= line@ + seq!['\n']);
        }
        (out, in_src, in_quote)
    } else if match_at_exec(&t, &begin_quote, 0) {
        let out: Vec<char> = Vec::new();
        proof {
            assert(out@ =~= conv_line(line@, in_src, in_quote).0);
        }
        (out, in_src, true)
    } else if chars_eq(&t, &end_quote) {
        let out: Vec<char> = Vec::new();
        proof {
            assert(out@ =~= conv_line(line@, in_src, in_quote).0);
        }
        (out, in_src, false)
    } else {
        let is_heading = t.len() > 0 && t[0] == '*' && (t.len() == 1 || t[1] == ' ');
        let conv: Vec<char> = if is_heading {
            let k = count_leading(&t, '*');
            proof {
                lemma_strip_char_start_chars(t@, '*', k as int);
            }
            let rest = subvec(&t, k, t.len());
            proof {
                assert(rest@ =~= t@.skip(k as int));
            }
            let mut o: Vec<char> = Vec::new();
            push_repeat(&mut o, '#', k);
            o.push(' ');
            let rest_t = trim(&rest);
            append_chars(&mut o, &rest_t);
            proof {
                assert(t@.len() - strip_char_start(t@, '*').len() == k as int);
                assert(o@ =~= repeat_char('#', t@.len() - strip_char_start(t@, '*').len())
                    + seq![' '] + trim_spec(strip_char_start(t@, '*')));
            }
            o
        } else {
            let d1 = double_stars_exec(line);
            let d2 = subst_vec(&d1, '/', '*');
            let d3 = subst_vec(&d2, '+', '~');
            let d4 = subst_vec(&d3, '~', '`');
            org_links_vec(d4)
        };
        let ct = trim(&conv);
        if in_quote && ct.len() > 0 {
            let mut out: Vec<char> = vec!['>', ' '];
            append_chars(&mut out, &conv);
            out.push('\n');
            proof {
                assert(out@ =~= seq!['>', ' '] + conv@ + seq!['\n']);
            }
            (out, in_src, in_quote)
        } else {
            let mut out = conv;
            out.push('\n');
            proof {
                assert(out@ =~= conv_line(line@, in_src, in_quote).0);
            }
            (out, in_src, in_quote)
        }
    }
}

/// Convert outline-dialect text to the canonical markup, line by line.
pub fn convert_org_to_markdown(org: &str) -> (r: String)
    ensures
        r@ == org_to_markdown_spec(org@),
{
    let v = str_to_chars(org);
    let lines = split_lines_exec(&v);
    let ghost all = split_lines(org@);
    let mut out: Vec<char> = Vec::new();
    let mut in_src = false;
    let mut in_quote = false;
    proof {
        assert(all.skip(0) =~= all);
        assert(out@ + conv_lines(all, false, false) =~= conv_lines(all, false, false));
    }
    for i in 0..lines.len()
        invariant
            lines_view(lines@) == all,
            all == split_lines(org@),
            conv_lines(all, false, false) =~= out@ + conv_lines(all.skip(i as int), in_src, in_quote),
    {
        proof {
            assert(all.skip(i as int)[0] == all[i as int]);
            assert(all.skip(i as int).drop_first() =~= all.skip(i + 1));
            assert(lines@[i as int]@ == all[i as int]);
        }
        let step = conv_line_exec(&lines[i], in_src, in_quote);
        append_chars(&mut out, &step.0);
        in_src = step.1;
        in_quote = step.2;
    }
    proof {
        assert(all.skip(all.len() as int) =~= Seq::<Seq<char>>::empty());
    }
    let trimmed = trim(&out);
    chars_to_string(&trimmed)
}

// ---------------------------------------------------------------------------
// Dates and times
//
// Imported entries carry a calendar date and a time of day, held as plain
// values so that the parsing logic can be stated exactly.
// ---------------------------------------------------------------------------

/// A calendar date.
#[derive(Clone, Copy, Debug, PartialEq, Eq, Structural)]
pub struct Date {
    pub year: i32,
    pub month: u32,
    pub day: u32,
}

/// A moment within a day: an entry's date, hour and minute.
#[derive(Clone, Copy, Debug, PartialEq, Eq, Structural)]
pub struct Timestamp {
    pub date: Date,
    pub hour: u32,
    pub minute: u32,
}

/// The proleptic Gregorian leap-year rule.
pub open spec fn is_leap_year(y: int) -> bool {
    (y % 4 == 0 && y % 100 != 0) || y % 400 == 0
}

/// How many days the month has in the given year.
pub open spec fn days_in_month_spec(y: int, m: int) -> int {
    if m == 2 {
        if is_leap_year(y) {
            29
        } else {
            28
        }
    } else if m == 4 || m == 6 || m == 9 || m == 11 {
        30
    } else {
        31
    }
}

/// A date names a real day of the calendar.
pub open spec fn valid_date(d: Date) -> bool {
    1 <= d.month <= 12 && 1 <= d.day <= days_in_month_spec(d.year as int, d.month as int)
}

/// A timestamp holds a valid date and a time of day.
pub open spec fn valid_timestamp(t: Timestamp) -> bool {
    valid_date(t.date) && t.hour <= 23 && t.minute <= 59
}

/// How many days the month has in the given year.
pub fn days_in_month(year: i32, month: u32) -> (r: u32)
    requires
        1 <= month <= 12,
    ensures
        r == days_in_month_spec(year as int, month as int),
{
    if month == 2 {
        let leap = (year % 4 == 0 && year % 100 != 0) || year % 400 == 0;
        proof {
            assert(leap == is_leap_year(year as int));
        }
        if leap {
            29
        } else {
            28
        }
    } else if month == 4 || month == 6 || month == 9 || month == 11 {
        30
    } else {
        31
    }
}

/// Build a date when the parts name a real day, as the calendar rules allow.
pub fn date_from_ymd(year: i32, month: u32, day: u32) -> (r: Option<Date>)
    ensures
        match r {
            Some(d) => d == (Date { year, month, day }) && valid_date(d),
            None => !valid_date(Date { year, month, day }),
        },
{
    if 1 <= month && month <= 12 && 1 <= day && day <= days_in_month(year, month) {
        Some(Date { year, month, day })
    } else {
        None
    }
}

// ---------------------------------------------------------------------------
// Header parsing
// ---------------------------------------------------------------------------

/// The time part of an entry header: everything before the first space, or
/// the whole header when it has no space.
pub open spec fn header_time(s: Seq<char>) -> Seq<char> {
    let i = find_from(s, seq![' '], 0);
    if i < 0 {
        s
    } else {
        s.take(i)
    }
}

/// The title part of an entry header: everything after the first space,
/// trimmed; none when there is no space or the rest is blank.
pub open spec fn header_title(s: Seq<char>) -> Option<Seq<char>> {
    let i = find_from(s, seq![' '], 0);
    if i < 0 {
        None
    } else {
        let rest = trim_spec(s.skip(i + 1));
        if rest.len() == 0 {
            None
        } else {
            Some(rest)
        }
    }
}

/// Parse an entry header into its time and its optional title.
pub fn parse_entry_header(header: &str) -> (r: (Option<String>, Option<String>))
    ensures
        r.0 is Some,
        r.0->Some_0@ == header_time(header@),
        match r.1 {
            Some(t) => header_title(header@) == Some(t@),
            None => header_title(header@) is None,
        },
{
    let v = str_to_chars(header);
    let space: Vec<char> = vec![' '];
    proof {
        assert(space@ =~= seq![' ']);
    }
    match find_sub(&v, &space, 0) {
        Some(i) => {
            proof {
                lemma_find_from_props(v@, seq![' '], 0);
            }
            let n = v.len();
            let time = subvec(&v, 0, i);
            proof {
                assert(v@.subrange(0, i as int) =~= v@.take(i as int));
            }
            let rest = subvec(&v, i + 1, n);
            let title = trim(&rest);
            proof {
                assert(v@.subrange(i + 1, v@.len() as int) =~= v@.skip(i + 1));
            }
            let time_s = chars_to_string(&time);
            if title.len() == 0 {
                (Some(time_s), None)
            } else {
                let title_s = chars_to_string(&title);
                (Some(time_s), Some(title_s))
            }
        },
        None => {
            let time_s = chars_to_string(&v);
            (Some(time_s), None)
        },
    }
}

/// The piece of `s` after the first comma and before the second (or the
/// end), as the date header carries it.
pub open spec fn after_first_comma(s: Seq<char>) -> Option<Seq<char>> {
    let c1 = find_from(s, seq![','], 0);
    if c1 < 0 {
        None
    } else {
        let c2 = find_from(s, seq![','], c1 + 1);
        if c2 < 0 {
            Some(s.skip(c1 + 1))
        } else {
            Some(s.subrange(c1 + 1, c2))
        }
    }
}

/// The day, month and year fields of a date piece `dd/mm/yyyy`: the three
/// runs between exactly two slashes.
pub open spec fn slash_fields(p: Seq<char>) -> Option<(Seq<char>, Seq<char>, Seq<char>)> {
    let s1 = find_from(p, seq!['/'], 0);
    if s1 < 0 {
        None
    } else {
        let s2 = find_from(p, seq!['/'], s1 + 1);
        if s2 < 0 {
            None
        } else {
            let s3 = find_from(p, seq!['/'], s2 + 1);
            if s3 >= 0 {
                None
            } else {
                Some((p.take(s1), p.subrange(s1 + 1, s2), p.skip(s2 + 1)))
            }
        }
    }
}

/// The date named by a date header, if its parts parse and name a real day.
pub open spec fn date_header_spec(s: Seq<char>) -> Option<Date> {
    match after_first_comma(s) {
        Option::None => Option::None,
        Option::Some(piece0) => {
            let piece = trim_spec(piece0);
            match slash_fields(piece) {
                Option::None => Option::None,
                Option::Some(f) => {
                    if parses_dec(f.0, u32::MAX as int) && parses_dec(f.1, u32::MAX as int)
                        && parses_dec_signed(f.2, i32::MIN as int, i32::MAX as int) {
                        let d = Date {
                            year: dec_signed_val(f.2) as i32,
                            month: dec_val(dec_digits(f.1)) as u32,
                            day: dec_val(dec_digits(f.0)) as u32,
                        };
                        if valid_date(d) {
                            Option::Some(d)
                        } else {
                            Option::None
                        }
                    } else {
                        Option::None
                    }
                },
            }
        },
    }
}

/// Parse a date header of the form `Weekday, dd/mm/yyyy`.
pub fn parse_org_date_header(date_str: &str) -> (r: Option<Date>)
    ensures
        r == date_header_spec(date_str@),
{
    let v = str_to_chars(date_str);
    let n0 = v.len();
    let comma: Vec<char> = vec![','];
    let slash: Vec<char> = vec!['/'];
    proof {
        assert(comma@ =~= seq![',']);
        assert(slash@ =~= seq!['/']);
    }
    let c1 = match find_sub(&v, &comma, 0) {
        Some(i) => i,
        None => {
            return None;
        },
    };
    proof {
        lemma_find_from_props(v@, seq![','], 0);
    }
    let piece0 = match find_sub(&v, &comma, c1 + 1) {
        Some(c2) => {
            proof {
                lemma_find_from_props(v@, seq![','], c1 + 1);
            }
            subvec(&v, c1 + 1, c2)
        },
        None => {
            let p = subvec(&v, c1 + 1, n0);
            proof {
                assert(v@.subrange(c1 + 1, v@.len() as int) =~= v@.skip(c1 + 1));
            }
            p
        },
    };
    let piece = trim(&piece0);
    let np = piece.len();
    let s1 = match find_sub(&piece, &slash, 0) {
        Some(i) => i,
        None => {
            return None;
        },
    };
    proof {
        lemma_find_from_props(piece@, seq!['/'], 0);
    }
    let s2 = match find_sub(&piece, &slash, s1 + 1) {
        Some(i) => i,
        None => {
            return None;
        },
    };
    proof {
        lemma_find_from_props(piece@, seq!['/'], s1 + 1);
    }
    if let Some(_) = find_sub(&piece, &slash, s2 + 1) {
        return None;
    }
    let f_day = subvec(&piece, 0, s1);
    let f_month = subvec(&piece, s1 + 1, s2);
    let f_year = subvec(&piece, s2 + 1, np);
    proof {
        assert(piece@.subrange(0, s1 as int) =~= piece@.take(s1 as int));
        assert(piece@.subrange(s2 + 1, piece@.len() as int) =~= piece@.skip(s2 + 1));
    }
    let day = match parse_u32(&f_day) {
        Some(n) => n,
        None => {
            return None;
        },
    };
    let month = match parse_u32(&f_month) {
        Some(n) => n,
        None => {
            return None;
        },
    };
    let year = match parse_i32(&f_year) {
        Some(n) => n,
        None => {
            return None;
        },
    };
    date_from_ymd(year, month, day)
}

/// The timestamp named by a date and a time string `hh:mm`, when the hour
/// and minute parse and lie within the day.
pub open spec fn timestamp_spec(date: Date, time: Seq<char>) -> Option<Timestamp> {
    let c1 = find_from(time, seq![':'], 0);
    if c1 < 0 {
        Option::None
    } else {
        let c2 = find_from(time, seq![':'], c1 + 1);
        let hpart = time.take(c1);
        let mpart = if c2 < 0 {
            time.skip(c1 + 1)
        } else {
            time.subrange(c1 + 1, c2)
        };
        if parses_dec(hpart, u32::MAX as int) && parses_dec(mpart, u32::MAX as int) {
            let h = dec_val(dec_digits(hpart)) as u32;
            let m = dec_val(dec_digits(mpart)) as u32;
            if h <= 23 && m <= 59 {
                Option::Some(Timestamp { date, hour: h, minute: m })
            } else {
                Option::None
            }
        } else {
            Option::None
        }
    }
}

/// Parse a timestamp from a date and an optional `hh:mm` time string.
pub fn parse_timestamp(date: Date, time_str: Option<&str>) -> (r: Option<Timestamp>)
    ensures
        r == match time_str {
            Some(t) => timestamp_spec(date, t@),
            None => Option::<Timestamp>::None,
        },
{
    let t = match time_str {
        Some(t) => t,
        None => {
            return None;
        },
    };
    let v = str_to_chars(t);
    let n0 = v.len();
    let colon: Vec<char> = vec![':'];
    proof {
        assert(colon@ =~= seq![':']);
    }
    let c1 = match find_sub(&v, &colon, 0) {
        Some(i) => i,
        None => {
            return None;
        },
    };
    proof {
        lemma_find_from_props(v@, seq![':'], 0);
    }
    let hpart = subvec(&v, 0, c1);
    let mpart = match find_sub(&v, &colon, c1 + 1) {
        Some(c2) => {
            proof {
                lemma_find_from_props(v@, seq![':'], c1 + 1);
            }
            subvec(&v, c1 + 1, c2)
        },
        None => {
            let m = subvec(&v, c1 + 1, n0);
            proof {
                assert(v@.subrange(c1 + 1, v@.len() as int) =~= v@.skip(c1 + 1));
            }
            m
        },
    };
    proof {
        assert(v@.subrange(0, c1 as int) =~= v@.take(c1 as int));
    }
    let hour = match parse_u32(&hpart) {
        Some(n) => n,
        None => {
            return None;
        },
    };
    let minute = match parse_u32(&mpart) {
        Some(n) => n,
        None => {
            return None;
        },
    };
    if hour <= 23 && minute <= 59 {
        Some(Timestamp { date, hour, minute })
    } else {
        None
    }
}

// ---------------------------------------------------------------------------
// Laws of the converter
// ---------------------------------------------------------------------------

/// Is the line a code-fence marker of the outline dialect?
pub open spec fn is_fence_line(l: Seq<char>) -> bool {
    match_at(trim_spec(l), begin_src_pat(), 0) || trim_spec(l) == end_src_pat()
}

/// The lines concatenated verbatim, each closed with a newline.
pub open spec fn cat_lines_nl(ls: Seq<Seq<char>>) -> Seq<char>
    decreases ls.len(),
{
    if ls.len() == 0 {
        seq![]
    } else {
        ls[0] + seq!['\n'] + cat_lines_nl(ls.drop_first())
    }
}

/// Inside a code block, every line that is not a fence marker passes
/// through verbatim.
proof fn lemma_conv_src_lines(ls: Seq<Seq<char>>, tail: Seq<Seq<char>>, q: bool)
    requires
        forall|k: int| 0 <= k < ls.len() ==> !is_fence_line(#[trigger] ls[k]),
    ensures
        conv_lines(ls + tail, true, q) == cat_lines_nl(ls) + conv_lines(tail, true, q),
    decreases ls.len(),
{
    if ls.len() == 0 {
        assert(ls + tail =~= tail);
        assert(cat_lines_nl(ls) + conv_lines(tail, true, q) =~= conv_lines(tail, true, q));
    } else {
        let l = ls[0];
        assert((ls + tail)[0] == l);
        assert((ls + tail).drop_first() =~= ls.drop_first() + tail);
        assert(!is_fence_line(l));
        assert(conv_line(l, true, q).0 == l + seq!['\n']);
        assert(conv_line(l, true, q).1 == true);
        assert(conv_line(l, true, q).2 == q);
        assert(forall|k: int|
            0 <= k < ls.drop_first().len() ==> ls.drop_first()[k] == ls[k + 1]);
        lemma_conv_src_lines(ls.drop_first(), tail, q);
        assert(conv_lines(ls + tail, true, q) =~= cat_lines_nl(ls) + conv_lines(tail, true, q));
    }
}

/// A code block of the outline dialect converts to a markup fence with its
/// language tag, the content passed through unchanged line for line,
/// whatever delimiter characters it contains, and a closing fence.
pub proof fn lemma_code_block_passthrough(
    open_line: Seq<char>,
    ls: Seq<Seq<char>>,
    close_line: Seq<char>,
    in_quote: bool,
)
    requires
        match_at(trim_spec(open_line), begin_src_pat(), 0),
        trim_spec(close_line) == end_src_pat(),
        forall|k: int| 0 <= k < ls.len() ==> !is_fence_line(#[trigger] ls[k]),
    ensures
        conv_lines(seq![open_line] + ls + seq![close_line], false, in_quote) == (seq!['`', '`', '`']
            + trim_spec(trim_spec(open_line).skip(11)) + seq!['\n']) + cat_lines_nl(ls) + seq![
            '`',
            '`',
            '`',
            '\n',
        ],
{
    let all = seq![open_line] + ls + seq![close_line];
    assert(all[0] == open_line);
    assert(all.drop_first() =~= ls + seq![close_line]);
    let head = conv_line(open_line, false, in_quote);
    assert(head.0 == seq!['`', '`', '`'] + trim_spec(trim_spec(open_line).skip(11)) + seq!['\n']);
    assert(head.1 == true);
    assert(head.2 == in_quote);
    lemma_conv_src_lines(ls, seq![close_line], in_quote);
    assert(seq![close_line][0] == close_line);
    assert(!match_at(trim_spec(close_line), begin_src_pat(), 0)) by {
        assert(trim_spec(close_line).len() == 9);
    }
    assert(conv_line(close_line, true, in_quote).0 == seq!['`', '`', '`', '\n']);
    assert(conv_line(close_line, true, in_quote).1 == false);
    assert(conv_line(close_line, true, in_quote).2 == in_quote);
    assert(seq![close_line].drop_first() =~= Seq::<Seq<char>>::empty());
    assert(conv_lines(Seq::<Seq<char>>::empty(), false, in_quote) == Seq::<char>::empty());
    assert(conv_lines(seq![close_line], true, in_quote) =~= seq!['`', '`', '`', '\n']);
    assert(conv_lines(all, false, in_quote) =~= (seq!['`', '`', '`'] + trim_spec(
        trim_spec(open_line).skip(11),
    ) + seq!['\n']) + cat_lines_nl(ls) + seq!['`', '`', '`', '\n']);
}

// ---------------------------------------------------------------------------
// Journal files
//
// An outline journal file holds date headers, each followed by a properties
// block, then entry headers with a time and an optional title, then entry
// content until the next header.
// ---------------------------------------------------------------------------

/// One imported entry: its timestamp, its optional title, and its content
/// converted to markup.
#[derive(Clone, Debug)]
pub struct ParsedEntry {
    pub timestamp: Timestamp,
    pub title: Option<String>,
    pub content: String,
}

/// What an import run did: how many entries the file held, how many were
/// imported, how many were skipped, and why.
#[derive(Debug)]
pub struct ImportStats {
    pub total: usize,
    pub imported: usize,
    pub skipped: usize,
    pub errors: Vec<String>,
}

/// The view of one parsed entry: its timestamp, title and content.
pub open spec fn entry_view(e: ParsedEntry) -> (Timestamp, Option<Seq<char>>, Seq<char>) {
    (
        e.timestamp,
        match e.title {
            Option::Some(t) => Option::Some(t@),
            Option::None => Option::None,
        },
        e.content@,
    )
}

pub open spec fn entries_view(es: Seq<ParsedEntry>) -> Seq<
    (Timestamp, Option<Seq<char>>, Seq<char>),
> {
    es.map_values(|e: ParsedEntry| entry_view(e))
}

/// A date header line: one marker and a space, not two.
pub open spec fn is_date_line(t: Seq<char>) -> bool {
    match_at(t, seq!['*', ' '], 0) && !match_at(t, seq!['*', '*', ' '], 0)
}

/// An entry header line: two markers and a space.
pub open spec fn is_entry_line(t: Seq<char>) -> bool {
    match_at(t, seq!['*', '*', ' '], 0)
}

/// A line that ends an entry's content: the next entry or date header.
pub open spec fn breaks_content(t: Seq<char>) -> bool {
    match_at(t, seq!['*', '*'], 0) || (match_at(t, seq!['*', ' '], 0) && !match_at(
        t,
        seq!['*', '*', ' '],
        0,
    ))
}

/// The closing line of a properties block.
pub open spec fn props_end_pat() -> Seq<char> {
    seq![':', 'E', 'N', 'D', ':']
}

/// Index just past the properties block that starts at `i`: everything up
/// to and including the first closing line is consumed.
pub open spec fn skip_props(lines: Seq<Seq<char>>, i: int) -> int
    decreases lines.len() - i,
    when i >= 0
{
    if i >= lines.len() {
        lines.len() as int
    } else if trim_spec(lines[i]) == props_end_pat() {
        i + 1
    } else {
        skip_props(lines, i + 1)
    }
}

/// Index of the first content-breaking line at or after `i`.
pub open spec fn content_end(lines: Seq<Seq<char>>, i: int) -> int
    decreases lines.len() - i,
    when i >= 0
{
    if i >= lines.len() {
        lines.len() as int
    } else if breaks_content(trim_spec(lines[i])) {
        i
    } else {
        content_end(lines, i + 1)
    }
}

/// The entry parsed at an entry-header line, under the current date: its
/// time must parse, its title is optional, and its content runs to the next
/// header and is converted to markup.
pub open spec fn entry_at(lines: Seq<Seq<char>>, i: int, date: Date) -> Option<
    (Timestamp, Option<Seq<char>>, Seq<char>),
> {
    let header = trim_spec(trim_spec(lines[i]).skip(3));
    match timestamp_spec(date, header_time(header)) {
        Option::None => Option::None,
        Option::Some(ts) => Option::Some(
            (
                ts,
                header_title(header),
                org_to_markdown_spec(
                    trim_spec(join_lines(lines.subrange(i + 1, content_end(lines, i + 1)))),
                ),
            ),
        ),
    }
}

/// The entries of a journal file from line `i` on, given the date in force
/// and the optional date filter.
pub open spec fn parse_org_spec(
    lines: Seq<Seq<char>>,
    i: int,
    cur: Option<Date>,
    filter: Option<Date>,
) -> Seq<(Timestamp, Option<Seq<char>>, Seq<char>)>
    decreases lines.len() - i,
    when i >= 0
{
    if i >= lines.len() {
        seq![]
    } else {
        let t = trim_spec(lines[i]);
        if is_date_line(t) {
            let d = date_header_spec(trim_spec(t.skip(2)));
            let j = skip_props(lines, i + 1);
            parse_org_spec(
                lines,
                if j <= i || j > lines.len() {
                    i + 1
                } else {
                    j
                },
                d,
                filter,
            )
        } else if is_entry_line(t) && cur is Some && !(filter is Some && filter->0 != cur->0) {
            match entry_at(lines, i, cur->0) {
                Option::Some(e) => {
                    let j = content_end(lines, i + 1);
                    seq![e] + parse_org_spec(
                        lines,
                        if j <= i || j > lines.len() {
                            i + 1
                        } else {
                            j
                        },
                        cur,
                        filter,
                    )
                },
                Option::None => parse_org_spec(lines, i + 1, cur, filter),
            }
        } else {
            parse_org_spec(lines, i + 1, cur, filter)
        }
    }
}

/// Walk past a properties block.
fn skip_props_exec(lines: &Vec<Vec<char>>, from: usize) -> (r: usize)
    requires
        from <= lines@.len(),
    ensures
        from <= r <= lines@.len(),
        r == skip_props(lines_view(lines@), from as int),
{
    let ghost lv = lines_view(lines@);
    let pat: Vec<char> = vec![':', 'E', 'N', 'D', ':'];
    proof {
        assert(pat@ =~= props_end_pat());
    }
    let mut i: usize = from;
    while i < lines.len()
        invariant
            from <= i <= lines@.len(),
            lv == lines_view(lines@),
            pat@ == props_end_pat(),
            skip_props(lv, from as int) == skip_props(lv, i as int),
        decreases lines@.len() - i,
    {
        let t = trim(&lines[i]);
        proof {
            assert(lv[i as int] == lines@[i as int]@);
        }
        if chars_eq(&t, &pat) {
            return i + 1;
        }
        i = i + 1;
    }
    i
}

/// Find the end of an entry's content.
fn content_end_exec(lines: &Vec<Vec<char>>, from: usize) -> (r: usize)
    requires
        from <= lines@.len(),
    ensures
        from <= r <= lines@.len(),
        r == content_end(lines_view(lines@), from as int),
{
    let ghost lv = lines_view(lines@);
    let star2: Vec<char> = vec!['*', '*'];
    let star_space: Vec<char> = vec!['*', ' '];
    let star2_space: Vec<char> = vec!['*', '*', ' '];
    proof {
        assert(star2@ =~= seq!['*', '*']);
        assert(star_space@ =~= seq!['*', ' ']);
        assert(star2_space@ =~= seq!['*', '*', ' ']);
    }
    let mut i: usize = from;
    while i < lines.len()
        invariant
            from <= i <= lines@.len(),
            lv == lines_view(lines@),
            star2@ == seq!['*', '*'],
            star_space@ == seq!['*', ' '],
            star2_space@ == seq!['*', '*', ' '],
            content_end(lv, from as int) == content_end(lv, i as int),
        decreases lines@.len() - i,
    {
        let t = trim(&lines[i]);
        proof {
            assert(lv[i as int] == lines@[i as int]@);
        }
        if match_at_exec(&t, &star2, 0) || (match_at_exec(&t, &star_space, 0) && !match_at_exec(
            &t,
            &star2_space,
            0,
        )) {
            return i;
        }
        i = i + 1;
    }
    i
}

/// Parse a whole journal file into its entries, keeping only those on the
/// filter date when one is given.
pub fn parse_org_journal(content: &str, filter_date: Option<Date>) -> (r: Vec<ParsedEntry>)
    ensures
        entries_view(r@) == parse_org_spec(split_lines(content@), 0, None, filter_date),
{
    let v = str_to_chars(content);
    let lines = split_lines_exec(&v);
    let ghost lv = lines_view(lines@);
    let star_space: Vec<char> = vec!['*', ' '];
    let star2_space: Vec<char> = vec!['*', '*', ' '];
    proof {
        assert(star_space@ =~= seq!['*', ' ']);
        assert(star2_space@ =~= seq!['*', '*', ' ']);
    }
    let mut entries: Vec<ParsedEntry> = Vec::new();
    let mut current_date: Option<Date> = None;
    let mut i: usize = 0;
    proof {
        assert(entries_view(entries@) + parse_org_spec(lv, 0, None, filter_date) =~~= parse_org_spec(
            lv,
            0,
            None,
            filter_date,
        ));
    }
    while i < lines.len()
        invariant
            i <= lines@.len(),
            lv == lines_view(lines@),
            lv == split_lines(content@),
            star_space@ == seq!['*', ' '],
            star2_space@ == seq!['*', '*', ' '],
            parse_org_spec(lv, 0, None, filter_date) =~~= entries_view(entries@) + parse_org_spec(
                lv,
                i as int,
                current_date,
                filter_date,
            ),
        decreases lines@.len() - i,
    {
        let t = trim(&lines[i]);
        proof {
            assert(lv[i as int] == lines@[i as int]@);
        }
        if match_at_exec(&t, &star_space, 0) && !match_at_exec(&t, &star2_space, 0) {
            let raw = subvec(&t, 2, t.len());
            let date_str = trim(&raw);
            proof {
                assert(t@.subrange(2, t@.len() as int) =~= t@.skip(2));
            }
            let date_s = chars_to_string(&date_str);
            current_date = parse_org_date_header(date_s.as_str());
            let j = skip_props_exec(&lines, i + 1);
            proof {
                assert(j > i);
            }
            i = j;
        } else if match_at_exec(&t, &star2_space, 0) {
            let mut advanced = false;
            match current_date {
                Some(date) => {
                    let keep = match filter_date {
                        Some(f) => f == date,
                        None => true,
                    };
                    if keep {
                        let raw = subvec(&t, 3, t.len());
                        let header = trim(&raw);
                        proof {
                            assert(t@.subrange(3, t@.len() as int) =~= t@.skip(3));
                        }
                        let header_s = chars_to_string(&header);
                        let parsed = parse_entry_header(header_s.as_str());
                        let time_s = match parsed.0 {
                            Some(ts) => ts,
                            None => {
                                proof {
                                    assert(false);
                                }
                                String::new()
                            },
                        };
                        match parse_timestamp(date, Some(time_s.as_str())) {
                            Some(ts) => {
                                let j = content_end_exec(&lines, i + 1);
                                let raw_content = join_range(&lines, i + 1, j);
                                let trimmed = trim(&raw_content);
                                let trimmed_s = chars_to_string(&trimmed);
                                let md = convert_org_to_markdown(trimmed_s.as_str());
                                let ghost expected = entry_at(lv, i as int, date)->Some_0;
                                let e = ParsedEntry {
                                    timestamp: ts,
                                    title: parsed.1,
                                    content: md,
                                };
                                proof {
                                    assert(entry_view(e) == expected);
                                }
                                entries.push(e);
                                proof {
                                    assert(entries_view(entries@) =~= entries_view(
                                        entries@.drop_last(),
                                    ) + seq![entry_view(e)]);
                                }
                                proof {
                                    assert(j > i);
                                }
                                i = j;
                                advanced = true;
                            },
                            None => {},
                        }
                    }
                },
                None => {},
            }
            if !advanced {
                i = i + 1;
            }
        } else {
            i = i + 1;
        }
    }
    proof {
        assert(parse_org_spec(lv, lines@.len() as int, current_date, filter_date) =~= Seq::<
            (Timestamp, Option<Seq<char>>, Seq<char>),
        >::empty());
        assert(entries_view(entries@) =~~= parse_org_spec(lv, 0, None, filter_date));
    }
    entries
}

/// Doubling distributes over concatenation.
proof fn lemma_double_stars_concat(a: Seq<char>, b: Seq<char>)
    ensures
        double_stars(a + b) == double_stars(a) + double_stars(b),
    decreases a.len(),
{
    if a.len() == 0 {
        assert(a + b =~= b);
        assert(double_stars(a) + double_stars(b) =~= double_stars(b));
    } else {
        assert((a + b)[0] == a[0]);
        assert((a + b).drop_first() =~= a.drop_first() + b);
        lemma_double_stars_concat(a.drop_first(), b);
        assert(double_stars(a) + double_stars(b) =~= (if a[0] == '*' {
            seq!['*', '*']
        } else {
            seq![a[0]]
        }) + (double_stars(a.drop_first()) + double_stars(b)));
    }
}

/// A marker-free string doubles to itself.
proof fn lemma_double_stars_id(s: Seq<char>)
    requires
        !s.contains('*'),
    ensures
        double_stars(s) == s,
    decreases s.len(),
{
    if s.len() > 0 {
        assert(s[0] != '*');
        assert(!s.drop_first().contains('*')) by {
            if s.drop_first().contains('*') {
                let j = choose|j: int|
                    0 <= j < s.drop_first().len() && #[trigger] s.drop_first()[j] == '*';
                assert(s[j + 1] == '*');
            }
        }
        lemma_double_stars_id(s.drop_first());
        assert(double_stars(s) =~= s);
    }
}

/// Substitution leaves a string without the delimiter unchanged.
proof fn lemma_subst_id(x: Seq<char>, from: char, to: char)
    requires
        !x.contains(from),
    ensures
        subst_delim(x, from, to) == x,
{
    assert(subst_delim(x, from, to) =~= x) by {
        assert(forall|i: int| 0 <= i < x.len() ==> x[i] != from);
    }
}

/// Link rewriting leaves a string without an opening bracket unchanged.
proof fn lemma_links_id(x: Seq<char>)
    requires
        !x.contains('['),
    ensures
        org_links_spec(x) == x,
{
    lemma_find_from_props(x, seq!['[', '['], 0);
    let r = find_from(x, seq!['[', '['], 0);
    if r >= 0 {
        assert(match_at(x, seq!['[', '['], r));
        assert(x.subrange(r, r + 2)[0] == x[r]);
        assert(x.contains('[')) by {
            assert(x[r] == '[');
        }
        assert(false);
    }
    assert(link_step(x) is None);
    if x.len() > 0 {
        assert(links_rec(x, x.len() as nat) == x);
    }
}

/// Bold markup round trip on import: a line holding one delimiter toggle
/// pair around marker-free text becomes the markup bold pair.
pub proof fn lemma_bold_toggle_line(s: Seq<char>)
    requires
        s.len() > 0,
        !is_ws(s[0]),
        !is_ws(s[s.len() - 1]),
        forall|i: int|
            0 <= i < s.len() ==> s[i] != '*' && s[i] != '/' && s[i] != '+' && s[i] != '~' && s[i]
                != '[',
    ensures
        conv_line(seq!['*'] + s + seq!['*'], false, false).0 == seq!['*', '*'] + s + seq![
            '*',
            '*',
            '\n',
        ],
{
    let line = seq!['*'] + s + seq!['*'];
    assert(line.len() == s.len() + 2);
    assert(line[0] == '*');
    assert(line.last() == '*');
    assert(line[1] == s[0]);
    assert(trim_spec(line) == line) by {
        crate::text::lemma_trim_start_chars(line, 0);
        assert(line.skip(0) =~= line);
        crate::text::lemma_trim_end_chars(trim_start_spec(line), line.len() as int);
        assert(line.take(line.len() as int) =~= line);
    }
    let t = trim_spec(line);
    assert(!match_at(t, begin_src_pat(), 0)) by {
        if match_at(t, begin_src_pat(), 0) {
            assert(t.subrange(0, 11)[0] == t[0]);
        }
    }
    assert(t != end_src_pat()) by {
        if t == end_src_pat() {
            assert(t[0] == ':');
        }
    }
    assert(!match_at(t, begin_quote_pat(), 0)) by {
        if match_at(t, begin_quote_pat(), 0) {
            assert(t.subrange(0, 13)[0] == t[0]);
        }
    }
    assert(t != end_quote_pat()) by {
        if t == end_quote_pat() {
            assert(t[0] == '#');
        }
    }
    assert(!(t.len() == 1 || t[1] == ' '));
    let doubled = seq!['*', '*'] + s + seq!['*', '*'];
    assert(double_stars(line) == doubled) by {
        lemma_double_stars_concat(seq!['*'] + s, seq!['*']);
        lemma_double_stars_concat(seq!['*'], s);
        lemma_double_stars_id(s);
        assert(double_stars(seq!['*']) =~= seq!['*', '*']) by {
            assert(seq!['*'].drop_first() =~= Seq::<char>::empty());
            assert(double_stars(Seq::<char>::empty()) == Seq::<char>::empty());
        }
        assert((seq!['*', '*'] + s) + seq!['*', '*'] =~= doubled);
    }
    assert(!doubled.contains('/') && !doubled.contains('+') && !doubled.contains('~')
        && !doubled.contains('[')) by {
        assert(forall|i: int|
            0 <= i < doubled.len() ==> doubled[i] == '*' || (2 <= i < s.len() + 2 && doubled[i]
                == s[i - 2]));
    }
    lemma_subst_id(doubled, '/', '*');
    lemma_subst_id(doubled, '+', '~');
    lemma_subst_id(doubled, '~', '`');
    lemma_links_id(doubled);
    assert(conv_line(line, false, false).0 =~= seq!['*', '*'] + s + seq!['*', '*', '\n']);
}

/// One block of decoded rich text: its text and whether it is marked as a
/// heading line.
#[derive(Clone, Debug)]
pub struct RichTextLine {
    pub text: String,
    pub is_header: bool,
}

/// The view of the blocks: each text with its heading mark.
pub open spec fn rich_lines_view(blocks: Seq<RichTextLine>) -> Seq<(Seq<char>, bool)> {
    blocks.map_values(|b: RichTextLine| (b.text@, b.is_header))
}

/// The title among rich-text blocks: the trimmed text of the first heading
/// block whose trimmed text is not empty.
pub open spec fn title_of(blocks: Seq<(Seq<char>, bool)>) -> Option<Seq<char>>
    decreases blocks.len(),
{
    if blocks.len() == 0 {
        Option::None
    } else if blocks[0].1 && trim_spec(blocks[0].0).len() > 0 {
        Option::Some(trim_spec(blocks[0].0))
    } else {
        title_of(blocks.drop_first())
    }
}

/// Select an entry title from decoded rich-text blocks: the first heading
/// line with non-blank text.
pub fn select_entry_title(blocks: &Vec<RichTextLine>) -> (r: Option<String>)
    ensures
        match r {
            Some(t) => title_of(rich_lines_view(blocks@)) == Some(t@),
            None => title_of(rich_lines_view(blocks@)) is None,
        },
{
    let ghost bv = rich_lines_view(blocks@);
    proof {
        assert(bv.skip(0) =~= bv);
    }
    for i in 0..blocks.len()
        invariant
            bv == rich_lines_view(blocks@),
            title_of(bv) == title_of(bv.skip(i as int)),
    {
        proof {
            assert(bv.skip(i as int)[0] == bv[i as int]);
            assert(bv.skip(i as int).drop_first() =~= bv.skip(i + 1));
            assert(bv[i as int] == (blocks@[i as int].text@, blocks@[i as int].is_header));
        }
        if blocks[i].is_header {
            let text = str_to_chars(blocks[i].text.as_str());
            let trimmed = trim(&text);
            if trimmed.len() > 0 {
                let t = chars_to_string(&trimmed);
                return Some(t);
            }
        }
    }
    proof {
        assert(bv.skip(bv.len() as int) =~= Seq::<(Seq<char>, bool)>::empty());
    }
    None
}

} // verus!
