use vstd::prelude::*;
use crate::text::{
    append_str, chars_eq, chars_to_string, join_lines, join_range, lines_view, split_lines,
    split_lines_exec, str_to_chars, trim, trim_spec,
};

verus! {

// ---------------------------------------------------------------------------
// Frontmatter
//
// An entry handed to the external editor carries a metadata block between
// two delimiter lines, then the body.  The library splits and rebuilds that
// frame; decoding the metadata lines themselves is the caller's business.
// ---------------------------------------------------------------------------

/// Why a frontmatter frame could not be parsed.
#[derive(Clone, Copy, Debug, PartialEq, Eq, Structural)]
pub enum FrontmatterError {
    /// The content does not start with a delimiter line.
    MissingOpening,
    /// No closing delimiter line follows the opening one.
    MissingClosing,
}

/// The frontmatter delimiter line.
pub open spec fn fm_delim() -> Seq<char> {
    seq!['-', '-', '-']
}

/// Does the content open with a delimiter line?
pub open spec fn fm_has_opening(lines: Seq<Seq<char>>) -> bool {
    lines.len() > 0 && trim_spec(lines[0]) == fm_delim()
}

/// Index of the first closing delimiter line at or after `i`, or -1.
pub open spec fn fm_close_from(lines: Seq<Seq<char>>, i: int) -> int
    decreases lines.len() - i,
    when i >= 0
{
    if i >= lines.len() {
        -1
    } else if trim_spec(lines[i]) == fm_delim() {
        i
    } else {
        fm_close_from(lines, i + 1)
    }
}

/// The metadata lines of a framed content: those between the delimiters.
pub open spec fn fm_meta_text(lines: Seq<Seq<char>>) -> Seq<char> {
    join_lines(lines.subrange(1, fm_close_from(lines, 1)))
}

/// The body of a framed content: the lines after the closing delimiter.
pub open spec fn fm_body_text(lines: Seq<Seq<char>>) -> Seq<char> {
    join_lines(lines.subrange(fm_close_from(lines, 1) + 1, lines.len() as int))
}

proof fn lemma_fm_close_props(lines: Seq<Seq<char>>, i: int)
    requires
        0 <= i,
    ensures
        fm_close_from(lines, i) >= 0 ==> {
            &&& i <= fm_close_from(lines, i) < lines.len()
            &&& trim_spec(lines[fm_close_from(lines, i)]) == fm_delim()
            &&& forall|j: int|
                i <= j < fm_close_from(lines, i) ==> trim_spec(#[trigger] lines[j]) != fm_delim()
        },
        fm_close_from(lines, i) < 0 ==> forall|j: int|
            i <= j < lines.len() ==> trim_spec(#[trigger] lines[j]) != fm_delim(),
    decreases lines.len() - i,
{
    if i < lines.len() && trim_spec(lines[i]) != fm_delim() {
        lemma_fm_close_props(lines, i + 1);
    }
}

/// Split content into its metadata text and its body.  The content must
/// open with a delimiter line and hold a second one; the text between them
/// and the text after the second are returned.
pub fn parse_frontmatter(content: &str) -> (r: Result<(String, String), FrontmatterError>)
    ensures
        ({
            let lines = split_lines(content@);
            match r {
                Ok(p) => fm_has_opening(lines) && fm_close_from(lines, 1) >= 0 && p.0@
                    == fm_meta_text(lines) && p.1@ == fm_body_text(lines),
                Err(FrontmatterError::MissingOpening) => !fm_has_opening(lines),
                Err(FrontmatterError::MissingClosing) => fm_has_opening(lines) && fm_close_from(
                    lines,
                    1,
                ) < 0,
            }
        }),
{
    let v = str_to_chars(content);
    let lines = split_lines_exec(&v);
    let delim: Vec<char> = vec!['-', '-', '-'];
    proof {
        assert(delim@ =~= fm_delim());
    }
    if lines.len() == 0 {
        return Err(FrontmatterError::MissingOpening);
    }
    let first = trim(&lines[0]);
    if !chars_eq(&first, &delim) {
        return Err(FrontmatterError::MissingOpening);
    }
    let ghost lv = lines_view(lines@);
    proof {
        assert(lv[0] == lines@[0]@);
    }
    let mut k: usize = 1;
    while k < lines.len()
        invariant
            1 <= k <= lines@.len(),
            lv == lines_view(lines@),
            lv == split_lines(content@),
            fm_has_opening(lv),
            delim@ == fm_delim(),
            fm_close_from(lv, 1) == fm_close_from(lv, k as int),
        decreases lines@.len() - k,
    {
        let t = trim(&lines[k]);
        proof {
            assert(lv[k as int] == lines@[k as int]@);
        }
        if chars_eq(&t, &delim) {
            let meta = join_range(&lines, 1, k);
            let body = join_range(&lines, k + 1, lines.len());
            let meta_s = chars_to_string(&meta);
            let body_s = chars_to_string(&body);
            proof {
                assert(fm_close_from(lv, k as int) == k);
            }
            return Ok((meta_s, body_s));
        }
        k = k + 1;
    }
    proof {
        assert(fm_close_from(lv, lines@.len() as int) == -1);
    }
    Err(FrontmatterError::MissingClosing)
}

/// A framed entry: the delimiter line, the two metadata lines naming the
/// journal and the timestamp, the delimiter line, then the content.  The
/// journal name and the timestamp are emitted bare, as the metadata
/// notation writes plain scalars.
pub fn format_entry_with_frontmatter(journal: &str, timestamp: &str, content: &str) -> (r: String)
    ensures
        r@ == "---\njournal: "@ + journal@ + "\ntimestamp: "@ + timestamp@ + "\n---\n"@
            + content@,
{
    let mut out: Vec<char> = Vec::new();
    append_str(&mut out, "---\njournal: ");
    append_str(&mut out, journal);
    append_str(&mut out, "\ntimestamp: ");
    append_str(&mut out, timestamp);
    append_str(&mut out, "\n---\n");
    append_str(&mut out, content);
    proof {
        assert(out@ =~= "---\njournal: "@ + journal@ + "\ntimestamp: "@ + timestamp@
            + "\n---\n"@ + content@);
    }
    chars_to_string(&out)
}

} // verus!
