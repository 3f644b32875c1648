use vstd::prelude::*;
use crate::text::{
    append_chars, chars_to_string, join_lines, lemma_join_lines_push, lines_view, split_lines,
    split_lines_exec, str_to_chars, subvec,
};

verus! {

// ---------------------------------------------------------------------------
// Width wrapper
//
// An independent post-processing stage: rendered text is wrapped greedily to
// a target column count, line by line, preserving existing line breaks.  A
// line is cut into segments, each one word together with the spaces that
// follow it (the first segment also carries the line's leading spaces), so
// that the spacing inside a line is preserved exactly; spaces are trimmed
// only at the end of each output line.  A line that already fits the width
// and ends in no space comes back unchanged, byte for byte.  A word longer
// than the width is force-broken rather than overflowing.
// ---------------------------------------------------------------------------

/// `s` without its trailing spaces.
pub open spec fn rtrim_spaces(s: Seq<char>) -> Seq<char>
    decreases s.len(),
{
    if s.len() > 0 && s.last() == ' ' {
        rtrim_spaces(s.drop_last())
    } else {
        s
    }
}

/// Does the line hold a word: any character that is not a space?
pub open spec fn line_has_word(l: Seq<char>) -> bool {
    exists|i: int| 0 <= i < l.len() && l[i] != ' '
}

/// The first segment boundary at or after `i`: a non-space that follows a
/// space, with a word somewhere before it.
pub open spec fn seg_bound_from(l: Seq<char>, i: int) -> int
    decreases l.len() - i,
    when i >= 1
{
    if i >= l.len() {
        -1
    } else if l[i] != ' ' && l[i - 1] == ' ' && line_has_word(l.take(i)) {
        i
    } else {
        seg_bound_from(l, i + 1)
    }
}

/// The segments of a line: each is one word together with its following
/// spaces, and the first also carries the line's leading spaces, so that
/// the segments concatenate back to the line.
pub open spec fn segments_of(l: Seq<char>) -> Seq<Seq<char>>
    decreases l.len(),
{
    if l.len() == 0 {
        seq![]
    } else {
        let b = seg_bound_from(l, 1);
        if b < 1 || b > l.len() {
            seq![l]
        } else {
            seq![l.take(b)] + segments_of(l.skip(b))
        }
    }
}

/// The segments, concatenated back.
pub open spec fn concat_segs(ss: Seq<Seq<char>>) -> Seq<char>
    decreases ss.len(),
{
    if ss.len() == 0 {
        seq![]
    } else {
        ss[0] + concat_segs(ss.drop_first())
    }
}

/// A segment force-broken: while its content up to the last word character
/// exceeds the width, width-sized pieces are cut off the front.
pub open spec fn seg_chunks(s: Seq<char>, w: int) -> Seq<Seq<char>>
    decreases s.len(),
    when w >= 1
{
    if s.len() <= w || rtrim_spaces(s).len() <= w {
        seq![s]
    } else {
        seq![s.take(w)] + seg_chunks(s.skip(w), w)
    }
}

/// All the pieces of a segment list, in order.
pub open spec fn all_pieces(segs: Seq<Seq<char>>, w: int) -> Seq<Seq<char>>
    decreases segs.len(),
{
    if segs.len() == 0 {
        seq![]
    } else {
        seg_chunks(segs[0], w) + all_pieces(segs.drop_first(), w)
    }
}

/// Greedy filling: a piece joins the current line when the line, extended
/// by the piece's content up to its last word character, still fits;
/// otherwise the line is closed, trimmed of its trailing spaces, and the
/// piece opens the next one.  The final line is closed the same way.
pub open spec fn greedy(pieces: Seq<Seq<char>>, cur: Seq<char>, w: int) -> Seq<Seq<char>>
    decreases pieces.len(),
{
    if pieces.len() == 0 {
        seq![rtrim_spaces(cur)]
    } else {
        let p = pieces[0];
        if cur.len() == 0 {
            greedy(pieces.drop_first(), p, w)
        } else if cur.len() + rtrim_spaces(p).len() <= w {
            greedy(pieces.drop_first(), cur + p, w)
        } else {
            seq![rtrim_spaces(cur)] + greedy(pieces.drop_first(), p, w)
        }
    }
}

/// The wrapped rows of one line.
pub open spec fn line_rows(l: Seq<char>, w: int) -> Seq<Seq<char>> {
    if l.len() == 0 {
        seq![]
    } else {
        greedy(all_pieces(segments_of(l), w), seq![], w)
    }
}

/// One line wrapped to the width: its rows, joined with newlines.  An empty
/// line stays empty.
pub open spec fn wrap_line_spec(l: Seq<char>, w: int) -> Seq<char> {
    join_lines(line_rows(l, w))
}

/// Text wrapped to the width: each existing line wrapped on its own, the
/// lines joined with newlines, so existing line breaks are preserved.
pub open spec fn wrap_text_spec(text: Seq<char>, w: int) -> Seq<char> {
    join_lines(split_lines(text).map_values(|l: Seq<char>| wrap_line_spec(l, w)))
}

// ---------------------------------------------------------------------------
// Executable wrapper
// ---------------------------------------------------------------------------

/// The shape of a trimmed line: a prefix of the original, closed by a word
/// character, with only spaces beyond it.
proof fn lemma_rtrim_shape(s: Seq<char>)
    ensures
        rtrim_spaces(s).len() <= s.len(),
        rtrim_spaces(s) == s.take(rtrim_spaces(s).len() as int),
        rtrim_spaces(s).len() > 0 ==> s[rtrim_spaces(s).len() - 1] != ' ',
        forall|j: int| rtrim_spaces(s).len() <= j < s.len() ==> s[j] == ' ',
    decreases s.len(),
{
    if s.len() > 0 && s.last() == ' ' {
        lemma_rtrim_shape(s.drop_last());
        let n = rtrim_spaces(s).len() as int;
        assert(s.drop_last().take(n) =~= s.take(n));
        assert(forall|j: int| 0 <= j < s.len() - 1 ==> s[j] == s.drop_last()[j]);
        assert(forall|j: int| n <= j < s.len() ==> s[j] == ' ') by {
            assert(forall|j: int| n <= j < s.len() - 1 ==> s.drop_last()[j] == ' ');
        }
        if n > 0 {
            assert(s.drop_last()[n - 1] != ' ');
        }
    } else {
        assert(s.take(s.len() as int) =~= s);
    }
}

/// Where the trailing spaces are known, the trim is the prefix before them.
proof fn lemma_rtrim_chars(s: Seq<char>, k: int)
    requires
        0 <= k <= s.len(),
        forall|j: int| k <= j < s.len() ==> s[j] == ' ',
        k > 0 ==> s[k - 1] != ' ',
    ensures
        rtrim_spaces(s) == s.take(k),
    decreases s.len() - k,
{
    if k == s.len() {
        lemma_rtrim_shape(s);
        assert(rtrim_spaces(s).len() == k) by {
            if rtrim_spaces(s).len() < k {
                assert(s[k - 1] == ' ');
            }
        }
    } else {
        assert(s.last() == ' ');
        lemma_rtrim_chars(s.drop_last(), k);
        assert(s.drop_last().take(k) =~= s.take(k));
    }
}

/// Length of `v` after trimming its trailing spaces.
fn rtrim_len(v: &Vec<char>) -> (k: usize)
    ensures
        k == rtrim_spaces(v@).len(),
        k <= v@.len(),
        v@.take(k as int) == rtrim_spaces(v@),
{
    let mut k: usize = v.len();
    while k > 0
        invariant
            k <= v@.len(),
            forall|j: int| k <= j < v@.len() ==> v@[j] == ' ',
        decreases k,
    {
        if v[k - 1] != ' ' {
            proof {
                lemma_rtrim_chars(v@, k as int);
            }
            return k;
        }
        k = k - 1;
    }
    proof {
        lemma_rtrim_chars(v@, 0);
    }
    k
}

/// The first segment boundary of `v`, if it has one.
fn seg_bound_exec(v: &Vec<char>) -> (r: Option<usize>)
    ensures
        match r {
            Some(b) => seg_bound_from(v@, 1) == b,
            None => seg_bound_from(v@, 1) == -1,
        },
{
    if v.len() == 0 {
        return None;
    }
    let mut seen = v[0] != ' ';
    proof {
        assert(line_has_word(v@.take(1)) == (v@[0] != ' ')) by {
            if v@[0] != ' ' {
                assert(v@.take(1)[0] != ' ');
            }
        }
    }
    let mut j: usize = 1;
    while j < v.len()
        invariant
            1 <= j <= v@.len(),
            v@.len() > 0,
            seen == line_has_word(v@.take(j as int)),
            seg_bound_from(v@, 1) == seg_bound_from(v@, j as int),
        decreases v@.len() - j,
    {
        if v[j] != ' ' && v[j - 1] == ' ' && seen {
            return Some(j);
        }
        proof {
            assert(line_has_word(v@.take(j + 1)) == (seen || v@[j as int] != ' ')) by {
                if seen {
                    let i = choose|i: int| 0 <= i < j && v@.take(j as int)[i] != ' ';
                    assert(v@.take(j + 1)[i] != ' ');
                }
                if v@[j as int] != ' ' {
                    assert(v@.take(j + 1)[j as int] != ' ');
                }
                if line_has_word(v@.take(j + 1)) && !seen && v@[j as int] == ' ' {
                    let i = choose|i: int| 0 <= i < j + 1 && #[trigger] v@.take(j + 1)[i] != ' ';
                    assert(i < j);
                    assert(v@.take(j as int)[i] != ' ');
                }
            }
        }
        seen = seen || v[j] != ' ';
        j = j + 1;
    }
    None
}

/// The boundary found is in range and satisfies the boundary condition.
proof fn lemma_seg_bound_props(l: Seq<char>, i: int)
    requires
        1 <= i,
    ensures
        seg_bound_from(l, i) >= 0 ==> {
            let b = seg_bound_from(l, i);
            &&& i <= b < l.len()
            &&& l[b] != ' '
            &&& l[b - 1] == ' '
            &&& line_has_word(l.take(b))
        },
        seg_bound_from(l, i) < 0 ==> seg_bound_from(l, i) == -1,
    decreases l.len() - i,
{
    if i < l.len() && !(l[i] != ' ' && l[i - 1] == ' ' && line_has_word(l.take(i))) {
        lemma_seg_bound_props(l, i + 1);
    }
}

/// Cut a line into its segments.
fn segments_exec(l: &Vec<char>) -> (r: Vec<Vec<char>>)
    ensures
        lines_view(r@) == segments_of(l@),
{
    let mut r: Vec<Vec<char>> = Vec::new();
    let mut rem: Vec<char> = subvec(l, 0, l.len());
    proof {
        assert(l@.subrange(0, l@.len() as int) =~= l@);
        assert(lines_view(r@) + segments_of(l@) =~~= segments_of(l@));
    }
    while rem.len() > 0
        invariant
            segments_of(l@) =~~= lines_view(r@) + segments_of(rem@),
        decreases rem@.len(),
    {
        match seg_bound_exec(&rem) {
            Some(b) => {
                proof {
                    lemma_seg_bound_props(rem@, 1);
                }
                let first = subvec(&rem, 0, b);
                let rest = subvec(&rem, b, rem.len());
                proof {
                    assert(rem@.subrange(0, b as int) =~= rem@.take(b as int));
                    assert(rem@.subrange(b as int, rem@.len() as int) =~= rem@.skip(b as int));
                }
                r.push(first);
                proof {
                    assert(lines_view(r@) =~= lines_view(r@.drop_last()) + seq![first@]);
                }
                rem = rest;
            },
            None => {
                let whole = rem;
                r.push(whole);
                proof {
                    assert(lines_view(r@) =~= lines_view(r@.drop_last()) + seq![whole@]);
                    assert(segments_of(Seq::<char>::empty()) =~= Seq::<Seq<char>>::empty());
                }
                rem = Vec::new();
            },
        }
    }
    proof {
        assert(segments_of(rem@) =~= Seq::<Seq<char>>::empty());
        assert(lines_view(r@) =~~= segments_of(l@));
    }
    r
}

/// Wrap one line: cut it into segments, force-break the oversize ones, and
/// fill greedily.
fn wrap_line_exec(l: &Vec<char>, w: usize) -> (r: Vec<char>)
    requires
        w >= 1,
    ensures
        r@ == wrap_line_spec(l@, w as int),
{
    if l.len() == 0 {
        return Vec::new();
    }
    let segs = segments_exec(l);
    let ghost sv = lines_view(segs@);
    let mut pieces: Vec<Vec<char>> = Vec::new();
    proof {
        assert(sv.skip(0) =~= sv);
        assert(lines_view(pieces@) + all_pieces(sv, w as int) =~~= all_pieces(sv, w as int));
    }
    for k in 0..segs.len()
        invariant
            w >= 1,
            sv == lines_view(segs@),
            all_pieces(sv, w as int) =~~= lines_view(pieces@) + all_pieces(
                sv.skip(k as int),
                w as int,
            ),
    {
        proof {
            assert(sv.skip(k as int)[0] == sv[k as int]);
            assert(sv.skip(k as int).drop_first() =~= sv.skip(k + 1));
            assert(sv[k as int] == segs@[k as int]@);
        }
        let mut s = subvec(&segs[k], 0, segs[k].len());
        proof {
            let ghost sk = segs@[k as int]@;
            assert(sk.subrange(0, sk.len() as int) =~= sk);
        }
        while s.len() > w && rtrim_len(&s) > w
            invariant
                w >= 1,
                all_pieces(sv, w as int) =~~= lines_view(pieces@) + (seg_chunks(s@, w as int)
                    + all_pieces(sv.skip(k + 1), w as int)),
            decreases s@.len(),
        {
            let head = subvec(&s, 0, w);
            let tail = subvec(&s, w, s.len());
            proof {
                assert(s@.subrange(0, w as int) =~= s@.take(w as int));
                assert(s@.subrange(w as int, s@.len() as int) =~= s@.skip(w as int));
            }
            pieces.push(head);
            proof {
                assert(lines_view(pieces@) =~= lines_view(pieces@.drop_last()) + seq![head@]);
            }
            s = tail;
        }
        pieces.push(s);
        proof {
            let ghost lastp = pieces@.last()@;
            assert(lines_view(pieces@) =~= lines_view(pieces@.drop_last()) + seq![lastp]);
        }
    }
    proof {
        assert(sv.skip(sv.len() as int) =~= Seq::<Seq<char>>::empty());
        assert(lines_view(pieces@) =~~= all_pieces(sv, w as int));
    }
    let ghost pv = lines_view(pieces@);
    let mut rows: Vec<Vec<char>> = Vec::new();
    let mut cur: Vec<char> = Vec::new();
    proof {
        assert(pv.skip(0) =~= pv);
        assert(lines_view(rows@) + greedy(pv, cur@, w as int) =~~= greedy(pv, seq![], w as int));
    }
    for k in 0..pieces.len()
        invariant
            w >= 1,
            pv == lines_view(pieces@),
            line_rows(l@, w as int) =~~= lines_view(rows@) + greedy(
                pv.skip(k as int),
                cur@,
                w as int,
            ),
    {
        proof {
            assert(pv.skip(k as int)[0] == pv[k as int]);
            assert(pv.skip(k as int).drop_first() =~= pv.skip(k + 1));
            assert(pv[k as int] == pieces@[k as int]@);
        }
        let rl = rtrim_len(&pieces[k]);
        if cur.len() == 0 {
            cur = subvec(&pieces[k], 0, pieces[k].len());
            proof {
                let ghost pk = pieces@[k as int]@;
                assert(pk.subrange(0, pk.len() as int) =~= pk);
            }
        } else if cur.len() <= w && rl <= w - cur.len() {
            append_chars(&mut cur, &pieces[k]);
        } else {
            let cl = rtrim_len(&cur);
            let row = subvec(&cur, 0, cl);
            proof {
                assert(cur@.subrange(0, cl as int) =~= cur@.take(cl as int));
            }
            rows.push(row);
            proof {
                assert(lines_view(rows@) =~= lines_view(rows@.drop_last()) + seq![row@]);
            }
            cur = subvec(&pieces[k], 0, pieces[k].len());
            proof {
                let ghost pk = pieces@[k as int]@;
                assert(pk.subrange(0, pk.len() as int) =~= pk);
            }
        }
    }
    proof {
        assert(pv.skip(pv.len() as int) =~= Seq::<Seq<char>>::empty());
    }
    let cl = rtrim_len(&cur);
    let row = subvec(&cur, 0, cl);
    proof {
        assert(cur@.subrange(0, cl as int) =~= cur@.take(cl as int));
    }
    rows.push(row);
    proof {
        assert(lines_view(rows@) =~= lines_view(rows@.drop_last()) + seq![row@]);
        assert(lines_view(rows@) =~~= line_rows(l@, w as int));
    }
    let mut out: Vec<char> = Vec::new();
    let ghost rv = lines_view(rows@);
    proof {
        assert(rv.take(0) =~= Seq::<Seq<char>>::empty());
    }
    for k in 0..rows.len()
        invariant
            rv == lines_view(rows@),
            out@ =~= join_lines(rv.take(k as int)),
    {
        if k > 0 {
            out.push('\n');
        }
        append_chars(&mut out, &rows[k]);
        proof {
            assert(rv[k as int] == rows@[k as int]@);
            lemma_join_lines_push(rv.take(k as int), rv[k as int]);
            assert(rv.take(k as int).push(rv[k as int]) =~= rv.take(k + 1));
            assert(rv.take(k as int).len() == k);
            assert(out@ =~= join_lines(rv.take(k + 1)));
        }
    }
    proof {
        assert(rv.take(rv.len() as int) =~= rv);
    }
    out
}

/// Wrap text to the width, preserving existing line breaks and the spacing
/// inside each line; words longer than the width are force-broken rather
/// than overflowing.
pub fn wrap_text(text: &str, width: u16) -> (r: String)
    requires
        width >= 1,
    ensures
        r@ == wrap_text_spec(text@, width as int),
{
    let v = str_to_chars(text);
    let lines = split_lines_exec(&v);
    let w = width as usize;
    let ghost mapped = split_lines(text@).map_values(
        |l: Seq<char>| wrap_line_spec(l, width as int),
    );
    let mut out: Vec<char> = Vec::new();
    proof {
        assert(mapped.take(0) =~= Seq::<Seq<char>>::empty());
    }
    for i in 0..lines.len()
        invariant
            w == width as int,
            w >= 1,
            lines_view(lines@) == split_lines(text@),
            mapped == split_lines(text@).map_values(
                |l: Seq<char>| wrap_line_spec(l, width as int),
            ),
            out@ =~= join_lines(mapped.take(i as int)),
    {
        if i > 0 {
            out.push('\n');
        }
        let wrapped = wrap_line_exec(&lines[i], w);
        append_chars(&mut out, &wrapped);
        proof {
            assert(lines_view(lines@)[i as int] == lines@[i as int]@);
            assert(mapped[i as int] == wrap_line_spec(split_lines(text@)[i as int], width as int));
            lemma_join_lines_push(mapped.take(i as int), mapped[i as int]);
            assert(mapped.take(i as int).push(mapped[i as int]) =~= mapped.take(i + 1));
            assert(mapped.take(i as int).len() == i);
            assert(out@ =~= join_lines(mapped.take(i + 1)));
        }
    }
    proof {
        assert(mapped.take(mapped.len() as int) =~= mapped);
    }
    chars_to_string(&out)
}


// ---------------------------------------------------------------------------
// Laws of the wrapper
//
// Two public laws: text that already fits comes back unchanged, and
// wrapping already-wrapped text at the same width reproduces the same
// output.  Both rest on one fact: every output row is trimmed of trailing
// spaces and fits the width, and such a row wraps to itself.
// ---------------------------------------------------------------------------

/// Trimming is idempotent.
proof fn lemma_rtrim_fixed(s: Seq<char>)
    ensures
        rtrim_spaces(rtrim_spaces(s)) == rtrim_spaces(s),
{
    lemma_rtrim_shape(s);
    let t = rtrim_spaces(s);
    if t.len() > 0 {
        assert(t.last() == s[t.len() - 1]);
    }
}

/// Trimming keeps every word character.
proof fn lemma_rtrim_keeps_word(s: Seq<char>)
    requires
        line_has_word(s),
    ensures
        line_has_word(rtrim_spaces(s)),
        rtrim_spaces(s).len() > 0,
{
    lemma_rtrim_shape(s);
    let i = choose|i: int| 0 <= i < s.len() && s[i] != ' ';
    assert(i < rtrim_spaces(s).len()) by {
        if i >= rtrim_spaces(s).len() {
            assert(s[i] == ' ');
        }
    }
    assert(rtrim_spaces(s)[i] == s[i]);
}

/// Trimming a concatenation whose right part holds a word trims only the
/// right part.
proof fn lemma_rtrim_concat_word(a: Seq<char>, b: Seq<char>)
    requires
        line_has_word(b),
    ensures
        rtrim_spaces(a + b) == a + rtrim_spaces(b),
    decreases b.len(),
{
    assert(b.len() > 0);
    if b.last() == ' ' {
        assert((a + b).last() == b.last());
        assert((a + b).drop_last() =~= a + b.drop_last());
        assert(line_has_word(b.drop_last())) by {
            let i = choose|i: int| 0 <= i < b.len() && b[i] != ' ';
            assert(i < b.len() - 1);
            assert(b.drop_last()[i] != ' ');
        }
        lemma_rtrim_concat_word(a, b.drop_last());
    } else {
        assert((a + b).last() == b.last());
        assert(rtrim_spaces(a + b) == a + b);
        assert(rtrim_spaces(b) == b);
    }
}

/// Trimming a concatenation whose right part is all spaces reaches into the
/// left part.
proof fn lemma_rtrim_concat_spaces(a: Seq<char>, b: Seq<char>)
    requires
        !line_has_word(b),
    ensures
        rtrim_spaces(a + b) == rtrim_spaces(a),
    decreases b.len(),
{
    if b.len() == 0 {
        assert(a + b =~= a);
    } else {
        assert(b.last() == ' ') by {
            if b.last() != ' ' {
                assert(b[b.len() - 1] != ' ');
            }
        }
        assert((a + b).last() == b.last());
        assert((a + b).drop_last() =~= a + b.drop_last());
        assert(!line_has_word(b.drop_last())) by {
            if line_has_word(b.drop_last()) {
                let i = choose|i: int|
                    0 <= i < b.drop_last().len() && #[trigger] b.drop_last()[i] != ' ';
                assert(b[i] != ' ');
            }
        }
        lemma_rtrim_concat_spaces(a, b.drop_last());
    }
}

/// A newline-free line stays newline-free after trimming.
proof fn lemma_rtrim_no_nl(s: Seq<char>)
    requires
        !s.contains('\n'),
    ensures
        !rtrim_spaces(s).contains('\n'),
{
    lemma_rtrim_shape(s);
    if rtrim_spaces(s).contains('\n') {
        let j = choose|j: int|
            0 <= j < rtrim_spaces(s).len() && #[trigger] rtrim_spaces(s)[j] == '\n';
        assert(s[j] == '\n');
        assert(s.contains('\n'));
    }
}

/// The segments of a line concatenate back to it.
proof fn lemma_segments_concat(l: Seq<char>)
    ensures
        concat_segs(segments_of(l)) == l,
    decreases l.len(),
{
    if l.len() == 0 {
        assert(concat_segs(segments_of(l)) =~= l);
    } else {
        let b = seg_bound_from(l, 1);
        lemma_seg_bound_props(l, 1);
        if b < 1 || b > l.len() {
            assert(segments_of(l) == seq![l]);
            assert(seq![l][0] == l);
            assert(seq![l].drop_first() =~= Seq::<Seq<char>>::empty());
            assert(concat_segs(segments_of(l).drop_first()) == Seq::<char>::empty());
            assert(concat_segs(segments_of(l)) =~= l);
        } else {
            lemma_segments_concat(l.skip(b));
            assert(segments_of(l) == seq![l.take(b)] + segments_of(l.skip(b)));
            assert(segments_of(l)[0] == l.take(b));
            assert(segments_of(l).drop_first() =~= segments_of(l.skip(b)));
            assert(concat_segs(segments_of(l)) =~= l);
        }
    }
}

/// Every segment is nonempty; a newline-free line has newline-free
/// segments; a line with a word has segments with words.
proof fn lemma_segments_wf(l: Seq<char>)
    ensures
        forall|k: int|
            0 <= k < segments_of(l).len() ==> (#[trigger] segments_of(l)[k]).len() > 0
                && segments_of(l)[k].len() <= l.len() && (!l.contains('\n')
                ==> !segments_of(l)[k].contains('\n')) && (line_has_word(l) ==> line_has_word(
                segments_of(l)[k],
            )),
    decreases l.len(),
{
    if l.len() == 0 {
    } else {
        let b = seg_bound_from(l, 1);
        lemma_seg_bound_props(l, 1);
        if b < 1 || b > l.len() {
            assert(segments_of(l) == seq![l]);
            assert(segments_of(l)[0] == l);
        } else {
            let first = l.take(b);
            let rest = l.skip(b);
            assert(segments_of(l) == seq![first] + segments_of(rest));
            assert(l[b] != ' ');
            assert(line_has_word(rest)) by {
                assert(rest[0] != ' ');
            }
            assert(!l.contains('\n') ==> !first.contains('\n') && !rest.contains('\n')) by {
                if first.contains('\n') {
                    let j = choose|j: int| 0 <= j < b && #[trigger] first[j] == '\n';
                    assert(l[j] == '\n');
                }
                if rest.contains('\n') {
                    let j = choose|j: int| 0 <= j < rest.len() && #[trigger] rest[j] == '\n';
                    assert(l[b + j] == '\n');
                }
            }
            lemma_segments_wf(rest);
            assert forall|k: int| 0 <= k < segments_of(l).len() implies (#[trigger] segments_of(
                l,
            )[k]).len() > 0 && segments_of(l)[k].len() <= l.len() && (!l.contains('\n')
                ==> !segments_of(l)[k].contains('\n')) && (line_has_word(l) ==> line_has_word(
                segments_of(l)[k],
            )) by {
                if k == 0 {
                    assert(segments_of(l)[0] == first);
                    assert(line_has_word(first));
                } else {
                    assert(segments_of(l)[k] == segments_of(rest)[k - 1]);
                    assert(line_has_word(rest));
                }
            }
        }
    }
}

/// Every chunk of a segment is nonempty and fits after trimming; the last
/// chunk keeps the segment's last word.
proof fn lemma_seg_chunks_wf(s: Seq<char>, w: int)
    requires
        w >= 1,
        s.len() > 0,
    ensures
        seg_chunks(s, w).len() > 0,
        forall|k: int|
            0 <= k < seg_chunks(s, w).len() ==> {
                let c = #[trigger] seg_chunks(s, w)[k];
                c.len() > 0 && rtrim_spaces(c).len() <= w && (!s.contains('\n') ==> !c.contains(
                    '\n',
                ))
            },
        line_has_word(s) ==> line_has_word(seg_chunks(s, w).last()),
    decreases s.len(),
{
    lemma_rtrim_shape(s);
    if s.len() <= w || rtrim_spaces(s).len() <= w {
        assert(seg_chunks(s, w)[0] == s);
    } else {
        let head = s.take(w);
        let tail = s.skip(w);
        lemma_rtrim_shape(head);
        assert(line_has_word(tail)) by {
            let n = rtrim_spaces(s).len() as int;
            assert(s[n - 1] != ' ');
            assert(tail[n - 1 - w] != ' ');
        }
        assert(!s.contains('\n') ==> !head.contains('\n') && !tail.contains('\n')) by {
            if head.contains('\n') {
                let j = choose|j: int| 0 <= j < w && #[trigger] head[j] == '\n';
                assert(s[j] == '\n');
            }
            if tail.contains('\n') {
                let j = choose|j: int| 0 <= j < tail.len() && #[trigger] tail[j] == '\n';
                assert(s[w + j] == '\n');
            }
        }
        lemma_seg_chunks_wf(tail, w);
        assert(seg_chunks(s, w).last() == seg_chunks(tail, w).last());
        assert forall|k: int| 0 <= k < seg_chunks(s, w).len() implies {
            let c = #[trigger] seg_chunks(s, w)[k];
            c.len() > 0 && rtrim_spaces(c).len() <= w && (!s.contains('\n') ==> !c.contains(
                '\n',
            ))
        } by {
            if k == 0 {
                assert(seg_chunks(s, w)[0] == head);
            } else {
                assert(seg_chunks(s, w)[k] == seg_chunks(tail, w)[k - 1]);
            }
        }
    }
}

/// All pieces of a well-formed segment list are well-formed; the last piece
/// keeps the last segment's word.
proof fn lemma_all_pieces_wf(segs: Seq<Seq<char>>, w: int)
    requires
        w >= 1,
        forall|k: int| 0 <= k < segs.len() ==> (#[trigger] segs[k]).len() > 0,
    ensures
        forall|k: int|
            0 <= k < all_pieces(segs, w).len() ==> {
                let c = #[trigger] all_pieces(segs, w)[k];
                c.len() > 0 && rtrim_spaces(c).len() <= w
            },
        (forall|k: int| 0 <= k < segs.len() ==> !(#[trigger] segs[k]).contains('\n'))
            ==> forall|k: int|
            0 <= k < all_pieces(segs, w).len() ==> !(#[trigger] all_pieces(segs, w)[k]).contains(
            '\n',
        ),
        segs.len() > 0 ==> all_pieces(segs, w).len() > 0,
        segs.len() > 0 && line_has_word(segs.last()) ==> line_has_word(
            all_pieces(segs, w).last(),
        ),
    decreases segs.len(),
{
    if segs.len() > 0 {
        lemma_seg_chunks_wf(segs[0], w);
        assert(forall|k: int|
            0 <= k < segs.drop_first().len() ==> segs.drop_first()[k] == segs[k + 1]);
        lemma_all_pieces_wf(segs.drop_first(), w);
        let n0 = seg_chunks(segs[0], w).len() as int;
        assert(forall|k: int|
            0 <= k < n0 ==> #[trigger] all_pieces(segs, w)[k] == seg_chunks(segs[0], w)[k]);
        assert(forall|k: int|
            n0 <= k < all_pieces(segs, w).len() ==> #[trigger] all_pieces(segs, w)[k]
                == all_pieces(segs.drop_first(), w)[k - n0]);
        if segs.len() == 1 {
            assert(segs.drop_first() =~= Seq::<Seq<char>>::empty());
            assert(all_pieces(segs, w) =~~= seg_chunks(segs[0], w));
            assert(segs.last() == segs[0]);
        } else {
            assert(segs.drop_first().last() == segs.last());
            if line_has_word(segs.last()) {
                assert(all_pieces(segs, w).last() == all_pieces(segs.drop_first(), w).last());
            }
        }
    }
}

/// When every segment already fits, chunking changes nothing.
proof fn lemma_all_pieces_id(segs: Seq<Seq<char>>, w: int)
    requires
        w >= 1,
        forall|k: int|
            0 <= k < segs.len() ==> rtrim_spaces(#[trigger] segs[k]).len() <= w,
    ensures
        all_pieces(segs, w) == segs,
    decreases segs.len(),
{
    if segs.len() > 0 {
        assert(seg_chunks(segs[0], w) == seq![segs[0]]);
        assert(forall|k: int|
            0 <= k < segs.drop_first().len() ==> segs.drop_first()[k] == segs[k + 1]);
        lemma_all_pieces_id(segs.drop_first(), w);
        assert(all_pieces(segs, w) =~~= segs);
    }
}

/// Greedy packing always yields at least one row.
proof fn lemma_greedy_nonempty(pieces: Seq<Seq<char>>, cur: Seq<char>, w: int)
    ensures
        greedy(pieces, cur, w).len() > 0,
    decreases pieces.len(),
{
    if pieces.len() > 0 {
        let p = pieces[0];
        if cur.len() == 0 {
            lemma_greedy_nonempty(pieces.drop_first(), p, w);
        } else if cur.len() + rtrim_spaces(p).len() <= w {
            lemma_greedy_nonempty(pieces.drop_first(), cur + p, w);
        } else {
        }
    }
}

/// Every row greedy outputs is trimmed of trailing spaces, fits the width,
/// and holds no newline.
proof fn lemma_greedy_rows_good(pieces: Seq<Seq<char>>, cur: Seq<char>, w: int)
    requires
        w >= 1,
        forall|k: int|
            0 <= k < pieces.len() ==> rtrim_spaces(#[trigger] pieces[k]).len() <= w
                && !pieces[k].contains('\n'),
        rtrim_spaces(cur).len() <= w,
        !cur.contains('\n'),
    ensures
        forall|k: int|
            0 <= k < greedy(pieces, cur, w).len() ==> {
                let row = #[trigger] greedy(pieces, cur, w)[k];
                rtrim_spaces(row) == row && row.len() <= w && !row.contains('\n')
            },
    decreases pieces.len(),
{
    if pieces.len() == 0 {
        lemma_rtrim_fixed(cur);
        lemma_rtrim_no_nl(cur);
        assert(greedy(pieces, cur, w)[0] == rtrim_spaces(cur));
    } else {
        let p = pieces[0];
        assert(forall|k: int|
            0 <= k < pieces.drop_first().len() ==> pieces.drop_first()[k] == pieces[k + 1]);
        if cur.len() == 0 {
            lemma_greedy_rows_good(pieces.drop_first(), p, w);
            assert forall|k: int| 0 <= k < greedy(pieces, cur, w).len() implies {
                let row = #[trigger] greedy(pieces, cur, w)[k];
                rtrim_spaces(row) == row && row.len() <= w && !row.contains('\n')
            } by {
                assert(greedy(pieces, cur, w)[k] == greedy(pieces.drop_first(), p, w)[k]);
            }
        } else if cur.len() + rtrim_spaces(p).len() <= w {
            let cur2 = cur + p;
            assert(rtrim_spaces(cur2).len() <= w) by {
                if line_has_word(p) {
                    lemma_rtrim_concat_word(cur, p);
                } else {
                    lemma_rtrim_concat_spaces(cur, p);
                }
            }
            assert(!cur2.contains('\n')) by {
                if cur2.contains('\n') {
                    let j = choose|j: int| 0 <= j < cur2.len() && #[trigger] cur2[j] == '\n';
                    if j < cur.len() {
                        assert(cur[j] == '\n');
                    } else {
                        assert(p[j - cur.len()] == '\n');
                    }
                }
            }
            lemma_greedy_rows_good(pieces.drop_first(), cur2, w);
            assert forall|k: int| 0 <= k < greedy(pieces, cur, w).len() implies {
                let row = #[trigger] greedy(pieces, cur, w)[k];
                rtrim_spaces(row) == row && row.len() <= w && !row.contains('\n')
            } by {
                assert(greedy(pieces, cur, w)[k] == greedy(pieces.drop_first(), cur2, w)[k]);
            }
        } else {
            lemma_rtrim_fixed(cur);
            lemma_rtrim_no_nl(cur);
            lemma_greedy_rows_good(pieces.drop_first(), p, w);
            assert forall|k: int| 0 <= k < greedy(pieces, cur, w).len() implies {
                let row = #[trigger] greedy(pieces, cur, w)[k];
                rtrim_spaces(row) == row && row.len() <= w && !row.contains('\n')
            } by {
                if k >= 1 {
                    assert(greedy(pieces, cur, w)[k] == greedy(pieces.drop_first(), p, w)[k
                        - 1]);
                }
            }
        }
    }
}

/// The last row keeps the last word handed to greedy packing.
proof fn lemma_greedy_last_word(pieces: Seq<Seq<char>>, cur: Seq<char>, w: int)
    requires
        pieces.len() > 0 ==> line_has_word(pieces.last()),
        pieces.len() == 0 ==> line_has_word(cur),
    ensures
        greedy(pieces, cur, w).last().len() > 0,
        line_has_word(greedy(pieces, cur, w).last()),
    decreases pieces.len(),
{
    if pieces.len() == 0 {
        lemma_rtrim_keeps_word(cur);
        assert(greedy(pieces, cur, w).last() == rtrim_spaces(cur));
    } else {
        let p = pieces[0];
        if pieces.len() > 1 {
            assert(pieces.drop_first().last() == pieces.last());
        }
        if cur.len() == 0 {
            if pieces.len() == 1 {
                assert(p == pieces.last());
            }
            lemma_greedy_last_word(pieces.drop_first(), p, w);
        } else if cur.len() + rtrim_spaces(p).len() <= w {
            let cur2 = cur + p;
            if pieces.len() == 1 {
                assert(line_has_word(cur2)) by {
                    let i = choose|i: int| 0 <= i < p.len() && p[i] != ' ';
                    assert(cur2[cur.len() + i] != ' ');
                }
            }
            lemma_greedy_last_word(pieces.drop_first(), cur2, w);
        } else {
            if pieces.len() == 1 {
                assert(p == pieces.last());
            }
            lemma_greedy_last_word(pieces.drop_first(), p, w);
            lemma_greedy_nonempty(pieces.drop_first(), p, w);
            assert(greedy(pieces, cur, w).last() == greedy(pieces.drop_first(), p, w).last());
        }
    }
}

/// Segments whose joined content fits the width pack into that one row.
proof fn lemma_greedy_all_join(segs: Seq<Seq<char>>, cur: Seq<char>, w: int)
    requires
        cur.len() >= 1,
        (cur + concat_segs(segs)).len() <= w,
    ensures
        greedy(segs, cur, w) == seq![rtrim_spaces(cur + concat_segs(segs))],
    decreases segs.len(),
{
    if segs.len() == 0 {
        assert(cur + concat_segs(segs) =~= cur);
    } else {
        let s = segs[0];
        lemma_rtrim_shape(s);
        assert(cur.len() + rtrim_spaces(s).len() <= w);
        assert((cur + s) + concat_segs(segs.drop_first()) =~= cur + concat_segs(segs));
        lemma_greedy_all_join(segs.drop_first(), cur + s, w);
    }
}

/// A line that already fits the width and carries no trailing space wraps
/// to itself, byte for byte.
pub proof fn lemma_wrap_line_fitting(l: Seq<char>, w: int)
    requires
        w >= 1,
        l.len() <= w,
        rtrim_spaces(l) == l,
    ensures
        wrap_line_spec(l, w) == l,
{
    if l.len() == 0 {
        assert(join_lines(line_rows(l, w)) =~= l);
    } else {
        let segs = segments_of(l);
        lemma_segments_concat(l);
        lemma_segments_wf(l);
        assert(segs.len() > 0) by {
            if segs.len() == 0 {
                assert(concat_segs(segs) =~= Seq::<char>::empty());
            }
        }
        assert forall|k: int| 0 <= k < segs.len() implies rtrim_spaces(
            #[trigger] segs[k],
        ).len() <= w by {
            lemma_rtrim_shape(segs[k]);
        }
        lemma_all_pieces_id(segs, w);
        assert(segs[0] + concat_segs(segs.drop_first()) =~= l) by {
            assert(concat_segs(segs) == segs[0] + concat_segs(segs.drop_first()));
        }
        assert(segs[0].len() >= 1);
        lemma_greedy_all_join(segs.drop_first(), segs[0], w);
        assert(greedy(segs, seq![], w) == greedy(segs.drop_first(), segs[0], w));
        assert(line_rows(l, w) == seq![rtrim_spaces(l)]);
        assert(line_rows(l, w) == seq![l]);
        assert(join_lines(seq![l]) == l) by {
            assert(seq![l][0] == l);
        }
    }
}


/// Where the first newline is, and what stands before it.
proof fn lemma_first_nl_props(s: Seq<char>)
    ensures
        crate::text::first_nl(s) >= 0 ==> crate::text::first_nl(s) < s.len() && s[
            crate::text::first_nl(s)
        ] == '\n' && forall|j: int| 0 <= j < crate::text::first_nl(s) ==> s[j] != '\n',
        crate::text::first_nl(s) < 0 ==> !s.contains('\n'),
    decreases s.len(),
{
    if s.len() == 0 {
    } else if s[0] == '\n' {
    } else {
        lemma_first_nl_props(s.drop_first());
        let r = crate::text::first_nl(s.drop_first());
        if r >= 0 {
            assert(forall|j: int|
                1 <= j < r + 1 ==> s[j] == s.drop_first()[j - 1] && s[j] != '\n');
        } else {
            assert(!s.contains('\n')) by {
                if s.contains('\n') {
                    let j = choose|j: int| 0 <= j < s.len() && #[trigger] s[j] == '\n';
                    assert(j > 0);
                    assert(s.drop_first()[j - 1] == '\n');
                    assert(s.drop_first().contains('\n'));
                }
            }
        }
    }
}

/// No line of a split holds a newline.
proof fn lemma_split_lines_no_nl(s: Seq<char>)
    ensures
        forall|k: int|
            0 <= k < split_lines(s).len() ==> !(#[trigger] split_lines(s)[k]).contains('\n'),
    decreases s.len(),
{
    lemma_first_nl_props(s);
    if s.len() == 0 {
    } else {
        let i = crate::text::first_nl(s);
        if i < 0 || i >= s.len() {
            assert(!s.contains('\n'));
            assert(split_lines(s) =~= seq![s]);
        } else {
            assert(!s.take(i).contains('\n')) by {
                if s.take(i).contains('\n') {
                    let j = choose|j: int| 0 <= j < i && #[trigger] s.take(i)[j] == '\n';
                    assert(s[j] == '\n');
                }
            }
            lemma_split_lines_no_nl(s.skip(i + 1));
            assert(forall|k: int|
                1 <= k < split_lines(s).len() ==> #[trigger] split_lines(s)[k] == split_lines(
                    s.skip(i + 1),
                )[k - 1]);
        }
    }
}

/// Splitting undoes joining when no line holds a newline and the last line
/// is not empty.
proof fn lemma_split_join(ls: Seq<Seq<char>>)
    requires
        forall|k: int| 0 <= k < ls.len() ==> !(#[trigger] ls[k]).contains('\n'),
        ls.len() > 0 ==> ls.last().len() > 0,
    ensures
        split_lines(join_lines(ls)) == ls,
    decreases ls.len(),
{
    if ls.len() == 0 {
        assert(split_lines(join_lines(ls)) =~~= ls);
    } else if ls.len() == 1 {
        crate::text::lemma_split_lines_flat(ls[0]);
        assert(split_lines(join_lines(ls)) =~~= ls);
    } else {
        crate::text::lemma_split_lines_step(ls[0], join_lines(ls.drop_first()));
        assert(forall|k: int|
            0 <= k < ls.drop_first().len() ==> ls.drop_first()[k] == ls[k + 1]);
        assert(ls.drop_first().last().len() > 0);
        lemma_split_join(ls.drop_first());
        assert(split_lines(join_lines(ls)) =~~= ls);
    }
}

/// Joining distributes over concatenation of nonempty line lists.
proof fn lemma_join_lines_concat(a: Seq<Seq<char>>, b: Seq<Seq<char>>)
    requires
        a.len() > 0,
        b.len() > 0,
    ensures
        join_lines(a + b) == join_lines(a) + seq!['\n'] + join_lines(b),
    decreases a.len(),
{
    if a.len() == 1 {
        assert((a + b).drop_first() =~= b);
        assert((a + b)[0] == a[0]);
        assert((a + b).len() >= 2);
        assert(join_lines(a + b) == a[0] + seq!['\n'] + join_lines(b));
    } else {
        lemma_join_lines_concat(a.drop_first(), b);
        assert((a + b).drop_first() =~= a.drop_first() + b);
        assert((a + b)[0] == a[0]);
        assert(join_lines(a) + seq!['\n'] + join_lines(b) =~= a[0] + seq!['\n'] + (join_lines(
            a.drop_first(),
        ) + seq!['\n'] + join_lines(b)));
    }
}

/// Joining undoes splitting when the text does not end in a newline.
proof fn lemma_join_split(text: Seq<char>)
    requires
        text.len() > 0 ==> text.last() != '\n',
    ensures
        join_lines(split_lines(text)) == text,
    decreases text.len(),
{
    lemma_first_nl_props(text);
    if text.len() == 0 {
    } else {
        let i = crate::text::first_nl(text);
        if i < 0 || i >= text.len() {
            assert(split_lines(text) == seq![text]);
            assert(seq![text][0] == text);
            assert(join_lines(split_lines(text)) == text);
        } else {
            assert(text[i] == '\n');
            assert(i < text.len() - 1) by {
                if i == text.len() - 1 {
                    assert(text.last() == '\n');
                }
            }
            let rest = text.skip(i + 1);
            assert(rest.len() > 0);
            assert(rest.last() == text.last());
            lemma_join_split(rest);
            assert(split_lines(rest).len() > 0);
            assert(split_lines(text) == seq![text.take(i)] + split_lines(rest));
            lemma_join_lines_concat(seq![text.take(i)], split_lines(rest));
            assert(join_lines(seq![text.take(i)]) == text.take(i)) by {
                assert(seq![text.take(i)][0] == text.take(i));
            }
            assert(text.take(i) + seq!['\n'] + rest =~= text);
        }
    }
}

/// The output rows of a wrapped text, flat: for each input line its rows,
/// or one empty row when the line is empty.
pub open spec fn row_of(l: Seq<char>, w: int) -> Seq<Seq<char>> {
    if l.len() == 0 {
        seq![Seq::<char>::empty()]
    } else {
        line_rows(l, w)
    }
}

pub open spec fn piece_rows(ls: Seq<Seq<char>>, w: int) -> Seq<Seq<char>>
    decreases ls.len(),
{
    if ls.len() == 0 {
        seq![]
    } else {
        row_of(ls[0], w) + piece_rows(ls.drop_first(), w)
    }
}

/// A nonempty line list has at least one row.
proof fn lemma_piece_rows_len(ls: Seq<Seq<char>>, w: int)
    ensures
        ls.len() > 0 ==> piece_rows(ls, w).len() > 0,
{
    if ls.len() > 0 {
        if ls[0].len() != 0 {
            lemma_greedy_nonempty(all_pieces(segments_of(ls[0]), w), seq![], w);
        }
    }
}

/// The joined wrapped lines equal the joined flat rows.
proof fn lemma_rows_join(ls: Seq<Seq<char>>, w: int)
    ensures
        join_lines(ls.map_values(|l: Seq<char>| wrap_line_spec(l, w))) == join_lines(
            piece_rows(ls, w),
        ),
    decreases ls.len(),
{
    let m = ls.map_values(|l: Seq<char>| wrap_line_spec(l, w));
    if ls.len() == 0 {
        assert(m =~~= Seq::<Seq<char>>::empty());
    } else if ls.len() == 1 {
        assert(m =~~= seq![wrap_line_spec(ls[0], w)]);
        assert(join_lines(m) == wrap_line_spec(ls[0], w)) by {
            assert(m[0] == wrap_line_spec(ls[0], w));
        }
        assert(join_lines(row_of(ls[0], w)) == wrap_line_spec(ls[0], w)) by {
            if ls[0].len() == 0 {
                assert(row_of(ls[0], w) == seq![Seq::<char>::empty()]);
                assert(join_lines(seq![Seq::<char>::empty()]) == Seq::<char>::empty()) by {
                    assert(seq![Seq::<char>::empty()][0] == Seq::<char>::empty());
                }
                assert(line_rows(ls[0], w) == Seq::<Seq<char>>::empty());
                assert(join_lines(line_rows(ls[0], w)) == Seq::<char>::empty());
            }
        }
        assert(piece_rows(ls, w) =~~= row_of(ls[0], w)) by {
            assert(ls.drop_first() =~= Seq::<Seq<char>>::empty());
            assert(piece_rows(ls.drop_first(), w) == Seq::<Seq<char>>::empty());
        }
    } else {
        lemma_rows_join(ls.drop_first(), w);
        assert(m.drop_first() =~~= ls.drop_first().map_values(
            |l: Seq<char>| wrap_line_spec(l, w),
        ));
        assert(m[0] == wrap_line_spec(ls[0], w));
        assert(join_lines(m) == m[0] + seq!['\n'] + join_lines(m.drop_first()));
        let r0 = row_of(ls[0], w);
        let rrest = piece_rows(ls.drop_first(), w);
        assert(rrest.len() > 0) by {
            lemma_piece_rows_len(ls.drop_first(), w);
        }
        assert(r0.len() > 0) by {
            if ls[0].len() != 0 {
                lemma_greedy_nonempty(all_pieces(segments_of(ls[0]), w), seq![], w);
            }
        }
        lemma_join_lines_concat(r0, rrest);
        assert(join_lines(r0) == wrap_line_spec(ls[0], w)) by {
            if ls[0].len() == 0 {
                assert(r0 == seq![Seq::<char>::empty()]);
                assert(join_lines(seq![Seq::<char>::empty()]) == Seq::<char>::empty()) by {
                    assert(seq![Seq::<char>::empty()][0] == Seq::<char>::empty());
                }
                assert(line_rows(ls[0], w) == Seq::<Seq<char>>::empty());
                assert(join_lines(line_rows(ls[0], w)) == Seq::<char>::empty());
            }
        }
    }
}

/// Every row of a wrapped text is trimmed of trailing spaces, fits the
/// width, and holds no newline.
proof fn lemma_rows_good(ls: Seq<Seq<char>>, w: int)
    requires
        w >= 1,
        forall|k: int| 0 <= k < ls.len() ==> !(#[trigger] ls[k]).contains('\n'),
    ensures
        forall|k: int|
            0 <= k < piece_rows(ls, w).len() ==> {
                let row = #[trigger] piece_rows(ls, w)[k];
                rtrim_spaces(row) == row && row.len() <= w && !row.contains('\n')
            },
    decreases ls.len(),
{
    if ls.len() > 0 {
        assert(forall|k: int|
            0 <= k < ls.drop_first().len() ==> ls.drop_first()[k] == ls[k + 1]);
        lemma_rows_good(ls.drop_first(), w);
        let r0 = row_of(ls[0], w);
        assert(forall|k: int|
            0 <= k < r0.len() ==> {
                let row = #[trigger] r0[k];
                rtrim_spaces(row) == row && row.len() <= w && !row.contains('\n')
            }) by {
            if ls[0].len() == 0 {
                assert(r0[0] == Seq::<char>::empty());
            } else {
                let segs = segments_of(ls[0]);
                lemma_segments_wf(ls[0]);
                lemma_all_pieces_wf(segs, w);
                assert(rtrim_spaces(Seq::<char>::empty()).len() <= w);
                lemma_greedy_rows_good(all_pieces(segs, w), seq![], w);
            }
        }
        let n0 = r0.len() as int;
        assert(forall|k: int|
            0 <= k < n0 ==> #[trigger] piece_rows(ls, w)[k] == r0[k]);
        assert(forall|k: int|
            n0 <= k < piece_rows(ls, w).len() ==> #[trigger] piece_rows(ls, w)[k] == piece_rows(
                ls.drop_first(),
                w,
            )[k - n0]);
    }
}

/// The last row of a wrapped text whose last line holds a word is nonempty.
proof fn lemma_rows_last(ls: Seq<Seq<char>>, w: int)
    requires
        w >= 1,
        ls.len() > 0,
        line_has_word(ls.last()),
    ensures
        piece_rows(ls, w).len() > 0,
        piece_rows(ls, w).last().len() > 0,
    decreases ls.len(),
{
    if ls.len() == 1 {
        let l = ls[0];
        assert(ls.last() == l);
        assert(l.len() > 0) by {
            let i = choose|i: int| 0 <= i < l.len() && l[i] != ' ';
        }
        let segs = segments_of(l);
        lemma_segments_wf(l);
        lemma_segments_concat(l);
        assert(segs.len() > 0) by {
            if segs.len() == 0 {
                assert(concat_segs(segs) =~= Seq::<char>::empty());
            }
        }
        assert(line_has_word(segs.last()));
        lemma_all_pieces_wf(segs, w);
        lemma_greedy_last_word(all_pieces(segs, w), seq![], w);
        assert(row_of(l, w) == line_rows(l, w));
        assert(piece_rows(ls, w) =~~= row_of(l, w)) by {
            assert(ls.drop_first() =~= Seq::<Seq<char>>::empty());
            assert(piece_rows(ls.drop_first(), w) == Seq::<Seq<char>>::empty());
        }
        lemma_greedy_nonempty(all_pieces(segs, w), seq![], w);
        assert(piece_rows(ls, w).last() == line_rows(l, w).last());
    } else {
        assert(forall|k: int|
            0 <= k < ls.drop_first().len() ==> ls.drop_first()[k] == ls[k + 1]);
        assert(ls.drop_first().last() == ls.last());
        lemma_rows_last(ls.drop_first(), w);
        let r0 = row_of(ls[0], w);
        let rrest = piece_rows(ls.drop_first(), w);
        assert(piece_rows(ls, w) == r0 + rrest);
        assert(piece_rows(ls, w).last() == rrest.last()) by {
            assert(rrest.len() > 0);
        }
    }
}

/// Text that already fits is returned unchanged: every line within the
/// width and free of trailing spaces, and no final newline.
pub proof fn lemma_wrap_fitting_text(text: Seq<char>, w: int)
    requires
        w >= 1,
        forall|k: int|
            0 <= k < split_lines(text).len() ==> (#[trigger] split_lines(text)[k]).len() <= w
                && rtrim_spaces(split_lines(text)[k]) == split_lines(text)[k],
        text.len() > 0 ==> text.last() != '\n',
    ensures
        wrap_text_spec(text, w) == text,
{
    let ls = split_lines(text);
    let m = ls.map_values(|l: Seq<char>| wrap_line_spec(l, w));
    assert(m =~~= ls) by {
        assert forall|k: int| 0 <= k < ls.len() implies m[k] == ls[k] by {
            lemma_wrap_line_fitting(ls[k], w);
        }
    }
    lemma_join_split(text);
}

/// Width Wrapper idempotence: wrapping already-wrapped text at the same
/// width reproduces the same output.  The one family of inputs left out:
/// texts whose final line holds no word, where the final line break is not
/// reproduced by a second pass.
pub proof fn lemma_wrap_idempotent(text: Seq<char>, w: int)
    requires
        w >= 1,
        split_lines(text).len() > 0 ==> line_has_word(split_lines(text).last()),
    ensures
        wrap_text_spec(wrap_text_spec(text, w), w) == wrap_text_spec(text, w),
{
    let ls = split_lines(text);
    let rows = piece_rows(ls, w);
    let out = wrap_text_spec(text, w);
    lemma_rows_join(ls, w);
    assert(out == join_lines(rows));
    lemma_split_lines_no_nl(text);
    lemma_rows_good(ls, w);
    if ls.len() == 0 {
        assert(rows =~~= Seq::<Seq<char>>::empty());
        assert(out =~= Seq::<char>::empty());
        assert(split_lines(out) =~~= Seq::<Seq<char>>::empty());
        assert(wrap_text_spec(out, w) =~= Seq::<char>::empty()) by {
            assert(split_lines(out).map_values(|l: Seq<char>| wrap_line_spec(l, w))
                =~~= Seq::<Seq<char>>::empty());
        }
    } else {
        lemma_rows_last(ls, w);
        lemma_split_join(rows);
        assert(split_lines(out) == rows);
        let m2 = rows.map_values(|l: Seq<char>| wrap_line_spec(l, w));
        assert(m2 =~~= rows) by {
            assert forall|k: int| 0 <= k < rows.len() implies m2[k] == rows[k] by {
                lemma_wrap_line_fitting(rows[k], w);
            }
        }
        assert(wrap_text_spec(out, w) == join_lines(m2));
        assert(join_lines(m2) == join_lines(rows));
    }
}

/// The chosen wrap column: the detected terminal width capped at 100; the
/// cap itself when no width could be detected.
pub open spec fn chosen_width(detected: Option<u16>) -> u16 {
    match detected {
        Some(w) => if w < 100 {
            w
        } else {
            100
        },
        None => 100,
    }
}

/// Select the wrap column from a detected terminal width.
pub fn select_wrap_width(detected: Option<u16>) -> (r: u16)
    ensures
        r == chosen_width(detected),
{
    match detected {
        Some(w) => if w < 100 {
            w
        } else {
            100
        },
        None => 100,
    }
}

/// Relies on terminal_size::terminal_size: probes the terminal for its
/// width.  The result depends on the environment, so nothing is promised of
/// it.
#[verifier::external_body]
fn probe_terminal_width() -> (r: Option<u16>) {
    match terminal_size::terminal_size() {
        Some((terminal_size::Width(w), _)) => Some(w),
        None => None,
    }
}

/// The terminal width for wrapping, capped at 100 columns; 100 when the
/// terminal size cannot be determined.
pub fn get_wrap_width() -> (r: u16)
    ensures
        r <= 100,
{
    let detected = probe_terminal_width();
    select_wrap_width(detected)
}

} // verus!
