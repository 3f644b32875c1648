use vstd::prelude::*;

verus! {

// ---------------------------------------------------------------------------
// Characters and strings
//
// The engine works on sequences of characters.  Executable code holds them in
// `Vec<char>`; the contracts speak of `Seq<char>`, the common view of `str`,
// `String` and `Vec<char>`.
// ---------------------------------------------------------------------------

/// Collect the characters of a string slice into a vector.
pub fn str_to_chars(s: &str) -> (r: Vec<char>)
    ensures
        r@ == s@,
{
    let n = s.unicode_len();
    let mut r: Vec<char> = Vec::new();
    for i in 0..n
        invariant
            n == s@.len(),
            r@ =~= s@.take(i as int),
    {
        r.push(s.get_char(i));
        proof {
            assert(r@ =~= s@.take(i + 1));
        }
    }
    proof {
        assert(s@.take(n as int) =~= s@);
    }
    r
}

/// Relies on String::push: appends exactly one character to the string.
#[verifier::external_body]
fn push_char(s: &mut String, c: char)
    ensures
        final(s)@ == old(s)@ + seq![c],
{
    s.push(c);
}

/// Build a string from a vector of characters.
pub fn chars_to_string(v: &Vec<char>) -> (r: String)
    ensures
        r@ == v@,
{
    let mut r = String::new();
    for i in 0..v.len()
        invariant
            r@ =~= v@.take(i as int),
    {
        push_char(&mut r, v[i]);
        proof {
            assert(r@ =~= v@.take(i + 1));
        }
    }
    proof {
        assert(v@.take(v@.len() as int) =~= v@);
    }
    r
}

/// Copy the characters of a string slice onto the end of a vector.
pub fn append_str(out: &mut Vec<char>, s: &str)
    ensures
        final(out)@ == old(out)@ + s@,
{
    let n = s.unicode_len();
    for i in 0..n
        invariant
            n == s@.len(),
            out@ =~= old(out)@ + s@.take(i as int),
    {
        out.push(s.get_char(i));
        proof {
            assert(out@ =~= old(out)@ + s@.take(i + 1));
        }
    }
    proof {
        assert(old(out)@ + s@.take(n as int) =~= old(out)@ + s@);
    }
}

/// Copy one vector of characters onto the end of another.
pub fn append_chars(out: &mut Vec<char>, s: &Vec<char>)
    ensures
        final(out)@ == old(out)@ + s@,
{
    for i in 0..s.len()
        invariant
            out@ =~= old(out)@ + s@.take(i as int),
    {
        out.push(s[i]);
        proof {
            assert(out@ =~= old(out)@ + s@.take(i + 1));
        }
    }
    proof {
        assert(old(out)@ + s@.take(s@.len() as int) =~= old(out)@ + s@);
    }
}

// ---------------------------------------------------------------------------
// Repetition
// ---------------------------------------------------------------------------

/// `n` copies of the character `c`.
pub open spec fn repeat_char(c: char, n: int) -> Seq<char>
    decreases n,
{
    if n <= 0 {
        seq![]
    } else {
        repeat_char(c, n - 1) + seq![c]
    }
}

pub proof fn lemma_repeat_char_len(c: char, n: int)
    ensures
        repeat_char(c, n).len() == if n <= 0 { 0int } else { n },
        forall|i: int| 0 <= i < repeat_char(c, n).len() ==> repeat_char(c, n)[i] == c,
    decreases n,
{
    if n > 0 {
        lemma_repeat_char_len(c, n - 1);
    }
}

/// Append `n` copies of `c` to `out`.
pub fn push_repeat(out: &mut Vec<char>, c: char, n: usize)
    ensures
        final(out)@ == old(out)@ + repeat_char(c, n as int),
{
    for i in 0..n
        invariant
            out@ =~= old(out)@ + repeat_char(c, i as int),
    {
        out.push(c);
        proof {
            assert(out@ =~= old(out)@ + repeat_char(c, i + 1));
        }
    }
}

// ---------------------------------------------------------------------------
// Whitespace and trimming
// ---------------------------------------------------------------------------

/// The whitespace characters recognised by the engine: the ASCII blank,
/// tab, carriage return and newline.  The rarer spacing characters beyond
/// ASCII are ordinary text here, so a marker line led by one of them is not
/// trimmed the way a fully Unicode-aware trim would trim it.
pub open spec fn is_ws(c: char) -> bool {
    c == ' ' || c == '\t' || c == '\r' || c == '\n'
}

/// Executable mirror of `is_ws`.
pub fn is_ws_exec(c: char) -> (r: bool)
    ensures
        r == is_ws(c),
{
    c == ' ' || c == '\t' || c == '\r' || c == '\n'
}

/// `s` without its leading whitespace.
pub open spec fn trim_start_spec(s: Seq<char>) -> Seq<char>
    decreases s.len(),
{
    if s.len() > 0 && is_ws(s[0]) {
        trim_start_spec(s.drop_first())
    } else {
        s
    }
}

/// `s` without its trailing whitespace.
pub open spec fn trim_end_spec(s: Seq<char>) -> Seq<char>
    decreases s.len(),
{
    if s.len() > 0 && is_ws(s.last()) {
        trim_end_spec(s.drop_last())
    } else {
        s
    }
}

/// `s` without leading and trailing whitespace.
pub open spec fn trim_spec(s: Seq<char>) -> Seq<char> {
    trim_end_spec(trim_start_spec(s))
}

pub proof fn lemma_trim_start_chars(s: Seq<char>, k: int)
    requires
        0 <= k <= s.len(),
        forall|i: int| 0 <= i < k ==> is_ws(s[i]),
        k < s.len() ==> !is_ws(s[k]),
    ensures
        trim_start_spec(s) == s.skip(k),
    decreases k,
{
    if k == 0 {
        assert(s.skip(0) =~= s);
    } else {
        assert(is_ws(s[0]));
        lemma_trim_start_chars(s.drop_first(), k - 1);
        assert(s.drop_first().skip(k - 1) =~= s.skip(k));
    }
}

pub proof fn lemma_trim_end_chars(s: Seq<char>, k: int)
    requires
        0 <= k <= s.len(),
        forall|i: int| k <= i < s.len() ==> is_ws(s[i]),
        k > 0 ==> !is_ws(s[k - 1]),
    ensures
        trim_end_spec(s) == s.take(k),
    decreases s.len() - k,
{
    if k == s.len() {
        assert(s.take(k) =~= s);
    } else {
        assert(is_ws(s.last()));
        lemma_trim_end_chars(s.drop_last(), k);
        assert(s.drop_last().take(k) =~= s.take(k));
    }
}

/// Index of the first non-whitespace character of `v`, or `v.len()`.
fn first_non_ws(v: &Vec<char>) -> (k: usize)
    ensures
        k <= v@.len(),
        forall|i: int| 0 <= i < k ==> is_ws(v@[i]),
        k < v@.len() ==> !is_ws(v@[k as int]),
{
    let mut k: usize = 0;
    while k < v.len()
        invariant
            k <= v@.len(),
            forall|i: int| 0 <= i < k ==> is_ws(v@[i]),
        decreases v@.len() - k,
    {
        if !is_ws_exec(v[k]) {
            return k;
        }
        k = k + 1;
    }
    k
}

/// Index just past the last non-whitespace character of `v`, or `0`.
fn last_non_ws(v: &Vec<char>) -> (k: usize)
    ensures
        k <= v@.len(),
        forall|i: int| k <= i < v@.len() ==> is_ws(v@[i]),
        k > 0 ==> !is_ws(v@[k - 1]),
{
    let mut k: usize = v.len();
    while k > 0
        invariant
            k <= v@.len(),
            forall|i: int| k <= i < v@.len() ==> is_ws(v@[i]),
        decreases k,
    {
        if !is_ws_exec(v[k - 1]) {
            return k;
        }
        k = k - 1;
    }
    k
}

/// Copy the characters of `v` from `from` (inclusive) to `to` (exclusive).
pub fn subvec(v: &Vec<char>, from: usize, to: usize) -> (r: Vec<char>)
    requires
        from <= to <= v@.len(),
    ensures
        r@ == v@.subrange(from as int, to as int),
{
    let mut r: Vec<char> = Vec::new();
    for i in from..to
        invariant
            from <= i <= to <= v@.len(),
            r@ =~= v@.subrange(from as int, i as int),
    {
        r.push(v[i]);
        proof {
            assert(r@ =~= v@.subrange(from as int, i + 1));
        }
    }
    r
}

/// `v` without leading and trailing whitespace.
pub fn trim(v: &Vec<char>) -> (r: Vec<char>)
    ensures
        r@ == trim_spec(v@),
{
    let start = first_non_ws(v);
    proof {
        lemma_trim_start_chars(v@, start as int);
    }
    let rest = subvec(v, start, v.len());
    let stop = last_non_ws(&rest);
    proof {
        lemma_trim_end_chars(rest@, stop as int);
    }
    let r = subvec(&rest, 0, stop);
    proof {
        assert(rest@.subrange(0, stop as int) =~= rest@.take(stop as int));
        assert(v@.subrange(start as int, v@.len() as int) =~= v@.skip(start as int));
    }
    r
}

/// `v` without leading whitespace.
pub fn trim_start(v: &Vec<char>) -> (r: Vec<char>)
    ensures
        r@ == trim_start_spec(v@),
{
    let start = first_non_ws(v);
    proof {
        lemma_trim_start_chars(v@, start as int);
    }
    let r = subvec(v, start, v.len());
    proof {
        assert(v@.subrange(start as int, v@.len() as int) =~= v@.skip(start as int));
    }
    r
}

// ---------------------------------------------------------------------------
// Comparison and search
// ---------------------------------------------------------------------------

/// Character-wise equality of two vectors.
pub fn chars_eq(a: &Vec<char>, b: &Vec<char>) -> (r: bool)
    ensures
        r == (a@ == b@),
{
    if a.len() != b.len() {
        proof {
            assert(a@ !~= b@);
        }
        return false;
    }
    for i in 0..a.len()
        invariant
            a@.len() == b@.len(),
            forall|j: int| 0 <= j < i ==> a@[j] == b@[j],
    {
        if a[i] != b[i] {
            proof {
                assert(a@ !~= b@);
            }
            return false;
        }
    }
    proof {
        assert(a@ =~= b@);
    }
    true
}

/// Does `pat` occur in `v` starting at index `i`?
pub open spec fn match_at(v: Seq<char>, pat: Seq<char>, i: int) -> bool {
    0 <= i && i + pat.len() <= v.len() && v.subrange(i, i + pat.len()) == pat
}

/// Executable test of `match_at`.
pub fn match_at_exec(v: &Vec<char>, pat: &Vec<char>, i: usize) -> (r: bool)
    ensures
        r == match_at(v@, pat@, i as int),
{
    if i > v.len() || pat.len() > v.len() - i {
        proof {
            assert(!match_at(v@, pat@, i as int));
        }
        return false;
    }
    for j in 0..pat.len()
        invariant
            i + pat@.len() <= v@.len(),
            v@.len() <= usize::MAX,
            forall|k: int| 0 <= k < j ==> v@[i + k] == pat@[k],
    {
        if v[i + j] != pat[j] {
            proof {
                assert(v@.subrange(i as int, i + pat@.len())[j as int] == v@[i + j]);
                assert(v@.subrange(i as int, i + pat@.len()) !~= pat@);
            }
            return false;
        }
    }
    proof {
        assert(v@.subrange(i as int, i + pat@.len()) =~= pat@);
    }
    true
}

/// Does `pat` occur at the start of `v`?
pub fn has_prefix(v: &Vec<char>, pat: &Vec<char>) -> (r: bool)
    ensures
        r == match_at(v@, pat@, 0),
{
    match_at_exec(v, pat, 0)
}

/// The first index at or after `from` where `pat` occurs in `v`, or -1.
pub open spec fn find_from(v: Seq<char>, pat: Seq<char>, from: int) -> int
    decreases v.len() + 1 - from,
    when from >= 0
{
    if from < 0 || from + pat.len() > v.len() {
        -1
    } else if match_at(v, pat, from) {
        from
    } else {
        find_from(v, pat, from + 1)
    }
}

pub proof fn lemma_find_from_props(v: Seq<char>, pat: Seq<char>, from: int)
    requires
        0 <= from,
    ensures
        find_from(v, pat, from) >= -1,
        find_from(v, pat, from) >= 0 ==> {
            &&& from <= find_from(v, pat, from)
            &&& match_at(v, pat, find_from(v, pat, from))
            &&& forall|j: int|
                from <= j < find_from(v, pat, from) ==> !match_at(v, pat, j)
        },
        find_from(v, pat, from) < 0 ==> forall|j: int| from <= j ==> !match_at(v, pat, j),
    decreases v.len() - from,
{
    if from + pat.len() > v.len() {
        assert(forall|j: int| from <= j ==> !match_at(v, pat, j));
    } else if !match_at(v, pat, from) {
        assert(pat.len() > 0) by {
            if pat.len() == 0 {
                assert(v.subrange(from, from) =~= pat);
            }
        }
        lemma_find_from_props(v, pat, from + 1);
    }
}

/// Search for `pat` in `v`, starting at `from`.
pub fn find_sub(v: &Vec<char>, pat: &Vec<char>, from: usize) -> (r: Option<usize>)
    requires
        pat@.len() >= 1,
    ensures
        match r {
            Some(i) => find_from(v@, pat@, from as int) == i,
            None => find_from(v@, pat@, from as int) == -1,
        },
{
    if pat.len() > v.len() {
        return None;
    }
    let stop = v.len() - pat.len();
    let mut i: usize = from;
    if i > stop {
        return None;
    }
    while i <= stop
        invariant
            from <= i <= stop + 1,
            stop == v@.len() - pat@.len(),
            1 <= pat@.len() <= v@.len(),
            v@.len() <= usize::MAX,
            find_from(v@, pat@, from as int) == find_from(v@, pat@, i as int),
        decreases stop + 1 - i,
    {
        if match_at_exec(v, pat, i) {
            return Some(i);
        }
        i = i + 1;
    }
    None
}

// ---------------------------------------------------------------------------
// Lines
//
// A string is a sequence of lines separated by newline characters; a final
// newline closes the last line without opening an empty one.
// ---------------------------------------------------------------------------

/// Index of the first newline in `s`, or -1.
pub open spec fn first_nl(s: Seq<char>) -> int
    decreases s.len(),
{
    if s.len() == 0 {
        -1
    } else if s[0] == '\n' {
        0
    } else {
        let r = first_nl(s.drop_first());
        if r < 0 {
            -1
        } else {
            r + 1
        }
    }
}

/// The lines of `s`: maximal runs between newline characters.  A trailing
/// newline does not produce a final empty line.
pub open spec fn split_lines(s: Seq<char>) -> Seq<Seq<char>>
    decreases s.len(),
{
    if s.len() == 0 {
        seq![]
    } else {
        let i = first_nl(s);
        if i < 0 || i >= s.len() {
            seq![s]
        } else {
            seq![s.take(i)] + split_lines(s.skip(i + 1))
        }
    }
}

proof fn lemma_first_nl_append(a: Seq<char>, t: Seq<char>)
    requires
        !a.contains('\n'),
        t.len() > 0,
        t[0] == '\n',
    ensures
        first_nl(a + t) == a.len(),
    decreases a.len(),
{
    if a.len() == 0 {
        assert(a + t =~= t);
    } else {
        assert(a[0] != '\n') by {
            assert(a.contains('\n') <==> exists|i: int| 0 <= i < a.len() && a[i] == '\n');
        }
        assert(!a.drop_first().contains('\n')) by {
            assert(forall|i: int|
                0 <= i < a.drop_first().len() ==> a.drop_first()[i] == a[i + 1]);
        }
        lemma_first_nl_append(a.drop_first(), t);
        assert((a + t).drop_first() =~= a.drop_first() + t);
        assert((a + t)[0] == a[0]);
    }
}

proof fn lemma_first_nl_none(a: Seq<char>)
    requires
        !a.contains('\n'),
    ensures
        first_nl(a) == -1,
    decreases a.len(),
{
    if a.len() > 0 {
        assert(a[0] != '\n');
        assert(!a.drop_first().contains('\n')) by {
            assert(forall|i: int|
                0 <= i < a.drop_first().len() ==> a.drop_first()[i] == a[i + 1]);
        }
        lemma_first_nl_none(a.drop_first());
    }
}

/// One step of line splitting: a newline-free prefix followed by a newline
/// closes one line.
pub proof fn lemma_split_lines_step(a: Seq<char>, rest: Seq<char>)
    requires
        !a.contains('\n'),
    ensures
        split_lines(a + seq!['\n'] + rest) == seq![a] + split_lines(rest),
{
    let s = a + seq!['\n'] + rest;
    lemma_first_nl_append(a, seq!['\n'] + rest);
    assert(a + (seq!['\n'] + rest) =~= s);
    assert(first_nl(s) == a.len());
    assert(s.take(a.len() as int) =~= a);
    assert(s.skip(a.len() as int + 1) =~= rest);
    assert(split_lines(s) =~~= seq![a] + split_lines(rest));
}

/// A newline-free string is at most one line.
pub proof fn lemma_split_lines_flat(a: Seq<char>)
    requires
        !a.contains('\n'),
    ensures
        split_lines(a) == if a.len() == 0 { Seq::<Seq<char>>::empty() } else { seq![a] },
{
    lemma_first_nl_none(a);
}

/// The view of a vector of lines.
pub open spec fn lines_view(r: Seq<Vec<char>>) -> Seq<Seq<char>> {
    r.map_values(|l: Vec<char>| l@)
}

/// Split a vector of characters into its lines.
pub fn split_lines_exec(v: &Vec<char>) -> (r: Vec<Vec<char>>)
    ensures
        lines_view(r@) == split_lines(v@),
{
    let mut r: Vec<Vec<char>> = Vec::new();
    let mut cur: Vec<char> = Vec::new();
    proof {
        assert(cur@ + v@.skip(0) =~= v@);
        assert(lines_view(r@) + split_lines(v@) =~~= split_lines(v@));
    }
    for i in 0..v.len()
        invariant
            !cur@.contains('\n'),
            split_lines(v@) =~~= lines_view(r@) + split_lines(cur@ + v@.skip(i as int)),
    {
        let c = v[i];
        proof {
            assert(v@.skip(i as int) =~= seq![v@[i as int]] + v@.skip(i + 1));
        }
        if c == '\n' {
            proof {
                assert(cur@ + (seq!['\n'] + v@.skip(i + 1)) =~= cur@ + seq!['\n'] + v@.skip(
                    i + 1,
                ));
                lemma_split_lines_step(cur@, v@.skip(i + 1));
            }
            let done = cur;
            cur = Vec::new();
            r.push(done);
            proof {
                assert(lines_view(r@) =~= lines_view(r@.drop_last()) + seq![done@]);
                assert(cur@ + v@.skip(i + 1) =~= v@.skip(i + 1));
            }
        } else {
            let ghost old_cur = cur@;
            cur.push(c);
            proof {
                assert(cur@ + v@.skip(i + 1) =~= old_cur + v@.skip(i as int));
                assert(!cur@.contains('\n')) by {
                    assert(forall|j: int|
                        0 <= j < cur@.len() ==> cur@[j] == if j < old_cur.len() {
                            old_cur[j]
                        } else {
                            c
                        });
                }
            }
        }
    }
    proof {
        assert(cur@ + v@.skip(v@.len() as int) =~= cur@);
        lemma_split_lines_flat(cur@);
    }
    if cur.len() > 0 {
        let done = cur;
        r.push(done);
        proof {
            assert(lines_view(r@) =~= lines_view(r@.drop_last()) + seq![done@]);
        }
    }
    proof {
        assert(lines_view(r@) =~~= split_lines(v@));
    }
    r
}

/// The lines of `ls` joined with single newline characters.
pub open spec fn join_lines(ls: Seq<Seq<char>>) -> Seq<char>
    decreases ls.len(),
{
    if ls.len() == 0 {
        seq![]
    } else if ls.len() == 1 {
        ls[0]
    } else {
        ls[0] + seq!['\n'] + join_lines(ls.drop_first())
    }
}

/// Appending one more line to a join.
pub proof fn lemma_join_lines_push(ls: Seq<Seq<char>>, x: Seq<char>)
    ensures
        join_lines(ls.push(x)) == if ls.len() == 0 {
            x
        } else {
            join_lines(ls) + seq!['\n'] + x
        },
    decreases ls.len(),
{
    if ls.len() == 0 {
        assert(ls.push(x)[0] == x);
        assert(join_lines(ls.push(x)) == x);
    } else if ls.len() == 1 {
        assert(ls.push(x).drop_first() =~= seq![x]);
        assert(ls.push(x)[0] == ls[0]);
        assert(seq![x][0] == x);
        assert(join_lines(seq![x]) == x);
        assert(join_lines(ls.push(x)) == ls[0] + seq!['\n'] + x);
    } else {
        lemma_join_lines_push(ls.drop_first(), x);
        assert(ls.push(x).drop_first() =~= ls.drop_first().push(x));
        assert(join_lines(ls) + seq!['\n'] + x =~= ls[0] + seq!['\n'] + (join_lines(
            ls.drop_first(),
        ) + seq!['\n'] + x));
    }
}

// ---------------------------------------------------------------------------
// Decimal numbers
// ---------------------------------------------------------------------------

/// Is `c` a decimal digit?
pub open spec fn is_digit(c: char) -> bool {
    '0' <= c && c <= '9'
}

/// The value of a decimal digit.
pub open spec fn digit_val(c: char) -> int {
    c as int - '0' as int
}

/// Are all characters of `s` decimal digits?
pub open spec fn all_digits(s: Seq<char>) -> bool {
    forall|i: int| 0 <= i < s.len() ==> is_digit(s[i])
}

/// The value of a string of decimal digits.
pub open spec fn dec_val(s: Seq<char>) -> int
    decreases s.len(),
{
    if s.len() == 0 {
        0
    } else {
        dec_val(s.drop_last()) * 10 + digit_val(s.last())
    }
}

/// The digit part of a decimal literal: the whole string, with one optional
/// leading plus sign stripped.
pub open spec fn dec_digits(s: Seq<char>) -> Seq<char> {
    if s.len() > 0 && s[0] == '+' {
        s.drop_first()
    } else {
        s
    }
}

/// Does `s` parse as an unsigned decimal number no greater than `max`?
pub open spec fn parses_dec(s: Seq<char>, max: int) -> bool {
    let d = dec_digits(s);
    d.len() > 0 && all_digits(d) && dec_val(d) <= max
}

proof fn lemma_dec_val_nonneg(s: Seq<char>)
    requires
        all_digits(s),
    ensures
        dec_val(s) >= 0,
    decreases s.len(),
{
    if s.len() > 0 {
        assert(all_digits(s.drop_last()));
        lemma_dec_val_nonneg(s.drop_last());
    }
}

proof fn lemma_dec_val_take_step(s: Seq<char>, i: int)
    requires
        0 <= i < s.len(),
    ensures
        dec_val(s.take(i + 1)) == dec_val(s.take(i)) * 10 + digit_val(s[i]),
{
    assert(s.take(i + 1).drop_last() =~= s.take(i));
    assert(s.take(i + 1).last() == s[i]);
}

/// Once a digit prefix exceeds `max`, the whole string does.
proof fn lemma_dec_val_grows(s: Seq<char>, i: int)
    requires
        all_digits(s),
        0 <= i <= s.len(),
    ensures
        dec_val(s) >= dec_val(s.take(i)),
    decreases s.len() - i,
{
    if i == s.len() {
        assert(s.take(i) =~= s);
    } else {
        lemma_dec_val_take_step(s, i);
        assert(all_digits(s.take(i)));
        lemma_dec_val_nonneg(s.take(i));
        lemma_dec_val_grows(s, i + 1);
    }
}

/// Parse `v` as an unsigned 32-bit decimal number, as the original notation
/// allows it: optional leading plus, one or more digits, value in range.
pub fn parse_u32(v: &Vec<char>) -> (r: Option<u32>)
    ensures
        match r {
            Some(n) => parses_dec(v@, u32::MAX as int) && n == dec_val(dec_digits(v@)),
            None => !parses_dec(v@, u32::MAX as int),
        },
{
    let start: usize = if v.len() > 0 && v[0] == '+' {
        1
    } else {
        0
    };
    let ghost d = dec_digits(v@);
    proof {
        assert(d =~= v@.skip(start as int));
    }
    if v.len() == start {
        return None;
    }
    let mut val: u64 = 0;
    let mut i: usize = start;
    while i < v.len()
        invariant
            start <= i <= v@.len(),
            d == v@.skip(start as int),
            d == dec_digits(v@),
            all_digits(d.take(i - start)),
            val == dec_val(d.take(i - start)),
            val <= u32::MAX,
        decreases v@.len() - i,
    {
        let c = v[i];
        if !(c >= '0' && c <= '9') {
            proof {
                assert(d[i - start] == v@[i as int]);
                assert(!all_digits(d));
            }
            return None;
        }
        let dv: u64 = (c as u32 as u64) - ('0' as u32 as u64);
        proof {
            assert(d[i - start] == v@[i as int]);
            lemma_dec_val_take_step(d, i - start);
            assert(d.take(i - start + 1) =~= d.take((i + 1) - start));
        }
        let next: u64 = val * 10 + dv;
        if next > u32::MAX as u64 {
            proof {
                assert(all_digits(d.take((i + 1) - start)));
                if all_digits(d) {
                    lemma_dec_val_grows(d, (i + 1) - start);
                }
            }
            return None;
        }
        val = next;
        i = i + 1;
    }
    proof {
        assert(d.take(v@.len() - start) =~= d);
    }
    Some(val as u32)
}

/// The digit part and sign of a signed decimal literal: one optional leading
/// plus or minus sign, then digits.
pub open spec fn dec_signed_digits(s: Seq<char>) -> Seq<char> {
    if s.len() > 0 && (s[0] == '+' || s[0] == '-') {
        s.drop_first()
    } else {
        s
    }
}

/// Is the literal negative?
pub open spec fn dec_is_neg(s: Seq<char>) -> bool {
    s.len() > 0 && s[0] == '-'
}

/// Does `s` parse as a signed decimal number within `[lo, hi]`?
pub open spec fn parses_dec_signed(s: Seq<char>, lo: int, hi: int) -> bool {
    let d = dec_signed_digits(s);
    d.len() > 0 && all_digits(d) && lo <= dec_signed_val(s) <= hi
}

/// The value of a signed decimal literal.
pub open spec fn dec_signed_val(s: Seq<char>) -> int {
    if dec_is_neg(s) {
        -dec_val(dec_signed_digits(s))
    } else {
        dec_val(dec_signed_digits(s))
    }
}

/// Parse `v` as a signed 32-bit decimal number: optional leading plus or
/// minus sign, one or more digits, value in range.
pub fn parse_i32(v: &Vec<char>) -> (r: Option<i32>)
    ensures
        match r {
            Some(n) => parses_dec_signed(v@, i32::MIN as int, i32::MAX as int) && n
                == dec_signed_val(v@),
            None => !parses_dec_signed(v@, i32::MIN as int, i32::MAX as int),
        },
{
    let neg = v.len() > 0 && v[0] == '-';
    let start: usize = if v.len() > 0 && (v[0] == '+' || v[0] == '-') {
        1
    } else {
        0
    };
    let ghost d = dec_signed_digits(v@);
    proof {
        assert(d =~= v@.skip(start as int));
    }
    if v.len() == start {
        return None;
    }
    let limit: u64 = if neg {
        2147483648u64
    } else {
        2147483647u64
    };
    let mut val: u64 = 0;
    let mut i: usize = start;
    while i < v.len()
        invariant
            start <= i <= v@.len(),
            d == v@.skip(start as int),
            d == dec_signed_digits(v@),
            neg == dec_is_neg(v@),
            limit == if neg { 2147483648u64 } else { 2147483647u64 },
            all_digits(d.take(i - start)),
            val == dec_val(d.take(i - start)),
            val <= limit,
        decreases v@.len() - i,
    {
        let c = v[i];
        if !(c >= '0' && c <= '9') {
            proof {
                assert(d[i - start] == v@[i as int]);
                assert(!all_digits(d));
            }
            return None;
        }
        let dv: u64 = (c as u32 as u64) - ('0' as u32 as u64);
        proof {
            assert(d[i - start] == v@[i as int]);
            lemma_dec_val_take_step(d, i - start);
            assert(d.take(i - start + 1) =~= d.take((i + 1) - start));
        }
        let next: u64 = val * 10 + dv;
        if next > limit {
            proof {
                assert(all_digits(d.take((i + 1) - start)));
                if all_digits(d) {
                    lemma_dec_val_grows(d, (i + 1) - start);
                }
            }
            return None;
        }
        val = next;
        i = i + 1;
    }
    proof {
        assert(d.take(v@.len() - start) =~= d);
    }
    if neg {
        if val == 2147483648u64 {
            Some(i32::MIN)
        } else {
            Some(-(val as i32))
        }
    } else {
        Some(val as i32)
    }
}

/// Join the lines from `from` (inclusive) to `to` (exclusive).
pub fn join_range(lines: &Vec<Vec<char>>, from: usize, to: usize) -> (r: Vec<char>)
    requires
        from <= to <= lines@.len(),
    ensures
        r@ == join_lines(lines_view(lines@).subrange(from as int, to as int)),
{
    let ghost part = lines_view(lines@).subrange(from as int, to as int);
    let mut r: Vec<char> = Vec::new();
    proof {
        assert(part.take(0) =~= Seq::<Seq<char>>::empty());
    }
    for i in from..to
        invariant
            from <= i <= to <= lines@.len(),
            part == lines_view(lines@).subrange(from as int, to as int),
            r@ =~= join_lines(part.take(i - from)),
    {
        if i > from {
            r.push('\n');
        }
        append_chars(&mut r, &lines[i]);
        proof {
            assert(part[i - from] == lines@[i as int]@);
            lemma_join_lines_push(part.take(i - from), part[i - from]);
            assert(part.take(i - from).push(part[i - from]) =~= part.take(i - from + 1));
            assert(part.take(i - from).len() == i - from);
            assert(r@ =~= join_lines(part.take(i - from + 1)));
        }
    }
    proof {
        assert(part.take(to - from) =~= part);
    }
    r
}


} // verus!
