//! The text model: how contents break into lines, what it means for one
//! character sequence to contain another, and ASCII case folding.

use vstd::prelude::*;

verus! {

/// ASCII lowercase mapping: `'A'..='Z'` map to `'a'..='z'`; every other
/// character, ASCII or not, is left unchanged. Case-insensitive search uses
/// this mapping, a deliberate ASCII-only simplification.
pub open spec fn lower_char(c: char) -> char {
    if 'A' <= c && c <= 'Z' {
        ((c as u8) + 32) as char
    } else {
        c
    }
}

/// A character sequence with every character lowercased by `lower_char`.
pub open spec fn to_lower(s: Seq<char>) -> Seq<char> {
    s.map_values(|c: char| lower_char(c))
}

/// `s` lowercased when `ignore_case` is set, `s` itself otherwise.
pub open spec fn folded(s: Seq<char>, ignore_case: bool) -> Seq<char> {
    if ignore_case {
        to_lower(s)
    } else {
        s
    }
}

/// `pat` occurs in `text` starting at position `i`.
pub open spec fn match_at(text: Seq<char>, pat: Seq<char>, i: int) -> bool {
    &&& 0 <= i
    &&& i + pat.len() <= text.len()
    &&& text.subrange(i, i + pat.len()) == pat
}

/// `pat` occurs somewhere in `text` as a contiguous subsequence.
pub open spec fn has_substring(text: Seq<char>, pat: Seq<char>) -> bool {
    exists|i: int| match_at(text, pat, i)
}

/// A line contains the query, after case folding both when `ignore_case`
/// is set.
pub open spec fn line_match(line: Seq<char>, query: Seq<char>, ignore_case: bool) -> bool {
    has_substring(folded(line, ignore_case), folded(query, ignore_case))
}

/// The lines of `t`: maximal runs of characters between `'\n'` boundaries,
/// without the terminators. A final `'\n'` does not yield a trailing empty
/// line; an empty text has no lines.
pub open spec fn line_split(t: Seq<char>) -> Seq<Seq<char>>
    decreases t.len(),
{
    if t.len() == 0 {
        Seq::empty()
    } else if t[0] == '\n' {
        seq![Seq::<char>::empty()] + line_split(t.skip(1))
    } else {
        let rest = line_split(t.skip(1));
        if rest.len() == 0 {
            seq![t]
        } else {
            seq![seq![t[0]] + rest[0]] + rest.skip(1)
        }
    }
}

/// A non-empty text has at least one line.
pub proof fn lemma_line_split_nonempty(t: Seq<char>)
    requires
        t.len() > 0,
    ensures
        line_split(t).len() > 0,
    decreases t.len(),
{
    if t[0] != '\n' && t.len() > 1 {
        lemma_line_split_nonempty(t.skip(1));
    }
}

/// Splitting distributes over concatenation at a line boundary: when `u`
/// ends in `'\n'`, the lines of `u + v` are the lines of `u` followed by the
/// lines of `v`.
pub proof fn lemma_line_split_append(u: Seq<char>, v: Seq<char>)
    requires
        u.len() > 0,
        u.last() == '\n',
    ensures
        line_split(u + v) == line_split(u) + line_split(v),
    decreases u.len(),
{
    let w = u + v;
    assert(w.len() > 0);
    if u.len() == 1 {
        assert(w[0] == '\n');
        assert(w.skip(1) =~= v);
        assert(u.skip(1) =~= Seq::<char>::empty());
        assert(line_split(u.skip(1)) =~= Seq::<Seq<char>>::empty());
        assert(line_split(u) + line_split(v) =~= seq![Seq::<char>::empty()] + line_split(v));
    } else if u[0] == '\n' {
        assert(w.skip(1) =~= u.skip(1) + v);
        lemma_line_split_append(u.skip(1), v);
        assert(line_split(w) =~= line_split(u) + line_split(v));
    } else {
        assert(w[0] == u[0]);
        assert(w.skip(1) =~= u.skip(1) + v);
        lemma_line_split_append(u.skip(1), v);
        let ru = line_split(u.skip(1));
        let rw = line_split(w.skip(1));
        assert(rw == ru + line_split(v));
        lemma_line_split_nonempty(u.skip(1));
        assert(rw[0] == ru[0]);
        assert(rw.skip(1) =~= ru.skip(1) + line_split(v));
        assert(line_split(w) =~= line_split(u) + line_split(v));
    }
}

/// A non-empty text without any `'\n'` is itself its single line.
pub proof fn lemma_line_split_whole(l: Seq<char>)
    requires
        l.len() > 0,
        forall|j: int| 0 <= j < l.len() ==> l[j] != '\n',
    ensures
        line_split(l) == seq![l],
    decreases l.len(),
{
    if l.len() == 1 {
        assert(l.skip(1) =~= Seq::<char>::empty());
        assert(line_split(l.skip(1)) =~= Seq::<Seq<char>>::empty());
        assert(line_split(l) =~= seq![l]);
    } else {
        lemma_line_split_whole(l.skip(1));
        let rest = line_split(l.skip(1));
        assert(rest == seq![l.skip(1)]);
        assert(seq![l[0]] + l.skip(1) =~= l);
        assert(line_split(l) =~= seq![l]);
    }
}

/// A text that is one `'\n'`-free line followed by `'\n'` splits into that
/// line alone; in particular `"\n"` splits into one empty line.
pub proof fn lemma_line_split_terminated(l: Seq<char>)
    requires
        forall|j: int| 0 <= j < l.len() ==> l[j] != '\n',
    ensures
        line_split(l + seq!['\n']) == seq![l],
    decreases l.len(),
{
    let w = l + seq!['\n'];
    if l.len() == 0 {
        assert(w[0] == '\n');
        assert(w.skip(1) =~= Seq::<char>::empty());
        assert(line_split(w.skip(1)) =~= Seq::<Seq<char>>::empty());
        assert(line_split(w) =~= seq![Seq::<char>::empty()]);
        assert(Seq::<char>::empty() =~= l);
        assert(line_split(w) =~= seq![l]);
    } else {
        assert(w[0] == l[0]);
        assert(w[0] != '\n');
        assert(w.skip(1) =~= l.skip(1) + seq!['\n']);
        lemma_line_split_terminated(l.skip(1));
        let rest = line_split(w.skip(1));
        assert(rest == seq![l.skip(1)]);
        assert(seq![w[0]] + rest[0] =~= l);
        assert(line_split(w) =~= seq![l]);
    }
}

/// Lowercasing both sides preserves substring containment: a text that
/// contains a pattern exactly also contains it after case folding.
pub proof fn lemma_lower_preserves_substring(text: Seq<char>, pat: Seq<char>)
    requires
        has_substring(text, pat),
    ensures
        has_substring(to_lower(text), to_lower(pat)),
{
    let i = choose|i: int| match_at(text, pat, i);
    assert(to_lower(text).len() == text.len());
    assert(to_lower(pat).len() == pat.len());
    assert forall|k: int| 0 <= k < pat.len() implies to_lower(text)[i + k] == to_lower(pat)[k] by {
        assert(text.subrange(i, i + pat.len()) == pat);
        assert(text.subrange(i, i + pat.len())[k] == pat[k]);
    }
    assert(to_lower(text).subrange(i, i + to_lower(pat).len()) =~= to_lower(pat));
    assert(match_at(to_lower(text), to_lower(pat), i));
}

/// The ASCII lowercase of one character, computing `lower_char`.
pub fn lower_char_exec(c: char) -> (r: char)
    ensures
        r == lower_char(c),
{
    if 'A' <= c && c <= 'Z' {
        ((c as u8) + 32) as char
    } else {
        c
    }
}

/// Splits `contents` into its lines, as borrowed views into `contents`.
pub fn split_lines<'a>(contents: &'a str) -> (lines: Vec<&'a str>)
    ensures
        lines.deep_view() == line_split(contents@),
{
    let ghost t = contents@;
    let n = contents.unicode_len();
    let mut lines: Vec<&'a str> = Vec::new();
    let mut start: usize = 0;
    let mut i: usize = 0;
    proof {
        assert(t.skip(0) =~= t);
        assert(lines.deep_view() + line_split(t) =~= line_split(t));
    }
    while i < n
        invariant
            start <= i <= n,
            n == t.len(),
            t == contents@,
            line_split(t) == lines.deep_view() + line_split(t.skip(start as int)),
            forall|j: int| start <= j < i ==> t[j] != '\n',
        decreases n - i,
    {
        let c = contents.get_char(i);
        if c == '\n' {
            let line = contents.substring_char(start, i);
            let ghost done = lines.deep_view();
            lines.push(line);
            proof {
                let l = line@;
                assert(l =~= t.subrange(start as int, i as int));
                assert(t.skip(start as int) =~= (l + seq!['\n']) + t.skip(i + 1));
                lemma_line_split_terminated(l);
                lemma_line_split_append(l + seq!['\n'], t.skip(i + 1));
                assert(lines.deep_view() =~= done.push(l));
                assert(done.push(l) + line_split(t.skip(i + 1)) =~= done + (seq![l] + line_split(
                    t.skip(i + 1),
                )));
            }
            start = i + 1;
        }
        i = i + 1;
    }
    if start < n {
        let line = contents.substring_char(start, n);
        let ghost done = lines.deep_view();
        lines.push(line);
        proof {
            let l = line@;
            assert(l =~= t.skip(start as int));
            lemma_line_split_whole(l);
            assert(lines.deep_view() =~= done.push(l));
            assert(done.push(l) =~= done + seq![l]);
        }
    } else {
        proof {
            assert(t.skip(start as int) =~= Seq::<char>::empty());
            assert(line_split(t.skip(start as int)) =~= Seq::<Seq<char>>::empty());
            assert(lines.deep_view() + line_split(t.skip(start as int)) =~= lines.deep_view());
        }
    }
    lines
}

/// The character of `s` at `i`, case folded when `ignore_case` is set.
fn char_at_folded(s: &str, i: usize, ignore_case: bool) -> (c: char)
    requires
        i < s@.len(),
    ensures
        c == folded(s@, ignore_case)[i as int],
{
    let c = s.get_char(i);
    if ignore_case {
        lower_char_exec(c)
    } else {
        c
    }
}

/// Whether the (folded) query occurs in the (folded) text at position `at`.
fn window_matches(text: &str, query: &str, at: usize, ignore_case: bool) -> (r: bool)
    requires
        at + query@.len() <= text@.len(),
        text@.len() <= usize::MAX,
    ensures
        r == match_at(folded(text@, ignore_case), folded(query@, ignore_case), at as int),
{
    let ghost ft = folded(text@, ignore_case);
    let ghost fq = folded(query@, ignore_case);
    assert(ft.len() == text@.len());
    assert(fq.len() == query@.len());
    let m = query.unicode_len();
    let mut k: usize = 0;
    while k < m
        invariant
            k <= m,
            m == query@.len(),
            at + m <= text@.len() <= usize::MAX,
            ft == folded(text@, ignore_case),
            fq == folded(query@, ignore_case),
            ft.len() == text@.len(),
            fq.len() == m,
            forall|l: int| 0 <= l < k ==> ft[at + l] == fq[l],
        decreases m - k,
    {
        let tc = char_at_folded(text, at + k, ignore_case);
        let qc = char_at_folded(query, k, ignore_case);
        if tc != qc {
            proof {
                assert(!match_at(ft, fq, at as int)) by {
                    if ft.subrange(at as int, at + fq.len()) == fq {
                        assert(ft.subrange(at as int, at + fq.len())[k as int] == ft[at + k]);
                    }
                }
            }
            return false;
        }
        k = k + 1;
    }
    proof {
        assert(ft.subrange(at as int, at + fq.len()) =~= fq);
    }
    true
}

/// Whether `line` contains `query` as a contiguous substring, folding ASCII
/// case on both sides when `ignore_case` is set.
pub fn line_matches(line: &str, query: &str, ignore_case: bool) -> (r: bool)
    ensures
        r == line_match(line@, query@, ignore_case),
{
    let ghost fl = folded(line@, ignore_case);
    let ghost fq = folded(query@, ignore_case);
    assert(fl.len() == line@.len());
    assert(fq.len() == query@.len());
    let n = line.unicode_len();
    let m = query.unicode_len();
    if m > n {
        proof {
            assert forall|i: int| !match_at(fl, fq, i) by {}
        }
        return false;
    }
    if m == 0 {
        proof {
            assert(match_at(fl, fq, 0)) by {
                assert(fl.subrange(0, 0) =~= fq);
            }
        }
        return true;
    }
    let mut i: usize = 0;
    while i <= n - m
        invariant
            i <= n - m + 1,
            1 <= m <= n,
            n == line@.len(),
            m == query@.len(),
            fl == folded(line@, ignore_case),
            fq == folded(query@, ignore_case),
            fl.len() == n,
            fq.len() == m,
            forall|j: int| 0 <= j < i ==> !match_at(fl, fq, j),
        decreases n - m - i + 1,
    {
        if window_matches(line, query, i, ignore_case) {
            proof {
                assert(match_at(fl, fq, i as int));
            }
            return true;
        }
        i = i + 1;
    }
    proof {
        assert forall|j: int| !match_at(fl, fq, j) by {
            if 0 <= j < i {
            } else if j > n - m {
                assert(j + fq.len() > fl.len());
            }
        }
    }
    false
}

} // verus!
