//! The search engine: returns, in order, every line of the contents that
//! contains the query under the selected comparison mode.

use vstd::prelude::*;

use crate::config::Config;
use crate::text::folded;
use crate::text::has_substring;
use crate::text::lemma_lower_preserves_substring;
use crate::text::line_match;
use crate::text::line_matches;
use crate::text::line_split;
use crate::text::match_at;
use crate::text::split_lines;

verus! {

/// Whether a line matches `query` under the given comparison mode, as a
/// predicate on the line.
pub open spec fn match_pred(query: Seq<char>, ignore_case: bool) -> spec_fn(Seq<char>) -> bool {
    |l: Seq<char>| line_match(l, query, ignore_case)
}

/// The lines of `t` that contain `query` under the given comparison mode,
/// in original order.
pub open spec fn matching_lines(query: Seq<char>, t: Seq<char>, ignore_case: bool) -> Seq<
    Seq<char>,
> {
    line_split(t).filter(match_pred(query, ignore_case))
}

/// The lines of `contents` that contain `query`, with `query` compared
/// exactly, codepoint for codepoint. Results are views into `contents`, in
/// original line order.
pub fn search<'a>(query: &str, contents: &'a str) -> (results: Vec<&'a str>)
    ensures
        results.deep_view() == matching_lines(query@, contents@, false),
{
    search_lines(query, contents, false)
}

/// The lines of `contents` that contain `query` up to ASCII case. The
/// returned lines keep their original casing.
pub fn search_case_insensitive<'a>(query: &str, contents: &'a str) -> (results: Vec<&'a str>)
    ensures
        results.deep_view() == matching_lines(query@, contents@, true),
{
    search_lines(query, contents, true)
}

/// Searches `contents` with the query and comparison mode of `config`.
/// Reading the file behind `config.file_path` and printing the results is
/// the caller's business; zero matches is a normal outcome.
pub fn run<'a>(config: &Config, contents: &'a str) -> (results: Vec<&'a str>)
    ensures
        results.deep_view() == matching_lines(config.query@, contents@, config.ignore_case),
{
    if config.ignore_case {
        search_case_insensitive(config.query.as_str(), contents)
    } else {
        search(config.query.as_str(), contents)
    }
}

fn search_lines<'a>(query: &str, contents: &'a str, ignore_case: bool) -> (results: Vec<&'a str>)
    ensures
        results.deep_view() == matching_lines(query@, contents@, ignore_case),
{
    broadcast use vstd::seq_lib::group_filter_ensures;

    let lines = split_lines(contents);
    let ghost all = lines.deep_view();
    let ghost pred = match_pred(query@, ignore_case);
    let mut results: Vec<&'a str> = Vec::new();
    let mut idx: usize = 0;
    proof {
        assert(all.take(0) =~= Seq::<Seq<char>>::empty());
        assert(results.deep_view() =~= all.take(0).filter(pred));
    }
    while idx < lines.len()
        invariant
            idx <= lines.len(),
            all == lines.deep_view(),
            all == line_split(contents@),
            pred == match_pred(query@, ignore_case),
            results.deep_view() == all.take(idx as int).filter(pred),
        decreases lines.len() - idx,
    {
        let line = lines[idx];
        let ghost done = results.deep_view();
        assert(line@ == all[idx as int]);
        if line_matches(line, query, ignore_case) {
            results.push(line);
            proof {
                assert(results.deep_view() =~= done.push(line@));
            }
        }
        proof {
            assert(pred(all[idx as int]) == line_match(line@, query@, ignore_case));
            assert(all.take(idx + 1) =~= all.take(idx as int).push(all[idx as int]));
            all.take(idx as int).lemma_filter_push(all[idx as int], pred);
        }
        idx = idx + 1;
    }
    proof {
        assert(all.take(lines.len() as int) =~= all);
    }
    results
}

/// Every element of a filtered sequence is an element of the original.
proof fn lemma_filter_sub<A>(s: Seq<A>, pred: spec_fn(A) -> bool)
    ensures
        forall|i: int|
            0 <= i < s.filter(pred).len() ==> s.contains(#[trigger] s.filter(pred)[i]),
    decreases s.len(),
{
    reveal(Seq::filter);
    if s.len() > 0 {
        lemma_filter_sub(s.drop_last(), pred);
        let f = s.filter(pred);
        let fd = s.drop_last().filter(pred);
        assert forall|i: int| 0 <= i < f.len() implies s.contains(f[i]) by {
            if pred(s.last()) && i == f.len() - 1 {
                assert(s[s.len() - 1] == f[i]);
            } else {
                assert(f[i] == fd[i]);
                assert(s.drop_last().contains(fd[i]));
                let j = choose|j: int|
                    0 <= j < s.drop_last().len() && s.drop_last()[j] == fd[i];
                assert(s[j] == f[i]);
            }
        }
    }
}

/// Filtering by a predicate that holds of every element returns the
/// sequence unchanged.
proof fn lemma_filter_all<A>(s: Seq<A>, pred: spec_fn(A) -> bool)
    requires
        forall|i: int| 0 <= i < s.len() ==> pred(#[trigger] s[i]),
    ensures
        s.filter(pred) == s,
    decreases s.len(),
{
    reveal(Seq::filter);
    if s.len() > 0 {
        lemma_filter_all(s.drop_last(), pred);
        assert(pred(s[s.len() - 1]));
        assert(s.filter(pred) =~= s);
    }
}

/// A search is sound and complete: every returned line is a line of the
/// text that matches the query under the selected comparison mode, and
/// every line of the text that matches is returned. With `ignore_case`
/// unset, matching is exact substring containment; with it set, it is
/// containment of the lowercased query in the lowercased line, while the
/// returned lines keep their original casing (they are elements of
/// `line_split(t)` itself).
pub proof fn lemma_search_exact(query: Seq<char>, t: Seq<char>, ignore_case: bool)
    ensures
        forall|i: int|
            0 <= i < matching_lines(query, t, ignore_case).len() ==> {
                &&& line_split(t).contains(#[trigger] matching_lines(query, t, ignore_case)[i])
                &&& line_match(matching_lines(query, t, ignore_case)[i], query, ignore_case)
            },
        forall|j: int|
            0 <= j < line_split(t).len() && line_match(
                #[trigger] line_split(t)[j],
                query,
                ignore_case,
            ) ==> matching_lines(query, t, ignore_case).contains(line_split(t)[j]),
{
    broadcast use vstd::seq_lib::group_filter_ensures;

    let lines = line_split(t);
    let pred = match_pred(query, ignore_case);
    let ml = matching_lines(query, t, ignore_case);
    lemma_filter_sub(lines, pred);
    assert forall|i: int| 0 <= i < ml.len() implies {
        &&& lines.contains(ml[i])
        &&& line_match(ml[i], query, ignore_case)
    } by {
        assert(pred(lines.filter(pred)[i]));
    }
    assert forall|j: int|
        0 <= j < lines.len() && line_match(lines[j], query, ignore_case) implies ml.contains(
        lines[j],
    ) by {
        assert(pred(lines[j]));
    }
}

/// Whatever the case-sensitive search returns, the case-insensitive search
/// on the same query and text returns as well.
pub proof fn lemma_insensitive_superset(query: Seq<char>, t: Seq<char>)
    ensures
        forall|x: Seq<char>|
            matching_lines(query, t, false).contains(x) ==> matching_lines(
                query,
                t,
                true,
            ).contains(x),
{
    lemma_search_exact(query, t, false);
    lemma_search_exact(query, t, true);
    let ms = matching_lines(query, t, false);
    let mi = matching_lines(query, t, true);
    let lines = line_split(t);
    assert forall|x: Seq<char>| ms.contains(x) implies mi.contains(x) by {
        let i = choose|i: int| 0 <= i < ms.len() && ms[i] == x;
        assert(lines.contains(x));
        assert(has_substring(x, query));
        lemma_lower_preserves_substring(x, query);
        assert(line_match(x, query, true));
        let j = choose|j: int| 0 <= j < lines.len() && lines[j] == x;
        assert(mi.contains(lines[j]));
    }
}

/// An empty query matches every line: the result is exactly the ordered
/// sequence of all lines of the text, in either comparison mode.
pub proof fn lemma_empty_query(query: Seq<char>, t: Seq<char>, ignore_case: bool)
    requires
        query.len() == 0,
    ensures
        matching_lines(query, t, ignore_case) == line_split(t),
{
    let pred = match_pred(query, ignore_case);
    let lines = line_split(t);
    assert forall|i: int| 0 <= i < lines.len() implies pred(#[trigger] lines[i]) by {
        let l = lines[i];
        assert(folded(query, ignore_case).len() == 0);
        assert(match_at(folded(l, ignore_case), folded(query, ignore_case), 0)) by {
            assert(folded(l, ignore_case).subrange(0, 0) =~= folded(query, ignore_case));
        }
    }
    lemma_filter_all(lines, pred);
}

/// An empty text has no lines, so a search over it returns nothing, in
/// either comparison mode.
pub proof fn lemma_empty_text(query: Seq<char>, t: Seq<char>, ignore_case: bool)
    requires
        t.len() == 0,
    ensures
        matching_lines(query, t, ignore_case) == Seq::<Seq<char>>::empty(),
{
    reveal(Seq::filter);
    assert(line_split(t).len() == 0);
    assert(matching_lines(query, t, ignore_case) =~= Seq::<Seq<char>>::empty());
}

} // verus!

