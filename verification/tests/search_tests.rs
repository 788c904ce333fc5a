use minigrep::search;
use minigrep::search_case_insensitive;

#[test]
fn case_sensitive() {
    let query = "duct";
    let contents = "\
Rust:
safe, fast, productive.
Pick three.
Duct tape.";

    assert_eq!(vec!["safe, fast, productive."], search(query, contents));
}

#[test]
fn case_insensitive() {
    let query = "rUsT";
    let contents = "\
Rust:
safe, fast, productive.
Pick three.
Trust me.";

    assert_eq!(
        vec!["Rust:", "Trust me."],
        search_case_insensitive(query, contents)
    );
}

#[test]
fn empty_query_matches_every_line() {
    let contents = "one\ntwo\nthree";
    assert_eq!(vec!["one", "two", "three"], search("", contents));
    assert_eq!(
        vec!["one", "two", "three"],
        search_case_insensitive("", contents)
    );
}

#[test]
fn empty_text_matches_nothing() {
    assert_eq!(Vec::<&str>::new(), search("anything", ""));
    assert_eq!(Vec::<&str>::new(), search_case_insensitive("anything", ""));
    assert_eq!(Vec::<&str>::new(), search("", ""));
    assert_eq!(Vec::<&str>::new(), search_case_insensitive("", ""));
}

#[test]
fn trailing_newline_adds_no_line() {
    let contents = "alpha\nbeta\n";
    assert_eq!(vec!["alpha", "beta"], search("", contents));
    assert_eq!(vec!["alpha"], search("alpha", contents));
}

#[test]
fn newline_only_text_is_one_empty_line() {
    assert_eq!(vec![""], search("", "\n"));
    assert_eq!(vec!["", ""], search("", "\n\n"));
}

#[test]
fn empty_lines_between_content_are_kept() {
    let contents = "top\n\nbottom";
    assert_eq!(vec!["top", "", "bottom"], search("", contents));
}

#[test]
fn insensitive_result_includes_sensitive_result() {
    let contents = "Rust:\nsafe, fast, productive.\nPick three.\nTrust me.";
    let query = "rUsT";
    let sensitive = search(query, contents);
    let insensitive = search_case_insensitive(query, contents);
    for line in &sensitive {
        assert!(insensitive.contains(line));
    }
    assert_eq!(Vec::<&str>::new(), sensitive);
    assert_eq!(vec!["Rust:", "Trust me."], insensitive);
}

#[test]
fn whitespace_query_is_literal() {
    let contents = "a b\nab\n  indented";
    assert_eq!(vec!["a b", "  indented"], search(" ", contents));
}

#[test]
fn query_longer_than_line_does_not_match() {
    assert_eq!(Vec::<&str>::new(), search("abcd", "ab\ncd"));
}

#[test]
fn line_equal_to_query_matches() {
    assert_eq!(vec!["needle"], search("needle", "hay\nneedle\nstack"));
}

#[test]
fn match_at_line_start_and_end() {
    let contents = "prefix rest\nrest prefix";
    assert_eq!(vec!["prefix rest", "rest prefix"], search("prefix", contents));
}

#[test]
fn line_with_repeated_occurrences_appears_once() {
    let contents = "dodo\nother";
    assert_eq!(vec!["dodo"], search("do", contents));
}

#[test]
fn insensitive_keeps_original_casing() {
    let contents = "SHOUTING line\nquiet line";
    assert_eq!(
        vec!["SHOUTING line"],
        search_case_insensitive("shouting", contents)
    );
}

#[test]
fn non_ascii_matches_exactly() {
    let contents = "caf\u{e9} au lait\nplain coffee";
    assert_eq!(vec!["caf\u{e9} au lait"], search("caf\u{e9}", contents));
    assert_eq!(
        vec!["caf\u{e9} au lait"],
        search_case_insensitive("CAF\u{e9}", contents)
    );
}

#[test]
fn case_folding_is_ascii_only() {
    // 'É' is not folded to 'é': the library lowercases ASCII letters only.
    let contents = "\u{c9}clair";
    assert_eq!(Vec::<&str>::new(), search_case_insensitive("\u{e9}clair", contents));
    assert_eq!(vec!["\u{c9}clair"], search_case_insensitive("\u{c9}clair", contents));
}
