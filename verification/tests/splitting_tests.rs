use agg_gui::splitting::{split_keep_newlines, split_ws};

#[test]
fn split_ws_alternates_runs() {
    assert_eq!(split_ws("hello  world"), vec!["hello", "  ", "world"]);
    assert_eq!(split_ws("  lead"), vec!["  ", "lead"]);
    assert_eq!(split_ws("trail \t"), vec!["trail", " \t"]);
}

#[test]
fn split_ws_empty_and_single_kind() {
    assert!(split_ws("").is_empty());
    assert_eq!(split_ws("word"), vec!["word"]);
    assert_eq!(split_ws("   "), vec!["   "]);
}

#[test]
fn split_ws_unicode_whitespace_and_letters() {
    assert_eq!(split_ws("é\u{A0}越\u{3000}x"), vec!["é", "\u{A0}", "越", "\u{3000}", "x"]);
    assert_eq!(split_ws("a\nb"), vec!["a", "\n", "b"]);
}

#[test]
fn split_ws_pieces_rejoin() {
    let s = "one two  three\tfour ";
    assert_eq!(split_ws(s).concat(), s);
}

#[test]
fn split_keep_newlines_blank_lines() {
    assert_eq!(split_keep_newlines("a\n\nb\n"), vec!["a", "", "b", ""]);
    assert_eq!(split_keep_newlines(""), vec![""]);
    assert_eq!(split_keep_newlines("single"), vec!["single"]);
    assert_eq!(split_keep_newlines("\n"), vec!["", ""]);
}

#[test]
fn split_keep_newlines_matches_std_split() {
    let s = "héllo\nwörld\n\n越";
    let expected: Vec<&str> = s.split('\n').collect();
    assert_eq!(split_keep_newlines(s), expected);
}
