use flerp::text_analysis::{analyze_structure, extract_keywords, search, search_case_insensitive};

#[test]
fn analyze_empty_text() {
    let r = analyze_structure("");
    assert_eq!(r.lines, 0);
    assert_eq!(r.words, 0);
    assert_eq!(r.characters, 0);
    assert_eq!(r.stanzas, 1);
}

#[test]
fn analyze_two_lines() {
    let r = analyze_structure("a b\nc");
    assert_eq!(r.lines, 2);
    assert_eq!(r.words, 3);
    assert_eq!(r.characters, 5);
    assert_eq!(r.stanzas, 1);
}

#[test]
fn characters_count_scalar_values_not_bytes() {
    // Three scalar values, five bytes in UTF-8.
    let r = analyze_structure("héé");
    assert_eq!(r.characters, 3);
    let r2 = analyze_structure("αβγ δ");
    assert_eq!(r2.characters, 5);
    assert_eq!(r2.words, 2);
}

#[test]
fn trailing_newline_adds_no_line() {
    assert_eq!(analyze_structure("a\n").lines, 1);
    assert_eq!(analyze_structure("a\nb\n").lines, 2);
    assert_eq!(analyze_structure("\n").lines, 1);
}

#[test]
fn stanza_counts() {
    assert_eq!(analyze_structure("cat\n\ndog").stanzas, 2);
    assert_eq!(analyze_structure("a\n\n\nb").stanzas, 2);
    assert_eq!(analyze_structure("\n\n\n\n").stanzas, 3);
    assert_eq!(analyze_structure("no blank line here").stanzas, 1);
}

#[test]
fn keywords_ignore_case_and_punctuation() {
    let r = extract_keywords("The the THE.", 1);
    assert_eq!(r, vec![("the".to_string(), 3)]);
}

#[test]
fn keywords_sorted_descending_ties_by_first_occurrence() {
    let r = extract_keywords("pear pear plum plum plum fig", 10);
    assert_eq!(
        r,
        vec![
            ("plum".to_string(), 3),
            ("pear".to_string(), 2),
            ("fig".to_string(), 1),
        ]
    );
    let ties = extract_keywords("b b a a", 10);
    assert_eq!(ties, vec![("b".to_string(), 2), ("a".to_string(), 2)]);
}

#[test]
fn keywords_truncate_to_top_n() {
    let r = extract_keywords("x x x y y z", 2);
    assert_eq!(r, vec![("x".to_string(), 3), ("y".to_string(), 2)]);
    let none = extract_keywords("x y z", 0);
    assert_eq!(none, Vec::<(String, usize)>::new());
}

#[test]
fn keywords_drop_tokens_that_clean_to_nothing() {
    let r = extract_keywords("... !!! abc", 5);
    assert_eq!(r, vec![("abc".to_string(), 1)]);
    assert_eq!(extract_keywords("-- ??", 5), Vec::<(String, usize)>::new());
}

#[test]
fn search_is_case_sensitive() {
    let lines = search("HELLO", "hello world");
    assert_eq!(lines, Vec::<String>::new());
    let found = search("hello", "hello world");
    assert_eq!(found, vec!["hello world".to_string()]);
}

#[test]
fn search_case_insensitive_folds_both_sides() {
    let lines = search_case_insensitive("HELLO", "hello world");
    assert_eq!(lines, vec!["hello world".to_string()]);
    let mixed = search_case_insensitive("rUsT", "Rust is here\nno match\nTRUST me");
    assert_eq!(
        mixed,
        vec!["Rust is here".to_string(), "TRUST me".to_string()]
    );
}

#[test]
fn search_keeps_line_order() {
    let text = "one cat\ntwo dogs\nthree cats";
    let r = search("cat", text);
    assert_eq!(r, vec!["one cat".to_string(), "three cats".to_string()]);
}

#[test]
fn empty_query_matches_every_line() {
    let r = search("", "a\nb");
    assert_eq!(r, vec!["a".to_string(), "b".to_string()]);
    let ci = search_case_insensitive("", "a\nb");
    assert_eq!(ci, vec!["a".to_string(), "b".to_string()]);
}
