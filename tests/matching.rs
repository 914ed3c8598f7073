use quick_open::{
    calculate_score, chars_match, chars_of, class_table, classify, fuzzy_match, is_ascii_digit,
    locate_window, score_window, CharClass,
};

fn cv(s: &str) -> Vec<char> {
    s.chars().collect()
}

#[test]
fn empty_query_matches_nothing() {
    assert_eq!(fuzzy_match("", "abc"), None);
    assert_eq!(fuzzy_match("", ""), None);
    assert_eq!(locate_window(&cv(""), &cv("anything")), None);
}

#[test]
fn window_prefers_last_occurrence() {
    assert_eq!(locate_window(&cv("ab"), &cv("xaxbxab")), Some((5, 7)));
    assert_eq!(fuzzy_match("ab", "xaxbxab"), Some((44, 5, 7)));
}

#[test]
fn window_is_tight_at_both_ends() {
    assert_eq!(locate_window(&cv("ab"), &cv("xabxx")), Some((1, 3)));
    assert_eq!(locate_window(&cv("ab"), &cv("axxxb")), Some((0, 5)));
    assert_eq!(locate_window(&cv("abc"), &cv("a_b_c")), Some((0, 5)));
}

#[test]
fn no_match_when_query_is_not_a_subsequence() {
    assert_eq!(locate_window(&cv("ba"), &cv("ab")), None);
    assert_eq!(locate_window(&cv("abc"), &cv("ab")), None);
    assert_eq!(fuzzy_match("z", "abc"), None);
    assert_eq!(fuzzy_match("a", ""), None);
}

#[test]
fn matching_ignores_ascii_case() {
    assert_eq!(fuzzy_match("AB", "xab"), Some((44, 1, 3)));
    assert!(chars_match('Q', 'q'));
    assert!(chars_match('q', 'Q'));
    assert!(!chars_match('a', 'b'));
    assert!(!chars_match('[', '{'));
}

#[test]
fn camel_case_scores_above_plain() {
    let camel = fuzzy_match("fm", "fuzzyMatch").unwrap();
    let plain = fuzzy_match("fm", "afuzzymatch").unwrap();
    assert_eq!(camel, (46, 0, 6));
    assert_eq!(plain, (20, 1, 7));
    assert_eq!(camel.2 - camel.1, plain.2 - plain.1);
    assert!(camel.0 > plain.0);
}

#[test]
fn contiguous_scores_above_gapped() {
    let contiguous = fuzzy_match("abc", "xabcx").unwrap();
    let gapped = fuzzy_match("abc", "a_b_c").unwrap();
    assert_eq!(contiguous, (72, 1, 4));
    assert_eq!(gapped, (68, 0, 5));
    assert!(contiguous.0 > gapped.0);
}

#[test]
fn score_values() {
    assert_eq!(fuzzy_match("ab", "ab"), Some((60, 0, 2)));
    assert_eq!(fuzzy_match("ab", "a_b"), Some((50, 0, 3)));
    assert_eq!(fuzzy_match("a", "Z9a"), Some((16, 2, 3)));
    assert_eq!(fuzzy_match("x1", "ax1"), Some((44, 1, 3)));
    assert_eq!(fuzzy_match("qo", "quick_open.rs"), Some((42, 0, 7)));
}

#[test]
fn long_gap_drives_score_down() {
    assert_eq!(fuzzy_match("ab", "axxxxxxxxxxxxxxxb"), Some((14, 0, 17)));
    assert_eq!(calculate_score(&cv("ab"), &cv("axxxxxxxxxxxxxxxxxxxxxxxxxxb"), 0, 28), 0);
}

#[test]
fn score_of_given_window() {
    let t = cv("fuzzyMatch");
    assert_eq!(calculate_score(&cv("fm"), &t, 0, 6), 46);
    let classes = class_table(&t);
    assert_eq!(score_window(&cv("fm"), &t, &classes, 0, 6), 46);
    assert_eq!(calculate_score(&cv("fm"), &t, 0, 0), 0);
}

#[test]
fn score_from_a_given_class_table() {
    let t = cv("ab");
    let all_symbols = vec![CharClass::Symbol, CharClass::Symbol];
    assert_eq!(score_window(&cv("ab"), &t, &all_symbols, 0, 2), 16 + 4 + 16 + 12);
    let upper_after_lower = vec![CharClass::Lower, CharClass::Upper];
    assert_eq!(score_window(&cv("ab"), &t, &upper_after_lower, 0, 2), 16 + 16 + 16 + 12);
}

#[test]
fn repeated_calls_agree() {
    let first = fuzzy_match("qo", "quick_open.rs");
    let second = fuzzy_match("qo", "quick_open.rs");
    assert_eq!(first, second);
}

#[test]
fn character_classes() {
    assert_eq!(classify('a'), CharClass::Lower);
    assert_eq!(classify('Z'), CharClass::Upper);
    assert_eq!(classify('é'), CharClass::Lower);
    assert_eq!(classify('Ä'), CharClass::Upper);
    assert_eq!(classify('7'), CharClass::Digit);
    assert_eq!(classify('_'), CharClass::Symbol);
    assert_eq!(classify('/'), CharClass::Symbol);
    assert!(is_ascii_digit('0'));
    assert!(!is_ascii_digit('a'));
    assert_eq!(
        class_table(&cv("aB1-")),
        vec![CharClass::Lower, CharClass::Upper, CharClass::Digit, CharClass::Symbol]
    );
}

#[test]
fn characters_of_a_string() {
    assert_eq!(chars_of("héllo"), vec!['h', 'é', 'l', 'l', 'o']);
    assert_eq!(chars_of(""), Vec::<char>::new());
}
