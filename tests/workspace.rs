use quick_open::{ancestors, dedup_paths, relative_path_of, resolve_root, same_path, FuzzyResult, QuickOpen};

fn path(parts: &[&str]) -> Vec<String> {
    parts.iter().map(|p| p.to_string()).collect()
}

#[test]
fn root_is_the_ancestor_with_a_marker() {
    let file = path(&["proj", "src", "foo.txt"]);
    let dirs = ancestors(&file);
    assert_eq!(dirs, vec![path(&[]), path(&["proj"]), path(&["proj", "src"])]);
    // Only /proj holds .git.
    let marked = vec![false, true, false];
    assert_eq!(resolve_root(&file, &marked), path(&["proj"]));
}

#[test]
fn deepest_marker_wins() {
    let file = path(&["a", "b", "c", "f.rs"]);
    assert_eq!(resolve_root(&file, &vec![true, true, false, true]), path(&["a", "b", "c"]));
    assert_eq!(resolve_root(&file, &vec![false, true, true, false]), path(&["a", "b"]));
}

#[test]
fn without_marker_the_root_is_the_top() {
    let file = path(&["proj", "src", "foo.txt"]);
    assert_eq!(resolve_root(&file, &vec![false, false, false]), path(&[]));
    assert_eq!(resolve_root(&path(&[]), &vec![]), path(&[]));
}

#[test]
fn resolving_again_gives_the_same_root() {
    let file = path(&["proj", "src", "foo.txt"]);
    let marked = vec![false, true, false];
    assert_eq!(resolve_root(&file, &marked), resolve_root(&file, &marked));
}

#[test]
fn paths_compare_by_components() {
    assert!(same_path(&path(&["a", "b"]), &path(&["a", "b"])));
    assert!(!same_path(&path(&["a", "b"]), &path(&["a", "c"])));
    assert!(!same_path(&path(&["a"]), &path(&["a", "b"])));
}

#[test]
fn dedup_keeps_first_discovery_order() {
    let found = vec![path(&["r", "b"]), path(&["r", "a"]), path(&["r", "b"]), path(&["r", "c"])];
    assert_eq!(dedup_paths(found), vec![path(&["r", "b"]), path(&["r", "a"]), path(&["r", "c"])]);
}

#[test]
fn relative_paths() {
    let root = path(&["proj"]);
    assert_eq!(relative_path_of(&root, &path(&["proj", "src", "foo.txt"])), Some("src/foo.txt".to_string()));
    assert_eq!(relative_path_of(&root, &path(&["proj", "a"])), Some("a".to_string()));
    assert_eq!(relative_path_of(&root, &path(&["other", "a"])), None);
    assert_eq!(relative_path_of(&root, &path(&["proj"])), None);
    assert_eq!(relative_path_of(&path(&[]), &path(&["x", "y"])), Some("x/y".to_string()));
}

#[test]
fn reindex_only_on_root_change() {
    let mut qo = QuickOpen::new();
    let root = path(&["w"]);
    assert!(qo.needs_reindex(&root));
    let found = vec![path(&["w", "a"]), path(&["w", "a"]), path(&["w", "b"])];
    assert!(qo.initialize_workspace_matches(root.clone(), found));
    assert_eq!(qo.workspace_items, vec![path(&["w", "a"]), path(&["w", "b"])]);
    assert!(!qo.needs_reindex(&root));
    assert!(!qo.initialize_workspace_matches(root.clone(), vec![path(&["w", "z"])]));
    assert_eq!(qo.workspace_items, vec![path(&["w", "a"]), path(&["w", "b"])]);
    assert!(qo.needs_reindex(&path(&["v"])));
    assert!(qo.initialize_workspace_matches(path(&["v"]), vec![path(&["v", "z"])]));
    assert_eq!(qo.workspace_items, vec![path(&["v", "z"])]);
}

fn indexed(items: Vec<Vec<String>>) -> QuickOpen {
    let mut qo = QuickOpen::new();
    qo.initialize_workspace_matches(path(&["w"]), items);
    qo
}

fn summary(results: &Vec<FuzzyResult>) -> Vec<(String, usize, usize, usize)> {
    results.iter().map(|r| (r.result_name.clone(), r.score, r.match_start, r.match_end)).collect()
}

#[test]
fn empty_query_gives_no_results() {
    let mut qo = indexed(vec![path(&["w", "ab"]), path(&["w", "src", "x.rs"])]);
    qo.initiate_fuzzy_match("");
    assert!(qo.get_quick_open_results().is_empty());
}

#[test]
fn running_mean_filter_and_order() {
    let mut qo = indexed(vec![
        path(&["w", "ab"]),
        path(&["w", "xxaxxb"]),
        path(&["w", "d", "a_b"]),
        path(&["w", "zz"]),
    ]);
    qo.initiate_fuzzy_match("ab");
    let ranked = summary(qo.get_quick_open_results());
    assert_eq!(
        ranked,
        vec![("ab".to_string(), 60, 0, 2), ("d/a_b".to_string(), 50, 0, 3)]
    );
}

#[test]
fn filter_depends_on_order() {
    let mut qo = indexed(vec![path(&["w", "xxaxxb"]), path(&["w", "ab"])]);
    qo.initiate_fuzzy_match("ab");
    let ranked = summary(qo.get_quick_open_results());
    assert_eq!(
        ranked,
        vec![("ab".to_string(), 60, 0, 2), ("xxaxxb".to_string(), 24, 2, 6)]
    );
}

#[test]
fn equal_scores_ordered_by_path() {
    let mut qo = indexed(vec![path(&["w", "q", "ab"]), path(&["w", "p", "ab"])]);
    qo.initiate_fuzzy_match("ab");
    let ranked = summary(qo.get_quick_open_results());
    assert_eq!(
        ranked,
        vec![("p/ab".to_string(), 60, 0, 2), ("q/ab".to_string(), 60, 0, 2)]
    );
}

#[test]
fn candidates_outside_root_are_skipped() {
    let mut qo = QuickOpen::new();
    qo.initialize_workspace_matches(path(&["w"]), vec![path(&["elsewhere", "ab"]), path(&["w", "ab"])]);
    qo.initiate_fuzzy_match("ab");
    let ranked = summary(qo.get_quick_open_results());
    assert_eq!(ranked, vec![("ab".to_string(), 60, 0, 2)]);
}

#[test]
fn repeated_passes_agree() {
    let mut qo = indexed(vec![path(&["w", "fuzzyMatch.rs"]), path(&["w", "afuzzymatch"])]);
    qo.initiate_fuzzy_match("fm");
    let first = summary(qo.get_quick_open_results());
    qo.initiate_fuzzy_match("fm");
    let second = summary(qo.get_quick_open_results());
    assert_eq!(first, second);
    assert_eq!(first[0].0, "fuzzyMatch.rs".to_string());
}

#[test]
fn results_equal_by_path() {
    let a = FuzzyResult { result_name: "x".to_string(), score: 1, match_start: 0, match_end: 1 };
    let b = FuzzyResult { result_name: "x".to_string(), score: 9, match_start: 2, match_end: 3 };
    let c = FuzzyResult { result_name: "y".to_string(), score: 1, match_start: 0, match_end: 1 };
    assert!(a == b);
    assert!(a != c);
}
