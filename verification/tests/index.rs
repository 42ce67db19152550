use bloodhound::index::{admits, relative_entry_path, Found};
use bloodhound::{ExclusionPattern, Index};

fn found(path: &str, is_file: bool) -> Found {
    Found { shown: path.to_string(), path: Some(path.to_string()), is_file }
}

/// What a walk of the sample directory finds: a directory is left with all
/// beneath it where an exclusion matches it, and so is a file.
fn walk_sample(exclusions: &Option<Vec<ExclusionPattern>>) -> Vec<Found> {
    let tree = [
        ("tests/sample", false, 0),
        ("tests/sample/directory", false, 1),
        ("tests/sample/directory/Capitalized_file", true, 2),
        ("tests/sample/directory/nested_file", true, 2),
        ("tests/sample/root_file", true, 1),
    ];
    let mut walk = Vec::new();
    let mut pruned_below: Option<usize> = None;
    for (path, is_file, depth) in tree {
        if let Some(limit) = pruned_below {
            if depth > limit {
                continue;
            }
            pruned_below = None;
        }
        if !admits(exclusions, path) {
            if !is_file {
                pruned_below = Some(depth);
            }
            continue;
        }
        walk.push(found(path, is_file));
    }
    walk
}

fn populated(exclusions: Option<Vec<ExclusionPattern>>, case_sensitive: bool) -> Index {
    let mut index = Index::new("tests/sample".to_string());
    let walk = walk_sample(&exclusions);
    index.populate(&walk, &exclusions, case_sensitive);
    index
}

fn keys(index: &Index) -> Vec<String> {
    index.entries().iter().map(|entry| entry.key().iter().collect()).collect()
}

#[test]
fn populate_respects_exclusions() {
    let index = populated(Some(vec![ExclusionPattern::new("**/directory").unwrap()]), true);

    assert_eq!(index.iter(), vec!["root_file"]);
    assert_eq!(keys(&index), vec!["root_file"]);
}

#[test]
fn populate_lowercases_entries_when_case_sensitive_is_false() {
    let index = populated(None, false);
    let mut paths = index.iter();
    paths.sort();
    let mut keys = keys(&index);
    keys.sort();

    assert_eq!(paths, vec!["directory/Capitalized_file", "directory/nested_file", "root_file"]);
    assert_eq!(keys, vec!["directory/capitalized_file", "directory/nested_file", "root_file"]);
}

#[test]
fn populate_lowercases_entries_when_case_sensitive_is_true() {
    let index = populated(None, true);
    let mut paths = index.iter();
    paths.sort();
    let mut keys = keys(&index);
    keys.sort();

    assert_eq!(paths, vec!["directory/Capitalized_file", "directory/nested_file", "root_file"]);
    assert_eq!(keys, vec!["directory/Capitalized_file", "directory/nested_file", "root_file"]);
}

#[test]
fn find_defers_to_matching_module() {
    let index = populated(None, true);
    let term = "root";
    let limit = 5;
    let results = index.find(term, limit);

    assert_eq!(results, vec!["root_file", "directory/nested_file", "directory/Capitalized_file"]);
    let haystack = index.entries();
    let ranked = bloodhound::matching::find(term, haystack, limit);
    let expected: Vec<&str> = ranked.iter().map(|result| result.path.as_str()).collect();
    assert_eq!(results, expected);
}

#[test]
fn populate_yields_the_files_beneath_the_root() {
    let index = populated(None, true);
    let mut paths = index.iter();
    paths.sort();
    assert!(paths.contains(&"root_file"));
    assert!(paths.contains(&"directory/nested_file"));
    assert_eq!(index.path(), "tests/sample");
}

#[test]
fn populate_appends_in_the_order_of_the_walk() {
    let mut index = Index::new("r".to_string());
    let walk = vec![found("r/b", true), found("r/a", true), found("r/c", true)];
    index.populate(&walk, &None, true);
    assert_eq!(index.iter(), vec!["b", "a", "c"]);
    index.populate(&vec![found("r/a", true)], &None, true);
    assert_eq!(index.iter(), vec!["b", "a", "c", "a"]);
}

#[test]
fn populate_skips_what_is_no_file_or_no_text() {
    let mut index = Index::new("r".to_string());
    let walk = vec![
        found("r", false),
        found("r/dir", false),
        Found { shown: "r/bad\u{fffd}name".to_string(), path: None, is_file: true },
        found("r/file", true),
    ];
    index.populate(&walk, &None, true);
    assert_eq!(index.iter(), vec!["file"]);
}

#[test]
fn populate_leaves_out_each_file_that_an_exclusion_matches() {
    let exclusions = Some(vec![
        ExclusionPattern::new("*.o").unwrap(),
        ExclusionPattern::new("r/target/*").unwrap(),
    ]);
    let mut index = Index::new("r".to_string());
    let walk = vec![
        found("r/main.c", true),
        found("r/main.o", true),
        found("r/target/out", true),
        found("r/lib.c", true),
    ];
    index.populate(&walk, &exclusions, true);
    assert_eq!(index.iter(), vec!["main.c", "lib.c"]);
}

#[test]
fn populate_of_an_empty_walk_changes_nothing() {
    let mut index = Index::new("r".to_string());
    index.populate(&Vec::new(), &None, false);
    assert!(index.iter().is_empty());
    assert!(index.find("a", 3).is_empty());
}

#[test]
fn new_index_is_empty() {
    let index = Index::new("some/where".to_string());
    assert_eq!(index.path(), "some/where");
    assert!(index.iter().is_empty());
    assert!(index.entries().is_empty());
}

#[test]
fn index_find_returns_paths_in_rank_order() {
    let mut index = Index::new("r".to_string());
    let walk = vec![found("r/src/hound.rs", true), found("r/lib/hounds.rs", true), found("r/Houndfile", true)];
    index.populate(&walk, &None, false);
    assert_eq!(index.find("Hound", 2), vec!["Houndfile", "src/hound.rs"]);
    assert_eq!(index.find("Hound", 3), vec!["Houndfile", "src/hound.rs", "lib/hounds.rs"]);
    assert!(index.find("Hound", 0).is_empty());
    assert_eq!(index.find("Hound", 2), index.find("Hound", 2));
}

#[test]
fn index_find_matches_folded_keys_and_returns_paths_as_they_are() {
    let mut index = Index::new("r".to_string());
    let walk = vec![found("r/README", true), found("r/other", true)];
    index.populate(&walk, &None, false);
    assert_eq!(index.find("readme", 1), vec!["README"]);
    index = Index::new("r".to_string());
    index.populate(&walk, &None, true);
    assert_eq!(index.find("other", 1), vec!["other"]);
}

#[test]
fn relative_entry_path_cuts_the_prefix_from_a_file() {
    let entry = found("tests/sample/directory/nested_file", true);
    assert_eq!(relative_entry_path(&entry, 13), Some("directory/nested_file".to_string()));
    assert_eq!(relative_entry_path(&entry, 0), Some("tests/sample/directory/nested_file".to_string()));
    assert_eq!(relative_entry_path(&entry, 34), Some(String::new()));
}

#[test]
fn relative_entry_path_is_none_for_what_is_no_file() {
    assert_eq!(relative_entry_path(&found("tests/sample/directory", false), 13), None);
}

#[test]
fn relative_entry_path_is_none_for_a_path_that_is_no_text() {
    let entry = Found { shown: "r/\u{fffd}".to_string(), path: None, is_file: true };
    assert_eq!(relative_entry_path(&entry, 2), None);
}

#[test]
fn relative_entry_path_is_none_where_the_path_cannot_be_cut() {
    assert_eq!(relative_entry_path(&found("r/a", true), 4), None);
    // The second byte of "é" is no place to cut.
    assert_eq!(relative_entry_path(&found("é/a", true), 1), None);
    assert_eq!(relative_entry_path(&found("é/a", true), 3), Some("a".to_string()));
}

#[test]
fn admits_everything_without_exclusions() {
    assert!(admits(&None, "anything/at/all"));
    assert!(admits(&Some(Vec::new()), "anything/at/all"));
}

#[test]
fn admits_what_no_exclusion_matches() {
    let exclusions = Some(vec![
        ExclusionPattern::new("**/directory").unwrap(),
        ExclusionPattern::new("*.tmp").unwrap(),
    ]);
    assert!(!admits(&exclusions, "tests/sample/directory"));
    assert!(!admits(&exclusions, "a/b.tmp"));
    assert!(admits(&exclusions, "tests/sample/root_file"));
    assert!(admits(&exclusions, "tests/sample/directory/nested_file"));
}
