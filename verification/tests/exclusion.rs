use bloodhound::exclusion::{excluded, ExclusionPattern};

#[test]
fn pattern_matches_as_a_glob() {
    let pattern = ExclusionPattern::new("**/directory").unwrap();
    assert!(pattern.matches("tests/sample/directory"));
    assert!(!pattern.matches("tests/sample/root_file"));
    assert!(!pattern.matches("**/directory/file"));
    let pattern = ExclusionPattern::new("c?t").unwrap();
    assert!(pattern.matches("cat"));
    assert!(!pattern.matches("c?t!"));
    assert!(!pattern.matches("cart"));
}

#[test]
fn pattern_does_not_match_its_own_text_unless_the_glob_does() {
    let pattern = ExclusionPattern::new("[ab]").unwrap();
    assert!(pattern.matches("a"));
    assert!(!pattern.matches("[ab]"));
}

#[test]
fn pattern_keeps_its_text() {
    let pattern = ExclusionPattern::new("*.rs").unwrap();
    assert_eq!(pattern.as_str(), "*.rs");
}

#[test]
fn new_refuses_what_is_no_glob() {
    assert!(ExclusionPattern::new("a***").is_none());
    assert!(ExclusionPattern::new("[").is_none());
    assert!(ExclusionPattern::new("a**b").is_none());
    assert!(ExclusionPattern::new("").is_some());
    assert!(ExclusionPattern::new("plain").is_some());
}

#[test]
fn excluded_where_any_pattern_matches() {
    let patterns = vec![
        ExclusionPattern::new("*.o").unwrap(),
        ExclusionPattern::new("target/**").unwrap(),
    ];
    assert!(excluded(&patterns, "main.o"));
    assert!(excluded(&patterns, "target/debug/build"));
    assert!(!excluded(&patterns, "src/main.rs"));
    assert!(!excluded(&Vec::new(), "main.o"));
}
