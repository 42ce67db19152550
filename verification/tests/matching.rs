use bloodhound::indexed_path::IndexedPath;
use bloodhound::matching::entry::{characters, index_path, keyed, new, Entry};
use bloodhound::matching::find;
use bloodhound::matching::score::Score;

/// The numerator of a score, which in these tests fits 128 bits.
fn numerator(score: &Score) -> u128 {
    let digits = score.numerator().digits();
    let mut value: u128 = 0;
    for (place, digit) in digits.iter().enumerate() {
        if place < 2 {
            value += (*digit as u128) << (64 * place);
        } else {
            assert_eq!(*digit, 0);
        }
    }
    value
}

fn value(score: &Score) -> f64 {
    let root = score.root() as f64;
    numerator(score) as f64 / (root * root)
}

fn hounds() -> Vec<Entry> {
    vec![
        new("src/hound.rs".to_string()),
        new("lib/hounds.rs".to_string()),
        new("Houndfile".to_string()),
    ]
}

#[test]
fn matching_find_returns_a_correctly_ordered_set_of_results() {
    let haystack = hounds();
    let expected_results = vec!["Houndfile".to_string(), "src/hound.rs".to_string()];
    let results = find("Hound", &haystack, 2);
    for i in 0..2 {
        assert_eq!(results[i].path, expected_results[i]);
    }
}

#[test]
fn matching_find_returns_a_correctly_limited_set_of_results() {
    let haystack = hounds();
    let results = find("Hound", &haystack, 2);
    assert_eq!(results.len(), 2);
}

#[test]
fn mod_find_returns_a_correctly_ordered_set_of_results() {
    let haystack = vec![
        new("src/hound.rs".to_string()),
        new("lib/hounds.rs".to_string()),
        new("Houndfile".to_string()),
    ];
    let expected_results = vec!["Houndfile".to_string(), "src/hound.rs".to_string()];
    let results = find("Hound", &haystack, 2);
    for i in 0..2 {
        assert_eq!(results[i].path, expected_results[i]);
    }
}

#[test]
fn mod_find_returns_a_correctly_limited_set_of_results() {
    let haystack = vec![
        new("src/hound.rs".to_string()),
        new("lib/hounds.rs".to_string()),
        new("Houndfile".to_string()),
    ];
    let results = find("Hound", &haystack, 2);
    assert_eq!(results.len(), 2);
}

#[test]
fn entry_similarity_correctly_scores_perfect_matches() {
    let entry = new("src/hound.rs".to_string());
    assert_eq!(value(&entry.similarity("src/hound.rs")), 1.0);
}

#[test]
fn entry_similarity_correctly_scores_completely_different_terms() {
    let entry = new("src".to_string());
    assert_eq!(value(&entry.similarity("lib")), 0.0);
}

#[test]
fn entry_similarity_scores_based_on_term_length() {
    let long_entry = new("hound library".to_string());
    let differing_length_score = long_entry.similarity("houn");

    // Not a perfect match, since those produce a perfect score.
    let short_entry = new("hound".to_string());
    let same_length_score = short_entry.similarity("houn");

    assert!(same_length_score.exceeds(&differing_length_score));
    assert!(value(&same_length_score) > value(&differing_length_score));
}

#[test]
fn entry_similarity_score_increases_for_consecutive_matches() {
    let entry = new("hound".to_string());

    // Not a perfect match, since those produce a perfect score.
    let properly_ordered_score = entry.similarity(" houn");

    let improperly_ordered_score = entry.similarity("nuoh");
    assert!(properly_ordered_score.exceeds(&improperly_ordered_score));
    assert!(value(&properly_ordered_score) > value(&improperly_ordered_score));
    assert!(entry.similarity("houn").exceeds(&entry.similarity("nuoh")));
}

#[test]
fn entry_similarity_score_decreases_for_non_matching_characters() {
    let entry = new("hound".to_string());

    // Not a perfect match, since those produce a perfect score.
    let non_matching_score = entry.similarity("houns");

    let subset_score = entry.similarity("houn");
    assert!(subset_score.exceeds(&non_matching_score));
    assert!(value(&subset_score) > value(&non_matching_score));
}

#[test]
fn similarity_score_is_zero_for_larger_query_with_no_matching_characters() {
    let entry = new("amp".to_string());
    assert_eq!(value(&entry.similarity("hound")), 0.0f64);
}

#[test]
fn similarity_is_the_fragment_score_scaled_by_the_characters_present() {
    let entry = new("hound".to_string());

    // One run of four: 16, all four characters present, a key of five.
    let score = entry.similarity("houn");
    assert_eq!((numerator(&score), score.root()), (80, 5));

    // Four runs of one: 4.
    let score = entry.similarity("nuoh");
    assert_eq!((numerator(&score), score.root()), (20, 5));

    // One run of four, and one character of five that the key lacks.
    let score = entry.similarity("houns");
    assert_eq!((numerator(&score), score.root()), (64, 5));
    let score = entry.similarity(" houn");
    assert_eq!((numerator(&score), score.root()), (64, 5));
}

#[test]
fn similarity_lets_one_character_lengthen_several_runs_and_start_others() {
    // b, l, then "o" at 2, 3 and 6, then "d" at 4 and 9: the runs end as
    // 0..5, 3..5, 6, 2, 6 and 9.
    let entry = new("bloodhound".to_string());
    let score = entry.similarity("blood");
    assert_eq!((numerator(&score), score.root()), (33 * 10, 10));
    assert_eq!(value(&score), 3.3);
}

#[test]
fn similarity_can_exceed_one() {
    let entry = new("hound".to_string());
    assert!(entry.similarity("houn").exceeds(&Score::one()));
    assert!(value(&entry.similarity("houn")) > 1.0);
}

#[test]
fn similarity_of_an_exact_match_is_one_whatever_the_text() {
    for text in ["", "a", "hound", "src/hound.rs", "bloodhound", "aaaa", "Żółw/ß"] {
        let entry = new(text.to_string());
        let score = entry.similarity(text);
        assert!(score.equals(&Score::one()));
        assert_eq!((numerator(&score), score.root()), (1, 1));
    }
}

#[test]
fn similarity_compares_the_query_with_the_path_before_the_key() {
    let entry = keyed("Cargo".to_string(), "cargo");
    assert_eq!(value(&entry.similarity("Cargo")), 1.0);
    // The key itself is no exact match: one run of five, 25 * 5 / 25.
    assert_eq!(value(&entry.similarity("cargo")), 5.0);
}

#[test]
fn similarity_against_an_empty_key_is_zero() {
    let entry = new(String::new());
    assert_eq!(value(&entry.similarity("a")), 0.0);
    assert!(entry.similarity("hound").equals(&Score::zero()));
}

#[test]
fn similarity_of_an_empty_query_is_zero() {
    let entry = new("hound".to_string());
    let score = entry.similarity("");
    assert_eq!((numerator(&score), score.root()), (0, 5));
}

#[test]
fn similarity_is_zero_where_nothing_is_shared() {
    let pairs = [("lib", "src"), ("xyz", "hound"), ("q", "hound library"), ("hound", "amp")];
    for (query, key) in pairs {
        let entry = new(key.to_string());
        assert_eq!(numerator(&entry.similarity(query)), 0);
        assert!(entry.similarity(query).equals(&Score::zero()));
    }
}

#[test]
fn similarity_is_zero_where_as_many_characters_are_missing_as_the_key_is_long() {
    let entry = new("ab".to_string());
    // "a" matches, but two query characters are missing from a key of two.
    assert_eq!(value(&entry.similarity("axy")), 0.0);
    // One missing: 1 * (2 - 1) / 4.
    assert_eq!(value(&entry.similarity("ax")), 0.25);
}

#[test]
fn similarity_falls_with_each_character_that_the_key_lacks() {
    let entry = new("hound".to_string());
    let query: Vec<char> = "houn".chars().collect();
    let plain = entry.similarity("houn");
    for at in 0..=query.len() {
        let mut longer = query.clone();
        longer.insert(at, 'z');
        let longer: String = longer.into_iter().collect();
        let score = entry.similarity(&longer);
        assert!(plain.exceeds(&score));
        assert_eq!((numerator(&score), score.root()), (64, 5));
    }
}

#[test]
fn similarity_of_a_candidate_written_twice_is_that_of_one_copy() {
    let once = new("hound".to_string()).similarity("houn");
    let twice = new("houndhound".to_string()).similarity("houn");
    assert_eq!((numerator(&twice), twice.root()), (320, 10));
    assert!(once.equals(&twice));
    assert!(!once.exceeds(&twice));
}

#[test]
fn similarity_counts_characters_and_not_bytes() {
    let entry = new("żółw".to_string());
    let score = entry.similarity("żół");
    // One run of three in a key of four characters: 9 * 4 / 16.
    assert_eq!((numerator(&score), score.root()), (36, 4));
}

#[test]
fn similarity_is_the_same_on_every_call() {
    let entry = new("src/matching/entry.rs".to_string());
    let first = entry.similarity("entry");
    for _ in 0..5 {
        let again = entry.similarity("entry");
        assert!(first.equals(&again));
        assert_eq!(numerator(&first), numerator(&again));
    }
}

#[test]
fn characters_are_those_of_the_text() {
    assert_eq!(characters("a/ß"), vec!['a', '/', 'ß']);
    assert_eq!(characters(""), Vec::<char>::new());
}

#[test]
fn index_path_lists_the_positions_of_each_character() {
    let index = index_path("hello");
    assert_eq!(index.len(), 4);
    assert_eq!(index.get(&('h' as u32)), Some(&vec![0]));
    assert_eq!(index.get(&('e' as u32)), Some(&vec![1]));
    assert_eq!(index.get(&('l' as u32)), Some(&vec![2, 3]));
    assert_eq!(index.get(&('o' as u32)), Some(&vec![4]));
    assert_eq!(index.get(&('x' as u32)), None);
    assert!(index_path("").is_empty());
}

#[test]
fn index_path_has_no_entry_but_for_the_characters_of_the_path() {
    let index = index_path("lol");
    let mut keys: Vec<u32> = index.keys().copied().collect();
    keys.sort();
    assert_eq!(keys, vec!['l' as u32, 'o' as u32]);
    assert_eq!(index.get(&('l' as u32)), Some(&vec![0, 2]));
    assert_eq!(index.get(&('o' as u32)), Some(&vec![1]));
    let index = index_path("żółw ż");
    assert_eq!(index.values().map(|list| list.len()).sum::<usize>(), 6);
    for list in index.values() {
        assert!(!list.is_empty());
        assert!(list.windows(2).all(|pair| pair[0] < pair[1]));
    }
}

#[test]
fn entry_keeps_its_path_and_indexes_its_key() {
    let entry = keyed("Lib/A".to_string(), "lib/a");
    assert_eq!(entry.path(), "Lib/A");
    assert_eq!(entry.key(), &vec!['l', 'i', 'b', '/', 'a']);
    assert_eq!(entry.occurrences('a'), Some(&vec![4]));
    assert_eq!(entry.occurrences('A'), None);
    let entry = new("aba".to_string());
    assert_eq!(entry.key(), &vec!['a', 'b', 'a']);
    assert_eq!(entry.occurrences('a'), Some(&vec![0, 2]));
}

#[test]
fn find_ranks_without_regard_to_case_where_the_keys_are_folded() {
    let haystack: Vec<Entry> = ["src/hound.rs", "lib/hounds.rs", "Houndfile"]
        .iter()
        .map(|path| IndexedPath::new(path, false).into_entry())
        .collect();
    let results = find("Hound", &haystack, 2);
    assert_eq!(results.len(), 2);
    assert_eq!(results[0].path, "Houndfile");
    assert_eq!(results[1].path, "src/hound.rs");
    // "ound" in a key of nine with one character missing: 16 * 8 / 81.
    assert_eq!((numerator(&results[0].score), results[0].score.root()), (128, 9));
    assert_eq!((numerator(&results[1].score), results[1].score.root()), (176, 12));
}

#[test]
fn find_returns_no_more_than_the_limit() {
    let haystack = hounds();
    assert!(find("Hound", &haystack, 0).is_empty());
    assert_eq!(find("Hound", &haystack, 1).len(), 1);
    assert_eq!(find("Hound", &haystack, 3).len(), 3);
    assert_eq!(find("Hound", &haystack, 4).len(), 3);
    assert_eq!(find("Hound", &haystack, usize::MAX).len(), 3);
    assert!(find("Hound", &Vec::new(), 5).is_empty());
}

#[test]
fn find_returns_every_candidate_where_the_limit_allows() {
    let haystack = hounds();
    let results = find("zzz", &haystack, 3);
    let paths: Vec<&str> = results.iter().map(|result| result.path.as_str()).collect();
    assert_eq!(paths, vec!["src/hound.rs", "lib/hounds.rs", "Houndfile"]);
    let results = find("Hound", &haystack, 10);
    let paths: Vec<&str> = results.iter().map(|result| result.path.as_str()).collect();
    assert_eq!(paths, vec!["Houndfile", "src/hound.rs", "lib/hounds.rs"]);
}

#[test]
fn find_orders_by_descending_score() {
    let haystack = vec![
        new("a".to_string()),
        new("hound".to_string()),
        new("xhoundx".to_string()),
        new("hnd".to_string()),
    ];
    let results = find("hound", &haystack, 4);
    for pair in results.windows(2) {
        assert!(!pair[1].score.exceeds(&pair[0].score));
    }
    let paths: Vec<&str> = results.iter().map(|result| result.path.as_str()).collect();
    assert_eq!(paths, vec!["xhoundx", "hound", "hnd", "a"]);
}

#[test]
fn find_keeps_candidates_with_the_same_score_in_their_order() {
    let haystack = vec![
        new("b1".to_string()),
        new("a1".to_string()),
        new("b2".to_string()),
        new("a2".to_string()),
    ];
    let results = find("a", &haystack, 4);
    let paths: Vec<&str> = results.iter().map(|result| result.path.as_str()).collect();
    assert_eq!(paths, vec!["a1", "a2", "b1", "b2"]);
    let results = find("a", &haystack, 3);
    let paths: Vec<&str> = results.iter().map(|result| result.path.as_str()).collect();
    assert_eq!(paths, vec!["a1", "a2", "b1"]);
}

#[test]
fn find_gives_each_result_the_score_of_its_candidate() {
    let haystack = hounds();
    for result in find("Hound", &haystack, 3) {
        let entry = new(result.path.clone());
        assert!(result.score.equals(&entry.similarity("Hound")));
    }
}

fn arrangements(characters: &[char]) -> Vec<String> {
    if characters.len() <= 1 {
        return vec![characters.iter().collect()];
    }
    let mut all = Vec::new();
    for chosen in 0..characters.len() {
        let mut rest = characters.to_vec();
        let first = rest.remove(chosen);
        for tail in arrangements(&rest) {
            all.push(format!("{}{}", first, tail));
        }
    }
    all
}

#[test]
fn similarity_of_a_part_of_the_key_exceeds_that_of_its_other_arrangements() {
    let entry = new("hound".to_string());
    let straight = entry.similarity("oun");
    assert_eq!((numerator(&straight), straight.root()), (45, 5));
    let all = arrangements(&['o', 'u', 'n']);
    assert_eq!(all.len(), 6);
    for query in all {
        if query != "oun" {
            assert!(straight.exceeds(&entry.similarity(&query)));
        }
    }
    let straight = entry.similarity("houn");
    for query in arrangements(&['h', 'o', 'u', 'n']) {
        if query != "houn" {
            assert!(straight.exceeds(&entry.similarity(&query)));
        }
    }
}

#[test]
fn similarity_falls_as_the_key_grows_by_characters_that_the_query_lacks() {
    let mut key = "hound".to_string();
    let mut last = new(key.clone()).similarity("houn");
    for c in " library".chars() {
        key.push(c);
        let score = new(key.clone()).similarity("houn");
        assert!(last.exceeds(&score));
        last = score;
    }
    assert_eq!((numerator(&last), last.root()), (16 * 13, 13));
}
