use luminatti::git::FileItem;
use luminatti::search::{fuzzy_file_indices, fuzzy_match_positions, fuzzy_score, ranked_matches};

fn items(paths: &[&str]) -> Vec<FileItem> {
    paths
        .iter()
        .map(|path| FileItem {
            path: (*path).to_owned(),
            status: " M".to_owned(),
        })
        .collect()
}

fn subsequence_scenario() {
    let files = items(&["src/main.rs", "src/file_search.rs", "README.md"]);

    assert_eq!(fuzzy_file_indices(&files, ""), vec![0, 1, 2]);
    assert_eq!(fuzzy_file_indices(&files, "fs"), vec![1]);
    assert!(fuzzy_file_indices(&files, "missing").is_empty());
}

#[test]
fn search_fuzzy_file_search_matches_subsequences_and_keeps_default_order() {
    subsequence_scenario();
}

#[test]
fn main_fuzzy_file_search_matches_subsequences_and_keeps_default_order() {
    subsequence_scenario();
}

#[test]
fn ranked_matches_reports_matched_character_positions() {
    let files = items(&["src/main.rs"]);

    assert!(ranked_matches(&files, "")
        .into_iter()
        .all(|(_, positions)| positions.is_empty()));
    let positions = ranked_matches(&files, "mn").remove(0).1;
    assert_eq!(positions, vec![4, 7]);
}

#[test]
fn matching_ignores_case() {
    assert!(fuzzy_score("README.md", "readme").is_some());
    assert!(fuzzy_score("readme.md", "README").is_some());
    assert_eq!(fuzzy_score("src/main.rs", "xyz"), None);
}

#[test]
fn empty_query_matches_with_score_zero() {
    assert_eq!(fuzzy_match_positions("src/main.rs", ""), Some((0, vec![])));
}

#[test]
fn consecutive_matches_rank_above_scattered_ones() {
    let files = items(&["m/x/a/i/n.rs", "main.rs"]);
    assert_eq!(fuzzy_file_indices(&files, "main"), vec![1, 0]);
}

#[test]
fn positions_are_character_indices_of_the_matched_characters() {
    let (_, positions) = fuzzy_match_positions("é/ab", "ab").unwrap();
    assert_eq!(positions, vec![2, 3]);
}

#[test]
fn ranked_positions_count_characters_not_bytes() {
    let files = items(&["é/a"]);
    assert_eq!(ranked_matches(&files, "a"), vec![(0, vec![2])]);
}

#[test]
fn score_counts_byte_offsets() {
    // 'a' sits at byte 3 after "é/": a word start (+8) at cost 3, plus the
    // contiguous-match bonus (+24).
    assert_eq!(fuzzy_score("é/a", "a"), Some(29));
}
