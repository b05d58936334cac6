use std::collections::HashSet;
use std::iter::FromIterator;

use sublime_fuzzy::{best_match, condense, process_target_string, FuzzySearch, Scoring};

#[test]
fn word_start_priority_scoring() {
    let m = best_match("scc", "SoccerCartoonController").unwrap();

    assert_eq!(m.matched_indices().clone(), vec![0, 6, 13]);
    assert_eq!(m.score(), 172);
}

#[test]
fn exact_score_formula() {
    // 'a' at 0: word start (72) + case match (8); 'b' at 1: run bonus
    // (1 * 8) + case match (8); the join continues the run: + 2 * 8.
    let m = best_match("ab", "ab").unwrap();

    assert_eq!(m.score(), 72 + 8 + 8 + 8 + 2 * 8);
    assert_eq!(m.matched_indices().clone(), vec![0, 1]);
}

#[test]
fn repeated_query_chars() {
    let m = best_match("aa", "aaa").unwrap();

    assert_eq!(m.matched_indices().clone(), vec![0, 1]);
}

#[test]
fn search_deterministic() {
    let a = best_match("ttt", "The Two Towers").unwrap();
    let b = best_match("ttt", "The Two Towers").unwrap();

    assert_eq!(a.score(), b.score());
    assert_eq!(a.matched_indices(), b.matched_indices());
}

#[test]
fn case_sensitive_builder() {
    let hit = FuzzySearch::new("TTT", "The Two Towers").case_sensitive().best_match();
    let miss = FuzzySearch::new("ttt", "The Two Towers").case_sensitive().best_match();

    assert!(hit.is_some());
    assert!(miss.is_none());
}

#[test]
fn custom_scoring_builder() {
    let scoring = Scoring::new(128, 0, 8, 4);

    let result = FuzzySearch::new("something", "some search thing")
        .case_sensitive()
        .score_with(&scoring)
        .best_match();

    assert!(result.is_some());
}

#[test]
fn scoring_presets() {
    let w = Scoring::emphasize_word_starts();
    assert_eq!(
        (w.bonus_consecutive, w.bonus_word_start, w.bonus_match_case, w.penalty_distance),
        (8, 72, 8, 4)
    );

    let d = Scoring::emphasize_distance();
    assert_eq!(
        (d.bonus_consecutive, d.bonus_word_start, d.bonus_match_case, d.penalty_distance),
        (12, 24, 8, 12)
    );

    let def = Scoring::default();
    assert_eq!(
        (def.bonus_consecutive, def.bonus_word_start, def.bonus_match_case, def.penalty_distance),
        (8, 72, 8, 4)
    );
}

#[test]
fn condense_strips_and_folds() {
    assert_eq!(condense("A b C", true), "abc");
    assert_eq!(condense("A b C", false), "AbC");
}

#[test]
fn target_string_word_starts() {
    let (_, starts) = process_target_string("some_string", false);

    assert_eq!(starts, HashSet::from_iter(vec![0usize, 5]));
}

#[test]
fn target_string_char_map() {
    let (map, _) = process_target_string("some_string", false);

    let s_positions = map.iter().find(|e| e.0 == 's').map(|e| e.1.clone());
    assert_eq!(s_positions, Some(vec![0usize, 5]));

    let o_positions = map.iter().find(|e| e.0 == 'o').map(|e| e.1.clone());
    assert_eq!(o_positions, Some(vec![1usize]));
}

#[test]
fn target_string_folds_keys() {
    let (map, _) = process_target_string("AbA", true);

    let a_positions = map.iter().find(|e| e.0 == 'a').map(|e| e.1.clone());
    assert_eq!(a_positions, Some(vec![0usize, 2]));
}

#[test]
fn no_occurrences_means_none() {
    assert_eq!(best_match("xyz", "The Two Towers"), None);
}

#[test]
fn separator_only_target() {
    assert_eq!(best_match("a", "---"), None);
}

#[test]
fn separators_are_indexed() {
    // Separators never begin a word, but they are still matchable.
    let m = best_match("-", "a-b").unwrap();

    assert_eq!(m.matched_indices().clone(), vec![1]);
}
