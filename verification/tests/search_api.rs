use sublime_fuzzy::{best_match, format_simple, ContinuousMatch, Match};

fn runs_of(m: &Match) -> Vec<ContinuousMatch> {
    let mut cursor = m.continuous_matches();
    let mut runs = Vec::new();
    while let Some(r) = cursor.next() {
        runs.push(r);
    }
    runs
}

#[test]
fn full_match() {
    assert!(best_match("test", "test").is_some());
}

#[test]
fn any_match() {
    assert!(best_match("towers", "the two towers").is_some());
}

#[test]
fn no_match() {
    assert_eq!(best_match("abc", "def"), None);
}

#[test]
fn basic() {
    let r = best_match("scc", "soccer cartoon controller");

    assert!(r.is_some());
}

#[test]
fn partial_match_none() {
    assert_eq!(best_match("partial", "part"), None);
}

#[test]
fn case_sensitivity() {
    assert!(
        best_match("ttt", "The Two Towers").is_some(),
        "Lower query chars do not match upper target chars"
    );

    assert!(
        best_match("TTT", "The Two Towers").is_some(),
        "Upper query chars do not match upper target chars"
    );

    assert!(
        best_match("TTT", "the two towers").is_some(),
        "Upper query chars do not match lower target chars"
    );
}

#[test]
fn case_sensitivity_scoring() {
    let non_case_match = best_match("ttt", "The Two Towers").unwrap();
    let case_match = best_match("TTT", "The Two Towers").unwrap();

    assert!(non_case_match.score() < case_match.score());
}

#[test]
fn whitespace() {
    assert!(best_match("t t", "The Two Towers").is_some());
}

#[test]
fn word_starts_count_more() {
    let r = best_match("something", "some search thing");

    assert_eq!(
        runs_of(&r.unwrap()),
        vec![ContinuousMatch::new(0, 4), ContinuousMatch::new(12, 5)]
    );
}

#[test]
fn word_starts_count_more_2() {
    let m = best_match("scc", "SccsCoolController").unwrap();

    assert_eq!(
        runs_of(&m),
        vec![
            ContinuousMatch::new(0, 1),
            ContinuousMatch::new(4, 1),
            ContinuousMatch::new(8, 1)
        ]
    );
}

#[test]
fn empty_query() {
    assert_eq!(best_match("", "test"), None);
}

#[test]
fn empty_target() {
    assert_eq!(best_match("test", ""), None);
}

#[test]
fn distance_to_first_is_ignored() {
    let a = best_match("release", "some_release").unwrap();
    let b = best_match("release", "a_release").unwrap();

    assert_eq!(a.score(), b.score());
}

#[test]
fn matches_unicode() {
    let m = best_match("👀", "🦀 👈 👀").unwrap();

    assert_eq!(m.matched_indices().clone(), vec![4]);
}

#[test]
fn formats_unicode() {
    let s = "🦀 👈 👀";
    let m = best_match("👀", s).unwrap();

    assert_eq!(format_simple(&m, s, "<", ">"), "🦀 👈 <👀>");
}
