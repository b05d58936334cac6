use sublime_fuzzy::{ContinuousMatch, Match, Scoring};

fn collected_runs(m: &Match) -> Vec<ContinuousMatch> {
    let mut cursor = m.continuous_matches();
    let mut runs = Vec::new();
    while let Some(r) = cursor.next() {
        runs.push(r);
    }
    runs
}

#[test]
fn continuous() {
    let m = Match::with_matched(0, 0, vec![0, 1, 2, 5, 6, 10]);

    assert_eq!(
        collected_runs(&m),
        vec![
            ContinuousMatch { start: 0, len: 3 },
            ContinuousMatch { start: 5, len: 2 },
            ContinuousMatch { start: 10, len: 1 },
        ]
    )
}

#[test]
fn score_only_ordering() {
    // Two materially different alignments compare equal when their
    // scores tie; ordering follows the score alone.
    let a = Match::with_matched(10, 0, vec![0]);
    let b = Match::with_matched(10, 0, vec![7]);
    let c = Match::with_matched(11, 0, vec![0]);

    assert_eq!(a, b);
    assert!(a < c);
    assert!(c > b);
}

#[test]
fn extend_match() {
    let mut a = Match::with_matched(16, 3, vec![1, 2, 3]);
    let b = Match::with_matched(8, 3, vec![5, 6, 7]);

    let s = Scoring::default();

    a.extend_with(&b, &s);

    assert_eq!(a.score(), 24 - s.penalty_distance);
    assert_eq!(a.consecutive, 0);
    assert_eq!(a.matched_indices().len(), 6);
}

#[test]
fn extend_match_cont() {
    let mut a = Match::with_matched(16, 3, vec![1, 2, 3]);
    let b = Match::with_matched(8, 3, vec![4, 5, 6]);

    let s = Scoring::default();

    a.extend_with(&b, &s);

    assert_eq!(a.score(), 16 + 8 + (3 + 3 + 1) * s.bonus_consecutive);
    assert_eq!(a.consecutive, 3 + 3 + 1);
    assert_eq!(a.matched_indices().len(), 6);
}
