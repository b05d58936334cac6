use std::collections::HashSet;
use std::iter::FromIterator;

use sublime_fuzzy::parsing::{condense, is_word_sep};
use sublime_fuzzy::{build_occurrences, process_query, Occurrence, QueryChar};

#[test]
fn word_seps() {
    let seps: Vec<char> = vec![
        '/', '\\', '|', '_', '-', ' ', '\t', ':', '.', ',', '~', '>', '<',
    ];

    assert!(seps.into_iter().all(|s| is_word_sep(s)));
}

#[test]
fn condense_casing() {
    assert_eq!(
        HashSet::<char>::from_iter(condense(&process_query("SCC"), true)),
        HashSet::from_iter(vec!['s', 'c']),
        "Query chars not lowercased"
    );
    assert_eq!(
        HashSet::<char>::from_iter(condense(&process_query("SCC"), false)),
        HashSet::from_iter(vec!['S', 'C']),
        "Query chars not matching original case"
    );
}

#[test]
fn query_processing() {
    assert_eq!(
        vec![
            QueryChar {
                lower: 'a',
                original: 'a'
            },
            QueryChar {
                lower: 'b',
                original: 'b'
            },
            QueryChar {
                lower: 'c',
                original: 'c'
            }
        ],
        process_query("a b c"),
        "Whitespace not removed"
    );

    assert_eq!(
        vec![
            QueryChar {
                lower: 'a',
                original: 'A'
            },
            QueryChar {
                lower: 'b',
                original: 'B'
            },
            QueryChar {
                lower: 'c',
                original: 'C'
            }
        ],
        process_query("ABC")
    );
}

#[test]
fn occurrence_eq() {
    let a = Occurrence {
        char: 'c',
        target_idx: 0,
        is_start: true,
    };

    assert_eq!(
        a,
        Occurrence {
            char: 'c',
            target_idx: 0,
            is_start: true
        }
    );
    assert_ne!(
        a,
        Occurrence {
            char: 'c',
            target_idx: 0,
            is_start: false
        },
        "is_start differs but eq"
    );
    assert_ne!(
        a,
        Occurrence {
            char: 'c',
            target_idx: 1,
            is_start: true
        },
        "target_idx differs but eq"
    );

    assert_ne!(
        a,
        Occurrence {
            char: 'b',
            target_idx: 0,
            is_start: true
        },
        "char differs but eq"
    );
}

#[test]
fn occurrences() {
    let t = "SoccerCartoonController";

    let occs = build_occurrences(&process_query("scc"), t, true);

    assert_eq!(occs.len(), 2);

    let s = occs.get('s').expect("Missing s occurrences");

    assert_eq!(
        s,
        &vec![Occurrence {
            char: 'S',
            target_idx: 0,
            is_start: true,
        }]
    );

    let c = occs.get('c').expect("Missing c occurrences");

    assert_eq!(
        c,
        &vec![
            Occurrence {
                char: 'c',
                target_idx: 2,
                is_start: false,
            },
            Occurrence {
                char: 'c',
                target_idx: 3,
                is_start: false,
            },
            Occurrence {
                char: 'C',
                target_idx: 6,
                is_start: true,
            },
            Occurrence {
                char: 'C',
                target_idx: 13,
                is_start: true,
            },
        ]
    );
}

#[test]
fn occurrences_2() {
    let t = "SccsCoolController";

    let occs = build_occurrences(&process_query("scc"), t, true);

    assert_eq!(occs.len(), 2);

    let s = occs.get('s').expect("Missing s occurrences");

    assert_eq!(
        s,
        &vec![
            Occurrence {
                char: 'S',
                target_idx: 0,
                is_start: true,
            },
            Occurrence {
                char: 's',
                target_idx: 3,
                is_start: false,
            }
        ]
    );

    let c = occs.get('c').expect("Missing c occurrences");

    assert_eq!(
        c,
        &vec![
            Occurrence {
                char: 'c',
                target_idx: 1,
                is_start: false,
            },
            Occurrence {
                char: 'c',
                target_idx: 2,
                is_start: false,
            },
            Occurrence {
                char: 'C',
                target_idx: 4,
                is_start: true,
            },
            Occurrence {
                char: 'C',
                target_idx: 8,
                is_start: true,
            },
        ]
    );
}
