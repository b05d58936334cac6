//! Standalone helpers for parsing a target string: a whitespace
//! stripper for patterns and a single-pass indexer that maps every
//! character of the target to its positions and collects the word-start
//! positions.
use std::collections::HashSet;

use vstd::prelude::*;

use crate::chars::{lower_char, push_char, whitespace_char};
use crate::parsing::{is_word_start_at, key_of, occ_list, scan_state_at, Occurrence, ScanState};

verus! {

/// What [`condense`] produces: the pattern with its whitespace removed,
/// each remaining character lower-cased when the search ignores case.
pub open spec fn condensed(q: Seq<char>, case_insensitive: bool) -> Seq<char>
    decreases q.len(),
{
    if q.len() == 0 {
        Seq::empty()
    } else {
        let rest = condensed(q.drop_last(), case_insensitive);
        if whitespace_char(q.last()) {
            rest
        } else {
            rest.push(key_of(q.last(), case_insensitive))
        }
    }
}

/// Removes whitespace and optionally lowercases.
pub fn condense(pattern: &str, case_insensitive: bool) -> (r: String)
    ensures
        r@ == condensed(pattern@, case_insensitive),
{
    let mut r = String::new();
    for c in it: pattern.chars()
        invariant
            r@ == condensed(it.seq().take(it.index()), case_insensitive),
    {
        proof {
            assert(it.seq().take(it.index() + 1).drop_last() =~= it.seq().take(it.index()));
        }
        if !c.is_whitespace() {
            let key = if case_insensitive {
                lower_char(c)
            } else {
                c
            };
            push_char(&mut r, key);
        }
    }
    proof {
        assert(pattern@.take(pattern@.len() as int) =~= pattern@);
    }
    r
}

/// The positions, ascending, at which key `k` occurs in `t`.
pub open spec fn positions_of(t: Seq<char>, case_insensitive: bool, k: char) -> Seq<usize> {
    occ_list(t, case_insensitive, k).map_values(|o: Occurrence| o.target_idx)
}

/// The word-start positions among the first `n` characters of `t`.
pub open spec fn word_starts_upto(t: Seq<char>, n: int) -> Set<usize> {
    Set::new(|p: usize| p < n && is_word_start_at(t, p as int))
}

/// Maps all occurrences of a character in `string` into a list of
/// `(char, positions)` entries — one entry per distinct character, keyed
/// lower-cased when `ignore_case` is set — and puts all word starts
/// (i.e. `some_string` => `[0, 5]`) into a set.
pub fn process_target_string(string: &str, ignore_case: bool) -> (r: (
    Vec<(char, Vec<usize>)>,
    HashSet<usize>,
))
    ensures
        forall|a: int, b: int|
            0 <= a < b < r.0@.len() ==> (#[trigger] r.0@[a]).0 != (#[trigger] r.0@[b]).0,
        forall|j: int|
            0 <= j < r.0@.len() ==> (#[trigger] r.0@[j]).1@ == positions_of(
                string@,
                ignore_case,
                r.0@[j].0,
            ) && positions_of(string@, ignore_case, r.0@[j].0).len() > 0,
        forall|k: char|
            positions_of(string@, ignore_case, k).len() > 0 ==> exists|j: int|
                0 <= j < r.0@.len() && (#[trigger] r.0@[j]).0 == k,
        r.1@ == word_starts_upto(string@, string@.len() as int),
{
    let t = crate::parsing::chars_of(string);
    let keys = distinct_keys(&t, ignore_case);
    let ghost tv = string@;

    let mut entries: Vec<(char, Vec<usize>)> = Vec::new();
    let mut ki: usize = 0;
    while ki < keys.len()
        invariant
            t@ == tv,
            keys@.no_duplicates(),
            forall|k: char|
                keys@.contains(k) <==> exists|i: int|
                    0 <= i < tv.len() && key_of(#[trigger] tv[i], ignore_case) == k,
            0 <= ki <= keys@.len(),
            forall|a: int, b: int|
                0 <= a < b < entries@.len() ==> (#[trigger] entries@[a]).0 != (
                #[trigger] entries@[b]).0,
            forall|j: int|
                0 <= j < entries@.len() ==> keys@.take(ki as int).contains(
                    (#[trigger] entries@[j]).0,
                ) && entries@[j].1@ == positions_of(tv, ignore_case, entries@[j].0) && positions_of(
                    tv,
                    ignore_case,
                    entries@[j].0,
                ).len() > 0,
            forall|k: char|
                keys@.take(ki as int).contains(k) && positions_of(tv, ignore_case, k).len() > 0
                    ==> exists|j: int| 0 <= j < entries@.len() && (#[trigger] entries@[j]).0 == k,
        decreases keys@.len() - ki,
    {
        let k = keys[ki];
        let occs = crate::parsing::occs_of_key(&t, ignore_case, k);
        let ghost old_entries = entries@;
        if occs.len() > 0 {
            let mut positions: Vec<usize> = Vec::new();
            let mut j: usize = 0;
            while j < occs.len()
                invariant
                    0 <= j <= occs@.len(),
                    positions@ == occs@.take(j as int).map_values(|o: Occurrence| o.target_idx),
                decreases occs@.len() - j,
            {
                positions.push(occs[j].target_idx);
                proof {
                    assert(occs@.take(j + 1).drop_last() =~= occs@.take(j as int));
                    assert(occs@.take(j + 1).map_values(|o: Occurrence| o.target_idx)
                        =~= occs@.take(j as int).map_values(|o: Occurrence| o.target_idx).push(
                        occs@[j as int].target_idx,
                    ));
                }
                j = j + 1;
            }
            proof {
                assert(occs@.take(occs@.len() as int) =~= occs@);
            }
            entries.push((k, positions));
        }
        proof {
            assert(keys@.take(ki + 1).drop_last() =~= keys@.take(ki as int));
            assert forall|k2: char|
                keys@.take(ki + 1).contains(k2) && positions_of(tv, ignore_case, k2).len()
                    > 0 implies exists|j: int|
                0 <= j < entries@.len() && (#[trigger] entries@[j]).0 == k2 by {
                if k2 == k {
                    assert(entries@[entries@.len() - 1].0 == k);
                } else {
                    let i = choose|i: int|
                        0 <= i < keys@.take(ki + 1).len() && #[trigger] keys@.take(ki + 1)[i]
                            == k2;
                    assert(keys@.take(ki as int)[i] == k2);
                    assert(keys@.take(ki as int).contains(k2));
                    let j = choose|j: int|
                        0 <= j < old_entries.len() && (#[trigger] old_entries[j]).0 == k2;
                    assert(entries@[j].0 == k2);
                }
            }
            assert forall|j: int|
                0 <= j < entries@.len() implies keys@.take(ki + 1).contains(
                (#[trigger] entries@[j]).0,
            ) by {
                if j < old_entries.len() {
                    let k2 = old_entries[j].0;
                    let i = choose|i: int|
                        0 <= i < keys@.take(ki as int).len() && keys@.take(ki as int)[i] == k2;
                    assert(keys@.take(ki + 1)[i] == k2);
                } else {
                    assert(keys@.take(ki + 1)[ki as int] == k);
                }
            }
            assert forall|a: int, b: int|
                0 <= a < b < entries@.len() implies (#[trigger] entries@[a]).0 != (
            #[trigger] entries@[b]).0 by {
                if b == entries@.len() - 1 && entries@.len() > old_entries.len() {
                    let k2 = old_entries[a].0;
                    assert(keys@.take(ki as int).contains(k2));
                    let i = choose|i: int|
                        0 <= i < keys@.take(ki as int).len() && keys@.take(ki as int)[i] == k2;
                    assert(keys@[i] == k2);
                    assert(keys@[ki as int] == k);
                }
            }
        }
        ki = ki + 1;
    }
    proof {
        assert(keys@.take(keys@.len() as int) =~= keys@);
        assert forall|k: char|
            positions_of(tv, ignore_case, k).len() > 0 implies exists|j: int|
            0 <= j < entries@.len() && (#[trigger] entries@[j]).0 == k by {
            assert(tv.len() <= usize::MAX) by {
                assert(t.len() == t@.len());
            }
            crate::parsing::lemma_occ_list_elems(tv, ignore_case, k, tv.len() as int);
            let l = occ_list(tv, ignore_case, k);
            assert(l[0].target_idx < tv.len());
            assert(key_of(tv[l[0].target_idx as int], ignore_case) == k);
            assert(keys@.contains(k));
        }
    }

    let word_starts = collect_word_starts(&t);
    (entries, word_starts)
}

/// The distinct keys under which the characters of `t` are indexed.
fn distinct_keys(t: &Vec<char>, case_insensitive: bool) -> (r: Vec<char>)
    ensures
        r@.no_duplicates(),
        forall|k: char|
            r@.contains(k) <==> exists|i: int|
                0 <= i < t@.len() && key_of(#[trigger] t@[i], case_insensitive) == k,
{
    let mut r: Vec<char> = Vec::new();
    let mut i: usize = 0;
    while i < t.len()
        invariant
            0 <= i <= t@.len(),
            r@.no_duplicates(),
            forall|k: char|
                r@.contains(k) <==> exists|j: int|
                    0 <= j < i && key_of(#[trigger] t@[j], case_insensitive) == k,
        decreases t@.len() - i,
    {
        let c = t[i];
        let key = if case_insensitive {
            lower_char(c)
        } else {
            c
        };
        let ghost r0 = r@;
        if !crate::parsing::contains_char(&r, key) {
            r.push(key);
            proof {
                assert forall|k: char| r0.contains(k) implies r@.contains(k) by {
                    let j = choose|j: int| 0 <= j < r0.len() && r0[j] == k;
                    assert(r@[j] == k);
                }
                assert forall|a: int, b: int| 0 <= a < b < r@.len() implies r@[a] != r@[b] by {
                    if b == r@.len() - 1 {
                        assert(r@[a] == r0[a]);
                        if r0[a] == key {
                            assert(r0.contains(key));
                        }
                    }
                }
                assert(r@[r@.len() - 1] == key);
            }
        }
        proof {
            assert forall|k: char| r@.contains(k) implies exists|j: int|
                0 <= j < i + 1 && key_of(#[trigger] t@[j], case_insensitive) == k by {
                if r0.contains(k) {
                } else {
                    assert(k == key);
                    assert(key_of(t@[i as int], case_insensitive) == key);
                }
            }
            assert forall|k: char|
                (exists|j: int| 0 <= j < i + 1 && key_of(#[trigger] t@[j], case_insensitive) == k)
                    implies r@.contains(k) by {
                let j = choose|j: int|
                    0 <= j < i + 1 && key_of(#[trigger] t@[j], case_insensitive) == k;
                if j < i {
                    assert(r0.contains(k));
                    let jj = choose|jj: int| 0 <= jj < r0.len() && r0[jj] == k;
                    assert(r@[jj] == k);
                }
            }
        }
        i = i + 1;
    }
    r
}

/// Collects the word-start positions of `t` in one left-to-right scan.
fn collect_word_starts(t: &Vec<char>) -> (r: HashSet<usize>)
    ensures
        r@ == word_starts_upto(t@, t@.len() as int),
{
    let mut r: HashSet<usize> = HashSet::new();
    let mut prev_is_upper = false;
    let mut prev_is_sep = true;
    let mut prev_is_start = false;
    let mut i: usize = 0;
    proof {
        assert(r@ =~= word_starts_upto(t@, 0));
    }
    while i < t.len()
        invariant
            0 <= i <= t@.len(),
            r@ == word_starts_upto(t@, i as int),
            scan_state_at(t@, i as int) == (ScanState {
                prev_is_upper,
                prev_is_sep,
                prev_is_start,
            }),
        decreases t@.len() - i,
    {
        let c = t[i];
        let is_sep = !c.is_alphanumeric();
        let is_upper = c.is_uppercase();
        let mut is_start = false;
        if !is_sep {
            if prev_is_sep {
                is_start = true;
            } else if !prev_is_start && prev_is_upper != is_upper {
                is_start = true;
            }
        }
        proof {
            assert(is_start == is_word_start_at(t@, i as int));
        }
        if is_start {
            r.insert(i);
            proof {
                assert(r@ =~= word_starts_upto(t@, i + 1));
            }
        } else {
            proof {
                assert(r@ =~= word_starts_upto(t@, i + 1));
            }
        }
        if is_sep {
            prev_is_upper = false;
            prev_is_sep = true;
            prev_is_start = false;
        } else {
            prev_is_upper = is_upper;
            prev_is_sep = false;
            prev_is_start = is_start;
        }
        i = i + 1;
    }
    r
}

} // verus!
