//! The matcher: a recursive search over (query position, target
//! position, current run length) that finds the maximum-scoring full
//! alignment of the query in the target, or determines that none exists.
//!
//! The search result is pinned down by the spec functions [`best_from`],
//! [`best_cont`] and [`searcher_spec`], which mirror the search: at each
//! step the occurrence contributes its local score (run bonus, word-start
//! bonus, case bonus), every occurrence of the next query character
//! strictly to the right is tried as a continuation, the best
//! continuation wins (later candidates win ties), and the step's match is
//! merged with it.
use std::collections::HashMap;

use vstd::prelude::*;

use crate::matching::{merged, strictly_increasing, Match, MatchView};
use crate::parsing::{
    build_occurrences, occ_list, occs_models, process_query, processed_query, query_key,
    query_keys, Occurrence, Occurrences, QueryChar,
};
use crate::scoring::{default_scoring, weights_bounded, Scoring, MAX_WEIGHT};

verus! {

/// Longest query (after whitespace-stripping) a search accepts.
pub const MAX_QUERY_LEN: usize = 64;

/// Longest target (in characters) a search accepts.
pub const MAX_TARGET_LEN: usize = 0x10_0000;

/// The local score contribution of matching `qc` at `occ` while the
/// current unbroken run is `consecutive` long: the run bonus scaled by
/// the run length, the word-start bonus if the occurrence begins a word,
/// and, in a case-insensitive search, the case bonus if the original
/// cases agree.
pub open spec fn local_score(
    sc: Scoring,
    qc: QueryChar,
    occ: Occurrence,
    case_insensitive: bool,
    consecutive: int,
) -> int {
    consecutive * sc.bonus_consecutive + (if occ.is_start {
        sc.bonus_word_start as int
    } else {
        0
    }) + (if case_insensitive && qc.original == occ.char {
        sc.bonus_match_case as int
    } else {
        0
    })
}

/// The one-position match for `qc` at `occ`.
pub open spec fn single_match(
    sc: Scoring,
    qc: QueryChar,
    occ: Occurrence,
    case_insensitive: bool,
    consecutive: int,
) -> MatchView {
    MatchView {
        score: local_score(sc, qc, occ, case_insensitive, consecutive),
        consecutive,
        matched: seq![occ.target_idx as int],
    }
}

/// Of two viable matches, the better one; the later candidate `b` wins
/// ties, matching the traversal order of the search.
pub open spec fn better_of(a: Option<MatchView>, b: Option<MatchView>) -> Option<MatchView> {
    match (a, b) {
        (Some(x), Some(y)) => if y.score >= x.score {
            Some(y)
        } else {
            Some(x)
        },
        (Some(x), None) => Some(x),
        (None, y) => y,
    }
}

/// The best match covering query positions `qi - 1` to the end, given
/// that query position `qi - 1` was matched at `occ` and ends an
/// unbroken run of length `consecutive`.  `None` when the remaining
/// query cannot be fully aligned: a partial alignment is never a result.
pub open spec fn best_from(
    query: Seq<QueryChar>,
    occs: Map<char, Seq<Occurrence>>,
    sc: Scoring,
    case_insensitive: bool,
    qi: int,
    occ: Occurrence,
    consecutive: int,
) -> Option<MatchView>
    decreases query.len() - qi, 1int, 0int,
{
    let this = single_match(sc, query[qi - 1], occ, case_insensitive, consecutive);
    if qi >= query.len() {
        Some(this)
    } else {
        let k = query_key(query[qi], case_insensitive);
        if !occs.contains_key(k) {
            None
        } else {
            match best_cont(query, occs, sc, case_insensitive, qi, occ, consecutive, occs[k]) {
                None => None,
                Some(b) => Some(merged(this, b, sc)),
            }
        }
    }
}

/// The best continuation at query position `qi` among the candidate
/// occurrences `list`, given the previous occurrence `occ` and run
/// length `consecutive`.  Only candidates strictly to the right of `occ`
/// are viable; a candidate exactly one past `occ` continues the run,
/// any other resets it.
pub open spec fn best_cont(
    query: Seq<QueryChar>,
    occs: Map<char, Seq<Occurrence>>,
    sc: Scoring,
    case_insensitive: bool,
    qi: int,
    occ: Occurrence,
    consecutive: int,
    list: Seq<Occurrence>,
) -> Option<MatchView>
    decreases query.len() - qi, 0int, list.len(),
{
    if list.len() == 0 {
        None
    } else {
        let prev = best_cont(
            query,
            occs,
            sc,
            case_insensitive,
            qi,
            occ,
            consecutive,
            list.drop_last(),
        );
        let o = list.last();
        let cand = if qi < query.len() && o.target_idx > occ.target_idx {
            best_from(
                query,
                occs,
                sc,
                case_insensitive,
                qi + 1,
                o,
                if o.target_idx == occ.target_idx + 1 {
                    consecutive + 1
                } else {
                    0
                },
            )
        } else {
            None
        };
        better_of(prev, cand)
    }
}

/// The best full match over all starting occurrences in `list` of the
/// first query character.
pub open spec fn top_matches(
    query: Seq<QueryChar>,
    occs: Map<char, Seq<Occurrence>>,
    sc: Scoring,
    case_insensitive: bool,
    list: Seq<Occurrence>,
) -> Option<MatchView>
    decreases list.len(),
{
    if list.len() == 0 {
        None
    } else {
        let prev = top_matches(query, occs, sc, case_insensitive, list.drop_last());
        let cand = best_from(query, occs, sc, case_insensitive, 1, list.last(), 0);
        better_of(prev, cand)
    }
}

/// The search result for a processed query over an occurrence index.
pub open spec fn searcher_spec(
    query: Seq<QueryChar>,
    occs: Map<char, Seq<Occurrence>>,
    sc: Scoring,
    case_insensitive: bool,
) -> Option<MatchView> {
    if query.len() == 0 {
        None
    } else {
        let k = query_key(query[0], case_insensitive);
        if !occs.contains_key(k) {
            None
        } else {
            top_matches(query, occs, sc, case_insensitive, occs[k])
        }
    }
}

/// The canonical occurrence index of target `t` for the key set `keys`.
pub open spec fn target_index(t: Seq<char>, case_insensitive: bool, keys: Set<char>) -> Map<
    char,
    Seq<Occurrence>,
> {
    Map::new(
        |k: char| keys.contains(k) && occ_list(t, case_insensitive, k).len() > 0,
        |k: char| occ_list(t, case_insensitive, k),
    )
}

/// What a whole search returns for raw query `q` against target `t`:
/// `None` when the whitespace-stripped query or the target is empty,
/// otherwise the matcher's result over the target's occurrence index.
pub open spec fn search_spec(q: Seq<char>, t: Seq<char>, sc: Scoring, case_insensitive: bool) -> Option<
    MatchView,
> {
    let pq = processed_query(q);
    if pq.len() == 0 || t.len() == 0 {
        None
    } else {
        searcher_spec(
            pq,
            target_index(t, case_insensitive, query_keys(pq, case_insensitive)),
            sc,
            case_insensitive,
        )
    }
}

/// The view of an optional match.
pub open spec fn opt_match_view(r: Option<Match>) -> Option<MatchView> {
    match r {
        None => None,
        Some(m) => Some(m@),
    }
}

/// `occs` lists `o` somewhere.
pub open spec fn occs_has(occs: Map<char, Seq<Occurrence>>, o: Occurrence) -> bool {
    exists|k: char| #[trigger] occs.contains_key(k) && occs[k].contains(o)
}

/// Two listed occurrences at the same target position are the same
/// record: an occurrence is determined by its position.
pub open spec fn occs_unique(occs: Map<char, Seq<Occurrence>>) -> bool {
    forall|k1: char, k2: char, i1: int, i2: int|
        #![trigger occs[k1][i1], occs[k2][i2]]
        occs.contains_key(k1) && occs.contains_key(k2) && 0 <= i1 < occs[k1].len() && 0 <= i2
            < occs[k2].len() && occs[k1][i1].target_idx == occs[k2][i2].target_idx ==> occs[k1][i1]
            == occs[k2][i2]
}

/// The memo key for the step (query position `qi`, target position
/// `ti`, run length `c`): the three components packed into one integer.
/// Within the search's bounds the packing is injective.
pub open spec fn pack_key(qi: int, ti: int, c: int) -> int {
    ti * 0x8000 + qi * 0x80 + c
}

/// Packing is injective while `qi` and `c` stay under 128.
proof fn lemma_pack_key_injective(qi1: int, ti1: int, c1: int, qi2: int, ti2: int, c2: int)
    requires
        0 <= qi1 < 0x80,
        0 <= c1 < 0x80,
        0 <= ti1,
        0 <= qi2 < 0x80,
        0 <= c2 < 0x80,
        0 <= ti2,
        pack_key(qi1, ti1, c1) == pack_key(qi2, ti2, c2),
    ensures
        qi1 == qi2 && ti1 == ti2 && c1 == c2,
{
    assert(qi1 == qi2 && ti1 == ti2 && c1 == c2) by (nonlinear_arith)
        requires
            0 <= qi1 < 0x80,
            0 <= c1 < 0x80,
            0 <= ti1,
            0 <= qi2 < 0x80,
            0 <= c2 < 0x80,
            0 <= ti2,
            ti1 * 0x8000 + qi1 * 0x80 + c1 == ti2 * 0x8000 + qi2 * 0x80 + c2,
    ;
}

/// Every value the memo table holds is the value the search spec gives
/// for the step its key encodes.
pub open spec fn cache_ok(
    cache: Map<u64, Option<Match>>,
    query: Seq<QueryChar>,
    occs: Map<char, Seq<Occurrence>>,
    sc: Scoring,
    case_insensitive: bool,
) -> bool {
    forall|qi: int, occ: Occurrence, c: int|
        1 <= qi <= query.len() && 0 <= c <= qi - 1 && occs_has(occs, occ)
            && #[trigger] cache.contains_key(pack_key(qi, occ.target_idx as int, c) as u64)
            ==> opt_match_view(cache[pack_key(qi, occ.target_idx as int, c) as u64]) == best_from(
            query,
            occs,
            sc,
            case_insensitive,
            qi,
            occ,
            c,
        )
}

/// After storing the spec value for one step, the memo table is still
/// faithful.
proof fn lemma_cache_insert(
    cache: Map<u64, Option<Match>>,
    query: Seq<QueryChar>,
    occs: Map<char, Seq<Occurrence>>,
    sc: Scoring,
    case_insensitive: bool,
    qi: int,
    occ: Occurrence,
    c: int,
    v: Option<Match>,
)
    requires
        cache_ok(cache, query, occs, sc, case_insensitive),
        occs_unique(occs),
        occs_bounded(occs, MAX_TARGET_LEN as int),
        occs_has(occs, occ),
        query.len() <= MAX_QUERY_LEN,
        1 <= qi <= query.len(),
        0 <= c <= qi - 1,
        0 <= occ.target_idx < MAX_TARGET_LEN,
        opt_match_view(v) == best_from(query, occs, sc, case_insensitive, qi, occ, c),
    ensures
        cache_ok(
            cache.insert(pack_key(qi, occ.target_idx as int, c) as u64, v),
            query,
            occs,
            sc,
            case_insensitive,
        ),
{
    let key = pack_key(qi, occ.target_idx as int, c) as u64;
    let cache2 = cache.insert(key, v);
    assert(0 <= pack_key(qi, occ.target_idx as int, c) < 0x8_0000_0000) by (nonlinear_arith)
        requires
            pack_key(qi, occ.target_idx as int, c) == occ.target_idx as int * 0x8000 + qi * 0x80
                + c,
            0 <= occ.target_idx < MAX_TARGET_LEN,
            MAX_TARGET_LEN == 0x10_0000,
            1 <= qi <= 64,
            0 <= c < 64,
    ;
    assert forall|qi2: int, occ2: Occurrence, c2: int|
        1 <= qi2 <= query.len() && 0 <= c2 <= qi2 - 1 && occs_has(occs, occ2)
            && #[trigger] cache2.contains_key(pack_key(qi2, occ2.target_idx as int, c2) as u64)
            implies opt_match_view(cache2[pack_key(qi2, occ2.target_idx as int, c2) as u64])
        == best_from(query, occs, sc, case_insensitive, qi2, occ2, c2) by {
        let k2 = choose|k: char| #[trigger] occs.contains_key(k) && occs[k].contains(occ2);
        let i2 = choose|i: int| 0 <= i < occs[k2].len() && occs[k2][i] == occ2;
        assert(occs[k2][i2] == occ2);
        assert(occ2.target_idx < MAX_TARGET_LEN);
        assert(0 <= pack_key(qi2, occ2.target_idx as int, c2) < 0x8_0000_0000)
            by (nonlinear_arith)
            requires
                pack_key(qi2, occ2.target_idx as int, c2) == occ2.target_idx as int * 0x8000 + qi2
                    * 0x80 + c2,
                0 <= occ2.target_idx < 0x10_0000,
                1 <= qi2 <= 64,
                0 <= c2 < 64,
        ;
        let p1 = pack_key(qi, occ.target_idx as int, c);
        let p2 = pack_key(qi2, occ2.target_idx as int, c2);
        if p2 as u64 == key {
            assert(p1 == p2);
            lemma_pack_key_injective(
                qi,
                occ.target_idx as int,
                c,
                qi2,
                occ2.target_idx as int,
                c2,
            );
            let k1 = choose|k: char| #[trigger] occs.contains_key(k) && occs[k].contains(occ);
            let i1 = choose|i: int| 0 <= i < occs[k1].len() && occs[k1][i] == occ;
            assert(occs[k1][i1] == occ);
            assert(occs[k1][i1].target_idx == occs[k2][i2].target_idx);
            assert(occ2 == occ);
        } else {
            assert(cache.contains_key(p2 as u64));
            assert(cache2[p2 as u64] == cache[p2 as u64]);
        }
    }
}

/// Every occurrence list of `occs` ascends strictly by target position.
pub open spec fn occs_sorted(occs: Map<char, Seq<Occurrence>>) -> bool {
    forall|k: char, i: int, j: int|
        #![trigger occs[k][i], occs[k][j]]
        occs.contains_key(k) && 0 <= i < j < occs[k].len() ==> occs[k][i].target_idx
            < occs[k][j].target_idx
}

/// Every target position in `occs` lies below `bound`.
pub open spec fn occs_bounded(occs: Map<char, Seq<Occurrence>>, bound: int) -> bool {
    forall|k: char, i: int|
        #![trigger occs[k][i]]
        occs.contains_key(k) && 0 <= i < occs[k].len() ==> (occs[k][i]).target_idx < bound
}

/// Upper bound on the consecutive counter any match of an `n`-character
/// query can carry.
pub open spec fn cs_bound(n: int) -> int {
    n + n * (n + 1)
}

/// Score units one search level can contribute.
pub open spec fn level_cost(n: int) -> int {
    cs_bound(n) + 2 * n + 3
}

/// Budget, in units of `MAX_WEIGHT`, for the magnitude of any score the
/// search builds over `levels` remaining query characters starting at
/// target position `p`.
pub open spec fn units(n: int, levels: int, p: int) -> int {
    levels * level_cost(n) + (MAX_TARGET_LEN as int - p)
}

/// Shape and magnitude of everything `best_from` can return: the matched
/// positions are strictly increasing, start at `occ`, cover the rest of
/// the query and stay inside the target; the consecutive counter and the
/// score stay within their budgets.
pub proof fn lemma_best_from_props(
    query: Seq<QueryChar>,
    occs: Map<char, Seq<Occurrence>>,
    sc: Scoring,
    case_insensitive: bool,
    qi: int,
    occ: Occurrence,
    consecutive: int,
    tbound: int,
)
    requires
        weights_bounded(sc),
        occs_sorted(occs),
        occs_bounded(occs, tbound),
        tbound <= MAX_TARGET_LEN,
        query.len() <= MAX_QUERY_LEN,
        1 <= qi <= query.len(),
        0 <= consecutive <= qi - 1,
        0 <= occ.target_idx < tbound,
    ensures
        best_from(query, occs, sc, case_insensitive, qi, occ, consecutive) matches Some(m) ==> {
            let n = query.len() as int;
            &&& m.matched.len() == n - qi + 1
            &&& m.matched[0] == occ.target_idx as int
            &&& strictly_increasing(m.matched)
            &&& m.matched.last() < tbound
            &&& 0 <= m.consecutive <= consecutive + (n - qi + 1) * (n + 1)
            &&& -(MAX_WEIGHT as int) * units(n, n - qi + 1, occ.target_idx as int) <= m.score
                <= (MAX_WEIGHT as int) * units(n, n - qi + 1, occ.target_idx as int)
        },
    decreases query.len() - qi, 1int, 0int,
{
    let n = query.len() as int;
    let r = best_from(query, occs, sc, case_insensitive, qi, occ, consecutive);
    let this = single_match(sc, query[qi - 1], occ, case_insensitive, consecutive);
    let p = occ.target_idx as int;
    assert(-(MAX_WEIGHT as int) * (n + 1) <= this.score <= (MAX_WEIGHT as int) * (n + 1)) by {
        assert(-(MAX_WEIGHT as int) * (n - 1) <= consecutive * sc.bonus_consecutive <= (
        MAX_WEIGHT as int) * (n - 1)) by (nonlinear_arith)
            requires
                0 <= consecutive <= n - 1,
                -MAX_WEIGHT <= sc.bonus_consecutive <= MAX_WEIGHT,
        ;
    }
    if qi >= n {
        assert(units(n, 1, p) >= n + 1) by (nonlinear_arith)
            requires
                0 <= n <= MAX_QUERY_LEN,
                p < MAX_TARGET_LEN,
                units(n, 1, p) == level_cost(n) + (MAX_TARGET_LEN as int - p),
                level_cost(n) == n + n * (n + 1) + 2 * n + 3,
        ;
        assert((MAX_WEIGHT as int) * (n + 1) <= (MAX_WEIGHT as int) * units(n, 1, p))
            by (nonlinear_arith)
            requires
                n + 1 <= units(n, 1, p),
                MAX_WEIGHT >= 0,
        ;
    } else {
        let k = query_key(query[qi], case_insensitive);
        if occs.contains_key(k) {
            lemma_best_cont_props(
                query,
                occs,
                sc,
                case_insensitive,
                qi,
                occ,
                consecutive,
                occs[k],
                tbound,
            );
            let cont = best_cont(
                query,
                occs,
                sc,
                case_insensitive,
                qi,
                occ,
                consecutive,
                occs[k],
            );
            if cont is Some {
                let b = cont->0;
                let m = merged(this, b, sc);
                let b0 = b.matched[0];
                let d = b0 - p;
                assert(this.matched.last() == p);
                assert(m.matched == this.matched + b.matched);
                assert(m.matched[0] == p);
                assert(m.matched.len() == 1 + b.matched.len());
                assert(strictly_increasing(m.matched)) by {
                    assert(forall|i: int|
                        1 <= i < m.matched.len() ==> m.matched[i] == b.matched[i - 1]);
                }
                assert(m.matched.last() == b.matched.last());
                // consecutive bound
                assert(0 <= m.consecutive <= consecutive + (n - qi + 1) * (n + 1)) by {
                    assert(b.consecutive <= (consecutive + 1) + (n - qi) * (n + 1));
                    if d == 1 {
                        assert(m.consecutive == consecutive + b.consecutive + 1);
                        assert(consecutive + b.consecutive + 1 <= consecutive + (n - qi + 1) * (n
                            + 1)) by (nonlinear_arith)
                            requires
                                b.consecutive <= (consecutive + 1) + (n - qi) * (n + 1),
                                0 <= consecutive <= qi - 1,
                                1 <= qi < n,
                        ;
                    } else {
                        assert((n - qi + 1) * (n + 1) >= 0) by (nonlinear_arith)
                            requires
                                1 <= qi < n,
                        ;
                    }
                }
                // score bound
                let u = (MAX_WEIGHT as int) * units(n, n - qi + 1, p);
                assert(-u <= m.score <= u) by {
                    let ub = (MAX_WEIGHT as int) * units(n, n - qi, b0);
                    assert(-ub <= b.score <= ub);
                    if d == 1 {
                        let cc = consecutive + b.consecutive + 1;
                        assert(0 <= cc <= cs_bound(n) + n) by (nonlinear_arith)
                            requires
                                cc == consecutive + b.consecutive + 1,
                                0 <= consecutive <= qi - 1,
                                0 <= b.consecutive <= (consecutive + 1) + (n - qi) * (n + 1),
                                1 <= qi < n,
                                cs_bound(n) == n + n * (n + 1),
                        ;
                        assert(m.score == this.score + b.score + cc * sc.bonus_consecutive);
                        assert(-u <= m.score <= u) by (nonlinear_arith)
                            requires
                                m.score == this.score + b.score + cc * sc.bonus_consecutive,
                                -(MAX_WEIGHT as int) * (n + 1) <= this.score <= (MAX_WEIGHT as int)
                                    * (n + 1),
                                -ub <= b.score <= ub,
                                ub == (MAX_WEIGHT as int) * units(n, n - qi, b0),
                                u == (MAX_WEIGHT as int) * units(n, n - qi + 1, p),
                                units(n, n - qi, b0) == (n - qi) * level_cost(n) + (
                                MAX_TARGET_LEN as int - b0),
                                units(n, n - qi + 1, p) == (n - qi + 1) * level_cost(n) + (
                                MAX_TARGET_LEN as int - p),
                                level_cost(n) == cs_bound(n) + 2 * n + 3,
                                0 <= cc <= cs_bound(n) + n,
                                -MAX_WEIGHT <= sc.bonus_consecutive <= MAX_WEIGHT,
                                MAX_WEIGHT > 0,
                                b0 == p + 1,
                                1 <= qi < n,
                                n <= MAX_QUERY_LEN,
                                cs_bound(n) == n + n * (n + 1),
                        ;
                    } else {
                        assert(d > 1);
                        assert(m.score == this.score + b.score - (d - 1) * sc.penalty_distance);
                        assert(-u <= m.score <= u) by (nonlinear_arith)
                            requires
                                m.score == this.score + b.score - (d - 1) * sc.penalty_distance,
                                -(MAX_WEIGHT as int) * (n + 1) <= this.score <= (MAX_WEIGHT as int)
                                    * (n + 1),
                                -ub <= b.score <= ub,
                                ub == (MAX_WEIGHT as int) * units(n, n - qi, b0),
                                u == (MAX_WEIGHT as int) * units(n, n - qi + 1, p),
                                units(n, n - qi, b0) == (n - qi) * level_cost(n) + (
                                MAX_TARGET_LEN as int - b0),
                                units(n, n - qi + 1, p) == (n - qi + 1) * level_cost(n) + (
                                MAX_TARGET_LEN as int - p),
                                level_cost(n) == cs_bound(n) + 2 * n + 3,
                                cs_bound(n) == n + n * (n + 1),
                                d == b0 - p,
                                d > 1,
                                -MAX_WEIGHT <= sc.penalty_distance <= MAX_WEIGHT,
                                MAX_WEIGHT > 0,
                                1 <= qi < n,
                                n <= MAX_QUERY_LEN,
                        ;
                    }
                }
            }
        }
    }
}

/// Shape and magnitude of everything `best_cont` can return: the
/// continuation starts strictly to the right of `occ`, covers query
/// positions `qi` to the end, and stays within the budgets.
pub proof fn lemma_best_cont_props(
    query: Seq<QueryChar>,
    occs: Map<char, Seq<Occurrence>>,
    sc: Scoring,
    case_insensitive: bool,
    qi: int,
    occ: Occurrence,
    consecutive: int,
    list: Seq<Occurrence>,
    tbound: int,
)
    requires
        weights_bounded(sc),
        occs_sorted(occs),
        occs_bounded(occs, tbound),
        tbound <= MAX_TARGET_LEN,
        query.len() <= MAX_QUERY_LEN,
        1 <= qi < query.len(),
        0 <= consecutive <= qi - 1,
        0 <= occ.target_idx < tbound,
        forall|j: int| 0 <= j < list.len() ==> (#[trigger] list[j]).target_idx < tbound,
    ensures
        best_cont(query, occs, sc, case_insensitive, qi, occ, consecutive, list) matches Some(b)
            ==> {
            let n = query.len() as int;
            &&& b.matched.len() == n - qi
            &&& b.matched[0] > occ.target_idx
            &&& strictly_increasing(b.matched)
            &&& b.matched.last() < tbound
            &&& 0 <= b.consecutive <= (consecutive + 1) + (n - qi) * (n + 1)
            &&& -(MAX_WEIGHT as int) * units(n, n - qi, b.matched[0]) <= b.score <= (
            MAX_WEIGHT as int) * units(n, n - qi, b.matched[0])
        },
    decreases query.len() - qi, 0int, list.len(),
{
    let n = query.len() as int;
    if list.len() > 0 {
        lemma_best_cont_props(
            query,
            occs,
            sc,
            case_insensitive,
            qi,
            occ,
            consecutive,
            list.drop_last(),
            tbound,
        );
        let o = list.last();
        assert(list[list.len() - 1] == o);
        if o.target_idx > occ.target_idx {
            let c2 = if o.target_idx == occ.target_idx + 1 {
                consecutive + 1
            } else {
                0
            };
            lemma_best_from_props(query, occs, sc, case_insensitive, qi + 1, o, c2, tbound);
            let cand = best_from(query, occs, sc, case_insensitive, qi + 1, o, c2);
            if cand is Some {
                let m = cand->0;
                assert(0 <= m.consecutive <= (consecutive + 1) + (n - qi) * (n + 1)) by {
                    assert(m.consecutive <= c2 + (n - qi) * (n + 1));
                }
            }
        }
    }
}

/// Every query position from `qi` on can be matched, in order, at
/// target positions `from` or later: position `i >= from` carries the
/// key of the next query character, and the rest follows after `i`.
pub open spec fn matches_from(
    pq: Seq<QueryChar>,
    t: Seq<char>,
    case_insensitive: bool,
    from: int,
) -> bool
    decreases pq.len(),
{
    pq.len() == 0 || exists|i: int|
        from <= i < t.len() && crate::parsing::key_of(#[trigger] t[i], case_insensitive)
            == query_key(pq[0], case_insensitive) && matches_from(
            pq.drop_first(),
            t,
            case_insensitive,
            i + 1,
        )
}

/// The continuation fold succeeds exactly when some listed candidate to
/// the right of `occ` starts a full alignment of the rest of the query.
proof fn lemma_best_cont_complete(
    query: Seq<QueryChar>,
    t: Seq<char>,
    sc: Scoring,
    case_insensitive: bool,
    keys: Set<char>,
    qi: int,
    occ: Occurrence,
    consecutive: int,
    list: Seq<Occurrence>,
)
    requires
        t.len() <= usize::MAX,
        1 <= qi < query.len(),
        forall|j: int| qi <= j < query.len() ==> keys.contains(
            query_key(#[trigger] query[j], case_insensitive),
        ),
    ensures
        ({
            let occs = target_index(t, case_insensitive, keys);
            best_cont(query, occs, sc, case_insensitive, qi, occ, consecutive, list) is Some
                <==> exists|j: int|
                0 <= j < list.len() && (#[trigger] list[j]).target_idx > occ.target_idx
                    && matches_from(
                    query.skip(qi + 1),
                    t,
                    case_insensitive,
                    list[j].target_idx + 1,
                )
        }),
    decreases query.len() - qi, 0int, list.len(),
{
    let occs = target_index(t, case_insensitive, keys);
    if list.len() > 0 {
        lemma_best_cont_complete(
            query,
            t,
            sc,
            case_insensitive,
            keys,
            qi,
            occ,
            consecutive,
            list.drop_last(),
        );
        let o = list.last();
        let c2 = if o.target_idx == occ.target_idx + 1 {
            consecutive + 1
        } else {
            0
        };
        if o.target_idx > occ.target_idx {
            lemma_best_from_complete(query, t, sc, case_insensitive, keys, qi + 1, o, c2);
        }
        let prev = best_cont(
            query,
            occs,
            sc,
            case_insensitive,
            qi,
            occ,
            consecutive,
            list.drop_last(),
        );
        let full = best_cont(query, occs, sc, case_insensitive, qi, occ, consecutive, list);
        if full is Some {
            if prev is Some {
                let j = choose|j: int|
                    0 <= j < list.drop_last().len() && (#[trigger] list.drop_last()[j]).target_idx
                        > occ.target_idx && matches_from(
                        query.skip(qi + 1),
                        t,
                        case_insensitive,
                        list.drop_last()[j].target_idx + 1,
                    );
                assert(list[j] == list.drop_last()[j]);
            } else {
                assert(list[list.len() - 1] == o);
            }
        }
        if exists|j: int|
            0 <= j < list.len() && (#[trigger] list[j]).target_idx > occ.target_idx
                && matches_from(query.skip(qi + 1), t, case_insensitive, list[j].target_idx + 1) {
            let j = choose|j: int|
                0 <= j < list.len() && (#[trigger] list[j]).target_idx > occ.target_idx
                    && matches_from(
                    query.skip(qi + 1),
                    t,
                    case_insensitive,
                    list[j].target_idx + 1,
                );
            if j < list.len() - 1 {
                assert(list.drop_last()[j] == list[j]);
                assert(prev is Some);
            } else {
                assert(o == list[j]);
            }
        }
    }
}

/// The recursive search succeeds from a step exactly when the remaining
/// query can be matched, in order, strictly to the right of the step's
/// occurrence.  This is the completeness and soundness of the matcher:
/// a full alignment is found if and only if one exists.
pub proof fn lemma_best_from_complete(
    query: Seq<QueryChar>,
    t: Seq<char>,
    sc: Scoring,
    case_insensitive: bool,
    keys: Set<char>,
    qi: int,
    occ: Occurrence,
    consecutive: int,
)
    requires
        t.len() <= usize::MAX,
        1 <= qi <= query.len(),
        forall|j: int| qi <= j < query.len() ==> keys.contains(
            query_key(#[trigger] query[j], case_insensitive),
        ),
    ensures
        best_from(
            query,
            target_index(t, case_insensitive, keys),
            sc,
            case_insensitive,
            qi,
            occ,
            consecutive,
        ) is Some <==> matches_from(query.skip(qi), t, case_insensitive, occ.target_idx + 1),
    decreases query.len() - qi, 1int, 0int,
{
    let occs = target_index(t, case_insensitive, keys);
    let r = best_from(query, occs, sc, case_insensitive, qi, occ, consecutive);
    let rest = query.skip(qi);
    if qi >= query.len() {
        assert(rest.len() == 0);
        assert(r is Some);
    } else {
        let k = query_key(query[qi], case_insensitive);
        assert(rest[0] == query[qi]);
        assert(rest.drop_first() =~= query.skip(qi + 1));
        crate::parsing::lemma_occ_list_elems(t, case_insensitive, k, t.len() as int);
        assert(keys.contains(query_key(query[qi], case_insensitive)));
        if occs.contains_key(k) {
            lemma_best_cont_complete(
                query,
                t,
                sc,
                case_insensitive,
                keys,
                qi,
                occ,
                consecutive,
                occs[k],
            );
            let list = occs[k];
            assert(list == crate::parsing::occ_list(t, case_insensitive, k));
            if r is Some {
                let j = choose|j: int|
                    0 <= j < list.len() && (#[trigger] list[j]).target_idx > occ.target_idx
                        && matches_from(
                        query.skip(qi + 1),
                        t,
                        case_insensitive,
                        list[j].target_idx + 1,
                    );
                let o = list[j];
                let i0 = o.target_idx as int;
                assert(crate::parsing::key_of(t[i0], case_insensitive) == k);
                assert(occ.target_idx + 1 <= i0 < t.len());
                assert(matches_from(rest.drop_first(), t, case_insensitive, i0 + 1));
                assert(matches_from(rest, t, case_insensitive, occ.target_idx + 1));
            }
            if matches_from(rest, t, case_insensitive, occ.target_idx + 1) {
                let i0 = choose|i: int|
                    occ.target_idx + 1 <= i < t.len() && crate::parsing::key_of(
                        #[trigger] t[i],
                        case_insensitive,
                    ) == query_key(rest[0], case_insensitive) && matches_from(
                        rest.drop_first(),
                        t,
                        case_insensitive,
                        i + 1,
                    );
                assert(crate::parsing::occ_list(t, case_insensitive, k).contains(
                    crate::parsing::occ_at(t, i0),
                ));
                let j = choose|j: int|
                    0 <= j < list.len() && list[j] == crate::parsing::occ_at(t, i0);
                assert((list[j]).target_idx == i0);
                assert(matches_from(
                    query.skip(qi + 1),
                    t,
                    case_insensitive,
                    list[j].target_idx + 1,
                ));
                assert(r is Some);
            }
        } else {
            assert(r is None);
            if matches_from(rest, t, case_insensitive, occ.target_idx + 1) {
                let i0 = choose|i: int|
                    occ.target_idx + 1 <= i < t.len() && crate::parsing::key_of(
                        #[trigger] t[i],
                        case_insensitive,
                    ) == query_key(rest[0], case_insensitive) && matches_from(
                        rest.drop_first(),
                        t,
                        case_insensitive,
                        i + 1,
                    );
                assert(crate::parsing::occ_list(t, case_insensitive, k).contains(
                    crate::parsing::occ_at(t, i0),
                ));
                assert(crate::parsing::occ_list(t, case_insensitive, k).len() > 0);
                assert(occs.contains_key(k));
                assert(false);
            }
        }
    }
}

/// The fold over the starting occurrences succeeds exactly when some
/// listed start carries the whole query.
proof fn lemma_top_matches_complete(
    query: Seq<QueryChar>,
    t: Seq<char>,
    sc: Scoring,
    case_insensitive: bool,
    keys: Set<char>,
    list: Seq<Occurrence>,
)
    requires
        t.len() <= usize::MAX,
        query.len() >= 1,
        forall|j: int| 1 <= j < query.len() ==> keys.contains(
            query_key(#[trigger] query[j], case_insensitive),
        ),
    ensures
        ({
            let occs = target_index(t, case_insensitive, keys);
            top_matches(query, occs, sc, case_insensitive, list) is Some <==> exists|j: int|
                0 <= j < list.len() && matches_from(
                    query.skip(1),
                    t,
                    case_insensitive,
                    (#[trigger] list[j]).target_idx + 1,
                )
        }),
    decreases list.len(),
{
    let occs = target_index(t, case_insensitive, keys);
    if list.len() > 0 {
        lemma_top_matches_complete(query, t, sc, case_insensitive, keys, list.drop_last());
        let o = list.last();
        lemma_best_from_complete(query, t, sc, case_insensitive, keys, 1, o, 0);
        let prev = top_matches(query, occs, sc, case_insensitive, list.drop_last());
        let full = top_matches(query, occs, sc, case_insensitive, list);
        if full is Some {
            if prev is Some {
                let j = choose|j: int|
                    0 <= j < list.drop_last().len() && matches_from(
                        query.skip(1),
                        t,
                        case_insensitive,
                        (#[trigger] list.drop_last()[j]).target_idx + 1,
                    );
                assert(list[j] == list.drop_last()[j]);
            } else {
                assert(list[list.len() - 1] == o);
            }
        }
        if exists|j: int|
            0 <= j < list.len() && matches_from(
                query.skip(1),
                t,
                case_insensitive,
                (#[trigger] list[j]).target_idx + 1,
            ) {
            let j = choose|j: int|
                0 <= j < list.len() && matches_from(
                    query.skip(1),
                    t,
                    case_insensitive,
                    (#[trigger] list[j]).target_idx + 1,
                );
            if j < list.len() - 1 {
                assert(list.drop_last()[j] == list[j]);
                assert(prev is Some);
            } else {
                assert(o == list[j]);
            }
        }
    }
}

/// Completeness and soundness of the whole search: it finds a match
/// exactly when every character of the whitespace-stripped query occurs
/// in the target, in the same relative order, under the search's case
/// folding.
pub proof fn lemma_search_complete(q: Seq<char>, t: Seq<char>, sc: Scoring, case_insensitive: bool)
    requires
        t.len() <= usize::MAX,
    ensures
        search_spec(q, t, sc, case_insensitive) is Some <==> (processed_query(q).len() > 0
            && matches_from(processed_query(q), t, case_insensitive, 0)),
{
    let pq = processed_query(q);
    if pq.len() > 0 && t.len() > 0 {
        let keys = query_keys(pq, case_insensitive);
        assert forall|j: int| 0 <= j < pq.len() implies keys.contains(
            query_key(#[trigger] pq[j], case_insensitive),
        ) by {
            assert(0 <= j < pq.len() && query_key(pq[j], case_insensitive) == query_key(
                pq[j],
                case_insensitive,
            ));
        }
        let occs = target_index(t, case_insensitive, keys);
        let k0 = query_key(pq[0], case_insensitive);
        crate::parsing::lemma_occ_list_elems(t, case_insensitive, k0, t.len() as int);
        assert(pq.drop_first() =~= pq.skip(1));
        if occs.contains_key(k0) {
            lemma_top_matches_complete(pq, t, sc, case_insensitive, keys, occs[k0]);
            let list = occs[k0];
            assert(list == crate::parsing::occ_list(t, case_insensitive, k0));
            let r = search_spec(q, t, sc, case_insensitive);
            if r is Some {
                let j = choose|j: int|
                    0 <= j < list.len() && matches_from(
                        pq.skip(1),
                        t,
                        case_insensitive,
                        (#[trigger] list[j]).target_idx + 1,
                    );
                let i0 = list[j].target_idx as int;
                assert(crate::parsing::key_of(t[i0], case_insensitive) == k0);
                assert(0 <= i0 < t.len());
                assert(matches_from(pq, t, case_insensitive, 0));
            }
            if matches_from(pq, t, case_insensitive, 0) {
                let i0 = choose|i: int|
                    0 <= i < t.len() && crate::parsing::key_of(#[trigger] t[i], case_insensitive)
                        == query_key(pq[0], case_insensitive) && matches_from(
                        pq.drop_first(),
                        t,
                        case_insensitive,
                        i + 1,
                    );
                assert(crate::parsing::occ_list(t, case_insensitive, k0).contains(
                    crate::parsing::occ_at(t, i0),
                ));
                let j = choose|j: int|
                    0 <= j < list.len() && list[j] == crate::parsing::occ_at(t, i0);
                assert((list[j]).target_idx == i0);
                assert(matches_from(pq.skip(1), t, case_insensitive, list[j].target_idx + 1));
                assert(r is Some);
            }
        } else {
            if matches_from(pq, t, case_insensitive, 0) {
                let i0 = choose|i: int|
                    0 <= i < t.len() && crate::parsing::key_of(#[trigger] t[i], case_insensitive)
                        == query_key(pq[0], case_insensitive) && matches_from(
                        pq.drop_first(),
                        t,
                        case_insensitive,
                        i + 1,
                    );
                assert(crate::parsing::occ_list(t, case_insensitive, k0).contains(
                    crate::parsing::occ_at(t, i0),
                ));
                assert(crate::parsing::occ_list(t, case_insensitive, k0).len() > 0);
                assert(keys.contains(k0));
                assert(false);
            }
        }
    }
}

/// Shape of everything the top-level fold can return: one strictly
/// increasing in-bounds target position per query character.
proof fn lemma_top_matches_props(
    query: Seq<QueryChar>,
    occs: Map<char, Seq<Occurrence>>,
    sc: Scoring,
    case_insensitive: bool,
    list: Seq<Occurrence>,
    tbound: int,
)
    requires
        weights_bounded(sc),
        occs_sorted(occs),
        occs_bounded(occs, tbound),
        tbound <= MAX_TARGET_LEN,
        1 <= query.len() <= MAX_QUERY_LEN,
        forall|j: int| 0 <= j < list.len() ==> 0 <= (#[trigger] list[j]).target_idx < tbound,
    ensures
        top_matches(query, occs, sc, case_insensitive, list) matches Some(m) ==> {
            &&& m.matched.len() == query.len()
            &&& strictly_increasing(m.matched)
            &&& forall|i: int| 0 <= i < m.matched.len() ==> 0 <= #[trigger] m.matched[i] < tbound
        },
    decreases list.len(),
{
    if list.len() > 0 {
        lemma_top_matches_props(query, occs, sc, case_insensitive, list.drop_last(), tbound);
        let o = list.last();
        assert(list[list.len() - 1] == o);
        lemma_best_from_props(query, occs, sc, case_insensitive, 1, o, 0, tbound);
        let cand = best_from(query, occs, sc, case_insensitive, 1, o, 0);
        if cand is Some {
            let m = cand->0;
            assert forall|i: int| 0 <= i < m.matched.len() implies 0 <= #[trigger] m.matched[i]
                < tbound by {
                if i > 0 {
                    assert(m.matched[0] < m.matched[i]);
                }
                if i < m.matched.len() - 1 {
                    assert(m.matched[i] < m.matched[m.matched.len() - 1]);
                }
            }
        }
    }
}

/// The continuation fold picks the maximum: no viable continuation it
/// explored scores higher than the one it returns, and when it returns
/// nothing, no viable continuation existed.
pub proof fn lemma_best_cont_maximal(
    query: Seq<QueryChar>,
    occs: Map<char, Seq<Occurrence>>,
    sc: Scoring,
    case_insensitive: bool,
    qi: int,
    occ: Occurrence,
    consecutive: int,
    list: Seq<Occurrence>,
)
    ensures
        ({
            let r = best_cont(query, occs, sc, case_insensitive, qi, occ, consecutive, list);
            forall|j: int|
                0 <= j < list.len() && qi < query.len() && (#[trigger] list[j]).target_idx
                    > occ.target_idx ==> {
                    let c = best_from(
                        query,
                        occs,
                        sc,
                        case_insensitive,
                        qi + 1,
                        list[j],
                        if list[j].target_idx == occ.target_idx + 1 {
                            consecutive + 1
                        } else {
                            0
                        },
                    );
                    c matches Some(cm) ==> r matches Some(b) && cm.score <= b.score
                }
        }),
    decreases list.len(),
{
    if list.len() > 0 {
        lemma_best_cont_maximal(
            query,
            occs,
            sc,
            case_insensitive,
            qi,
            occ,
            consecutive,
            list.drop_last(),
        );
        assert(forall|j: int|
            0 <= j < list.len() - 1 ==> #[trigger] list[j] == list.drop_last()[j]);
        assert(list[list.len() - 1] == list.last());
    }
}

/// The fold over the starting occurrences picks the maximum: no start
/// it explored scores higher than the match it returns.
pub proof fn lemma_top_matches_maximal(
    query: Seq<QueryChar>,
    occs: Map<char, Seq<Occurrence>>,
    sc: Scoring,
    case_insensitive: bool,
    list: Seq<Occurrence>,
)
    ensures
        forall|j: int|
            0 <= j < list.len() ==> {
                let c = best_from(query, occs, sc, case_insensitive, 1, #[trigger] list[j], 0);
                c matches Some(cm) ==> top_matches(query, occs, sc, case_insensitive, list)
                    matches Some(m) && cm.score <= m.score
            },
    decreases list.len(),
{
    if list.len() > 0 {
        lemma_top_matches_maximal(query, occs, sc, case_insensitive, list.drop_last());
        assert(forall|j: int|
            0 <= j < list.len() - 1 ==> #[trigger] list[j] == list.drop_last()[j]);
        assert(list[list.len() - 1] == list.last());
    }
}

/// `l2` lists the same occurrences as `l1`, each moved `d` positions to
/// the right, flags and characters unchanged.
pub open spec fn shifted_lists(l1: Seq<Occurrence>, l2: Seq<Occurrence>, d: int) -> bool {
    &&& l1.len() == l2.len()
    &&& forall|i: int|
        0 <= i < l1.len() ==> (#[trigger] l2[i]).target_idx == (#[trigger] l1[i]).target_idx + d
            && l2[i].is_start == l1[i].is_start && l2[i].char == l1[i].char
}

/// `m2` is `m1` with every occurrence moved `d` positions to the right.
pub open spec fn shifted_occs(
    m1: Map<char, Seq<Occurrence>>,
    m2: Map<char, Seq<Occurrence>>,
    d: int,
) -> bool {
    &&& forall|k: char| m1.contains_key(k) <==> #[trigger] m2.contains_key(k)
    &&& forall|k: char| #[trigger]
        m1.contains_key(k) ==> shifted_lists(m1[k], m2[k], d)
}

/// `x2` is `x1` with every matched position moved `d` to the right:
/// same score, same run counter.
pub open spec fn shifted_match(x1: MatchView, x2: MatchView, d: int) -> bool {
    &&& x2.score == x1.score
    &&& x2.consecutive == x1.consecutive
    &&& x2.matched == x1.matched.map_values(|p: int| p + d)
}

/// Both options are `None`, or both hold matches related by the shift.
pub open spec fn shifted_opt(r1: Option<MatchView>, r2: Option<MatchView>, d: int) -> bool {
    match (r1, r2) {
        (None, None) => true,
        (Some(x1), Some(x2)) => shifted_match(x1, x2, d),
        _ => false,
    }
}

/// Moving every occurrence `d` positions to the right moves the search
/// result `d` positions to the right and changes no score: scores
/// depend on word-start flags, case agreement and the gaps between
/// matched positions alone, never on absolute positions.
proof fn lemma_best_from_shift(
    query: Seq<QueryChar>,
    m1: Map<char, Seq<Occurrence>>,
    m2: Map<char, Seq<Occurrence>>,
    sc: Scoring,
    case_insensitive: bool,
    qi: int,
    o1: Occurrence,
    o2: Occurrence,
    consecutive: int,
    d: int,
)
    requires
        shifted_occs(m1, m2, d),
        o2.target_idx == o1.target_idx + d,
        o2.is_start == o1.is_start,
        o2.char == o1.char,
        1 <= qi <= query.len(),
    ensures
        shifted_opt(
            best_from(query, m1, sc, case_insensitive, qi, o1, consecutive),
            best_from(query, m2, sc, case_insensitive, qi, o2, consecutive),
            d,
        ),
    decreases query.len() - qi, 1int, 0int,
{
    let r1 = best_from(query, m1, sc, case_insensitive, qi, o1, consecutive);
    let r2 = best_from(query, m2, sc, case_insensitive, qi, o2, consecutive);
    let this1 = single_match(sc, query[qi - 1], o1, case_insensitive, consecutive);
    let this2 = single_match(sc, query[qi - 1], o2, case_insensitive, consecutive);
    assert(this2.matched =~= this1.matched.map_values(|p: int| p + d));
    if qi < query.len() {
        let k = query_key(query[qi], case_insensitive);
        if m1.contains_key(k) {
            lemma_best_cont_shift(
                query,
                m1,
                m2,
                sc,
                case_insensitive,
                qi,
                o1,
                o2,
                consecutive,
                m1[k],
                m2[k],
                d,
            );
            let c1 = best_cont(query, m1, sc, case_insensitive, qi, o1, consecutive, m1[k]);
            let c2 = best_cont(query, m2, sc, case_insensitive, qi, o2, consecutive, m2[k]);
            if c1 is Some {
                let b1 = c1->0;
                let b2 = c2->0;
                assert(b2.matched.len() == b1.matched.len());
                if b1.matched.len() > 0 {
                    assert(b2.matched[0] == b1.matched[0] + d);
                    assert(b2.matched[0] - o2.target_idx == b1.matched[0] - o1.target_idx);
                }
                assert(merged(this2, b2, sc).matched =~= merged(this1, b1, sc).matched.map_values(
                    |p: int| p + d,
                ));
            }
        }
    }
}

/// The continuation fold, under the same shift.
proof fn lemma_best_cont_shift(
    query: Seq<QueryChar>,
    m1: Map<char, Seq<Occurrence>>,
    m2: Map<char, Seq<Occurrence>>,
    sc: Scoring,
    case_insensitive: bool,
    qi: int,
    o1: Occurrence,
    o2: Occurrence,
    consecutive: int,
    l1: Seq<Occurrence>,
    l2: Seq<Occurrence>,
    d: int,
)
    requires
        shifted_occs(m1, m2, d),
        o2.target_idx == o1.target_idx + d,
        o2.is_start == o1.is_start,
        o2.char == o1.char,
        1 <= qi < query.len(),
        shifted_lists(l1, l2, d),
    ensures
        shifted_opt(
            best_cont(query, m1, sc, case_insensitive, qi, o1, consecutive, l1),
            best_cont(query, m2, sc, case_insensitive, qi, o2, consecutive, l2),
            d,
        ),
    decreases query.len() - qi, 0int, l1.len(),
{
    if l1.len() > 0 {
        assert(shifted_lists(l1.drop_last(), l2.drop_last(), d)) by {
            assert(forall|i: int|
                0 <= i < l1.len() - 1 ==> #[trigger] l1.drop_last()[i] == l1[i]
                    && #[trigger] l2.drop_last()[i] == l2[i]);
        }
        lemma_best_cont_shift(
            query,
            m1,
            m2,
            sc,
            case_insensitive,
            qi,
            o1,
            o2,
            consecutive,
            l1.drop_last(),
            l2.drop_last(),
            d,
        );
        let e1 = l1.last();
        let e2 = l2.last();
        assert(e1 == l1[l1.len() - 1] && e2 == l2[l2.len() - 1]);
        assert(e2.target_idx == e1.target_idx + d);
        if e1.target_idx > o1.target_idx {
            lemma_best_from_shift(
                query,
                m1,
                m2,
                sc,
                case_insensitive,
                qi + 1,
                e1,
                e2,
                if e1.target_idx == o1.target_idx + 1 {
                    consecutive + 1
                } else {
                    0
                },
                d,
            );
        }
    }
}

/// The fold over shifted starting occurrences: same outcome, same
/// score.
proof fn lemma_top_matches_shift(
    query: Seq<QueryChar>,
    m1: Map<char, Seq<Occurrence>>,
    m2: Map<char, Seq<Occurrence>>,
    sc: Scoring,
    case_insensitive: bool,
    l1: Seq<Occurrence>,
    l2: Seq<Occurrence>,
    d: int,
)
    requires
        shifted_occs(m1, m2, d),
        shifted_lists(l1, l2, d),
        query.len() >= 1,
    ensures
        shifted_opt(
            top_matches(query, m1, sc, case_insensitive, l1),
            top_matches(query, m2, sc, case_insensitive, l2),
            d,
        ),
    decreases l1.len(),
{
    if l1.len() > 0 {
        assert(shifted_lists(l1.drop_last(), l2.drop_last(), d)) by {
            assert(forall|i: int|
                0 <= i < l1.len() - 1 ==> #[trigger] l1.drop_last()[i] == l1[i]
                    && #[trigger] l2.drop_last()[i] == l2[i]);
        }
        lemma_top_matches_shift(
            query,
            m1,
            m2,
            sc,
            case_insensitive,
            l1.drop_last(),
            l2.drop_last(),
            d,
        );
        let e1 = l1.last();
        let e2 = l2.last();
        assert(e1 == l1[l1.len() - 1] && e2 == l2[l2.len() - 1]);
        lemma_best_from_shift(query, m1, m2, sc, case_insensitive, 1, e1, e2, 0, d);
    }
}

/// The whole search, under a shift of every occurrence to the right:
/// same outcome, same score, matched positions shifted along.  Scores
/// depend on word-start flags, case agreement and the gaps between
/// matched positions alone; in particular the distance from the start
/// of the target to the very first matched character is never
/// penalized.
pub proof fn lemma_search_shift_invariant(
    query: Seq<QueryChar>,
    m1: Map<char, Seq<Occurrence>>,
    m2: Map<char, Seq<Occurrence>>,
    sc: Scoring,
    case_insensitive: bool,
    d: int,
)
    requires
        shifted_occs(m1, m2, d),
    ensures
        shifted_opt(
            searcher_spec(query, m1, sc, case_insensitive),
            searcher_spec(query, m2, sc, case_insensitive),
            d,
        ),
{
    if query.len() > 0 {
        let k0 = query_key(query[0], case_insensitive);
        if m1.contains_key(k0) {
            lemma_top_matches_shift(
                query,
                m1,
                m2,
                sc,
                case_insensitive,
                m1[k0],
                m2[k0],
                d,
            );
        }
    }
}

/// The search is a function of its inputs: two results obtained for the
/// same query, target, weights and case mode are the same.  Every
/// search's result equals `search_spec` of its inputs, so repeated
/// calls yield identical scores and identical matched positions.
pub proof fn lemma_search_deterministic(
    q: Seq<char>,
    t: Seq<char>,
    sc: Scoring,
    case_insensitive: bool,
    r1: Option<MatchView>,
    r2: Option<MatchView>,
)
    requires
        r1 == search_spec(q, t, sc, case_insensitive),
        r2 == search_spec(q, t, sc, case_insensitive),
    ensures
        r1 == r2,
{
}

/// An in-order case-exact alignment is also an in-order alignment under
/// case folding.
proof fn lemma_matches_from_case(pq: Seq<QueryChar>, t: Seq<char>, from: int)
    requires
        forall|i: int|
            0 <= i < pq.len() ==> (#[trigger] pq[i]).lower == crate::chars::lower_char_of(
                pq[i].original,
            ),
        matches_from(pq, t, false, from),
    ensures
        matches_from(pq, t, true, from),
    decreases pq.len(),
{
    if pq.len() > 0 {
        let i0 = choose|i: int|
            from <= i < t.len() && crate::parsing::key_of(#[trigger] t[i], false) == query_key(
                pq[0],
                false,
            ) && matches_from(pq.drop_first(), t, false, i + 1);
        assert(t[i0] == pq[0].original);
        assert(crate::parsing::key_of(t[i0], true) == query_key(pq[0], true));
        assert(forall|i: int|
            0 <= i < pq.drop_first().len() ==> #[trigger] pq.drop_first()[i] == pq[i + 1]);
        lemma_matches_from_case(pq.drop_first(), t, i0 + 1);
    }
}

/// Case-insensitivity widens acceptance: whatever a case-sensitive
/// search matches, a case-insensitive search of the same query and
/// target matches too, under any weights.
pub proof fn lemma_case_insensitive_widens(
    q: Seq<char>,
    t: Seq<char>,
    sc1: Scoring,
    sc2: Scoring,
)
    requires
        t.len() <= usize::MAX,
        search_spec(q, t, sc1, false) is Some,
    ensures
        search_spec(q, t, sc2, true) is Some,
{
    lemma_search_complete(q, t, sc1, false);
    lemma_search_complete(q, t, sc2, true);
    crate::parsing::lemma_processed_query_chars(q);
    lemma_matches_from_case(processed_query(q), t, 0);
}

/// The local score of a matched character depends on its word-start
/// flag, its character and the run length alone — never on its absolute
/// target position.  Gaps are only ever penalized between two matched
/// characters, so the distance to the very first matched character is
/// never penalized.
pub proof fn lemma_local_score_position_free(
    sc: Scoring,
    qc: QueryChar,
    o1: Occurrence,
    o2: Occurrence,
    case_insensitive: bool,
    consecutive: int,
)
    requires
        o1.is_start == o2.is_start,
        o1.char == o2.char,
    ensures
        local_score(sc, qc, o1, case_insensitive, consecutive) == local_score(
            sc,
            qc,
            o2,
            case_insensitive,
            consecutive,
        ),
{
}

/// Describes a fuzzy search.  Alternative to
/// [`best_match`](crate::best_match) which allows for more
/// configuration.
pub struct FuzzySearch<'a> {
    query: &'a str,
    target: &'a str,
    scoring: Option<&'a Scoring>,
    case_insensitive: bool,
}

impl<'a> FuzzySearch<'a> {
    /// The raw query.
    pub closed spec fn query_view(self) -> Seq<char> {
        self.query@
    }

    /// The target string.
    pub closed spec fn target_view(self) -> Seq<char> {
        self.target@
    }

    /// The weights the search will use: the custom ones if given, the
    /// default ones otherwise.
    pub closed spec fn effective_scoring(self) -> Scoring {
        match self.scoring {
            Some(s) => *s,
            None => default_scoring(),
        }
    }

    /// Whether the search ignores case.
    pub closed spec fn is_case_insensitive(self) -> bool {
        self.case_insensitive
    }

    /// Creates a new search to match `query` in `target`.
    ///
    /// Note that whitespace in query will be _ignored_.
    pub fn new(query: &'a str, target: &'a str) -> (r: Self)
        ensures
            r.query_view() == query@,
            r.target_view() == target@,
            r.effective_scoring() == default_scoring(),
            r.is_case_insensitive(),
    {
        FuzzySearch { query, target, scoring: None, case_insensitive: true }
    }

    /// Use custom scoring values.
    ///
    /// If not specified will use `Scoring::default()`.
    pub fn score_with(self, scoring: &'a Scoring) -> (r: Self)
        ensures
            r.query_view() == self.query_view(),
            r.target_view() == self.target_view(),
            r.effective_scoring() == *scoring,
            r.is_case_insensitive() == self.is_case_insensitive(),
    {
        FuzzySearch { scoring: Some(scoring), ..self }
    }

    /// Only match query chars in the target string if case matches.
    ///
    /// [`Scoring::bonus_match_case`] will not be applied if this is set
    /// (because a char match will always also be a case match).
    pub fn case_sensitive(self) -> (r: Self)
        ensures
            r.query_view() == self.query_view(),
            r.target_view() == self.target_view(),
            r.effective_scoring() == self.effective_scoring(),
            !r.is_case_insensitive(),
    {
        FuzzySearch { case_insensitive: false, ..self }
    }

    /// Ignore case when matching query chars in the target string.
    ///
    /// If not only the char but also the case matches,
    /// [`Scoring::bonus_match_case`] will be added to the score.  If that
    /// behavior is not wanted the bonus can be set to 0 with custom
    /// scoring.
    pub fn case_insensitive(self) -> (r: Self)
        ensures
            r.query_view() == self.query_view(),
            r.target_view() == self.target_view(),
            r.effective_scoring() == self.effective_scoring(),
            r.is_case_insensitive(),
    {
        FuzzySearch { case_insensitive: true, ..self }
    }

    /// Finds the best match of the query in the target string.
    ///
    /// Always tries to match the _full_ pattern.  A partial match is
    /// considered invalid and will return [`None`].  Will also return
    /// [`None`] in case the query or target string are empty.
    ///
    /// Callers keep the query within [`MAX_QUERY_LEN`] and the target
    /// within [`MAX_TARGET_LEN`] characters, and custom weights within
    /// [`MAX_WEIGHT`](crate::scoring::MAX_WEIGHT): these limits keep
    /// every score computation inside `isize`.
    pub fn best_match(self) -> (r: Option<Match>)
        requires
            self.query_view().len() <= MAX_QUERY_LEN,
            self.target_view().len() <= MAX_TARGET_LEN,
            weights_bounded(self.effective_scoring()),
        ensures
            opt_match_view(r) == search_spec(
                self.query_view(),
                self.target_view(),
                self.effective_scoring(),
                self.is_case_insensitive(),
            ),
            r is Some <==> (processed_query(self.query_view()).len() > 0 && matches_from(
                processed_query(self.query_view()),
                self.target_view(),
                self.is_case_insensitive(),
                0,
            )),
            r matches Some(m) ==> {
                &&& m@.wf()
                &&& m@.matched.len() == processed_query(self.query_view()).len()
                &&& forall|i: int|
                    0 <= i < m@.matched.len() ==> 0 <= #[trigger] m@.matched[i]
                        < self.target_view().len()
            },
    {
        let pq = process_query(self.query);
        proof {
            crate::parsing::lemma_processed_query_len(self.query@);
            lemma_search_complete(
                self.query@,
                self.target@,
                self.effective_scoring(),
                self.case_insensitive,
            );
        }
        if pq.len() == 0 || self.target.is_empty() {
            return None;
        }
        let occurrences = build_occurrences(&pq, self.target, self.case_insensitive);
        proof {
            lemma_models_is_target_index(
                occurrences@,
                self.target@,
                self.case_insensitive,
                query_keys(pq@, self.case_insensitive),
                MAX_TARGET_LEN as int,
            );
        }
        let scoring = match self.scoring {
            Some(s) => *s,
            None => Scoring::emphasize_word_starts(),
        };
        let ghost pqv = pq@;
        let mut searcher = FuzzySearcher::new(pq, scoring, self.case_insensitive);
        let result = searcher.best_match(&occurrences);
        proof {
            if result is Some {
                lemma_models_is_target_index(
                    occurrences@,
                    self.target@,
                    self.case_insensitive,
                    query_keys(pqv, self.case_insensitive),
                    self.target@.len() as int,
                );
                let k0 = query_key(pqv[0], self.case_insensitive);
                lemma_top_matches_props(
                    pqv,
                    occurrences@,
                    scoring,
                    self.case_insensitive,
                    occurrences@[k0],
                    self.target@.len() as int,
                );
            }
        }
        result
    }
}

/// An occurrence index that models target `t` is exactly the canonical
/// one, and it is sorted and bounded by the target length.
proof fn lemma_models_is_target_index(
    m: Map<char, Seq<Occurrence>>,
    t: Seq<char>,
    case_insensitive: bool,
    keys: Set<char>,
    bound: int,
)
    requires
        occs_models(m, t, case_insensitive, keys),
        t.len() <= bound <= usize::MAX,
    ensures
        m == target_index(t, case_insensitive, keys),
        occs_sorted(m),
        occs_bounded(m, bound),
        occs_unique(m),
{
    assert(m =~= target_index(t, case_insensitive, keys));
    assert forall|k1: char, k2: char, i1: int, i2: int|
        #![trigger m[k1][i1], m[k2][i2]]
        m.contains_key(k1) && m.contains_key(k2) && 0 <= i1 < m[k1].len() && 0 <= i2
            < m[k2].len() && m[k1][i1].target_idx == m[k2][i2].target_idx implies m[k1][i1]
        == m[k2][i2] by {
        crate::parsing::lemma_occ_list_elems(t, case_insensitive, k1, t.len() as int);
        crate::parsing::lemma_occ_list_elems(t, case_insensitive, k2, t.len() as int);
    }
    assert forall|k: char, i: int, j: int|
        #![trigger m[k][i], m[k][j]]
        m.contains_key(k) && 0 <= i < j < m[k].len() implies m[k][i].target_idx
        < m[k][j].target_idx by {
        crate::parsing::lemma_occ_list_elems(t, case_insensitive, k, t.len() as int);
    }
    assert forall|k: char, i: int|
        #![trigger m[k][i]]
        m.contains_key(k) && 0 <= i < m[k].len() implies (m[k][i]).target_idx < bound by {
        crate::parsing::lemma_occ_list_elems(t, case_insensitive, k, t.len() as int);
    }
}

/// The state of one search: the processed query, the weights, the case
/// mode and the memo table.  The table caches, per (query position,
/// target position, run length), the best match of the remaining query,
/// because identical steps are reached along different paths with
/// identical remaining-subtree values.
struct FuzzySearcher {
    query: Vec<QueryChar>,
    scoring: Scoring,
    match_cache: HashMap<u64, Option<Match>>,
    case_insensitive: bool,
}

/// Copies an optional match.
fn clone_opt_match(o: &Option<Match>) -> (r: Option<Match>)
    ensures
        opt_match_view(r) == opt_match_view(*o),
{
    match o {
        None => None,
        Some(m) => Some(m.clone()),
    }
}

impl FuzzySearcher {
    /// A searcher fit to run: query within bounds, weights within
    /// bounds.
    spec fn wf(self) -> bool {
        &&& self.query@.len() <= MAX_QUERY_LEN
        &&& weights_bounded(self.scoring)
    }

    /// Sets up one search, with the memo table pre-sized for the query.
    fn new(query: Vec<QueryChar>, scoring: Scoring, case_insensitive: bool) -> (r: Self)
        requires
            query@.len() <= MAX_QUERY_LEN,
        ensures
            r.query@ == query@,
            r.scoring == scoring,
            r.case_insensitive == case_insensitive,
            r.match_cache@ == Map::<u64, Option<Match>>::empty(),
    {
        proof {
            assert(query@.len() * query@.len() <= 64 * 64) by (nonlinear_arith)
                requires
                    0 <= query@.len() <= 64,
            ;
        }
        FuzzySearcher {
            match_cache: HashMap::with_capacity(query.len() * query.len()),
            query,
            scoring,
            case_insensitive,
        }
    }

    /// The character a query position is looked up under.
    fn queried_char(&self, qc: &QueryChar) -> (r: char)
        ensures
            r == query_key(*qc, self.case_insensitive),
    {
        if self.case_insensitive {
            qc.lower
        } else {
            qc.original
        }
    }

    /// The case bonus for matching query position `query_idx` at
    /// `occurrence`: only a case-insensitive search pays it, and only
    /// when the original cases agree.
    fn case_bonus(&self, query_idx: usize, occurrence: &Occurrence) -> (r: isize)
        requires
            query_idx < self.query@.len(),
            weights_bounded(self.scoring),
        ensures
            r == if self.case_insensitive && self.query@[query_idx as int].original
                == occurrence.char {
                self.scoring.bonus_match_case as int
            } else {
                0
            },
    {
        if self.case_insensitive {
            if self.query[query_idx].original == occurrence.char {
                self.scoring.bonus_match_case
            } else {
                0
            }
        } else {
            0
        }
    }

    /// Tries every occurrence of the first query character as a start
    /// and keeps the best full alignment.
    fn best_match(&mut self, occurrences: &Occurrences) -> (r: Option<Match>)
        requires
            old(self).wf(),
            occurrences.wf(),
            occs_sorted(occurrences@),
            occs_bounded(occurrences@, MAX_TARGET_LEN as int),
            occs_unique(occurrences@),
            cache_ok(
                old(self).match_cache@,
                old(self).query@,
                occurrences@,
                old(self).scoring,
                old(self).case_insensitive,
            ),
        ensures
            opt_match_view(r) == searcher_spec(
                old(self).query@,
                occurrences@,
                old(self).scoring,
                old(self).case_insensitive,
            ),
    {
        let ghost q0 = self.query@;
        let ghost sc0 = self.scoring;
        let ghost ci0 = self.case_insensitive;
        if self.query.len() == 0 {
            return None;
        }
        let key = self.queried_char(&self.query[0]);
        let list = match occurrences.get(key) {
            None => {
                return None;
            },
            Some(list) => list,
        };
        let mut best: Option<Match> = None;
        let mut i: usize = 0;
        while i < list.len()
            invariant
                self.wf(),
                self.query@ == q0,
                self.scoring == sc0,
                self.case_insensitive == ci0,
                occurrences.wf(),
                occs_sorted(occurrences@),
                occs_bounded(occurrences@, MAX_TARGET_LEN as int),
                occs_unique(occurrences@),
                cache_ok(self.match_cache@, q0, occurrences@, sc0, ci0),
                0 <= i <= list@.len(),
                list@ == occurrences@[query_key(q0[0], ci0)],
                occurrences@.contains_key(query_key(q0[0], ci0)),
                q0.len() >= 1,
                opt_match_view(best) == top_matches(
                    q0,
                    occurrences@,
                    sc0,
                    ci0,
                    list@.take(i as int),
                ),
            decreases list@.len() - i,
        {
            proof {
                assert(list@.take(i + 1).drop_last() =~= list@.take(i as int));
                assert(list@.take(i + 1).last() == list@[i as int]);
                let k = query_key(q0[0], ci0);
                assert(occurrences@[k][i as int].target_idx < MAX_TARGET_LEN);
                assert(occurrences@[k].contains(occurrences@[k][i as int]));
                assert(occs_has(occurrences@, occurrences@[k][i as int]));
            }
            let o = &list[i];
            let m = self.match_(1, o, 0, occurrences);
            best = match (best, m) {
                (Some(x), Some(y)) => if y.score >= x.score {
                    Some(y)
                } else {
                    Some(x)
                },
                (Some(x), None) => Some(x),
                (None, y) => y,
            };
            i = i + 1;
        }
        proof {
            assert(list@.take(list@.len() as int) =~= list@);
        }
        best
    }

    /// One step of the recursive search: query position `query_idx - 1`
    /// was matched at `occurrence`, ending an unbroken run of
    /// `consecutive`; returns the best match of the remaining query, or
    /// `None` when it cannot be fully aligned.
    fn match_(
        &mut self,
        query_idx: usize,
        occurrence: &Occurrence,
        consecutive: usize,
        occurrences: &Occurrences,
    ) -> (r: Option<Match>)
        requires
            old(self).wf(),
            occurrences.wf(),
            occs_sorted(occurrences@),
            occs_bounded(occurrences@, MAX_TARGET_LEN as int),
            occs_unique(occurrences@),
            occs_has(occurrences@, *occurrence),
            cache_ok(
                old(self).match_cache@,
                old(self).query@,
                occurrences@,
                old(self).scoring,
                old(self).case_insensitive,
            ),
            1 <= query_idx <= old(self).query@.len(),
            consecutive <= query_idx - 1,
            occurrence.target_idx < MAX_TARGET_LEN,
        ensures
            final(self).query@ == old(self).query@,
            final(self).scoring == old(self).scoring,
            final(self).case_insensitive == old(self).case_insensitive,
            cache_ok(
                final(self).match_cache@,
                old(self).query@,
                occurrences@,
                old(self).scoring,
                old(self).case_insensitive,
            ),
            opt_match_view(r) == best_from(
                old(self).query@,
                occurrences@,
                old(self).scoring,
                old(self).case_insensitive,
                query_idx as int,
                *occurrence,
                consecutive as int,
            ),
        decreases old(self).query@.len() - query_idx,
    {
        let ghost n = self.query@.len() as int;
        let ghost q0 = self.query@;
        let ghost sc0 = self.scoring;
        let ghost ci0 = self.case_insensitive;
        let ghost this_key = pack_key(
            query_idx as int,
            occurrence.target_idx as int,
            consecutive as int,
        );
        let key_u: u64 = (occurrence.target_idx as u64) * 0x8000 + (query_idx as u64) * 0x80 + (
        consecutive as u64);
        proof {
            assert(0 <= this_key < 0x8_0000_0000 && key_u == this_key as u64) by (nonlinear_arith)
                requires
                    this_key == occurrence.target_idx as int * 0x8000 + query_idx as int * 0x80
                        + consecutive as int,
                    key_u == (occurrence.target_idx as u64) * 0x8000 + (query_idx as u64) * 0x80
                        + (consecutive as u64),
                    occurrence.target_idx as u64 == occurrence.target_idx as int,
                    query_idx as u64 == query_idx as int,
                    consecutive as u64 == consecutive as int,
                    0 <= occurrence.target_idx < 0x10_0000,
                    1 <= query_idx <= 64,
                    0 <= consecutive < 64,
            ;
        }
        // Already scored sub-tree
        if let Some(cached) = self.match_cache.get(&key_u) {
            proof {
                assert(self.match_cache@.contains_key(this_key as u64));
            }
            return clone_opt_match(cached);
        }
        proof {
            assert(-(MAX_WEIGHT as int) * (MAX_QUERY_LEN as int) <= (consecutive as int)
                * self.scoring.bonus_consecutive <= (MAX_WEIGHT as int) * (MAX_QUERY_LEN as int))
                by (nonlinear_arith)
                requires
                    0 <= consecutive <= MAX_QUERY_LEN,
                    -MAX_WEIGHT <= self.scoring.bonus_consecutive <= MAX_WEIGHT,
            ;
        }
        let mut score: isize = (consecutive as isize) * self.scoring.bonus_consecutive;
        if occurrence.is_start {
            score = score + self.scoring.bonus_word_start;
        }
        let bonus = self.case_bonus(query_idx - 1, occurrence);
        score = score + bonus;
        let mut this_match = Match {
            score,
            consecutive,
            matched: vec![occurrence.target_idx],
        };
        let ghost this = single_match(
            self.scoring,
            self.query@[query_idx - 1],
            *occurrence,
            self.case_insensitive,
            consecutive as int,
        );
        proof {
            assert(this_match@.matched =~= seq![occurrence.target_idx as int]);
            assert(this_match@ == this);
        }

        if query_idx == self.query.len() {
            let result = Some(this_match);
            let copy = clone_opt_match(&result);
            proof {
                lemma_cache_insert(
                    self.match_cache@,
                    q0,
                    occurrences@,
                    sc0,
                    ci0,
                    query_idx as int,
                    *occurrence,
                    consecutive as int,
                    copy,
                );
            }
            self.match_cache.insert(key_u, copy);
            return result;
        }

        let key = self.queried_char(&self.query[query_idx]);
        let list = match occurrences.get(key) {
            None => {
                proof {
                    lemma_cache_insert(
                        self.match_cache@,
                        q0,
                        occurrences@,
                        sc0,
                        ci0,
                        query_idx as int,
                        *occurrence,
                        consecutive as int,
                        None,
                    );
                }
                self.match_cache.insert(key_u, None);
                return None;
            },
            Some(list) => list,
        };

        let mut best: Option<Match> = None;
        let mut i: usize = 0;
        while i < list.len()
            invariant
                self.wf(),
                self.query@ == q0,
                q0 == old(self).query@,
                self.scoring == sc0,
                self.case_insensitive == ci0,
                occurrences.wf(),
                occs_sorted(occurrences@),
                occs_bounded(occurrences@, MAX_TARGET_LEN as int),
                occs_unique(occurrences@),
                cache_ok(self.match_cache@, q0, occurrences@, sc0, ci0),
                1 <= query_idx < q0.len(),
                consecutive <= query_idx - 1,
                occurrence.target_idx < MAX_TARGET_LEN,
                occs_has(occurrences@, *occurrence),
                0 <= i <= list@.len(),
                list@ == occurrences@[query_key(q0[query_idx as int], ci0)],
                occurrences@.contains_key(query_key(q0[query_idx as int], ci0)),
                opt_match_view(best) == best_cont(
                    q0,
                    occurrences@,
                    sc0,
                    ci0,
                    query_idx as int,
                    *occurrence,
                    consecutive as int,
                    list@.take(i as int),
                ),
            decreases list@.len() - i,
        {
            proof {
                assert(list@.take(i + 1).drop_last() =~= list@.take(i as int));
                assert(list@.take(i + 1).last() == list@[i as int]);
                let k = query_key(q0[query_idx as int], ci0);
                assert(occurrences@[k][i as int].target_idx < MAX_TARGET_LEN);
                assert(occurrences@[k].contains(occurrences@[k][i as int]));
                assert(occs_has(occurrences@, occurrences@[k][i as int]));
            }
            let o = &list[i];
            if o.target_idx > occurrence.target_idx {
                assert(self.query@.len() == old(self).query@.len());
                let new_consecutive = if o.target_idx - occurrence.target_idx == 1 {
                    consecutive + 1
                } else {
                    0
                };
                let m = self.match_(query_idx + 1, o, new_consecutive, occurrences);
                best = match (best, m) {
                    (Some(x), Some(y)) => if y.score >= x.score {
                        Some(y)
                    } else {
                        Some(x)
                    },
                    (Some(x), None) => Some(x),
                    (None, y) => y,
                };
            }
            i = i + 1;
        }
        proof {
            assert(list@.take(list@.len() as int) =~= list@);
        }

        let result = match best {
            None => None,
            Some(b) => {
                proof {
                    assert forall|j: int| 0 <= j < list@.len() implies (
                    #[trigger] list@[j]).target_idx < MAX_TARGET_LEN by {
                        let k = query_key(q0[query_idx as int], ci0);
                        assert(occurrences@[k][j].target_idx < MAX_TARGET_LEN);
                    }
                    lemma_best_cont_props(
                        q0,
                        occurrences@,
                        sc0,
                        ci0,
                        query_idx as int,
                        *occurrence,
                        consecutive as int,
                        list@,
                        MAX_TARGET_LEN as int,
                    );
                    let bv = b@;
                    assert(-(MAX_WEIGHT as int) * (MAX_QUERY_LEN as int) - 2 * (MAX_WEIGHT as int)
                        <= this.score <= (MAX_WEIGHT as int) * (MAX_QUERY_LEN as int) + 2 * (
                    MAX_WEIGHT as int));
                    lemma_extend_ok(
                        this,
                        bv,
                        sc0,
                        n,
                        query_idx as int,
                        consecutive as int,
                        occurrence.target_idx as int,
                    );
                }
                this_match.extend_with(&b, &self.scoring);
                Some(this_match)
            },
        };
        let copy = clone_opt_match(&result);
        proof {
            lemma_cache_insert(
                self.match_cache@,
                q0,
                occurrences@,
                sc0,
                ci0,
                query_idx as int,
                *occurrence,
                consecutive as int,
                copy,
            );
        }
        self.match_cache.insert(key_u, copy);
        result
    }
}

/// The step match and the best continuation satisfy the overflow
/// conditions of `extend_with`, and their merge stays within budget.
proof fn lemma_extend_ok(
    this: MatchView,
    b: MatchView,
    sc: Scoring,
    n: int,
    qi: int,
    consecutive: int,
    p: int,
)
    requires
        weights_bounded(sc),
        1 <= qi < n,
        n <= MAX_QUERY_LEN,
        0 <= consecutive <= qi - 1,
        0 <= p < MAX_TARGET_LEN,
        this.matched == seq![p],
        this.consecutive == consecutive,
        -(MAX_WEIGHT as int) * (MAX_QUERY_LEN as int) - 2 * (MAX_WEIGHT as int) <= this.score <= (
        MAX_WEIGHT as int) * (MAX_QUERY_LEN as int) + 2 * (MAX_WEIGHT as int),
        b.matched.len() == n - qi,
        b.matched[0] > p,
        b.matched[0] < MAX_TARGET_LEN,
        0 <= b.consecutive <= (consecutive + 1) + (n - qi) * (n + 1),
        -(MAX_WEIGHT as int) * units(n, n - qi, b.matched[0]) <= b.score <= (MAX_WEIGHT as int)
            * units(n, n - qi, b.matched[0]),
    ensures
        crate::matching::extend_ok(this, b, sc),
        this.matched.len() > 0 && b.matched.len() > 0 ==> this.matched.last() < b.matched[0],
{
    let b0 = b.matched[0];
    let mw = MAX_WEIGHT as int;
    let mq = MAX_QUERY_LEN as int;
    let mt = MAX_TARGET_LEN as int;
    assert(this.matched.last() == p);
    assert(0 <= units(n, n - qi, b0) <= mq * level_cost(n) + mt) by (nonlinear_arith)
        requires
            units(n, n - qi, b0) == (n - qi) * level_cost(n) + (mt - b0),
            level_cost(n) == n + n * (n + 1) + 2 * n + 3,
            1 <= qi < n <= mq,
            0 <= b0 < mt,
            mt == MAX_TARGET_LEN as int,
            mq == MAX_QUERY_LEN as int,
    ;
    assert(mw * units(n, n - qi, b0) <= mw * (mq * level_cost(n) + mt)) by (nonlinear_arith)
        requires
            0 <= units(n, n - qi, b0) <= mq * level_cost(n) + mt,
            mw > 0,
    ;
    assert(mw * (mq * level_cost(n) + mt) <= mw * (mq * level_cost(mq) + mt)) by (nonlinear_arith)
        requires
            1 <= n <= mq,
            level_cost(n) == n + n * (n + 1) + 2 * n + 3,
            level_cost(mq) == mq + mq * (mq + 1) + 2 * mq + 3,
            mw > 0,
            mq > 0,
    ;
    let cap = mw * (mq * level_cost(mq) + mt);
    assert(cap < 0x4000_0000) by (nonlinear_arith)
        requires
            cap == mw * (mq * level_cost(mq) + mt),
            level_cost(mq) == mq + mq * (mq + 1) + 2 * mq + 3,
            mw == 512,
            mq == 64,
            mt == 0x10_0000,
    ;
    let cc = this.consecutive + b.consecutive;
    assert(0 <= cc + 1 <= cs_bound(n) + n) by (nonlinear_arith)
        requires
            cc == consecutive + b.consecutive,
            0 <= consecutive <= qi - 1,
            0 <= b.consecutive <= (consecutive + 1) + (n - qi) * (n + 1),
            1 <= qi < n,
            cs_bound(n) == n + n * (n + 1),
    ;
    assert(cs_bound(n) + n <= cs_bound(mq) + mq) by (nonlinear_arith)
        requires
            1 <= n <= mq,
            cs_bound(n) == n + n * (n + 1),
            cs_bound(mq) == mq + mq * (mq + 1),
    ;
    assert(cs_bound(mq) + mq < 0x2000) by (nonlinear_arith)
        requires
            cs_bound(mq) == mq + mq * (mq + 1),
            mq == 64,
    ;
    assert(-mw * 0x2000 <= (cc + 1) * sc.bonus_consecutive <= mw * 0x2000) by (nonlinear_arith)
        requires
            0 <= cc + 1 < 0x2000,
            -mw <= sc.bonus_consecutive <= mw,
            mw > 0,
    ;
    assert(-0x4000_0000 <= b.score <= 0x4000_0000) by (nonlinear_arith)
        requires
            -(MAX_WEIGHT as int) * units(n, n - qi, b0) <= b.score <= (MAX_WEIGHT as int) * units(
                n,
                n - qi,
                b0,
            ),
            0 <= units(n, n - qi, b0) <= mq * level_cost(n) + mt,
            mw * (mq * level_cost(n) + mt) <= cap,
            cap < 0x4000_0000,
            mw == MAX_WEIGHT as int,
            mw > 0,
    ;
    assert(-0x40_0000 <= this.score <= 0x40_0000) by (nonlinear_arith)
        requires
            -(MAX_WEIGHT as int) * (MAX_QUERY_LEN as int) - 2 * (MAX_WEIGHT as int) <= this.score
                <= (MAX_WEIGHT as int) * (MAX_QUERY_LEN as int) + 2 * (MAX_WEIGHT as int),
            MAX_WEIGHT == 512,
            MAX_QUERY_LEN == 64,
    ;
    assert(-0x80_0000 <= (cc + 1) * sc.bonus_consecutive <= 0x80_0000) by (nonlinear_arith)
        requires
            0 <= cc + 1 < 0x2000,
            -mw <= sc.bonus_consecutive <= mw,
            mw == 512,
    ;
    assert(isize::MIN <= this.score + b.score <= isize::MAX);
    assert(cc + 1 <= isize::MAX);
    let d = b0 - p;
    if d == 1 {
        assert(isize::MIN <= (cc + 1) * sc.bonus_consecutive <= isize::MAX);
        assert(isize::MIN <= this.score + b.score + (cc + 1) * sc.bonus_consecutive
            <= isize::MAX);
    }
    if d > 1 {
        assert(0 <= d - 1 < mt);
        assert(-0x2000_0000 <= (d - 1) * sc.penalty_distance <= 0x2000_0000) by (nonlinear_arith)
            requires
                0 <= d - 1 < mt,
                -mw <= sc.penalty_distance <= mw,
                mw == 512,
                mt == 0x10_0000,
        ;
        assert(d <= isize::MAX);
        assert(isize::MIN <= this.score + b.score - (d - 1) * sc.penalty_distance <= isize::MAX);
    }
    assert(crate::matching::extend_ok(this, b, sc));
}

} // verus!
