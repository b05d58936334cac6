//! Fuzzy matching of a short query string against a longer target string,
//! in the style of an interactive filter: every query character must be
//! found in the target, in order, and the best-scoring alignment wins.
//!
//! The score rewards word starts, unbroken runs of matches and case
//! agreement, and penalizes the distance between two matched characters.
use vstd::prelude::*;

pub mod chars;
pub mod matching;
pub mod parse;
pub mod parsing;
pub mod scoring;
pub mod search;

pub use matching::{ContinuousMatch, ContinuousMatches, Match};
pub use parse::{condense, process_target_string};
pub use parsing::{build_occurrences, process_query, Occurrence, Occurrences, QueryChar};
pub use scoring::Scoring;
pub use search::FuzzySearch;

verus! {

/// What [`format_simple`] produces for target `t` and the run list
/// `runs`, having already emitted everything before position
/// `last_end`: each run is wrapped in `before`/`after`, the spans
/// between runs are kept as they are, and the tail after the final run
/// is appended unchanged.
pub open spec fn format_from(
    t: Seq<char>,
    runs: Seq<(int, int)>,
    before: Seq<char>,
    after: Seq<char>,
    last_end: int,
) -> Seq<char>
    decreases runs.len(),
{
    if runs.len() == 0 {
        t.subrange(last_end, t.len() as int)
    } else {
        let s = runs[0].0;
        let l = runs[0].1;
        t.subrange(last_end, s) + before + t.subrange(s, s + l) + after + format_from(
            t,
            runs.drop_first(),
            before,
            after,
            s + l,
        )
    }
}

/// Returns the best match for `query` in the target string `string`.
///
/// Always tries to match the _full_ pattern.  A partial match is
/// considered invalid and will return [`None`].  Will also return
/// [`None`] in case `query` or `string` are empty.
///
/// Note that whitespace in query will be _ignored_.
///
/// Callers keep the query within [`search::MAX_QUERY_LEN`] and the
/// target within [`search::MAX_TARGET_LEN`] characters; together with
/// the weight range these limits keep every score inside `isize`.
pub fn best_match(query: &str, target: &str) -> (r: Option<Match>)
    requires
        query@.len() <= search::MAX_QUERY_LEN,
        target@.len() <= search::MAX_TARGET_LEN,
    ensures
        search::opt_match_view(r) == search::search_spec(
            query@,
            target@,
            scoring::default_scoring(),
            true,
        ),
        r is Some <==> (parsing::processed_query(query@).len() > 0 && search::matches_from(
            parsing::processed_query(query@),
            target@,
            true,
            0,
        )),
        r matches Some(m) ==> {
            &&& m@.wf()
            &&& m@.matched.len() == parsing::processed_query(query@).len()
            &&& forall|i: int|
                0 <= i < m@.matched.len() ==> 0 <= #[trigger] m@.matched[i] < target@.len()
        },
{
    FuzzySearch::new(query, target).case_insensitive().best_match()
}

/// Within a contiguous run, every position steps up by exactly one.
proof fn lemma_run_span(m: Seq<int>, i: int, j: int)
    requires
        0 <= i <= j,
        j < matching::run_end(m, i),
        i < m.len(),
    ensures
        j < m.len(),
        m[j] == m[i] + (j - i),
    decreases j - i,
{
    matching::lemma_run_end_bounds(m, i);
    if j > i {
        assert(matching::run_end(m, i) == matching::run_end(m, i + 1));
        lemma_run_span(m, i + 1, j);
    }
}

/// Formats a [`Match`] by appending `before` before any matches and
/// `after` after any matches.
///
/// When the match's positions are strictly increasing and lie within the
/// target — as they are for every match the search produces — the result
/// is exactly [`format_from`] applied to the match's contiguous runs;
/// positions outside the target are clipped to its end.
pub fn format_simple(match_: &Match, target: &str, before: &str, after: &str) -> (r: String)
    ensures
        match_@.wf() && (match_@.matched.len() > 0 ==> match_@.matched.last() < target@.len())
            ==> r@ == format_from(
            target@,
            matching::runs_from(match_@.matched, 0),
            before@,
            after@,
            0,
        ),
{
    let ghost m = match_@.matched;
    let ghost ok = match_@.wf() && (match_@.matched.len() > 0 ==> match_@.matched.last()
        < target@.len());
    let ghost total = format_from(target@, matching::runs_from(m, 0), before@, after@, 0);
    let tlen = target.unicode_len();
    let mut out = String::new();
    let mut last_end: usize = 0;
    let mut cursor = match_.continuous_matches();
    let ghost mut prev_cur: int = 0;
    proof {
        if m.len() > 0 {
            matching::lemma_run_end_bounds(m, 0);
        }
    }
    let mut run = cursor.next();
    while run.is_some()
        invariant
            m == match_@.matched,
            ok == (match_@.wf() && (m.len() > 0 ==> m.last() < target@.len())),
            total == format_from(target@, matching::runs_from(m, 0), before@, after@, 0),
            cursor.positions() == m,
            0 <= cursor.cursor() <= m.len(),
            tlen == target@.len(),
            last_end <= tlen,
            ok ==> match run {
                Some(cm) => {
                    &&& 0 <= prev_cur < m.len()
                    &&& cm.start == m[prev_cur]
                    &&& cm.len == matching::run_end(m, prev_cur) - prev_cur
                    &&& cursor.cursor() == matching::run_end(m, prev_cur)
                    &&& last_end <= m[prev_cur]
                    &&& out@ + format_from(
                        target@,
                        seq![(m[prev_cur], matching::run_end(m, prev_cur) - prev_cur)]
                            + matching::runs_from(m, cursor.cursor()),
                        before@,
                        after@,
                        last_end as int,
                    ) == total
                },
                None => {
                    &&& cursor.cursor() >= m.len()
                    &&& out@ + format_from(
                        target@,
                        matching::runs_from(m, cursor.cursor()),
                        before@,
                        after@,
                        last_end as int,
                    ) == total
                },
            },
        decreases m.len() - cursor.cursor() + (if run.is_some() {
            1int
        } else {
            0int
        }),
    {
        let cm = run.unwrap();
        let s0 = cm.start();
        let l0 = cm.len();
        // Clip the run to the target; for matches produced by the
        // search the clip never changes anything.
        let s = if s0 > tlen {
            tlen
        } else if s0 < last_end {
            last_end
        } else {
            s0
        };
        let e = if l0 > tlen - s {
            tlen
        } else {
            s + l0
        };
        let ghost le = last_end as int;
        let ghost cc = cursor.cursor();
        let ghost re = matching::run_end(m, prev_cur);
        proof {
            if ok {
                assert(matching::strictly_increasing(m));
                matching::lemma_run_end_bounds(m, prev_cur);
                lemma_run_span(m, prev_cur, re - 1);
                assert(m[re - 1] <= m.last()) by {
                    if re - 1 < m.len() - 1 {
                        assert(m[re - 1] < m[m.len() - 1]);
                    }
                }
                assert(m[prev_cur] + (re - 1 - prev_cur) == m[re - 1]);
                assert(s == s0 && e == s0 + l0);
            }
        }
        let ghost out0 = out@;
        let ghost pa = target@.subrange(le, s as int);
        let ghost pb = before@;
        let ghost pc = target@.subrange(s as int, e as int);
        let ghost pd = after@;
        out.append(target.substring_char(last_end, s));
        out.append(before);
        out.append(target.substring_char(s, e));
        out.append(after);
        last_end = e;
        proof {
            if ok {
                let pend = seq![(m[prev_cur], re - prev_cur)] + matching::runs_from(m, cc);
                assert(pend[0] == (m[prev_cur], re - prev_cur));
                assert(pend.drop_first() =~= matching::runs_from(m, cc));
                assert(format_from(target@, pend, before@, after@, le) == pa + pb + pc + pd
                    + format_from(target@, matching::runs_from(m, cc), before@, after@, e as int));
                assert(out@ =~= out0 + pa + pb + pc + pd);
                assert(out@ + format_from(
                    target@,
                    matching::runs_from(m, cc),
                    before@,
                    after@,
                    e as int,
                ) =~= out0 + format_from(target@, pend, before@, after@, le));
            }
            prev_cur = cc;
        }
        run = cursor.next();
        proof {
            if cc < m.len() {
                matching::lemma_run_end_bounds(m, cc);
            }
            if ok && run is Some {
                assert(matching::runs_from(m, cc) == seq![
                    (m[cc], matching::run_end(m, cc) - cc),
                ] + matching::runs_from(m, matching::run_end(m, cc)));
                assert(m[re - 1] < m[cc]) by {
                    assert(0 <= re - 1 < cc < m.len());
                }
            }
        }
    }
    let ghost out1 = out@;
    out.append(target.substring_char(last_end, tlen));
    proof {
        if ok {
            assert(matching::runs_from(m, cursor.cursor()).len() == 0);
            assert(out@ =~= out1 + target@.subrange(last_end as int, tlen as int));
            assert(out@ =~= total);
        }
    }
    out
}

} // verus!
