//! The match model: an accumulated score, a running consecutive-match
//! counter, and the ordered list of matched target positions, together
//! with the merge algorithm that combines two adjacent partial matches
//! and the grouping of matched positions into contiguous runs.
use vstd::prelude::*;

use crate::scoring::Scoring;

verus! {

/// Mathematical model of a [`Match`]: score and consecutive counter as
/// unbounded integers, matched positions as a sequence.
pub struct MatchView {
    pub score: int,
    pub consecutive: int,
    pub matched: Seq<int>,
}

/// `s` is strictly increasing.
pub open spec fn strictly_increasing(s: Seq<int>) -> bool {
    forall|i: int, j: int| #![trigger s[i], s[j]] 0 <= i < j < s.len() ==> s[i] < s[j]
}

impl MatchView {
    /// A well-formed match holds strictly increasing target positions.
    pub open spec fn wf(self) -> bool {
        strictly_increasing(self.matched)
    }
}

/// The merge of two adjacent partial matches `a` (earlier) and `b`
/// (later): scores add, and the join is adjusted.  If `b` starts exactly
/// one past `a`'s last position the run continues: the counter grows by
/// one and the combined run's bonus is brought in line with what one
/// uninterrupted computation would have produced.  On any wider gap the
/// run resets and every skipped character costs `penalty_distance`.
pub open spec fn merged(a: MatchView, b: MatchView, s: Scoring) -> MatchView {
    let score = a.score + b.score;
    let consecutive = a.consecutive + b.consecutive;
    let matched = a.matched + b.matched;
    if a.matched.len() > 0 && b.matched.len() > 0 {
        let d = b.matched[0] - a.matched.last();
        if d == 1 {
            MatchView {
                score: score + (consecutive + 1) * s.bonus_consecutive,
                consecutive: consecutive + 1,
                matched,
            }
        } else if d > 1 {
            MatchView {
                score: score - (d - 1) * s.penalty_distance,
                consecutive: 0,
                matched,
            }
        } else {
            MatchView { score, consecutive, matched }
        }
    } else {
        MatchView { score, consecutive, matched }
    }
}

/// The intermediate and final values that [`Match::extend_with`] computes
/// all fit the machine integers.
pub open spec fn extend_ok(a: MatchView, b: MatchView, s: Scoring) -> bool {
    let sum = a.score + b.score;
    let cons = a.consecutive + b.consecutive;
    &&& isize::MIN <= sum <= isize::MAX
    &&& cons + 1 <= isize::MAX
    &&& (a.matched.len() > 0 && b.matched.len() > 0 ==> {
        let d = b.matched[0] - a.matched.last();
        &&& (d == 1 ==> isize::MIN <= (cons + 1) * s.bonus_consecutive <= isize::MAX
            && isize::MIN <= sum + (cons + 1) * s.bonus_consecutive <= isize::MAX)
        &&& (d > 1 ==> {
            &&& d <= isize::MAX
            &&& isize::MIN <= (d - 1) * s.penalty_distance <= isize::MAX
            &&& isize::MIN <= sum - (d - 1) * s.penalty_distance <= isize::MAX
        })
    })
}

/// A (possibly partial) match of the query within the target string.
/// Matched chars are stored as indices into the target string.
///
/// The score is not clamped to any range and can be negative.
///
/// Two matches compare equal exactly when their scores are equal: two
/// materially different alignments may tie.
#[derive(Debug)]
pub struct Match {
    /// Accumulative score.
    pub score: isize,
    /// Count of current consecutive matched chars.
    pub consecutive: usize,
    /// Matched char indices.
    pub matched: Vec<usize>,
}

impl View for Match {
    type V = MatchView;

    open spec fn view(&self) -> MatchView {
        MatchView {
            score: self.score as int,
            consecutive: self.consecutive as int,
            matched: self.matched@.map_values(|p: usize| p as int),
        }
    }
}

impl Clone for Match {
    fn clone(&self) -> (r: Self)
        ensures
            r@ == self@,
    {
        let matched = clone_positions(&self.matched);
        let r = Match { score: self.score, consecutive: self.consecutive, matched };
        proof {
            assert(r@.matched =~= self@.matched);
        }
        r
    }
}

/// Copies a position list element by element.
fn clone_positions(v: &Vec<usize>) -> (r: Vec<usize>)
    ensures
        r@ == v@,
{
    let mut r: Vec<usize> = Vec::new();
    for i in it: 0..v.len()
        invariant
            r@ == v@.take(i as int),
    {
        r.push(v[i]);
        proof {
            assert(r@ =~= v@.take(i + 1));
        }
    }
    proof {
        assert(v@.take(v@.len() as int) =~= v@);
    }
    r
}

impl PartialEq for Match {
    fn eq(&self, other: &Match) -> bool {
        self.score == other.score
    }
}

impl Eq for Match {

}

impl vstd::std_specs::cmp::PartialEqSpecImpl for Match {
    open spec fn obeys_eq_spec() -> bool {
        true
    }

    open spec fn eq_spec(&self, other: &Match) -> bool {
        self.score == other.score
    }
}

impl PartialOrd for Match {
    fn partial_cmp(&self, other: &Match) -> Option<core::cmp::Ordering> {
        if self.score < other.score {
            Some(core::cmp::Ordering::Less)
        } else if self.score == other.score {
            Some(core::cmp::Ordering::Equal)
        } else {
            Some(core::cmp::Ordering::Greater)
        }
    }
}

impl vstd::std_specs::cmp::PartialOrdSpecImpl for Match {
    open spec fn obeys_partial_cmp_spec() -> bool {
        true
    }

    open spec fn partial_cmp_spec(&self, other: &Match) -> Option<core::cmp::Ordering> {
        if self.score < other.score {
            Some(core::cmp::Ordering::Less)
        } else if self.score == other.score {
            Some(core::cmp::Ordering::Equal)
        } else {
            Some(core::cmp::Ordering::Greater)
        }
    }
}

impl Match {
    /// Creates a new match with the given scoring and matched indices.
    pub fn with_matched(score: isize, consecutive: usize, matched: Vec<usize>) -> (m: Self)
        ensures
            m == (Match { score, consecutive, matched }),
    {
        Match { score, consecutive, matched }
    }

    /// Returns the accumulative score for this match.
    pub fn score(&self) -> (r: isize)
        ensures
            r == self.score,
    {
        self.score
    }

    /// Returns the matched char indices, in the order they were matched.
    pub fn matched_indices(&self) -> (r: &Vec<usize>)
        ensures
            r@ == self.matched@,
    {
        &self.matched
    }

    /// Returns a cursor that groups the individual char matches into
    /// contiguous runs.
    pub fn continuous_matches(&self) -> (r: ContinuousMatches<'_>)
        ensures
            r.positions() == self@.matched,
            r.cursor() == 0,
    {
        ContinuousMatches { matched: &self.matched, current: 0 }
    }

    /// Extends this match with `other`, which must lie entirely to the
    /// right of it; scores add and the join is adjusted as [`merged`]
    /// describes.
    pub fn extend_with(&mut self, other: &Match, scoring: &Scoring)
        requires
            old(self)@.matched.len() > 0 && other@.matched.len() > 0 ==> old(
                self,
            )@.matched.last() < other@.matched[0],
            extend_ok(old(self)@, other@, *scoring),
        ensures
            final(self)@ == merged(old(self)@, other@, *scoring),
    {
        proof {
            assert(self@.matched.len() == self.matched@.len());
            assert(other@.matched.len() == other.matched@.len());
        }
        self.score = self.score + other.score;
        self.consecutive = self.consecutive + other.consecutive;

        if self.matched.len() > 0 && other.matched.len() > 0 {
            let last = self.matched[self.matched.len() - 1];
            let first = other.matched[0];
            proof {
                assert(self@.matched.last() == last as int);
                assert(other@.matched[0] == first as int);
            }
            let distance = first - last;

            if distance == 1 {
                self.consecutive = self.consecutive + 1;
                self.score = self.score + (self.consecutive as isize) * scoring.bonus_consecutive;
            } else if distance > 1 {
                self.consecutive = 0;
                let penalty = ((distance - 1) as isize) * scoring.penalty_distance;
                self.score = self.score - penalty;
            }
        }

        append_positions(&mut self.matched, &other.matched);
        proof {
            assert(self@.matched =~= merged(old(self)@, other@, *scoring).matched);
        }
    }
}

/// Appends `src`'s positions to `dst`.
fn append_positions(dst: &mut Vec<usize>, src: &Vec<usize>)
    ensures
        final(dst)@ == old(dst)@ + src@,
{
    let ghost orig = dst@;
    for i in it: 0..src.len()
        invariant
            dst@ == orig + src@.take(i as int),
    {
        dst.push(src[i]);
        proof {
            assert(dst@ =~= orig + src@.take(i + 1));
        }
    }
    proof {
        assert(orig + src@.take(src@.len() as int) =~= orig + src@);
    }
}

/// Describes a continuous group of char indices.
#[derive(Clone, Copy, Debug, PartialEq, Eq, Structural)]
pub struct ContinuousMatch {
    /// First index of the group.
    pub start: usize,
    /// Number of indices in the group.
    pub len: usize,
}

impl ContinuousMatch {
    /// Creates a new group starting at `start`, `len` chars long.
    pub fn new(start: usize, len: usize) -> (r: Self)
        ensures
            r == (ContinuousMatch { start, len }),
    {
        ContinuousMatch { start, len }
    }

    /// Returns the start index of this group.
    pub fn start(&self) -> (r: usize)
        ensures
            r == self.start,
    {
        self.start
    }

    /// Returns the length of this group.
    pub fn len(&self) -> (r: usize)
        ensures
            r == self.len,
    {
        self.len
    }
}

/// One past the end of the contiguous run of positions beginning at
/// index `i` of `m`: the first index at which the positions stop growing
/// in steps of exactly one.
pub open spec fn run_end(m: Seq<int>, i: int) -> int
    decreases m.len() - i,
{
    if i < 0 || i + 1 >= m.len() {
        i + 1
    } else if m[i + 1] != m[i] + 1 {
        i + 1
    } else {
        run_end(m, i + 1)
    }
}

pub proof fn lemma_run_end_bounds(m: Seq<int>, i: int)
    requires
        0 <= i < m.len(),
    ensures
        i < run_end(m, i) <= m.len(),
    decreases m.len() - i,
{
    if !(i + 1 >= m.len()) && m[i + 1] == m[i] + 1 {
        lemma_run_end_bounds(m, i + 1);
    }
}

/// The contiguous runs of `m` from index `i` on, each as a pair of the
/// starting position and the run length.
pub open spec fn runs_from(m: Seq<int>, i: int) -> Seq<(int, int)>
    decreases m.len() - i,
    when true via runs_from_decreases
{
    if !(0 <= i < m.len()) {
        Seq::empty()
    } else {
        seq![(m[i], run_end(m, i) - i)] + runs_from(m, run_end(m, i))
    }
}

#[via_fn]
proof fn runs_from_decreases(m: Seq<int>, i: int) {
    if 0 <= i < m.len() {
        lemma_run_end_bounds(m, i);
    }
}

/// Cursor over the contiguous runs of matched char indices in a
/// [`Match`]: each call of [`next`](Self::next) yields one
/// [`ContinuousMatch`], scanning the position list once from the left.
pub struct ContinuousMatches<'a> {
    matched: &'a Vec<usize>,
    current: usize,
}

impl<'a> ContinuousMatches<'a> {
    /// The underlying matched positions.
    pub closed spec fn positions(self) -> Seq<int> {
        self.matched@.map_values(|p: usize| p as int)
    }

    /// How many positions have been consumed so far.
    pub closed spec fn cursor(self) -> int {
        self.current as int
    }

    /// Yields the run starting at the cursor, if any positions remain,
    /// and moves the cursor past it.
    pub fn next(&mut self) -> (r: Option<ContinuousMatch>)
        ensures
            final(self).positions() == old(self).positions(),
            ({
                let m = old(self).positions();
                let cur = old(self).cursor();
                if cur < m.len() {
                    &&& final(self).cursor() == run_end(m, cur)
                    &&& r matches Some(cm) && cm.start == m[cur] && cm.len == run_end(m, cur)
                        - cur
                } else {
                    &&& final(self).cursor() == cur
                    &&& r is None
                }
            }),
    {
        let ghost m = self.positions();
        let ghost cur = self.current as int;
        if self.current >= self.matched.len() {
            return None;
        }
        let c0 = self.current;
        let start = self.matched[c0];
        let mut j = c0 + 1;
        proof {
            lemma_run_end_bounds(m, cur);
        }
        while j < self.matched.len() && self.matched[j] > self.matched[j - 1] && self.matched[j]
            - self.matched[j - 1] == 1
            invariant
                0 <= cur < j <= m.len(),
                m == self.positions(),
                self.current == cur,
                run_end(m, cur) == run_end(m, j - 1),
            decreases m.len() - j,
        {
            proof {
                assert(m[j as int] == m[j - 1] + 1);
                assert(run_end(m, j - 1) == run_end(m, j as int));
            }
            j = j + 1;
        }
        proof {
            assert(run_end(m, j - 1) == j as int);
            assert(run_end(m, cur) == j as int);
        }
        self.current = j;
        Some(ContinuousMatch { start, len: j - c0 })
    }
}

} // verus!
