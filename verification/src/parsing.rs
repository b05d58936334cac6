//! Query normalization and target indexing.
//!
//! The query normalizer strips whitespace from the raw query and keeps,
//! per character, both its original and its lower-cased form.  The target
//! indexer scans the target once, recording for every character position
//! whether it sits at a word start, and groups the positions by character
//! (lower-cased when the search is case-insensitive).
use vstd::prelude::*;

use crate::chars::{alphanumeric_char, lower_char, lower_char_of, uppercase_char, whitespace_char};

verus! {

/// One non-whitespace query character, with its lower-cased form.
#[derive(Clone, Copy, Debug, PartialEq, Eq, Structural)]
pub struct QueryChar {
    /// The character as typed.
    pub original: char,
    /// Its lower-cased form.
    pub lower: char,
}

/// One position in the target at which a given character occurs.
#[derive(Clone, Copy, Debug, PartialEq, Eq, Structural)]
pub struct Occurrence {
    /// Position in the target, counted in characters.
    pub target_idx: usize,
    /// Whether this position begins a word.
    pub is_start: bool,
    /// The target character at this position, in its original case.
    pub char: char,
}

/// The query character that position `c` of the raw query becomes.
pub open spec fn query_char_of(c: char) -> QueryChar {
    QueryChar { original: c, lower: lower_char_of(c) }
}

/// The whitespace-stripped query: one [`QueryChar`] per non-whitespace
/// character of `q`, in order.
pub open spec fn processed_query(q: Seq<char>) -> Seq<QueryChar>
    decreases q.len(),
{
    if q.len() == 0 {
        Seq::empty()
    } else {
        let rest = processed_query(q.drop_last());
        if whitespace_char(q.last()) {
            rest
        } else {
            rest.push(query_char_of(q.last()))
        }
    }
}

/// The character under which a query character is looked up.
pub open spec fn query_key(qc: QueryChar, case_insensitive: bool) -> char {
    if case_insensitive {
        qc.lower
    } else {
        qc.original
    }
}

/// The character under which target character `c` is indexed.
pub open spec fn key_of(c: char, case_insensitive: bool) -> char {
    if case_insensitive {
        lower_char_of(c)
    } else {
        c
    }
}

/// The set of characters the query asks for.
pub open spec fn query_keys(pq: Seq<QueryChar>, case_insensitive: bool) -> Set<char> {
    Set::new(
        |k: char| exists|i: int| 0 <= i < pq.len() && query_key(#[trigger] pq[i], case_insensitive) == k,
    )
}

/// A character that separates words: anything not alphanumeric.
pub open spec fn separator_char(c: char) -> bool {
    !alphanumeric_char(c)
}

/// The three booleans the word-start scan carries from one character to
/// the next.
pub struct ScanState {
    pub prev_is_upper: bool,
    pub prev_is_sep: bool,
    pub prev_is_start: bool,
}

/// The scan state before the first character.
pub open spec fn initial_scan_state() -> ScanState {
    ScanState { prev_is_upper: false, prev_is_sep: true, prev_is_start: false }
}

/// Whether the character `c`, read in state `st`, begins a word: it is
/// no separator, and it follows a separator or marks a case transition
/// that the previous character did not already mark.
pub open spec fn start_here(st: ScanState, c: char) -> bool {
    &&& !separator_char(c)
    &&& (st.prev_is_sep || (!st.prev_is_start && st.prev_is_upper != uppercase_char(c)))
}

/// The scan state after reading `c` in state `st`.
pub open spec fn scan_step(st: ScanState, c: char) -> ScanState {
    if separator_char(c) {
        ScanState { prev_is_upper: false, prev_is_sep: true, prev_is_start: false }
    } else {
        ScanState {
            prev_is_upper: uppercase_char(c),
            prev_is_sep: false,
            prev_is_start: start_here(st, c),
        }
    }
}

/// The scan state before reading position `i` of `t`.
pub open spec fn scan_state_at(t: Seq<char>, i: int) -> ScanState
    decreases i,
{
    if i <= 0 {
        initial_scan_state()
    } else {
        scan_step(scan_state_at(t, i - 1), t[i - 1])
    }
}

/// Whether position `i` of `t` begins a word.
pub open spec fn is_word_start_at(t: Seq<char>, i: int) -> bool {
    start_here(scan_state_at(t, i), t[i])
}

/// The occurrence record for position `i` of `t`.
pub open spec fn occ_at(t: Seq<char>, i: int) -> Occurrence {
    Occurrence { target_idx: i as usize, char: t[i], is_start: is_word_start_at(t, i) }
}

/// The occurrences of key `k` among the first `n` positions of `t`,
/// ascending.
pub open spec fn occ_list_upto(t: Seq<char>, case_insensitive: bool, k: char, n: int) -> Seq<
    Occurrence,
>
    decreases n,
{
    if n <= 0 {
        Seq::empty()
    } else {
        let rest = occ_list_upto(t, case_insensitive, k, n - 1);
        if key_of(t[n - 1], case_insensitive) == k {
            rest.push(occ_at(t, n - 1))
        } else {
            rest
        }
    }
}

/// All occurrences of key `k` in `t`, ascending by position.
pub open spec fn occ_list(t: Seq<char>, case_insensitive: bool, k: char) -> Seq<Occurrence> {
    occ_list_upto(t, case_insensitive, k, t.len() as int)
}

/// `m` is exactly the index the target indexer builds for target `t`:
/// it holds a key iff the query asks for it and the target has it, and
/// each key maps to the full ascending occurrence list.
pub open spec fn occs_models(
    m: Map<char, Seq<Occurrence>>,
    t: Seq<char>,
    case_insensitive: bool,
    keys: Set<char>,
) -> bool {
    &&& forall|k: char|
        #[trigger] m.contains_key(k) <==> keys.contains(k) && occ_list(t, case_insensitive, k).len()
            > 0
    &&& forall|k: char| #[trigger]
        m.contains_key(k) ==> m[k] == occ_list(t, case_insensitive, k)
}

/// The whitespace-stripped query is never longer than the raw query.
pub proof fn lemma_processed_query_len(q: Seq<char>)
    ensures
        processed_query(q).len() <= q.len(),
    decreases q.len(),
{
    if q.len() > 0 {
        lemma_processed_query_len(q.drop_last());
    }
}

/// No whitespace character survives query normalization: every
/// character the matcher will look for is non-whitespace, so whitespace
/// in the query never appears in the matched-position search space.
pub proof fn lemma_processed_query_no_whitespace(q: Seq<char>)
    ensures
        forall|i: int|
            0 <= i < processed_query(q).len() ==> !whitespace_char(
                (#[trigger] processed_query(q)[i]).original,
            ),
    decreases q.len(),
{
    if q.len() > 0 {
        lemma_processed_query_no_whitespace(q.drop_last());
        let prev = processed_query(q.drop_last());
        assert(forall|i: int| 0 <= i < prev.len() ==> processed_query(q)[i] == prev[i]);
    }
}

/// Every normalized query character carries the lower-cased form of its
/// own original character.
pub proof fn lemma_processed_query_chars(q: Seq<char>)
    ensures
        forall|i: int|
            0 <= i < processed_query(q).len() ==> (#[trigger] processed_query(q)[i]).lower
                == lower_char_of(processed_query(q)[i].original),
    decreases q.len(),
{
    if q.len() > 0 {
        lemma_processed_query_chars(q.drop_last());
        let prev = processed_query(q.drop_last());
        assert(forall|i: int| 0 <= i < prev.len() ==> processed_query(q)[i] == prev[i]);
    }
}

/// Every element of an occurrence list is the occurrence record of its
/// own target position, carries the key it is listed under, and the
/// list ascends strictly; conversely every position with that key is
/// listed.
pub proof fn lemma_occ_list_elems(t: Seq<char>, case_insensitive: bool, k: char, n: int)
    requires
        n <= usize::MAX,
    ensures
        forall|j: int|
            0 <= j < occ_list_upto(t, case_insensitive, k, n).len() ==> 0 <= (
            #[trigger] occ_list_upto(t, case_insensitive, k, n)[j]).target_idx < n,
        forall|j: int|
            0 <= j < occ_list_upto(t, case_insensitive, k, n).len() ==> (
            #[trigger] occ_list_upto(t, case_insensitive, k, n)[j]) == occ_at(
                t,
                occ_list_upto(t, case_insensitive, k, n)[j].target_idx as int,
            ) && key_of(
                t[occ_list_upto(t, case_insensitive, k, n)[j].target_idx as int],
                case_insensitive,
            ) == k,
        forall|i: int, j: int|
            0 <= i < j < occ_list_upto(t, case_insensitive, k, n).len() ==> (
            #[trigger] occ_list_upto(t, case_insensitive, k, n)[i]).target_idx < (
            #[trigger] occ_list_upto(t, case_insensitive, k, n)[j]).target_idx,
        forall|i: int|
            0 <= i < n && key_of(#[trigger] t[i], case_insensitive) == k ==> occ_list_upto(
                t,
                case_insensitive,
                k,
                n,
            ).contains(occ_at(t, i)),
    decreases n,
{
    if n > 0 {
        lemma_occ_list_elems(t, case_insensitive, k, n - 1);
        let prev = occ_list_upto(t, case_insensitive, k, n - 1);
        let cur = occ_list_upto(t, case_insensitive, k, n);
        if key_of(t[n - 1], case_insensitive) == k {
            assert(cur == prev.push(occ_at(t, n - 1)));
            assert(cur[cur.len() - 1] == occ_at(t, n - 1));
            assert(forall|j: int| 0 <= j < prev.len() ==> cur[j] == prev[j]);
            assert(occ_at(t, n - 1).target_idx == n - 1);
        }
        assert forall|i: int|
            0 <= i < n && key_of(#[trigger] t[i], case_insensitive) == k implies cur.contains(
            occ_at(t, i),
        ) by {
            if i < n - 1 {
                assert(prev.contains(occ_at(t, i)));
                let j = choose|j: int| 0 <= j < prev.len() && prev[j] == occ_at(t, i);
                assert(cur[j] == occ_at(t, i));
            } else {
                assert(cur[cur.len() - 1] == occ_at(t, i));
            }
        }
    }
}

/// Mapping from a character to the ascending list of its occurrences in
/// the target.  Built once per search by [`build_occurrences`]; read-only
/// afterward.
pub struct Occurrences {
    entries: Vec<(char, Vec<Occurrence>)>,
}

/// The map that a list of keyed entries denotes.
pub open spec fn entries_map(s: Seq<(char, Seq<Occurrence>)>) -> Map<char, Seq<Occurrence>>
    decreases s.len(),
{
    if s.len() == 0 {
        Map::empty()
    } else {
        entries_map(s.drop_last()).insert(s.last().0, s.last().1)
    }
}

impl View for Occurrences {
    type V = Map<char, Seq<Occurrence>>;

    closed spec fn view(&self) -> Map<char, Seq<Occurrence>> {
        entries_map(self.entries@.map_values(|e: (char, Vec<Occurrence>)| (e.0, e.1@)))
    }
}

proof fn lemma_entries_map_dom(s: Seq<(char, Seq<Occurrence>)>, k: char)
    ensures
        entries_map(s).contains_key(k) <==> exists|i: int| 0 <= i < s.len() && (#[trigger] s[i]).0 == k,
    decreases s.len(),
{
    if s.len() > 0 {
        lemma_entries_map_dom(s.drop_last(), k);
        if entries_map(s).contains_key(k) {
            if s.last().0 == k {
                assert(s[s.len() - 1].0 == k);
            } else {
                let i = choose|i: int| 0 <= i < s.drop_last().len() && (#[trigger] s.drop_last()[i]).0 == k;
                assert(s[i].0 == k);
            }
        }
        if exists|i: int| 0 <= i < s.len() && (#[trigger] s[i]).0 == k {
            let i = choose|i: int| 0 <= i < s.len() && (#[trigger] s[i]).0 == k;
            if i < s.len() - 1 {
                assert(s.drop_last()[i].0 == k);
            }
        }
    }
}

proof fn lemma_entries_map_at(s: Seq<(char, Seq<Occurrence>)>, i: int)
    requires
        0 <= i < s.len(),
        forall|a: int, b: int| 0 <= a < b < s.len() ==> (#[trigger] s[a]).0 != (#[trigger] s[b]).0,
    ensures
        entries_map(s).contains_key(s[i].0),
        entries_map(s)[s[i].0] == s[i].1,
    decreases s.len(),
{
    if i == s.len() - 1 {
        assert(s.last() == s[i]);
    } else {
        lemma_entries_map_at(s.drop_last(), i);
        assert(s.drop_last()[i] == s[i]);
        assert(s.last().0 != s[i].0);
    }
}

proof fn lemma_entries_map_dom_len(s: Seq<(char, Seq<Occurrence>)>)
    requires
        forall|a: int, b: int| 0 <= a < b < s.len() ==> (#[trigger] s[a]).0 != (#[trigger] s[b]).0,
    ensures
        entries_map(s).dom().finite(),
        entries_map(s).dom().len() == s.len(),
    decreases s.len(),
{
    if s.len() > 0 {
        assert(forall|a: int, b: int|
            0 <= a < b < s.drop_last().len() ==> (#[trigger] s.drop_last()[a]).0 != (
            #[trigger] s.drop_last()[b]).0) by {
            assert(forall|a: int|
                0 <= a < s.drop_last().len() ==> #[trigger] s.drop_last()[a] == s[a]);
        }
        lemma_entries_map_dom_len(s.drop_last());
        lemma_entries_map_dom(s.drop_last(), s.last().0);
        if entries_map(s.drop_last()).contains_key(s.last().0) {
            let i = choose|i: int|
                0 <= i < s.drop_last().len() && (#[trigger] s.drop_last()[i]).0 == s.last().0;
            assert(s[i].0 == s[s.len() - 1].0);
            assert(false);
        }
        assert(entries_map(s).dom() =~= entries_map(s.drop_last()).dom().insert(s.last().0));
    } else {
        assert(entries_map(s).dom() =~= Set::<char>::empty());
    }
}

impl Occurrences {
    /// The number of distinct characters the index holds.
    pub fn len(&self) -> (r: usize)
        requires
            self.wf(),
        ensures
            r == self@.dom().len(),
    {
        proof {
            let s = self.entries@.map_values(|e: (char, Vec<Occurrence>)| (e.0, e.1@));
            assert(forall|a: int, b: int|
                0 <= a < b < s.len() ==> (#[trigger] s[a]).0 != (#[trigger] s[b]).0) by {
                assert(forall|j: int|
                    0 <= j < self.entries@.len() ==> (#[trigger] s[j]).0 == self.entries@[j].0);
            }
            lemma_entries_map_dom_len(s);
        }
        self.entries.len()
    }

    /// The entry list carries no key twice.
    pub closed spec fn wf(self) -> bool {
        forall|a: int, b: int|
            0 <= a < b < self.entries@.len() ==> (#[trigger] self.entries@[a]).0 != (
            #[trigger] self.entries@[b]).0
    }

    /// Looks up the occurrence list for character `c`.
    pub fn get(&self, c: char) -> (r: Option<&Vec<Occurrence>>)
        requires
            self.wf(),
        ensures
            match r {
                Some(v) => self@.contains_key(c) && v@ == self@[c],
                None => !self@.contains_key(c),
            },
    {
        let ghost s = self.entries@.map_values(|e: (char, Vec<Occurrence>)| (e.0, e.1@));
        let mut i: usize = 0;
        while i < self.entries.len()
            invariant
                0 <= i <= self.entries@.len(),
                s == self.entries@.map_values(|e: (char, Vec<Occurrence>)| (e.0, e.1@)),
                self.wf(),
                forall|j: int| 0 <= j < i ==> (#[trigger] self.entries@[j]).0 != c,
            decreases self.entries@.len() - i,
        {
            if self.entries[i].0 == c {
                proof {
                    lemma_entries_map_at(s, i as int);
                }
                return Some(&self.entries[i].1);
            }
            i = i + 1;
        }
        proof {
            lemma_entries_map_dom(s, c);
        }
        None
    }
}

/// Collects the characters of `s` into a vector.
pub(crate) fn chars_of(s: &str) -> (r: Vec<char>)
    ensures
        r@ == s@,
{
    let mut r: Vec<char> = Vec::new();
    for c in it: s.chars()
        invariant
            r@ == it.seq().take(it.index()),
    {
        r.push(c);
    }
    proof {
        assert(r@ =~= s@);
    }
    r
}

/// Strips whitespace from the raw query, keeping original and
/// lower-cased form of every remaining character, in order.
pub fn process_query(query: &str) -> (r: Vec<QueryChar>)
    ensures
        r@ == processed_query(query@),
{
    let mut r: Vec<QueryChar> = Vec::new();
    for c in it: query.chars()
        invariant
            r@ == processed_query(it.seq().take(it.index())),
    {
        proof {
            assert(it.seq().take(it.index() + 1).drop_last() =~= it.seq().take(it.index()));
        }
        if !c.is_whitespace() {
            let lower = lower_char(c);
            r.push(QueryChar { original: c, lower });
        }
    }
    proof {
        assert(query@.take(query@.len() as int) =~= query@);
    }
    r
}

/// Whether `c` separates words: anything not alphanumeric does.
pub fn is_word_sep(c: char) -> (r: bool)
    ensures
        r == separator_char(c),
{
    !c.is_alphanumeric()
}

/// The distinct keys the query asks for, in first-appearance order.
pub fn condense(query: &Vec<QueryChar>, case_insensitive: bool) -> (r: Vec<char>)
    ensures
        r@.no_duplicates(),
        forall|k: char| r@.contains(k) <==> query_keys(query@, case_insensitive).contains(k),
{
    let mut r: Vec<char> = Vec::new();
    let mut i: usize = 0;
    while i < query.len()
        invariant
            0 <= i <= query@.len(),
            r@.no_duplicates(),
            forall|k: char|
                r@.contains(k) ==> query_keys(query@, case_insensitive).contains(k),
            forall|j: int|
                0 <= j < i ==> r@.contains(query_key(#[trigger] query@[j], case_insensitive)),
        decreases query@.len() - i,
    {
        let qc = query[i];
        let key = if case_insensitive {
            qc.lower
        } else {
            qc.original
        };
        proof {
            assert(query_key(query@[i as int], case_insensitive) == key);
            assert(query_keys(query@, case_insensitive).contains(key));
        }
        if !contains_char(&r, key) {
            let ghost r0 = r@;
            r.push(key);
            proof {
                assert forall|k: char| r0.contains(k) implies r@.contains(k) by {
                    let j = choose|j: int| 0 <= j < r0.len() && r0[j] == k;
                    assert(r@[j] == k);
                }
                assert forall|a: int, b: int| 0 <= a < b < r@.len() implies r@[a] != r@[b] by {
                    if b == r@.len() - 1 {
                        assert(r@[a] == r0[a]);
                        if r0[a] == key {
                            assert(r0.contains(key));
                        }
                    }
                }
                assert forall|k: char|
                    r@.contains(k) implies query_keys(query@, case_insensitive).contains(k) by {
                    let j = choose|j: int| 0 <= j < r@.len() && r@[j] == k;
                    if j < r@.len() - 1 {
                        assert(r0.contains(k));
                    }
                }
                assert(r@.contains(key)) by {
                    assert(r@[r@.len() - 1] == key);
                }
            }
        }
        i = i + 1;
    }
    proof {
        assert forall|k: char|
            query_keys(query@, case_insensitive).contains(k) implies r@.contains(k) by {
            let j = choose|j: int|
                0 <= j < query@.len() && query_key(#[trigger] query@[j], case_insensitive) == k;
        }
    }
    r
}

/// Whether `v` holds `c`.
pub(crate) fn contains_char(v: &Vec<char>, c: char) -> (r: bool)
    ensures
        r == v@.contains(c),
{
    let mut i: usize = 0;
    while i < v.len()
        invariant
            0 <= i <= v@.len(),
            forall|j: int| 0 <= j < i ==> v@[j] != c,
        decreases v@.len() - i,
    {
        if v[i] == c {
            return true;
        }
        i = i + 1;
    }
    false
}

/// The occurrence list of key `k` in target `t`: one pass over the
/// target, carrying the word-start scan state.
pub(crate) fn occs_of_key(t: &Vec<char>, case_insensitive: bool, k: char) -> (r: Vec<Occurrence>)
    ensures
        r@ == occ_list(t@, case_insensitive, k),
{
    let mut r: Vec<Occurrence> = Vec::new();
    let mut prev_is_upper = false;
    let mut prev_is_sep = true;
    let mut prev_is_start = false;
    let mut i: usize = 0;
    while i < t.len()
        invariant
            0 <= i <= t@.len(),
            r@ == occ_list_upto(t@, case_insensitive, k, i as int),
            scan_state_at(t@, i as int) == (ScanState {
                prev_is_upper,
                prev_is_sep,
                prev_is_start,
            }),
        decreases t@.len() - i,
    {
        let c = t[i];
        let is_sep = !c.is_alphanumeric();
        let is_upper = c.is_uppercase();
        let mut is_start = false;
        if !is_sep {
            if prev_is_sep {
                is_start = true;
            } else if !prev_is_start && prev_is_upper != is_upper {
                is_start = true;
            }
        }
        proof {
            assert(is_start == is_word_start_at(t@, i as int));
        }
        let key_c = if case_insensitive {
            lower_char(c)
        } else {
            c
        };
        if key_c == k {
            r.push(Occurrence { target_idx: i, char: c, is_start });
        }
        if is_sep {
            prev_is_upper = false;
            prev_is_sep = true;
            prev_is_start = false;
        } else {
            prev_is_upper = is_upper;
            prev_is_sep = false;
            prev_is_start = is_start;
        }
        i = i + 1;
    }
    r
}

/// The entries the indexer builds for the key list `ks`: one entry per
/// key whose occurrence list is non-empty, in key-list order.
pub open spec fn built_entries(t: Seq<char>, case_insensitive: bool, ks: Seq<char>) -> Seq<
    (char, Seq<Occurrence>),
>
    decreases ks.len(),
{
    if ks.len() == 0 {
        Seq::empty()
    } else {
        let rest = built_entries(t, case_insensitive, ks.drop_last());
        let l = occ_list(t, case_insensitive, ks.last());
        if l.len() > 0 {
            rest.push((ks.last(), l))
        } else {
            rest
        }
    }
}

proof fn lemma_built_entries_keys(t: Seq<char>, case_insensitive: bool, ks: Seq<char>)
    ensures
        forall|i: int|
            0 <= i < built_entries(t, case_insensitive, ks).len() ==> ks.contains(
                (#[trigger] built_entries(t, case_insensitive, ks)[i]).0,
            ) && (built_entries(t, case_insensitive, ks)[i]).1 == occ_list(
                t,
                case_insensitive,
                built_entries(t, case_insensitive, ks)[i].0,
            ) && built_entries(t, case_insensitive, ks)[i].1.len() > 0,
        forall|k: char|
            ks.contains(k) && occ_list(t, case_insensitive, k).len() > 0 ==> exists|i: int|
                0 <= i < built_entries(t, case_insensitive, ks).len() && (
                #[trigger] built_entries(t, case_insensitive, ks)[i]).0 == k,
    decreases ks.len(),
{
    let b = built_entries(t, case_insensitive, ks);
    if ks.len() > 0 {
        lemma_built_entries_keys(t, case_insensitive, ks.drop_last());
        let rest = built_entries(t, case_insensitive, ks.drop_last());
        assert forall|i: int| 0 <= i < b.len() implies ks.contains((#[trigger] b[i]).0) && b[i].1
            == occ_list(t, case_insensitive, b[i].0) && b[i].1.len() > 0 by {
            if i < rest.len() {
                assert(b[i] == rest[i]);
                assert(ks.drop_last().contains(rest[i].0));
                let j = choose|j: int| 0 <= j < ks.drop_last().len() && ks.drop_last()[j] == rest[i].0;
                assert(ks[j] == rest[i].0);
            } else {
                assert(b[i] == (ks.last(), occ_list(t, case_insensitive, ks.last())));
                assert(ks[ks.len() - 1] == ks.last());
            }
        }
        assert forall|k: char|
            ks.contains(k) && occ_list(t, case_insensitive, k).len() > 0 implies exists|i: int|
            0 <= i < b.len() && (#[trigger] b[i]).0 == k by {
            if k == ks.last() {
                assert(b[b.len() - 1].0 == k);
            } else {
                let j = choose|j: int| 0 <= j < ks.len() && ks[j] == k;
                assert(j < ks.len() - 1);
                assert(ks.drop_last()[j] == k);
                assert(ks.drop_last().contains(k));
                let i = choose|i: int| 0 <= i < rest.len() && (#[trigger] rest[i]).0 == k;
                assert(b[i].0 == k);
            }
        }
    }
}

proof fn lemma_built_entries_unique(t: Seq<char>, case_insensitive: bool, ks: Seq<char>)
    requires
        ks.no_duplicates(),
    ensures
        forall|a: int, b: int|
            0 <= a < b < built_entries(t, case_insensitive, ks).len() ==> (
            #[trigger] built_entries(t, case_insensitive, ks)[a]).0 != (
            #[trigger] built_entries(t, case_insensitive, ks)[b]).0,
    decreases ks.len(),
{
    let bs = built_entries(t, case_insensitive, ks);
    if ks.len() > 0 {
        assert(ks.drop_last().no_duplicates());
        lemma_built_entries_unique(t, case_insensitive, ks.drop_last());
        lemma_built_entries_keys(t, case_insensitive, ks.drop_last());
        let rest = built_entries(t, case_insensitive, ks.drop_last());
        assert forall|a: int, b: int| 0 <= a < b < bs.len() implies (#[trigger] bs[a]).0 != (
        #[trigger] bs[b]).0 by {
            if b < rest.len() {
            } else if bs.len() > rest.len() && b == bs.len() - 1 {
                assert(bs[b].0 == ks.last());
                assert(bs[a] == rest[a]);
                assert(ks.drop_last().contains(rest[a].0));
                let j = choose|j: int|
                    0 <= j < ks.drop_last().len() && ks.drop_last()[j] == rest[a].0;
                assert(ks[j] == rest[a].0);
                assert(ks[ks.len() - 1] == ks.last());
            }
        }
    }
}

/// Builds the occurrence index for `string`: for every character the
/// query asks for, the ascending list of target positions at which it
/// occurs, each annotated with its word-start flag.
pub fn build_occurrences(query: &Vec<QueryChar>, string: &str, case_insensitive: bool) -> (r:
    Occurrences)
    ensures
        r.wf(),
        occs_models(r@, string@, case_insensitive, query_keys(query@, case_insensitive)),
{
    let keys = condense(query, case_insensitive);
    let t = chars_of(string);
    let mut entries: Vec<(char, Vec<Occurrence>)> = Vec::new();
    let mut ki: usize = 0;
    while ki < keys.len()
        invariant
            0 <= ki <= keys@.len(),
            t@ == string@,
            entries@.map_values(|e: (char, Vec<Occurrence>)| (e.0, e.1@)) == built_entries(
                string@,
                case_insensitive,
                keys@.take(ki as int),
            ),
        decreases keys@.len() - ki,
    {
        let k = keys[ki];
        let occs = occs_of_key(&t, case_insensitive, k);
        let ghost before = entries@.map_values(|e: (char, Vec<Occurrence>)| (e.0, e.1@));
        if occs.len() > 0 {
            entries.push((k, occs));
        }
        proof {
            assert(keys@.take(ki + 1).drop_last() =~= keys@.take(ki as int));
            assert(keys@.take(ki + 1).last() == keys@[ki as int]);
            if occs@.len() > 0 {
                assert(entries@.map_values(|e: (char, Vec<Occurrence>)| (e.0, e.1@)) =~= before.push(
                    (k, occs@),
                ));
            }
        }
        ki = ki + 1;
    }
    proof {
        assert(keys@.take(keys@.len() as int) =~= keys@);
    }
    let r = Occurrences { entries };
    proof {
        let ghost s = r.entries@.map_values(|e: (char, Vec<Occurrence>)| (e.0, e.1@));
        lemma_built_entries_unique(string@, case_insensitive, keys@);
        lemma_built_entries_keys(string@, case_insensitive, keys@);
        assert forall|a: int, b: int| 0 <= a < b < r.entries@.len() implies (
        #[trigger] r.entries@[a]).0 != (#[trigger] r.entries@[b]).0 by {
            assert(s[a].0 == r.entries@[a].0);
            assert(s[b].0 == r.entries@[b].0);
        }
        assert forall|k: char| #[trigger]
            r@.contains_key(k) <==> query_keys(query@, case_insensitive).contains(k) && occ_list(
            string@,
            case_insensitive,
            k,
        ).len() > 0 by {
            lemma_entries_map_dom(s, k);
            if r@.contains_key(k) {
                let i = choose|i: int| 0 <= i < s.len() && (#[trigger] s[i]).0 == k;
                assert(keys@.contains(s[i].0));
            }
            if query_keys(query@, case_insensitive).contains(k) && occ_list(
                string@,
                case_insensitive,
                k,
            ).len() > 0 {
                assert(keys@.contains(k));
            }
        }
        assert forall|k: char| #[trigger] r@.contains_key(k) implies r@[k] == occ_list(
            string@,
            case_insensitive,
            k,
        ) by {
            lemma_entries_map_dom(s, k);
            let i = choose|i: int| 0 <= i < s.len() && (#[trigger] s[i]).0 == k;
            lemma_entries_map_at(s, i);
        }
    }
    r
}

} // verus!
