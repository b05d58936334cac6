//! Bonus and penalty weights that parameterize every score computation.
use vstd::prelude::*;

verus! {

/// Largest magnitude a single weight may have.  Keeping each weight within
/// this range (together with the limits on query and target length) keeps
/// every score computation inside `isize`.
pub const MAX_WEIGHT: isize = 512;

/// Bonuses/penalties used for scoring a [`Match`](crate::Match).
#[derive(Clone, Copy, Debug)]
pub struct Scoring {
    /// `current_consecutive_count * bonus_consecutive` will be added for every
    /// consecutive char match.
    ///
    /// `1 * bonus` for the first consecutive match, `2 * bonus` for
    /// the second, etc.
    pub bonus_consecutive: isize,
    /// Added when a query char matches a word start.
    pub bonus_word_start: isize,
    /// Added when the matched query char also matches the case of the target char.
    ///
    /// Only applied if the search is case insensitive.
    pub bonus_match_case: isize,
    /// Subtracted from the score for every char between two matches.
    pub penalty_distance: isize,
}

/// Every weight lies within `MAX_WEIGHT` in magnitude.
pub open spec fn weights_bounded(s: Scoring) -> bool {
    &&& -MAX_WEIGHT <= s.bonus_consecutive <= MAX_WEIGHT
    &&& -MAX_WEIGHT <= s.bonus_word_start <= MAX_WEIGHT
    &&& -MAX_WEIGHT <= s.bonus_match_case <= MAX_WEIGHT
    &&& -MAX_WEIGHT <= s.penalty_distance <= MAX_WEIGHT
}

/// The weight set that `Scoring::default` returns.
pub open spec fn default_scoring() -> Scoring {
    Scoring {
        bonus_consecutive: 8,
        bonus_word_start: 72,
        bonus_match_case: 8,
        penalty_distance: 4,
    }
}

impl Scoring {
    /// Creates a new configuration with the given bonuses/penalties.
    pub fn new(
        bonus_consecutive: isize,
        bonus_word_start: isize,
        bonus_match_case: isize,
        penalty_distance: isize,
    ) -> (s: Self)
        ensures
            s == (Scoring { bonus_consecutive, bonus_word_start, bonus_match_case, penalty_distance }),
    {
        Scoring {
            bonus_consecutive,
            bonus_word_start,
            bonus_match_case,
            penalty_distance,
        }
    }

    /// Creates a configuration that emphasizes matching word starts (this is also the default).
    pub fn emphasize_word_starts() -> (s: Self)
        ensures
            s == default_scoring(),
    {
        Scoring::new(8, 72, 8, 4)
    }

    /// Creates a configuration that emphasizes short distances between matched chars.
    pub fn emphasize_distance() -> (s: Self)
        ensures
            s == (Scoring {
                bonus_consecutive: 12,
                bonus_word_start: 24,
                bonus_match_case: 8,
                penalty_distance: 12,
            }),
    {
        Scoring::new(12, 24, 8, 12)
    }
}

impl Default for Scoring {
    /// Creates a default configuration, see [`Scoring::emphasize_word_starts`].
    fn default() -> (s: Self)
        ensures
            s == default_scoring(),
    {
        Scoring::emphasize_word_starts()
    }
}

} // verus!
