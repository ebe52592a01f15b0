//! The bookkeeping of a search run: the evaluation budget, the best solution
//! found so far and the history of improvements.

use vstd::prelude::*;
use crate::ieee::{rank, spec_is_nan, flt_lt, lt, F32_MAX_BITS};

verus! {

/// An improvement of the best score: the new score and the number of
/// evaluations spent when it was reached.
#[derive(Clone, Copy, Debug, PartialEq, Eq)]
pub struct HistoryPoint {
    pub score: u32,
    pub evaluations: usize,
}

/// State of a search run.
pub struct SearchState {
    /// Evaluations of the objective spent so far.
    pub current_evaluations: usize,
    /// Evaluation count at the last improvement of the best score.
    pub last_improvement: usize,
    /// Best score so far, `f32::MAX` before any improvement.
    pub best_score: u32,
    /// Labels of the best solution so far, empty before any improvement.
    pub best_solution: Vec<usize>,
    /// Every improvement, in the order they happened.
    pub history: Vec<HistoryPoint>,
}

impl SearchState {
    /// The state is consistent: the best score is the last one in the history
    /// (or `f32::MAX` with an empty history), the history improves strictly
    /// and its evaluation counts never exceed the current one.
    pub open spec fn wf(&self) -> bool {
        &&& self.last_improvement <= self.current_evaluations
        &&& !spec_is_nan(self.best_score)
        &&& rank(self.best_score) <= rank(F32_MAX_BITS)
        &&& forall|a: int, b: int|
            0 <= a < b < self.history@.len() ==> flt_lt(
                #[trigger] self.history@[b].score,
                #[trigger] self.history@[a].score,
            ) && self.history@[a].evaluations <= self.history@[b].evaluations
        &&& forall|a: int|
            0 <= a < self.history@.len() ==> #[trigger] self.history@[a].evaluations <= self.current_evaluations
        &&& forall|a: int|
            0 <= a < self.history@.len() ==> flt_lt(#[trigger] self.history@[a].score, F32_MAX_BITS)
        &&& self.history@.len() > 0 ==> self.best_score == self.history@.last().score
            && self.last_improvement == self.history@.last().evaluations
        &&& self.history@.len() == 0 ==> self.best_score == F32_MAX_BITS
    }

    /// A fresh run: nothing spent, nothing found.
    pub fn new() -> (s: SearchState)
        ensures
            s.wf(),
            s.current_evaluations == 0,
            s.last_improvement == 0,
            s.best_score == F32_MAX_BITS,
            s.best_solution@.len() == 0,
            s.history@.len() == 0,
    {
        SearchState {
            current_evaluations: 0,
            last_improvement: 0,
            best_score: F32_MAX_BITS,
            best_solution: Vec::new(),
            history: Vec::new(),
        }
    }

    /// Whether evaluations remain before the budget `max_evaluations`.
    pub fn budget_left(&self, max_evaluations: usize) -> (r: bool)
        ensures
            r == (self.current_evaluations < max_evaluations),
    {
        self.current_evaluations < max_evaluations
    }

    /// Counts `n` more evaluations.
    pub fn add_evaluations(&mut self, n: usize)
        requires
            old(self).wf(),
            old(self).current_evaluations + n <= usize::MAX,
        ensures
            final(self).wf(),
            final(self).current_evaluations == old(self).current_evaluations + n,
            final(self).last_improvement == old(self).last_improvement,
            final(self).best_score == old(self).best_score,
            final(self).best_solution@ == old(self).best_solution@,
            final(self).history@ == old(self).history@,
    {
        self.current_evaluations = self.current_evaluations + n;
    }

    /// Whether more than `threshold` evaluations have passed since the last
    /// improvement.
    pub fn stagnant(&self, threshold: usize) -> (r: bool)
        requires
            self.wf(),
        ensures
            r == (self.current_evaluations - self.last_improvement > threshold),
    {
        self.current_evaluations - self.last_improvement > threshold
    }

    /// Takes `score` and `solution` as the new best when the score is strictly
    /// below the best so far, and records the improvement; returns whether it
    /// did.
    pub fn improve(&mut self, score: u32, solution: &Vec<usize>) -> (improved: bool)
        requires
            old(self).wf(),
        ensures
            final(self).wf(),
            improved == flt_lt(score, old(self).best_score),
            final(self).current_evaluations == old(self).current_evaluations,
            improved ==> final(self).best_score == score && final(self).best_solution@ == solution@
                && final(self).last_improvement == old(self).current_evaluations
                && final(self).history@ == old(self).history@.push(
                HistoryPoint { score, evaluations: old(self).current_evaluations },
            ),
            !improved ==> final(self).best_score == old(self).best_score && final(self).best_solution@
                == old(self).best_solution@ && final(self).last_improvement == old(self).last_improvement
                && final(self).history@ == old(self).history@,
            rank(final(self).best_score) <= rank(old(self).best_score),
    {
        if lt(score, self.best_score) {
            self.best_score = score;
            self.best_solution = solution.clone();
            assert(self.best_solution@ =~= solution@);
            self.last_improvement = self.current_evaluations;
            let point = HistoryPoint { score, evaluations: self.current_evaluations };
            self.history.push(point);
            true
        } else {
            false
        }
    }
}

/// Across any sequence of steps that each keep the state consistent, the best
/// score only falls: it is at most every score the history has recorded.
pub proof fn lemma_best_is_least_recorded(s: SearchState)
    requires
        s.wf(),
    ensures
        forall|a: int| 0 <= a < s.history@.len() ==> rank(s.best_score) <= rank(#[trigger] s.history@[a].score),
        forall|a: int| 0 <= a < s.history@.len() - 1 ==> rank(s.best_score) < rank(#[trigger] s.history@[a].score),
{
    assert forall|a: int| 0 <= a < s.history@.len() - 1 implies rank(s.best_score) < rank(
        #[trigger] s.history@[a].score,
    ) by {
        let last = s.history@.len() - 1;
        assert(flt_lt(s.history@[last].score, s.history@[a].score));
    }
}

} // verus!
