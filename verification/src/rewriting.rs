use vstd::prelude::*;

use crate::term::ATerm;

verus! {

/// The rewriters that can be chosen.
#[derive(Debug, Clone, Copy, PartialEq, Eq, Structural)]
pub enum Rewriter {
    Jitty,
    Innermost,
    Sabre,
}

/// Counts of the work that a rewriter does.
#[derive(Debug, Clone, Copy, PartialEq, Eq, Structural)]
pub struct RewritingStatistics {
    /// Count the number of rewrite rules applied
    pub rewrite_steps: usize,
    /// Counts the number of times symbols are compared.
    pub symbol_comparisons: usize,
    /// The number of times rewrite is called recursively (to rewrite conditions etc)
    pub recursions: usize,
}

/// No count went down from `before` to `after`.
pub open spec fn counts_grow(before: RewritingStatistics, after: RewritingStatistics) -> bool {
    &&& before.rewrite_steps <= after.rewrite_steps
    &&& before.symbol_comparisons <= after.symbol_comparisons
    &&& before.recursions <= after.recursions
}

/// One more than `x`, where `x` is not the largest value.
pub open spec fn one_more(x: usize) -> usize {
    if x < usize::MAX {
        (x + 1) as usize
    } else {
        x
    }
}

/// `x` increased by `n`, or the largest value where that does not fit.
pub open spec fn added(x: usize, n: nat) -> usize {
    if x + n <= usize::MAX {
        (x + n) as usize
    } else {
        usize::MAX
    }
}

/// Increasing by `m` and then by `n` is increasing by `m + n`.
pub proof fn lemma_added_twice(x: usize, m: nat, n: nat)
    ensures
        added(added(x, m), n) == added(x, m + n),
{
}

impl Default for RewritingStatistics {
    fn default() -> (result: RewritingStatistics)
        ensures
            result.rewrite_steps == 0,
            result.symbol_comparisons == 0,
            result.recursions == 0,
    {
        RewritingStatistics { rewrite_steps: 0, symbol_comparisons: 0, recursions: 0 }
    }
}

/// A shared trait for all the rewriters
pub trait RewriteEngine {
    /// Rewrites the given term into normal form; `None` when the rewriter
    /// runs out of its budget.
    fn rewrite(&mut self, term: ATerm) -> (result: Option<ATerm>);
}

} // verus!
