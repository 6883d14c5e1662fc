//! How a build is configured, and the counts it reports.

use vstd::prelude::*;

verus! {

/// The policy by which candidate merges are chosen.
#[derive(Clone, Copy, Debug, PartialEq, Eq, Structural)]
pub enum MergeRule {
    /// Merge disjoint pairs from left to right, without looking ahead.
    SimplifiedStandardRules,
    /// Prefer a pair whose cluster exists already, also the pair that
    /// overlaps the one at hand.
    FastAdvancedRules,
    /// Every fifth round as the fast advanced rules; in between merge only
    /// pairs whose cluster exists already.
    SlowAdvancedRules,
}

/// The configuration of a build.
#[derive(Debug)]
pub struct Flags {
    /// The merge policy.
    pub merge_rule: MergeRule,
    /// The growth throttle: in round `r`, counted from 1, a merge is put
    /// off when a child's id is above `slowing_down[r]`. Rounds beyond the
    /// end of the list are not throttled; the empty list throttles nothing.
    pub slowing_down: Vec<usize>,
}

impl Default for Flags {
    fn default() -> (flags: Flags)
        ensures
            flags.merge_rule == MergeRule::SimplifiedStandardRules,
            flags.slowing_down@ == Seq::<usize>::empty(),
    {
        Flags { merge_rule: MergeRule::SimplifiedStandardRules, slowing_down: Vec::new() }
    }
}

/// What holds for all merges of one round: the policy, the number of the
/// round, and the ceiling that the throttle puts on child ids in it.
#[derive(Clone, Copy, Debug)]
pub struct Round {
    pub rule: MergeRule,
    pub step: usize,
    pub ceiling: Option<usize>,
}

impl Round {
    /// The throttle puts a merge of children `first` and `second` off.
    pub open spec fn throttles(self, first: usize, second: usize) -> bool {
        self.ceiling matches Some(c) && (first > c || second > c)
    }

    /// Whether the throttle puts a merge of children `first` and `second` off.
    pub fn is_throttled(&self, first: usize, second: usize) -> (off: bool)
        ensures
            off == self.throttles(first, second),
    {
        match self.ceiling {
            Some(c) => first > c || second > c,
            None => false,
        }
    }
}

impl Flags {
    /// The ceiling that the throttle puts on child ids in round `step`.
    pub open spec fn ceiling_at(self, step: usize) -> Option<usize> {
        if step < self.slowing_down@.len() {
            Some(self.slowing_down@[step as int])
        } else {
            None
        }
    }

    /// What holds for all merges of round `step`.
    pub fn round(&self, step: usize) -> (round: Round)
        ensures
            round == (Round { rule: self.merge_rule, step, ceiling: self.ceiling_at(step) }),
    {
        let ceiling = if step < self.slowing_down.len() {
            Some(self.slowing_down[step])
        } else {
            None
        };
        Round { rule: self.merge_rule, step, ceiling }
    }
}

/// The counts of one build.
#[derive(Clone, Copy, Debug)]
pub struct Statistic {
    pub number_of_merge_rounds: usize,
    pub number_of_nodes_in_io_tree: usize,
    pub number_of_leafs_in_io_tree: usize,
    pub number_of_edges_in_io_tree: usize,
    pub number_of_leafs_in_top_dag: usize,
    pub number_of_nodes_in_top_dag: usize,
}

impl Statistic {
    /// All counts at zero.
    pub fn new() -> (statistic: Statistic)
        ensures
            statistic == (Statistic {
                number_of_merge_rounds: 0,
                number_of_nodes_in_io_tree: 0,
                number_of_leafs_in_io_tree: 0,
                number_of_edges_in_io_tree: 0,
                number_of_leafs_in_top_dag: 0,
                number_of_nodes_in_top_dag: 0,
            }),
    {
        Statistic {
            number_of_merge_rounds: 0,
            number_of_nodes_in_io_tree: 0,
            number_of_leafs_in_io_tree: 0,
            number_of_edges_in_io_tree: 0,
            number_of_leafs_in_top_dag: 0,
            number_of_nodes_in_top_dag: 0,
        }
    }
}

} // verus!
