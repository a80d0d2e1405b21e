//! The transition-rule model: relational operators, condition combiners,
//! neighbor-count conditions, and guarded transition rules.

use vstd::prelude::*;

verus! {

/// A comparison between a neighbor count and a threshold.
#[derive(Clone, Copy, PartialEq, Eq, Structural, Debug)]
pub enum RelationalOperator {
    Equals,
    NotEquals,
    LessThan,
    LessOrEqual,
    GreaterThan,
    GreaterOrEqual,
}

/// What `op.evaluate(count, threshold)` returns.
pub open spec fn spec_evaluate(op: RelationalOperator, count: u8, threshold: u8) -> bool {
    match op {
        RelationalOperator::Equals => count == threshold,
        RelationalOperator::NotEquals => count != threshold,
        RelationalOperator::LessThan => count < threshold,
        RelationalOperator::LessOrEqual => count <= threshold,
        RelationalOperator::GreaterThan => count > threshold,
        RelationalOperator::GreaterOrEqual => count >= threshold,
    }
}

impl RelationalOperator {
    /// Compare a neighbor count against a threshold.
    pub fn evaluate(&self, count: u8, threshold: u8) -> (r: bool)
        ensures
            r == spec_evaluate(*self, count, threshold),
    {
        match self {
            RelationalOperator::Equals => count == threshold,
            RelationalOperator::NotEquals => count != threshold,
            RelationalOperator::LessThan => count < threshold,
            RelationalOperator::LessOrEqual => count <= threshold,
            RelationalOperator::GreaterThan => count > threshold,
            RelationalOperator::GreaterOrEqual => count >= threshold,
        }
    }
}

/// The boolean operator joining two consecutive conditions, applied strictly
/// left-to-right with no precedence.
#[derive(Clone, Copy, PartialEq, Eq, Structural, Debug)]
pub enum ConditionCombiner {
    And,
    Or,
    Xor,
}

/// What `comb.combine(a, b)` returns.
pub open spec fn spec_combine(comb: ConditionCombiner, a: bool, b: bool) -> bool {
    match comb {
        ConditionCombiner::And => a && b,
        ConditionCombiner::Or => a || b,
        ConditionCombiner::Xor => a != b,
    }
}

impl ConditionCombiner {
    /// Fold one more condition result into a running boolean.
    pub fn combine(&self, a: bool, b: bool) -> (r: bool)
        ensures
            r == spec_combine(*self, a, b),
    {
        match self {
            ConditionCombiner::And => a && b,
            ConditionCombiner::Or => a || b,
            ConditionCombiner::Xor => a != b,
        }
    }
}

/// One neighbor-count comparison: `count(neighbor_state_id) op threshold`.
#[derive(Clone, Copy, PartialEq, Eq, Structural, Debug)]
pub struct Condition {
    pub neighbor_state_id: u8,
    pub operator: RelationalOperator,
    pub threshold: u8,
}

/// Probabilities are fixed-point parts-per-million: this value stands for
/// certainty (a probability of one).
pub const PROB_ONE: u32 = 1_000_000;

/// A guarded rewrite rule: if a cell is in `current_state_id`, its
/// neighbor-count conditions (joined left-to-right by the combiners) hold,
/// and a stochastic gate with the given probability passes, the cell becomes
/// `next_state_id`.
#[derive(Clone, Debug, PartialEq)]
pub struct TransitionRule {
    pub current_state_id: u8,
    pub conditions: Vec<Condition>,
    pub combiners: Vec<ConditionCombiner>,
    pub next_state_id: u8,
    /// Fixed-point probability in `[0, PROB_ONE]`.
    pub probability: u32,
}

/// The mathematical model of a [`TransitionRule`].
pub ghost struct RuleModel {
    pub current_state_id: u8,
    pub conditions: Seq<Condition>,
    pub combiners: Seq<ConditionCombiner>,
    pub next_state_id: u8,
    pub probability: u32,
}

impl View for TransitionRule {
    type V = RuleModel;

    open spec fn view(&self) -> RuleModel {
        RuleModel {
            current_state_id: self.current_state_id,
            conditions: self.conditions@,
            combiners: self.combiners@,
            next_state_id: self.next_state_id,
            probability: self.probability,
        }
    }
}

impl RuleModel {
    /// Structural validity: one combiner between each pair of consecutive
    /// conditions, and a probability within the fixed-point unit range.
    pub open spec fn wf(self) -> bool {
        &&& self.combiners.len() == if self.conditions.len() == 0 {
            0int
        } else {
            self.conditions.len() - 1
        }
        &&& self.probability <= PROB_ONE
    }
}

/// The models of a whole ruleset, in declaration order.
pub open spec fn ruleset_model(rules: Seq<TransitionRule>) -> Seq<RuleModel> {
    rules.map_values(|r: TransitionRule| r@)
}

/// Structural validity of every rule in a ruleset.
pub open spec fn ruleset_wf(rules: Seq<RuleModel>) -> bool {
    forall|i: int| 0 <= i < rules.len() ==> (#[trigger] rules[i]).wf()
}

impl TransitionRule {
    /// Structural validity, checked at rule-construction time so that
    /// malformed rules never reach the stepper.
    pub fn check_wf(&self) -> (r: bool)
        ensures
            r == self@.wf(),
    {
        let want: usize = if self.conditions.len() == 0 {
            0
        } else {
            self.conditions.len() - 1
        };
        self.combiners.len() == want && self.probability <= PROB_ONE
    }
}

} // verus!
