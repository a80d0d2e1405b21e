//! The rule-grammar serializer: states, rules and grid dimensions emitted
//! as the text block the parser reads back.

use vstd::prelude::*;
use crate::parser::{kw_and3, kw_and3_vec, kw_count_open, kw_count_open_vec, kw_if, kw_if_vec,
    kw_nocond, kw_nocond_vec, kw_op_eq, kw_op_eq_vec, kw_op_ge, kw_op_ge_vec, kw_op_gt,
    kw_op_gt_vec, kw_op_le, kw_op_le_vec, kw_op_lt, kw_op_lt_vec, kw_op_ne, kw_op_ne_vec, kw_or2,
    kw_or2_vec, kw_then, kw_then_vec, kw_with, kw_with_vec, kw_xor3, kw_xor3_vec,
    strip_suffix_rep};
use crate::registry::{CAState, StateModel, find_state_name_by_id, registry_model,
    spec_name_of_id};
use crate::rules::{Condition, ConditionCombiner, PROB_ONE, RelationalOperator, RuleModel,
    TransitionRule, ruleset_model};

verus! {

/// The decimal digits of a nonnegative number.
pub open spec fn spec_fmt_nat(n: int) -> Seq<u8>
    decreases n,
{
    if n <= 9 {
        seq![(48 + (if n < 0 { 0int } else { n })) as u8]
    } else {
        spec_fmt_nat(n / 10).push((48 + n % 10) as u8)
    }
}

/// The decimal digits of `n`, executably.
pub fn fmt_u64(n: u64) -> (r: Vec<u8>)
    ensures
        r@ == spec_fmt_nat(n as int),
    decreases n,
{
    if n <= 9 {
        let r: Vec<u8> = vec![48 + n as u8];
        proof {
            assert(r@ =~= spec_fmt_nat(n as int));
        }
        r
    } else {
        let mut r = fmt_u64(n / 10);
        r.push(48 + (n % 10) as u8);
        r
    }
}

/// The token a relational operator serializes to.
pub open spec fn spec_op_token(op: RelationalOperator) -> Seq<u8> {
    match op {
        RelationalOperator::Equals => kw_op_eq(),
        RelationalOperator::NotEquals => kw_op_ne(),
        RelationalOperator::LessThan => kw_op_lt(),
        RelationalOperator::LessOrEqual => kw_op_le(),
        RelationalOperator::GreaterThan => kw_op_gt(),
        RelationalOperator::GreaterOrEqual => kw_op_ge(),
    }
}

/// The token a combiner serializes to.
pub open spec fn spec_comb_token(c: ConditionCombiner) -> Seq<u8> {
    match c {
        ConditionCombiner::And => kw_and3(),
        ConditionCombiner::Or => kw_or2(),
        ConditionCombiner::Xor => kw_xor3(),
    }
}

/// The display name of a state id: its registry name, or `State <id>` for
/// an id the registry does not carry.
pub open spec fn spec_display_name(states: Seq<StateModel>, id: u8) -> Seq<u8> {
    match spec_name_of_id(states, id) {
        Some(n) => n,
        None => seq![83u8, 116u8, 97u8, 116u8, 101u8, 32u8] + spec_fmt_nat(id as int),
    }
}

/// One serialized condition: `count(<name>) <op> <threshold>`.
pub open spec fn spec_cond_str(states: Seq<StateModel>, c: Condition) -> Seq<u8> {
    kw_count_open() + spec_display_name(states, c.neighbor_state_id) + seq![41u8, 32u8]
        + spec_op_token(c.operator) + seq![32u8] + spec_fmt_nat(c.threshold as int)
}

/// The first `n` conditions joined by their combiners, left to right.
pub open spec fn spec_conds_prefix_str(
    states: Seq<StateModel>,
    conds: Seq<Condition>,
    combs: Seq<ConditionCombiner>,
    n: int,
) -> Seq<u8>
    decreases n,
{
    if n <= 1 {
        spec_cond_str(states, conds[0])
    } else {
        spec_conds_prefix_str(states, conds, combs, n - 1) + seq![32u8] + spec_comb_token(
            combs[n - 2],
        ) + seq![32u8] + spec_cond_str(states, conds[n - 1])
    }
}

/// The serialized condition region of a rule: `(no conditions)` for an
/// empty list, else the full left-to-right join.
pub open spec fn spec_conds_str(
    states: Seq<StateModel>,
    conds: Seq<Condition>,
    combs: Seq<ConditionCombiner>,
) -> Seq<u8> {
    if conds.len() == 0 {
        kw_nocond()
    } else {
        spec_conds_prefix_str(states, conds, combs, conds.len() as int)
    }
}

/// A fixed-point probability rendered as a decimal: `1` for certainty, `0`
/// for impossibility, else `0.` followed by the six-digit fraction with
/// trailing zeros trimmed.
pub open spec fn spec_fmt_prob(p: u32) -> Seq<u8> {
    if p == PROB_ONE {
        seq![49u8]
    } else if p == 0 {
        seq![48u8]
    } else {
        seq![48u8, 46u8] + strip_suffix_rep(spec_pad6(p as int), 48)
    }
}

/// Six zero-padded decimal digits.
pub open spec fn spec_pad6(n: int) -> Seq<u8> {
    seq![
        (48 + (n / 100_000) % 10) as u8,
        (48 + (n / 10_000) % 10) as u8,
        (48 + (n / 1_000) % 10) as u8,
        (48 + (n / 100) % 10) as u8,
        (48 + (n / 10) % 10) as u8,
        (48 + n % 10) as u8,
    ]
}

/// One serialized rule line (without indentation or newline).
pub open spec fn spec_rule_line(states: Seq<StateModel>, rule: RuleModel) -> Seq<u8> {
    kw_if() + seq![32u8, 39u8] + spec_display_name(states, rule.current_state_id) + seq![39u8, 32u8]
        + kw_and3() + seq![32u8] + spec_conds_str(states, rule.conditions, rule.combiners) + seq![
        32u8,
    ] + kw_then() + seq![32u8, 39u8] + spec_display_name(states, rule.next_state_id) + seq![
        39u8,
        32u8,
    ] + kw_with() + seq![32u8] + spec_fmt_prob(rule.probability)
}

/// One serialized state line: `    <name>(<r>, <g>, <b>, <weight>)` and a
/// newline.
pub open spec fn spec_state_line(s: StateModel) -> Seq<u8> {
    seq![32u8, 32u8, 32u8, 32u8] + s.name + seq![40u8] + spec_fmt_nat(s.color.r as int) + seq![
        44u8,
        32u8,
    ] + spec_fmt_nat(s.color.g as int) + seq![44u8, 32u8] + spec_fmt_nat(s.color.b as int) + seq![
        44u8,
        32u8,
    ] + spec_fmt_nat(s.weight as int) + seq![41u8, 10u8]
}

/// The first `n` serialized state lines.
pub open spec fn spec_state_lines(states: Seq<StateModel>, n: int) -> Seq<u8>
    decreases n,
{
    if n <= 0 {
        Seq::empty()
    } else {
        spec_state_lines(states, n - 1) + spec_state_line(states[n - 1])
    }
}

/// The first `n` serialized rule lines, each indented and newline-ended.
pub open spec fn spec_rule_lines(states: Seq<StateModel>, rules: Seq<RuleModel>, n: int) -> Seq<u8>
    decreases n,
{
    if n <= 0 {
        Seq::empty()
    } else {
        spec_rule_lines(states, rules, n - 1) + seq![32u8, 32u8, 32u8, 32u8] + spec_rule_line(
            states,
            rules[n - 1],
        ) + seq![10u8]
    }
}

/// The whole export: the dimension line, the `STATE { ... }` block, a blank
/// line, and the `RULES { ... }` block.
pub open spec fn spec_export(
    states: Seq<StateModel>,
    rules: Seq<RuleModel>,
    width: int,
    height: int,
) -> Seq<u8> {
    seq![87u8, 73u8, 68u8, 84u8, 72u8, 32u8] + spec_fmt_nat(width) + seq![
        32u8,
        72u8,
        69u8,
        73u8,
        71u8,
        72u8,
        84u8,
        32u8,
    ] + spec_fmt_nat(height) + seq![10u8] + seq![83u8, 84u8, 65u8, 84u8, 69u8, 32u8, 123u8, 10u8]
        + spec_state_lines(states, states.len() as int) + seq![125u8, 10u8, 10u8] + seq![
        82u8,
        85u8,
        76u8,
        69u8,
        83u8,
        32u8,
        123u8,
        10u8,
    ] + spec_rule_lines(states, rules, rules.len() as int) + seq![125u8, 10u8]
}

/// Append bytes to an output buffer.
fn push_bytes(out: &mut Vec<u8>, s: &[u8])
    ensures
        final(out)@ == old(out)@ + s@,
{
    out.extend_from_slice(s);
}

/// Append one byte to an output buffer.
fn push_byte(out: &mut Vec<u8>, b: u8)
    ensures
        final(out)@ == old(out)@ + seq![b],
{
    out.push(b);
    proof {
        assert(out@ =~= old(out)@ + seq![b]);
    }
}

/// Append the display name of a state id.
fn push_display_name(out: &mut Vec<u8>, states: &Vec<CAState>, id: u8)
    ensures
        final(out)@ == old(out)@ + spec_display_name(registry_model(states@), id),
{
    match find_state_name_by_id(states, id) {
        Some(name) => {
            push_bytes(out, name.as_slice());
        },
        None => {
            let prefix: Vec<u8> = vec![83u8, 116u8, 97u8, 116u8, 101u8, 32u8];
            push_bytes(out, prefix.as_slice());
            let digits = fmt_u64(id as u64);
            push_bytes(out, digits.as_slice());
            proof {
                assert(prefix@ =~= seq![83u8, 116u8, 97u8, 116u8, 101u8, 32u8]);
                assert(out@ =~= old(out)@ + spec_display_name(registry_model(states@), id));
            }
        },
    }
}

/// Append one serialized condition.
fn push_cond(out: &mut Vec<u8>, states: &Vec<CAState>, c: &Condition)
    ensures
        final(out)@ == old(out)@ + spec_cond_str(registry_model(states@), *c),
{
    let kw = kw_count_open_vec();
    push_bytes(out, kw.as_slice());
    push_display_name(out, states, c.neighbor_state_id);
    push_byte(out, 41);
    push_byte(out, 32);
    let opt = op_token_vec(c.operator);
    push_bytes(out, opt.as_slice());
    push_byte(out, 32);
    let thr = fmt_u64(c.threshold as u64);
    push_bytes(out, thr.as_slice());
    proof {
        assert(out@ =~= old(out)@ + spec_cond_str(registry_model(states@), *c));
    }
}

/// The serialized token of an operator, executably.
fn op_token_vec(op: RelationalOperator) -> (r: Vec<u8>)
    ensures
        r@ == spec_op_token(op),
{
    match op {
        RelationalOperator::Equals => kw_op_eq_vec(),
        RelationalOperator::NotEquals => kw_op_ne_vec(),
        RelationalOperator::LessThan => kw_op_lt_vec(),
        RelationalOperator::LessOrEqual => kw_op_le_vec(),
        RelationalOperator::GreaterThan => kw_op_gt_vec(),
        RelationalOperator::GreaterOrEqual => kw_op_ge_vec(),
    }
}

/// The serialized token of a combiner, executably.
fn comb_token_vec(c: ConditionCombiner) -> (r: Vec<u8>)
    ensures
        r@ == spec_comb_token(c),
{
    match c {
        ConditionCombiner::And => kw_and3_vec(),
        ConditionCombiner::Or => kw_or2_vec(),
        ConditionCombiner::Xor => kw_xor3_vec(),
    }
}

impl TransitionRule {
    /// The serialized condition region of this rule: `(no conditions)` when
    /// the condition list is empty, else the conditions joined by their
    /// combiners, left to right.
    pub fn conditions_as_string(&self, states: &Vec<CAState>) -> (r: Vec<u8>)
        requires
            self@.wf(),
        ensures
            r@ == spec_conds_str(registry_model(states@), self@.conditions, self@.combiners),
    {
        let mut out: Vec<u8> = Vec::new();
        let n = self.conditions.len();
        if n == 0 {
            let kw = kw_nocond_vec();
            push_bytes(&mut out, kw.as_slice());
            proof {
                assert(out@ =~= spec_conds_str(
                    registry_model(states@),
                    self@.conditions,
                    self@.combiners,
                ));
            }
            return out;
        }
        push_cond(&mut out, states, &self.conditions[0]);
        proof {
            assert(out@ =~= spec_conds_prefix_str(
                registry_model(states@),
                self@.conditions,
                self@.combiners,
                1,
            ));
        }
        let mut i: usize = 1;
        while i < n
            invariant
                self@.wf(),
                n == self.conditions@.len(),
                1 <= i <= n,
                out@ == spec_conds_prefix_str(
                    registry_model(states@),
                    self@.conditions,
                    self@.combiners,
                    i as int,
                ),
            decreases n - i,
        {
            push_byte(&mut out, 32);
            let ct = comb_token_vec(self.combiners[i - 1]);
            push_bytes(&mut out, ct.as_slice());
            push_byte(&mut out, 32);
            push_cond(&mut out, states, &self.conditions[i]);
            proof {
                assert(out@ =~= spec_conds_prefix_str(
                    registry_model(states@),
                    self@.conditions,
                    self@.combiners,
                    i + 1,
                ));
            }
            i += 1;
        }
        out
    }
}

/// Append the rendered probability.
fn push_prob(out: &mut Vec<u8>, p: u32)
    requires
        p <= PROB_ONE,
    ensures
        final(out)@ == old(out)@ + spec_fmt_prob(p),
{
    if p == PROB_ONE {
        push_byte(out, 49);
    } else if p == 0 {
        push_byte(out, 48);
    } else {
        let d0 = 48 + ((p / 100_000) % 10) as u8;
        let d1 = 48 + ((p / 10_000) % 10) as u8;
        let d2 = 48 + ((p / 1_000) % 10) as u8;
        let d3 = 48 + ((p / 100) % 10) as u8;
        let d4 = 48 + ((p / 10) % 10) as u8;
        let d5 = 48 + (p % 10) as u8;
        let padded: Vec<u8> = vec![d0, d1, d2, d3, d4, d5];
        proof {
            assert(padded@ =~= spec_pad6(p as int));
        }
        let digits = crate::parser::strip_suffix_rep_vec_pub(padded.as_slice(), 48);
        push_byte(out, 48);
        push_byte(out, 46);
        push_bytes(out, digits.as_slice());
        proof {
            assert(out@ =~= old(out)@ + spec_fmt_prob(p));
        }
    }
}

/// Append one serialized rule line (no indentation, no newline).
#[verifier::rlimit(100)]
fn push_rule_line(out: &mut Vec<u8>, states: &Vec<CAState>, rule: &TransitionRule)
    requires
        rule@.wf(),
    ensures
        final(out)@ == old(out)@ + spec_rule_line(registry_model(states@), rule@),
{
    let kif = kw_if_vec();
    push_bytes(out, kif.as_slice());
    push_byte(out, 32);
    push_byte(out, 39);
    push_display_name(out, states, rule.current_state_id);
    push_byte(out, 39);
    push_byte(out, 32);
    let kand = kw_and3_vec();
    push_bytes(out, kand.as_slice());
    push_byte(out, 32);
    let conds = rule.conditions_as_string(states);
    push_bytes(out, conds.as_slice());
    push_byte(out, 32);
    let kthen = kw_then_vec();
    push_bytes(out, kthen.as_slice());
    push_byte(out, 32);
    push_byte(out, 39);
    push_display_name(out, states, rule.next_state_id);
    push_byte(out, 39);
    push_byte(out, 32);
    let kwith = kw_with_vec();
    push_bytes(out, kwith.as_slice());
    push_byte(out, 32);
    push_prob(out, rule.probability);
    proof {
        assert(out@ =~= old(out)@ + spec_rule_line(registry_model(states@), rule@));
    }
}

/// Serialize the registry, the ruleset and the grid dimensions as the
/// export text block.
#[verifier::rlimit(100)]
pub fn export_model(
    states: &Vec<CAState>,
    rules: &Vec<TransitionRule>,
    width: usize,
    height: usize,
) -> (r: Vec<u8>)
    requires
        forall|i: int| 0 <= i < rules@.len() ==> (#[trigger] rules@[i]@).wf(),
    ensures
        r@ == spec_export(
            registry_model(states@),
            ruleset_model(rules@),
            width as int,
            height as int,
        ),
{
    let ghost smodels = registry_model(states@);
    let ghost rmodels = ruleset_model(rules@);
    let mut out: Vec<u8> = Vec::new();
    let wkw: Vec<u8> = vec![87u8, 73u8, 68u8, 84u8, 72u8, 32u8];
    push_bytes(&mut out, wkw.as_slice());
    let wd = fmt_u64(width as u64);
    push_bytes(&mut out, wd.as_slice());
    let hkw: Vec<u8> = vec![32u8, 72u8, 69u8, 73u8, 71u8, 72u8, 84u8, 32u8];
    push_bytes(&mut out, hkw.as_slice());
    let hd = fmt_u64(height as u64);
    push_bytes(&mut out, hd.as_slice());
    push_byte(&mut out, 10);
    let skw: Vec<u8> = vec![83u8, 84u8, 65u8, 84u8, 69u8, 32u8, 123u8, 10u8];
    push_bytes(&mut out, skw.as_slice());
    let ghost header = out@;

    let ns = states.len();
    let mut i: usize = 0;
    while i < ns
        invariant
            ns == states@.len(),
            i <= ns,
            smodels == registry_model(states@),
            out@ == header + spec_state_lines(smodels, i as int),
        decreases ns - i,
    {
        let indent: Vec<u8> = vec![32u8, 32u8, 32u8, 32u8];
        push_bytes(&mut out, indent.as_slice());
        let st = &states[i];
        push_bytes(&mut out, st.name.as_slice());
        push_byte(&mut out, 40);
        let rr = fmt_u64(st.color.r as u64);
        push_bytes(&mut out, rr.as_slice());
        push_byte(&mut out, 44);
        push_byte(&mut out, 32);
        let gg = fmt_u64(st.color.g as u64);
        push_bytes(&mut out, gg.as_slice());
        push_byte(&mut out, 44);
        push_byte(&mut out, 32);
        let bb = fmt_u64(st.color.b as u64);
        push_bytes(&mut out, bb.as_slice());
        push_byte(&mut out, 44);
        push_byte(&mut out, 32);
        let ww = fmt_u64(st.weight as u64);
        push_bytes(&mut out, ww.as_slice());
        push_byte(&mut out, 41);
        push_byte(&mut out, 10);
        proof {
            assert(smodels[i as int] == states@[i as int]@);
            assert(out@ =~= header + spec_state_lines(smodels, i + 1));
        }
        i += 1;
    }

    let close1: Vec<u8> = vec![125u8, 10u8, 10u8];
    push_bytes(&mut out, close1.as_slice());
    let rkw: Vec<u8> = vec![82u8, 85u8, 76u8, 69u8, 83u8, 32u8, 123u8, 10u8];
    push_bytes(&mut out, rkw.as_slice());
    let ghost mid = out@;

    let nr = rules.len();
    let mut j: usize = 0;
    while j < nr
        invariant
            nr == rules@.len(),
            j <= nr,
            smodels == registry_model(states@),
            rmodels == ruleset_model(rules@),
            forall|k: int| 0 <= k < rules@.len() ==> (#[trigger] rules@[k]@).wf(),
            out@ == mid + spec_rule_lines(smodels, rmodels, j as int),
        decreases nr - j,
    {
        let indent: Vec<u8> = vec![32u8, 32u8, 32u8, 32u8];
        push_bytes(&mut out, indent.as_slice());
        push_rule_line(&mut out, states, &rules[j]);
        push_byte(&mut out, 10);
        proof {
            assert(rmodels[j as int] == rules@[j as int]@);
            assert(out@ =~= mid + spec_rule_lines(smodels, rmodels, j + 1));
        }
        j += 1;
    }

    let close2: Vec<u8> = vec![125u8, 10u8];
    push_bytes(&mut out, close2.as_slice());
    proof {
        assert(out@ =~= spec_export(smodels, rmodels, width as int, height as int));
    }
    out
}

} // verus!
