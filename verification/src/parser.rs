//! The rule-line parser: the textual grammar
//! `IF current is '<name>' AND <conditions> THEN next is '<name>' WITH PROB <p>`,
//! parsed exactly as the specification-level grammar functions describe it.
//!
//! Leniency policy: unknown neighbor-state names degrade to id 0, missing or
//! unparseable operators, thresholds and probabilities take documented
//! defaults; unknown current/next state names and missing keywords or quotes
//! are hard errors, and the offending line is dropped by the importer.

use vstd::prelude::*;
use crate::registry::{CAState, StateModel, bytes_eq, find_state_id_by_name, registry_model,
    spec_lookup_name};
use crate::rules::{Condition, ConditionCombiner, PROB_ONE, RelationalOperator, RuleModel,
    TransitionRule};
use crate::scan::{all_digits, digits_val, find_sub, is_digit, matches_at, parse_u8_bytes,
    spec_find, spec_parse_u8, spec_split_ws, spec_trim, split_ws_vec, starts_with_bytes,
    subrange_vec, trim_vec};

verus! {

/// The bytes of `"IF current is"`.
pub open spec fn kw_if() -> Seq<u8> {
    seq![73u8, 70u8, 32u8, 99u8, 117u8, 114u8, 114u8, 101u8, 110u8, 116u8, 32u8, 105u8, 115u8]
}

/// The bytes of `"IF current is"`, executably.
pub fn kw_if_vec() -> (r: Vec<u8>)
    ensures
        r@ == kw_if(),
{
    let r: Vec<u8> = vec![73u8, 70u8, 32u8, 99u8, 117u8, 114u8, 114u8, 101u8, 110u8, 116u8, 32u8, 105u8, 115u8];
    proof {
        assert(r@ =~= kw_if());
    }
    r
}

/// The bytes of `"THEN next is"`.
pub open spec fn kw_then() -> Seq<u8> {
    seq![84u8, 72u8, 69u8, 78u8, 32u8, 110u8, 101u8, 120u8, 116u8, 32u8, 105u8, 115u8]
}

/// The bytes of `"THEN next is"`, executably.
pub fn kw_then_vec() -> (r: Vec<u8>)
    ensures
        r@ == kw_then(),
{
    let r: Vec<u8> = vec![84u8, 72u8, 69u8, 78u8, 32u8, 110u8, 101u8, 120u8, 116u8, 32u8, 105u8, 115u8];
    proof {
        assert(r@ =~= kw_then());
    }
    r
}

/// The bytes of `"WITH PROB"`.
pub open spec fn kw_with() -> Seq<u8> {
    seq![87u8, 73u8, 84u8, 72u8, 32u8, 80u8, 82u8, 79u8, 66u8]
}

/// The bytes of `"WITH PROB"`, executably.
pub fn kw_with_vec() -> (r: Vec<u8>)
    ensures
        r@ == kw_with(),
{
    let r: Vec<u8> = vec![87u8, 73u8, 84u8, 72u8, 32u8, 80u8, 82u8, 79u8, 66u8];
    proof {
        assert(r@ =~= kw_with());
    }
    r
}

/// The bytes of `"(no conditions)"`.
pub open spec fn kw_nocond() -> Seq<u8> {
    seq![40u8, 110u8, 111u8, 32u8, 99u8, 111u8, 110u8, 100u8, 105u8, 116u8, 105u8, 111u8, 110u8, 115u8, 41u8]
}

/// The bytes of `"(no conditions)"`, executably.
pub fn kw_nocond_vec() -> (r: Vec<u8>)
    ensures
        r@ == kw_nocond(),
{
    let r: Vec<u8> = vec![40u8, 110u8, 111u8, 32u8, 99u8, 111u8, 110u8, 100u8, 105u8, 116u8, 105u8, 111u8, 110u8, 115u8, 41u8];
    proof {
        assert(r@ =~= kw_nocond());
    }
    r
}

/// The bytes of `"AND"`.
pub open spec fn kw_and3() -> Seq<u8> {
    seq![65u8, 78u8, 68u8]
}

/// The bytes of `"AND"`, executably.
pub fn kw_and3_vec() -> (r: Vec<u8>)
    ensures
        r@ == kw_and3(),
{
    let r: Vec<u8> = vec![65u8, 78u8, 68u8];
    proof {
        assert(r@ =~= kw_and3());
    }
    r
}

/// The bytes of `"OR"`.
pub open spec fn kw_or2() -> Seq<u8> {
    seq![79u8, 82u8]
}

/// The bytes of `"OR"`, executably.
pub fn kw_or2_vec() -> (r: Vec<u8>)
    ensures
        r@ == kw_or2(),
{
    let r: Vec<u8> = vec![79u8, 82u8];
    proof {
        assert(r@ =~= kw_or2());
    }
    r
}

/// The bytes of `"XOR"`.
pub open spec fn kw_xor3() -> Seq<u8> {
    seq![88u8, 79u8, 82u8]
}

/// The bytes of `"XOR"`, executably.
pub fn kw_xor3_vec() -> (r: Vec<u8>)
    ensures
        r@ == kw_xor3(),
{
    let r: Vec<u8> = vec![88u8, 79u8, 82u8];
    proof {
        assert(r@ =~= kw_xor3());
    }
    r
}

/// The bytes of `"count("`.
pub open spec fn kw_count_open() -> Seq<u8> {
    seq![99u8, 111u8, 117u8, 110u8, 116u8, 40u8]
}

/// The bytes of `"count("`, executably.
pub fn kw_count_open_vec() -> (r: Vec<u8>)
    ensures
        r@ == kw_count_open(),
{
    let r: Vec<u8> = vec![99u8, 111u8, 117u8, 110u8, 116u8, 40u8];
    proof {
        assert(r@ =~= kw_count_open());
    }
    r
}

/// The bytes of `"=="`.
pub open spec fn kw_op_eq() -> Seq<u8> {
    seq![61u8, 61u8]
}

/// The bytes of `"=="`, executably.
pub fn kw_op_eq_vec() -> (r: Vec<u8>)
    ensures
        r@ == kw_op_eq(),
{
    let r: Vec<u8> = vec![61u8, 61u8];
    proof {
        assert(r@ =~= kw_op_eq());
    }
    r
}

/// The bytes of `"!="`.
pub open spec fn kw_op_ne() -> Seq<u8> {
    seq![33u8, 61u8]
}

/// The bytes of `"!="`, executably.
pub fn kw_op_ne_vec() -> (r: Vec<u8>)
    ensures
        r@ == kw_op_ne(),
{
    let r: Vec<u8> = vec![33u8, 61u8];
    proof {
        assert(r@ =~= kw_op_ne());
    }
    r
}

/// The bytes of `"<"`.
pub open spec fn kw_op_lt() -> Seq<u8> {
    seq![60u8]
}

/// The bytes of `"<"`, executably.
pub fn kw_op_lt_vec() -> (r: Vec<u8>)
    ensures
        r@ == kw_op_lt(),
{
    let r: Vec<u8> = vec![60u8];
    proof {
        assert(r@ =~= kw_op_lt());
    }
    r
}

/// The bytes of `"<="`.
pub open spec fn kw_op_le() -> Seq<u8> {
    seq![60u8, 61u8]
}

/// The bytes of `"<="`, executably.
pub fn kw_op_le_vec() -> (r: Vec<u8>)
    ensures
        r@ == kw_op_le(),
{
    let r: Vec<u8> = vec![60u8, 61u8];
    proof {
        assert(r@ =~= kw_op_le());
    }
    r
}

/// The bytes of `">"`.
pub open spec fn kw_op_gt() -> Seq<u8> {
    seq![62u8]
}

/// The bytes of `">"`, executably.
pub fn kw_op_gt_vec() -> (r: Vec<u8>)
    ensures
        r@ == kw_op_gt(),
{
    let r: Vec<u8> = vec![62u8];
    proof {
        assert(r@ =~= kw_op_gt());
    }
    r
}

/// The bytes of `">="`.
pub open spec fn kw_op_ge() -> Seq<u8> {
    seq![62u8, 61u8]
}

/// The bytes of `">="`, executably.
pub fn kw_op_ge_vec() -> (r: Vec<u8>)
    ensures
        r@ == kw_op_ge(),
{
    let r: Vec<u8> = vec![62u8, 61u8];
    proof {
        assert(r@ =~= kw_op_ge());
    }
    r
}


/// Why a rule line was rejected.
#[derive(Clone, Copy, PartialEq, Eq, Structural, Debug)]
pub enum RuleParseError {
    MissingIf,
    MissingThen,
    MalformedNext,
    MalformedCurrent,
    UnknownCurrentState,
    UnknownNextState,
    CombinerMismatch,
}

/// `s` with every leading repetition of `pat` removed.
pub open spec fn strip_prefix_rep(s: Seq<u8>, pat: Seq<u8>) -> Seq<u8>
    decreases s.len(),
{
    if pat.len() > 0 && s.len() >= pat.len() && matches_at(s, 0, pat) {
        strip_prefix_rep(s.skip(pat.len() as int), pat)
    } else {
        s
    }
}

/// `s` with every trailing `b` removed.
pub open spec fn strip_suffix_rep(s: Seq<u8>, b: u8) -> Seq<u8>
    decreases s.len(),
{
    if s.len() > 0 && s.last() == b {
        strip_suffix_rep(s.drop_last(), b)
    } else {
        s
    }
}

/// Powers of ten.
pub open spec fn pow10(k: int) -> int
    decreases k,
{
    if k <= 0 {
        1
    } else {
        10 * pow10(k - 1)
    }
}

/// The relational operator a token selects; anything unrecognized defaults
/// to equality.
pub open spec fn spec_op_of(tok: Seq<u8>) -> RelationalOperator {
    if tok == kw_op_eq() {
        RelationalOperator::Equals
    } else if tok == kw_op_ne() {
        RelationalOperator::NotEquals
    } else if tok == kw_op_lt() {
        RelationalOperator::LessThan
    } else if tok == kw_op_le() {
        RelationalOperator::LessOrEqual
    } else if tok == kw_op_gt() {
        RelationalOperator::GreaterThan
    } else if tok == kw_op_ge() {
        RelationalOperator::GreaterOrEqual
    } else {
        RelationalOperator::Equals
    }
}

/// The threshold a token selects: trailing commas are trimmed, whitespace
/// stripped, and an unparseable value defaults to 0.
pub open spec fn spec_thr_of(tok: Seq<u8>) -> u8 {
    match spec_parse_u8(spec_trim(strip_suffix_rep(tok, 44))) {
        Some(v) => v,
        None => 0,
    }
}

/// The probability a token selects, in fixed-point parts-per-million:
/// a plain decimal (optional sign, digits, optional fraction) clamped to
/// `[0, 1]`, keeping the first six fractional digits; anything else
/// defaults to certainty.
pub open spec fn spec_parse_prob(tok: Seq<u8>) -> u32 {
    let neg = tok.len() > 0 && tok[0] == 45;
    let body = if tok.len() > 0 && (tok[0] == 45 || tok[0] == 43) {
        tok.drop_first()
    } else {
        tok
    };
    match spec_find(body, seq![46u8], 0) {
        None => {
            if body.len() > 0 && all_digits(body) {
                if neg || digits_val(body) == 0 {
                    0
                } else {
                    PROB_ONE
                }
            } else {
                PROB_ONE
            }
        },
        Some(d) => {
            let intpart = body.take(d);
            let frac = body.skip(d + 1);
            if (intpart.len() > 0 || frac.len() > 0) && all_digits(intpart) && all_digits(frac) {
                if neg {
                    0
                } else if digits_val(intpart) >= 1 {
                    PROB_ONE
                } else {
                    spec_frac6(frac) as u32
                }
            } else {
                PROB_ONE
            }
        },
    }
}

/// The first six fractional digits scaled to parts-per-million.
pub open spec fn spec_frac6(frac: Seq<u8>) -> int {
    let k = if frac.len() < 6 {
        frac.len() as int
    } else {
        6
    };
    digits_val(frac.take(k)) * pow10(6 - k)
}

/// The conditions and combiners scanned from the whitespace tokens of a
/// condition region, from token `i` on: a `count(<name>)` token consumes the
/// two tokens after it as operator and threshold; `AND`/`OR`/`XOR` tokens
/// are combiners; anything else is ignored.
pub open spec fn spec_scan_conds(toks: Seq<Seq<u8>>, i: int, states: Seq<StateModel>) -> (Seq<
    Condition,
>, Seq<ConditionCombiner>)
    decreases toks.len() - i,
{
    if i < 0 || i >= toks.len() {
        (Seq::empty(), Seq::empty())
    } else {
        let tok = toks[i];
        if matches_at(tok, 0, kw_count_open()) {
            let name = strip_suffix_rep(strip_prefix_rep(tok, kw_count_open()), 41);
            let id = match spec_lookup_name(states, name) {
                Some(v) => v,
                None => 0u8,
            };
            let op = if i + 1 < toks.len() {
                spec_op_of(toks[i + 1])
            } else {
                RelationalOperator::Equals
            };
            let thr = if i + 2 < toks.len() {
                spec_thr_of(toks[i + 2])
            } else {
                0u8
            };
            let ni = if i + 3 <= toks.len() {
                i + 3
            } else {
                toks.len() as int
            };
            let rest = spec_scan_conds(toks, ni, states);
            (
                seq![Condition { neighbor_state_id: id, operator: op, threshold: thr }] + rest.0,
                rest.1,
            )
        } else if tok == kw_and3() {
            let rest = spec_scan_conds(toks, i + 1, states);
            (rest.0, seq![ConditionCombiner::And] + rest.1)
        } else if tok == kw_or2() {
            let rest = spec_scan_conds(toks, i + 1, states);
            (rest.0, seq![ConditionCombiner::Or] + rest.1)
        } else if tok == kw_xor3() {
            let rest = spec_scan_conds(toks, i + 1, states);
            (rest.0, seq![ConditionCombiner::Xor] + rest.1)
        } else {
            spec_scan_conds(toks, i + 1, states)
        }
    }
}

/// What parsing a rule line returns: the whole grammar of one line.
pub open spec fn spec_parse_rule(line: Seq<u8>, states: Seq<StateModel>) -> Result<
    RuleModel,
    RuleParseError,
> {
    let t = spec_trim(line);
    if !matches_at(t, 0, kw_if()) {
        Err(RuleParseError::MissingIf)
    } else {
        match spec_find(t, kw_then(), 0) {
            None => Err(RuleParseError::MissingThen),
            Some(then_pos) => {
                let between = spec_trim(t.subrange(13, then_pos));
                let then_part = spec_trim(t.subrange(then_pos + 12, t.len() as int));
                let core = match spec_find(then_part, kw_with(), 0) {
                    Some(wp) => spec_trim(then_part.take(wp)),
                    None => then_part,
                };
                let prob = match spec_find(then_part, kw_with(), 0) {
                    Some(wp) => {
                        let toks = spec_split_ws(then_part.skip(wp + 9));
                        if toks.len() == 0 {
                            PROB_ONE
                        } else {
                            spec_parse_prob(toks[0])
                        }
                    },
                    None => PROB_ONE,
                };
                match spec_find(core, seq![39u8], 0) {
                    None => Err(RuleParseError::MalformedNext),
                    Some(q1) => match spec_find(core, seq![39u8], q1 + 1) {
                        None => Err(RuleParseError::MalformedNext),
                        Some(q2) => {
                            let next_name = spec_trim(core.subrange(q1 + 1, q2));
                            match spec_find(between, seq![39u8], 0) {
                                None => Err(RuleParseError::MalformedCurrent),
                                Some(p1) => match spec_find(between, seq![39u8], p1 + 1) {
                                    None => Err(RuleParseError::MalformedCurrent),
                                    Some(p2) => {
                                        let current_name = spec_trim(between.subrange(p1 + 1, p2));
                                        let after = spec_trim(
                                            between.subrange(p2 + 1, between.len() as int),
                                        );
                                        match spec_lookup_name(states, current_name) {
                                            None => Err(RuleParseError::UnknownCurrentState),
                                            Some(current_id) => match spec_lookup_name(
                                                states,
                                                next_name,
                                            ) {
                                                None => Err(RuleParseError::UnknownNextState),
                                                Some(next_id) => {
                                                    let region = if matches_at(
                                                        after,
                                                        0,
                                                        kw_and3(),
                                                    ) {
                                                        spec_trim(after.skip(3))
                                                    } else {
                                                        after
                                                    };
                                                    let sc = if region.len() == 0 || region
                                                        == kw_nocond() {
                                                        (
                                                            Seq::<Condition>::empty(),
                                                            Seq::<ConditionCombiner>::empty(),
                                                        )
                                                    } else {
                                                        spec_scan_conds(
                                                            spec_split_ws(region),
                                                            0,
                                                            states,
                                                        )
                                                    };
                                                    let expected: int = if sc.0.len() == 0 {
                                                        0
                                                    } else {
                                                        sc.0.len() - 1
                                                    };
                                                    if sc.1.len() != expected {
                                                        Err(RuleParseError::CombinerMismatch)
                                                    } else {
                                                        Ok(
                                                            RuleModel {
                                                                current_state_id: current_id,
                                                                conditions: sc.0,
                                                                combiners: sc.1,
                                                                next_state_id: next_id,
                                                                probability: prob,
                                                            },
                                                        )
                                                    }
                                                },
                                            },
                                        }
                                    },
                                },
                            }
                        },
                    },
                }
            },
        }
    }
}

/// A byte matching `is_digit` that is zero.
pub proof fn lemma_digits_val_zero(s: Seq<u8>)
    requires
        all_digits(s),
    ensures
        (digits_val(s) == 0) == (forall|i: int| 0 <= i < s.len() ==> #[trigger] s[i] == 48),
    decreases s.len(),
{
    if s.len() > 0 {
        assert(all_digits(s.drop_last())) by {
            assert(forall|i: int|
                0 <= i < s.drop_last().len() ==> #[trigger] s.drop_last()[i] == s[i]);
        }
        lemma_digits_val_zero(s.drop_last());
        crate::scan::lemma_digits_val_nonneg(s.drop_last());
        if digits_val(s) == 0 {
            assert(digits_val(s.drop_last()) == 0 && s.last() == 48);
            assert forall|i: int| 0 <= i < s.len() implies #[trigger] s[i] == 48 by {
                if i < s.len() - 1 {
                    assert(s.drop_last()[i] == s[i]);
                }
            }
        } else {
            if forall|i: int| 0 <= i < s.len() ==> #[trigger] s[i] == 48 {
                assert forall|i: int|
                    0 <= i < s.drop_last().len() implies #[trigger] s.drop_last()[i] == 48 by {
                    assert(s.drop_last()[i] == s[i]);
                }
                assert(digits_val(s.drop_last()) == 0);
                assert(s.last() == 48);
                assert(digits_val(s) == 0);
            }
        }
    }
}

/// The value of a digit string is below the power of ten of its length.
pub proof fn lemma_digits_val_bound(s: Seq<u8>)
    requires
        all_digits(s),
    ensures
        0 <= digits_val(s) < pow10(s.len() as int),
    decreases s.len(),
{
    if s.len() > 0 {
        assert(all_digits(s.drop_last())) by {
            assert(forall|i: int|
                0 <= i < s.drop_last().len() ==> #[trigger] s.drop_last()[i] == s[i]);
        }
        lemma_digits_val_bound(s.drop_last());
        assert(pow10(s.len() as int) == 10 * pow10(s.len() - 1));
    }
}

/// `s` with every leading repetition of `pat` removed, executably.
fn strip_prefix_rep_vec(s: &[u8], pat: &[u8]) -> (r: Vec<u8>)
    requires
        pat@.len() > 0,
    ensures
        r@ == strip_prefix_rep(s@, pat@),
{
    let m = pat.len();
    let mut cur = subrange_vec(s, 0, s.len());
    proof {
        assert(cur@ =~= s@);
    }
    while starts_with_bytes(cur.as_slice(), pat)
        invariant
            m == pat@.len(),
            m > 0,
            strip_prefix_rep(s@, pat@) == strip_prefix_rep(cur@, pat@),
            matches_at(cur@, 0, pat@) ==> cur@.len() >= m,
        decreases cur@.len(),
    {
        let next = subrange_vec(cur.as_slice(), m, cur.len());
        proof {
            assert(next@ =~= cur@.skip(m as int));
        }
        cur = next;
    }
    proof {
        assert(strip_prefix_rep(cur@, pat@) == cur@);
    }
    cur
}

/// Leading repetitions stripped, with a position-based account of trailing
/// strip: everything from `hi` on equals `b`, and `hi` is minimal.
proof fn lemma_strip_suffix_take(s: Seq<u8>, b: u8, hi: int)
    requires
        0 <= hi <= s.len(),
        forall|j: int| hi <= j < s.len() ==> #[trigger] s[j] == b,
        hi == 0 || s[hi - 1] != b,
    ensures
        strip_suffix_rep(s, b) == s.take(hi),
    decreases s.len() - hi,
{
    if hi == s.len() {
        assert(s.take(hi) =~= s);
    } else {
        assert(s.last() == b);
        lemma_strip_suffix_take(s.drop_last(), b, hi);
        assert(s.drop_last().take(hi) =~= s.take(hi));
    }
}

/// `s` with every trailing `b` removed, executably.
pub fn strip_suffix_rep_vec_pub(s: &[u8], b: u8) -> (r: Vec<u8>)
    ensures
        r@ == strip_suffix_rep(s@, b),
{
    let n = s.len();
    let mut hi: usize = n;
    while hi > 0 && s[hi - 1] == b
        invariant
            n == s@.len(),
            hi <= n,
            forall|j: int| hi <= j < n ==> #[trigger] s@[j] == b,
        decreases hi,
    {
        hi -= 1;
    }
    let r = subrange_vec(s, 0, hi);
    proof {
        lemma_strip_suffix_take(s@, b, hi as int);
        assert(s@.subrange(0, hi as int) =~= s@.take(hi as int));
    }
    r
}

/// The relational operator a token selects, executably.
fn op_of_exec(tok: &[u8]) -> (r: RelationalOperator)
    ensures
        r == spec_op_of(tok@),
{
    let eq = kw_op_eq_vec();
    let ne = kw_op_ne_vec();
    let lt = kw_op_lt_vec();
    let le = kw_op_le_vec();
    let gt = kw_op_gt_vec();
    let ge = kw_op_ge_vec();
    if bytes_eq(tok, eq.as_slice()) {
        RelationalOperator::Equals
    } else if bytes_eq(tok, ne.as_slice()) {
        RelationalOperator::NotEquals
    } else if bytes_eq(tok, lt.as_slice()) {
        RelationalOperator::LessThan
    } else if bytes_eq(tok, le.as_slice()) {
        RelationalOperator::LessOrEqual
    } else if bytes_eq(tok, gt.as_slice()) {
        RelationalOperator::GreaterThan
    } else if bytes_eq(tok, ge.as_slice()) {
        RelationalOperator::GreaterOrEqual
    } else {
        RelationalOperator::Equals
    }
}

/// The threshold a token selects, executably.
fn thr_of_exec(tok: &[u8]) -> (r: u8)
    ensures
        r == spec_thr_of(tok@),
{
    let stripped = strip_suffix_rep_vec_pub(tok, 44);
    let trimmed = trim_vec(stripped.as_slice());
    match parse_u8_bytes(trimmed.as_slice()) {
        Some(v) => v,
        None => 0,
    }
}

/// Whether every byte of the slice is a digit, and whether any is nonzero.
fn digit_scan(s: &[u8]) -> (r: (bool, bool))
    ensures
        r.0 == all_digits(s@),
        r.1 == exists|i: int| 0 <= i < s@.len() && #[trigger] s@[i] != 48,
{
    let n = s.len();
    let mut i: usize = 0;
    let mut nonzero = false;
    while i < n
        invariant
            n == s@.len(),
            i <= n,
            forall|j: int| 0 <= j < i ==> is_digit(#[trigger] s@[j]),
            nonzero == exists|j: int| 0 <= j < i && #[trigger] s@[j] != 48,
        decreases n - i,
    {
        let b = s[i];
        if b < 48 || b > 57 {
            proof {
                assert(!is_digit(s@[i as int]));
            }
            return (false, b != 48 || nonzero || exists_nonzero_after(s, i));
        }
        if b != 48 {
            nonzero = true;
        }
        i += 1;
    }
    (true, nonzero)
}

/// Whether any byte at or after `from` differs from `0`.
fn exists_nonzero_after(s: &[u8], from: usize) -> (r: bool)
    requires
        from <= s@.len(),
    ensures
        r == exists|i: int| from <= i < s@.len() && #[trigger] s@[i] != 48,
{
    let n = s.len();
    let mut i: usize = from;
    while i < n
        invariant
            n == s@.len(),
            from <= i <= n,
            forall|j: int| from <= j < i ==> #[trigger] s@[j] == 48,
        decreases n - i,
    {
        if s[i] != 48 {
            return true;
        }
        i += 1;
    }
    false
}

/// Parts-per-million from the first six fractional digits, executably.
fn frac6_exec(frac: &[u8]) -> (r: u32)
    requires
        all_digits(frac@),
    ensures
        r == spec_frac6(frac@),
        r <= 999_999,
{
    let n = frac.len();
    let k: usize = if n < 6 {
        n
    } else {
        6
    };
    let ghost digits = frac@.take(k as int);
    proof {
        assert(all_digits(digits)) by {
            assert(forall|i: int| 0 <= i < digits.len() ==> #[trigger] digits[i] == frac@[i]);
        }
        lemma_digits_val_bound(digits);
    }
    let mut value: u32 = 0;
    let mut i: usize = 0;
    proof {
        assert(frac@.take(0) =~= Seq::<u8>::empty());
        assert(pow10(0) == 1);
    }
    while i < k
        invariant
            n == frac@.len(),
            k <= 6,
            k <= n,
            all_digits(frac@),
            i <= k,
            value == digits_val(frac@.take(i as int)),
            value < pow10(i as int),
        decreases k - i,
    {
        let b = frac[i];
        proof {
            assert(is_digit(frac@[i as int]));
            assert(frac@.take(i + 1).drop_last() =~= frac@.take(i as int));
            assert(frac@.take(i + 1).last() == frac@[i as int]);
            assert(pow10(i + 1) == 10 * pow10(i as int));
            lemma_pow10_mono(i as int, 5);
            lemma_pow10_vals();
        }
        value = value * 10 + (b - 48) as u32;
        i += 1;
    }
    let ghost dv = digits_val(digits);
    proof {
        crate::scan::lemma_digits_val_nonneg(digits);
        assert(value == dv);
        assert(value == dv * pow10(0));
    }
    let mut scale: usize = k;
    while scale < 6
        invariant
            k <= scale <= 6,
            dv == digits_val(frac@.take(k as int)),
            0 <= dv < pow10(k as int),
            value == dv * pow10(scale - k),
            value < pow10(scale as int),
        decreases 6 - scale,
    {
        proof {
            lemma_pow10_mono(scale as int, 5);
            lemma_pow10_vals();
            assert(pow10(scale + 1 - k) == 10 * pow10(scale - k));
            assert(value * 10 == dv * pow10(scale + 1 - k)) by (nonlinear_arith)
                requires
                    value == dv * pow10(scale - k),
                    pow10(scale + 1 - k) == 10 * pow10(scale - k),
            ;
            lemma_pow10_mul(k as int, scale + 1 - k);
            lemma_pow10_pos(scale + 1 - k);
            assert(dv * pow10(scale + 1 - k) < pow10(k as int) * pow10(scale + 1 - k))
                by (nonlinear_arith)
                requires
                    dv < pow10(k as int),
                    pow10(scale + 1 - k) >= 1,
            ;
            assert(pow10(k as int) * pow10(scale + 1 - k) == pow10(scale + 1));
        }
        value = value * 10;
        scale += 1;
    }
    proof {
        assert(spec_frac6(frac@) == dv * pow10(6 - k));
        lemma_pow10_vals();
        lemma_pow10_mono(6 - k, 6);
        lemma_pow10_pos(6 - k);
    }
    value
}

/// Concrete small powers of ten.
proof fn lemma_pow10_vals()
    ensures
        pow10(0) == 1,
        pow10(1) == 10,
        pow10(2) == 100,
        pow10(3) == 1000,
        pow10(4) == 10_000,
        pow10(5) == 100_000,
        pow10(6) == 1_000_000,
{
    assert(pow10(0) == 1);
    assert(pow10(1) == 10);
    assert(pow10(2) == 100);
    assert(pow10(3) == 1000);
    assert(pow10(4) == 10_000);
    assert(pow10(5) == 100_000);
    assert(pow10(6) == 1_000_000);
}

proof fn lemma_pow10_pos(k: int)
    ensures
        pow10(k) >= 1,
    decreases (if k > 0 { k } else { 0 }),
{
    if k > 0 {
        lemma_pow10_pos(k - 1);
    }
}

proof fn lemma_pow10_mul(a: int, b: int)
    requires
        a >= 0,
        b >= 0,
    ensures
        pow10(a) * pow10(b) == pow10(a + b),
    decreases a,
{
    if a > 0 {
        lemma_pow10_mul(a - 1, b);
        assert(pow10(a) * pow10(b) == 10 * (pow10(a - 1) * pow10(b))) by (nonlinear_arith)
            requires
                pow10(a) == 10 * pow10(a - 1),
        ;
    }
}

proof fn lemma_pow10_mono(a: int, b: int)
    requires
        a <= b,
    ensures
        pow10(a) <= pow10(b),
    decreases (if b > 0 { b } else { 0 }),
{
    if b > 0 && a < b {
        lemma_pow10_mono(a, b - 1);
        lemma_pow10_pos(b - 1);
    }
}

/// The probability a token selects, executably.
fn parse_prob_bytes(tok: &[u8]) -> (r: u32)
    ensures
        r == spec_parse_prob(tok@),
        r <= PROB_ONE,
{
    let n = tok.len();
    let neg = n > 0 && tok[0] == 45;
    let start: usize = if n > 0 && (tok[0] == 45 || tok[0] == 43) {
        1
    } else {
        0
    };
    let body = subrange_vec(tok, start, n);
    proof {
        if start == 1 {
            assert(body@ =~= tok@.drop_first());
        } else {
            assert(body@ =~= tok@);
        }
    }
    let dotpat: Vec<u8> = vec![46u8];
    proof {
        assert(dotpat@ =~= seq![46u8]);
    }
    match find_sub(body.as_slice(), dotpat.as_slice(), 0) {
        None => {
            let (alldig, nonzero) = digit_scan(body.as_slice());
            if body.len() > 0 && alldig {
                proof {
                    lemma_digits_val_zero(body@);
                }
                if neg || !nonzero {
                    0
                } else {
                    PROB_ONE
                }
            } else {
                PROB_ONE
            }
        },
        Some(d) => {
            proof {
                crate::scan::lemma_find_some(body@, seq![46u8], 0, d as int);
            }
            let intpart = subrange_vec(body.as_slice(), 0, d);
            let frac = subrange_vec(body.as_slice(), d + 1, body.len());
            proof {
                assert(intpart@ =~= body@.take(d as int));
                assert(frac@ =~= body@.skip(d + 1));
            }
            let (int_ok, int_nonzero) = digit_scan(intpart.as_slice());
            let (frac_ok, _frac_nonzero) = digit_scan(frac.as_slice());
            if (intpart.len() > 0 || frac.len() > 0) && int_ok && frac_ok {
                proof {
                    lemma_digits_val_zero(intpart@);
                    crate::scan::lemma_digits_val_nonneg(intpart@);
                }
                if neg {
                    0
                } else if int_nonzero {
                    PROB_ONE
                } else {
                    frac6_exec(frac.as_slice())
                }
            } else {
                PROB_ONE
            }
        },
    }
}

/// `THEN next is` cannot begin inside the leading `IF current is`: the
/// keyword bytes disagree at every offset.
proof fn lemma_then_after_if(t: Seq<u8>, p: int)
    requires
        matches_at(t, 0, kw_if()),
        matches_at(t, p, kw_then()),
    ensures
        p >= 13,
{
    if p < 13 {
        assert(t.subrange(p, p + 12)[0] == t[p]);
        assert(t[p] == kw_then()[0]);
        assert(t.subrange(0, 13)[p] == t[p]);
        assert(t[p] == kw_if()[p]);
        assert(kw_then()[0] == 84);
        assert(forall|j: int| 0 <= j < 13 ==> kw_if()[j] != 84);
    }
}

/// Parse one rule line against the registry: mirrors the grammar exactly,
/// including its leniency policy (unknown neighbor names become id 0,
/// missing operators and thresholds take defaults) and its hard errors
/// (missing keywords or quotes, unknown current/next state names, and a
/// combiner count that does not fit the conditions).
pub fn parse_rule(line: &[u8], states: &Vec<CAState>) -> (r: Result<TransitionRule, RuleParseError>)
    ensures
        match r {
            Ok(rule) => spec_parse_rule(line@, registry_model(states@)) == Ok::<
                RuleModel,
                RuleParseError,
            >(rule@),
            Err(e) => spec_parse_rule(line@, registry_model(states@)) == Err::<
                RuleModel,
                RuleParseError,
            >(e),
        },
{
    let ghost smodels = registry_model(states@);
    let t = trim_vec(line);
    let kw_if_v = kw_if_vec();
    if !starts_with_bytes(t.as_slice(), kw_if_v.as_slice()) {
        return Err(RuleParseError::MissingIf);
    }
    let kw_then_v = kw_then_vec();
    let then_pos = match find_sub(t.as_slice(), kw_then_v.as_slice(), 0) {
        None => {
            return Err(RuleParseError::MissingThen);
        },
        Some(p) => p,
    };
    proof {
        crate::scan::lemma_find_some(t@, kw_then(), 0, then_pos as int);
        lemma_then_after_if(t@, then_pos as int);
    }
    // Reading the length binds it as a usize, bounding the keyword offsets.
    let tlen = t.len();
    let between = trim_vec(subrange_vec(t.as_slice(), 13, then_pos).as_slice());
    let then_part = trim_vec(subrange_vec(t.as_slice(), then_pos + 12, tlen).as_slice());
    proof {
        assert(between@ == spec_trim(t@.subrange(13, then_pos as int)));
        assert(then_part@ == spec_trim(t@.subrange(then_pos + 12, t@.len() as int)));
    }

    let kw_with_v = kw_with_vec();
    let mut prob: u32 = PROB_ONE;
    let core: Vec<u8> = match find_sub(then_part.as_slice(), kw_with_v.as_slice(), 0) {
        Some(wp) => {
            proof {
                crate::scan::lemma_find_some(then_part@, kw_with(), 0, wp as int);
            }
            // Reading the length binds it as a usize for the offset arithmetic.
            let tp_len = then_part.len();
            let region = subrange_vec(then_part.as_slice(), wp + 9, tp_len);
            proof {
                assert(region@ =~= then_part@.skip(wp + 9));
            }
            let prob_toks = split_ws_vec(region.as_slice());
            if prob_toks.len() > 0 {
                proof {
                    assert(prob_toks.deep_view()[0] == prob_toks@[0]@);
                }
                prob = parse_prob_bytes(prob_toks[0].as_slice());
            }
            let c = trim_vec(subrange_vec(then_part.as_slice(), 0, wp).as_slice());
            proof {
                assert(then_part@.subrange(0, wp as int) =~= then_part@.take(wp as int));
            }
            c
        },
        None => {
            let c = subrange_vec(then_part.as_slice(), 0, then_part.len());
            proof {
                assert(c@ =~= then_part@);
            }
            c
        },
    };
    proof {
        if spec_find(then_part@, kw_with(), 0) is Some {
            assert(core@ == spec_trim(
                then_part@.take(spec_find(then_part@, kw_with(), 0).unwrap()),
            ));
        } else {
            assert(core@ == then_part@);
        }
    }

    let quote: Vec<u8> = vec![39u8];
    proof {
        assert(quote@ =~= seq![39u8]);
    }
    let q1 = match find_sub(core.as_slice(), quote.as_slice(), 0) {
        None => {
            return Err(RuleParseError::MalformedNext);
        },
        Some(p) => p,
    };
    proof {
        crate::scan::lemma_find_some(core@, seq![39u8], 0, q1 as int);
    }
    // Reading the length binds it as a usize, bounding the quote offsets.
    let _core_len = core.len();
    let q2 = match find_sub(core.as_slice(), quote.as_slice(), q1 + 1) {
        None => {
            return Err(RuleParseError::MalformedNext);
        },
        Some(p) => p,
    };
    proof {
        crate::scan::lemma_find_some(core@, seq![39u8], 0, q1 as int);
        crate::scan::lemma_find_some(core@, seq![39u8], q1 + 1, q2 as int);
    }
    let next_name = trim_vec(subrange_vec(core.as_slice(), q1 + 1, q2).as_slice());

    let p1 = match find_sub(between.as_slice(), quote.as_slice(), 0) {
        None => {
            return Err(RuleParseError::MalformedCurrent);
        },
        Some(p) => p,
    };
    proof {
        crate::scan::lemma_find_some(between@, seq![39u8], 0, p1 as int);
    }
    // Reading the length binds it as a usize, bounding the quote offsets.
    let _between_len = between.len();
    let p2 = match find_sub(between.as_slice(), quote.as_slice(), p1 + 1) {
        None => {
            return Err(RuleParseError::MalformedCurrent);
        },
        Some(p) => p,
    };
    proof {
        crate::scan::lemma_find_some(between@, seq![39u8], 0, p1 as int);
        crate::scan::lemma_find_some(between@, seq![39u8], p1 + 1, p2 as int);
    }
    let current_name = trim_vec(subrange_vec(between.as_slice(), p1 + 1, p2).as_slice());
    let after = trim_vec(subrange_vec(between.as_slice(), p2 + 1, between.len()).as_slice());

    let current_id = match find_state_id_by_name(states, current_name.as_slice()) {
        None => {
            return Err(RuleParseError::UnknownCurrentState);
        },
        Some(id) => id,
    };
    let next_id = match find_state_id_by_name(states, next_name.as_slice()) {
        None => {
            return Err(RuleParseError::UnknownNextState);
        },
        Some(id) => id,
    };

    let kw_and_v = kw_and3_vec();
    let region: Vec<u8> = if starts_with_bytes(after.as_slice(), kw_and_v.as_slice()) {
        let rg = trim_vec(subrange_vec(after.as_slice(), 3, after.len()).as_slice());
        proof {
            assert(after@.subrange(3, after@.len() as int) =~= after@.skip(3));
        }
        rg
    } else {
        let rg = subrange_vec(after.as_slice(), 0, after.len());
        proof {
            assert(rg@ =~= after@);
        }
        rg
    };

    let kw_nocond_v = kw_nocond_vec();
    let mut conditions: Vec<Condition> = Vec::new();
    let mut combiners: Vec<ConditionCombiner> = Vec::new();
    let ghost sregion = region@;
    let ghost sc = if sregion.len() == 0 || sregion == kw_nocond() {
        (Seq::<Condition>::empty(), Seq::<ConditionCombiner>::empty())
    } else {
        spec_scan_conds(spec_split_ws(sregion), 0, smodels)
    };
    if region.len() != 0 && !bytes_eq(region.as_slice(), kw_nocond_v.as_slice()) {
        let toks = split_ws_vec(region.as_slice());
        let ghost stoks = spec_split_ws(sregion);
        let n = toks.len();
        let kw_count_v = kw_count_open_vec();
        let kw_or_v = kw_or2_vec();
        let kw_xor_v = kw_xor3_vec();
        let mut i: usize = 0;
        while i < n
            invariant
                n == toks@.len(),
                toks.deep_view() == stoks,
                smodels == registry_model(states@),
                i <= n,
                sc == spec_scan_conds(stoks, 0, smodels),
                kw_count_v@ == kw_count_open(),
                kw_and_v@ == kw_and3(),
                kw_or_v@ == kw_or2(),
                kw_xor_v@ == kw_xor3(),
                sc.0 == conditions@ + spec_scan_conds(stoks, i as int, smodels).0,
                sc.1 == combiners@ + spec_scan_conds(stoks, i as int, smodels).1,
            decreases n - i,
        {
            proof {
                assert(toks.deep_view()[i as int] == toks@[i as int]@);
            }
            let tok = &toks[i];
            if starts_with_bytes(tok.as_slice(), kw_count_v.as_slice()) {
                let stripped = strip_prefix_rep_vec(tok.as_slice(), kw_count_v.as_slice());
                let name = strip_suffix_rep_vec_pub(stripped.as_slice(), 41);
                let id = match find_state_id_by_name(states, name.as_slice()) {
                    Some(v) => v,
                    None => 0,
                };
                let op = if n - i > 1 {
                    proof {
                        assert(toks.deep_view()[i + 1] == toks@[i + 1]@);
                    }
                    op_of_exec(toks[i + 1].as_slice())
                } else {
                    RelationalOperator::Equals
                };
                let thr = if n - i > 2 {
                    proof {
                        assert(toks.deep_view()[i + 2] == toks@[i + 2]@);
                    }
                    thr_of_exec(toks[i + 2].as_slice())
                } else {
                    0
                };
                let cond = Condition { neighbor_state_id: id, operator: op, threshold: thr };
                let ghost ni: int = if i + 3 <= n {
                    i + 3
                } else {
                    n as int
                };
                proof {
                    assert(spec_scan_conds(stoks, i as int, smodels).0 == seq![cond]
                        + spec_scan_conds(stoks, ni, smodels).0);
                    assert(spec_scan_conds(stoks, i as int, smodels).1 == spec_scan_conds(
                        stoks,
                        ni,
                        smodels,
                    ).1);
                }
                conditions.push(cond);
                proof {
                    assert(sc.0 =~= conditions@ + spec_scan_conds(stoks, ni, smodels).0);
                }
                if n - i >= 3 {
                    i += 3;
                } else {
                    i = n;
                }
            } else if bytes_eq(tok.as_slice(), kw_and_v.as_slice()) {
                combiners.push(ConditionCombiner::And);
                proof {
                    assert(sc.1 =~= combiners@ + spec_scan_conds(stoks, i + 1, smodels).1);
                }
                i += 1;
            } else if bytes_eq(tok.as_slice(), kw_or_v.as_slice()) {
                combiners.push(ConditionCombiner::Or);
                proof {
                    assert(sc.1 =~= combiners@ + spec_scan_conds(stoks, i + 1, smodels).1);
                }
                i += 1;
            } else if bytes_eq(tok.as_slice(), kw_xor_v.as_slice()) {
                combiners.push(ConditionCombiner::Xor);
                proof {
                    assert(sc.1 =~= combiners@ + spec_scan_conds(stoks, i + 1, smodels).1);
                }
                i += 1;
            } else {
                i += 1;
            }
        }
        proof {
            assert(spec_scan_conds(stoks, n as int, smodels).0 =~= Seq::<Condition>::empty());
            assert(spec_scan_conds(stoks, n as int, smodels).1 =~= Seq::<
                ConditionCombiner,
            >::empty());
            assert(conditions@ =~= sc.0);
            assert(combiners@ =~= sc.1);
        }
    }
    proof {
        assert(conditions@ == sc.0);
        assert(combiners@ == sc.1);
    }

    let expected: usize = if conditions.len() == 0 {
        0
    } else {
        conditions.len() - 1
    };
    if combiners.len() != expected {
        return Err(RuleParseError::CombinerMismatch);
    }

    let rule = TransitionRule {
        current_state_id: current_id,
        conditions,
        combiners,
        next_state_id: next_id,
        probability: prob,
    };
    Ok(rule)
}

/// The six-digit fraction of an all-digit string stays within one million.
proof fn lemma_frac6_bound(frac: Seq<u8>)
    requires
        all_digits(frac),
    ensures
        0 <= spec_frac6(frac) <= 999_999,
{
    let k: int = if frac.len() < 6 {
        frac.len() as int
    } else {
        6
    };
    let digits = frac.take(k);
    assert(all_digits(digits)) by {
        assert(forall|i: int| 0 <= i < digits.len() ==> #[trigger] digits[i] == frac[i]);
    }
    lemma_digits_val_bound(digits);
    crate::scan::lemma_digits_val_nonneg(digits);
    lemma_pow10_pos(6 - k);
    lemma_pow10_mul(k, 6 - k);
    lemma_pow10_vals();
    let dv = digits_val(digits);
    assert(dv * pow10(6 - k) <= (pow10(k) - 1) * pow10(6 - k)) by (nonlinear_arith)
        requires
            dv <= pow10(k) - 1,
            pow10(6 - k) >= 1,
    ;
    assert((pow10(k) - 1) * pow10(6 - k) == pow10(k) * pow10(6 - k) - pow10(6 - k))
        by (nonlinear_arith);
    assert(dv * pow10(6 - k) >= 0) by (nonlinear_arith)
        requires
            dv >= 0,
            pow10(6 - k) >= 1,
    ;
}

/// Every parsed probability lies in the fixed-point unit range.
pub proof fn lemma_parse_prob_le_one(tok: Seq<u8>)
    ensures
        spec_parse_prob(tok) <= PROB_ONE,
{
    let body = if tok.len() > 0 && (tok[0] == 45 || tok[0] == 43) {
        tok.drop_first()
    } else {
        tok
    };
    match spec_find(body, seq![46u8], 0) {
        None => {},
        Some(d) => {
            let frac = body.skip(d + 1);
            if all_digits(frac) {
                lemma_frac6_bound(frac);
            }
        },
    }
}

/// Every rule the grammar accepts is structurally well-formed: the combiner
/// count fits the conditions and the probability is within the unit range.
pub proof fn lemma_parse_rule_ok_wf(line: Seq<u8>, states: Seq<StateModel>)
    ensures
        spec_parse_rule(line, states) is Ok ==> spec_parse_rule(line, states)->Ok_0.wf(),
{
    let t = spec_trim(line);
    match spec_find(t, kw_then(), 0) {
        None => {},
        Some(then_pos) => {
            let then_part = spec_trim(t.subrange(then_pos + 12, t.len() as int));
            match spec_find(then_part, kw_with(), 0) {
                Some(wp) => {
                    let toks = spec_split_ws(then_part.skip(wp + 9));
                    if toks.len() > 0 {
                        lemma_parse_prob_le_one(toks[0]);
                    }
                },
                None => {},
            }
        },
    }
}

} // verus!
