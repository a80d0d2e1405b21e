//! Round-trip laws of the rule grammar: what the serializer emits, the
//! parser reads back unchanged. The laws are stated over the grammar's own
//! specification functions — the very ones the executable parser and
//! serializer are proved against.

use vstd::prelude::*;
use crate::parser::{kw_count_open, pow10, spec_frac6, spec_op_of, spec_parse_prob, spec_thr_of,
    strip_prefix_rep, strip_suffix_rep};
use crate::registry::{StateModel, spec_lookup_name, spec_name_of_id};
use crate::rules::{Condition, ConditionCombiner, PROB_ONE, RelationalOperator, RuleModel};
use crate::scan::{all_digits, digits_val, is_digit, is_ws, matches_at, spec_find, spec_parse_u8,
    spec_trim, spec_trim_end, spec_trim_start};
use crate::writer::{spec_fmt_nat, spec_fmt_prob, spec_op_token, spec_pad6};

verus! {

/// The digits of a nonnegative number are digits, carry its value, and are
/// never empty.
proof fn lemma_fmt_nat_digits(v: int)
    requires
        v >= 0,
    ensures
        all_digits(spec_fmt_nat(v)),
        digits_val(spec_fmt_nat(v)) == v,
        spec_fmt_nat(v).len() >= 1,
    decreases v,
{
    if v <= 9 {
        let s = spec_fmt_nat(v);
        assert(s =~= seq![(48 + v) as u8]);
        assert(s.last() == (48 + v) as u8);
        assert((48 + v) as u8 == 48 + v);
        assert(s.drop_last() =~= Seq::<u8>::empty());
        assert(digits_val(Seq::<u8>::empty()) == 0);
        assert(digits_val(s) == v);
    } else {
        lemma_fmt_nat_digits(v / 10);
        let s = spec_fmt_nat(v);
        let prefix = spec_fmt_nat(v / 10);
        assert(s == prefix.push((48 + v % 10) as u8));
        assert(s.drop_last() =~= prefix);
        assert(digits_val(s) == digits_val(prefix) * 10 + (v % 10));
        assert(forall|i: int|
            0 <= i < s.len() ==> is_digit(#[trigger] s[i]));
    }
}

/// A string whose bytes are all non-whitespace trims to itself.
proof fn lemma_trim_id(s: Seq<u8>)
    requires
        forall|i: int| 0 <= i < s.len() ==> !is_ws(#[trigger] s[i]),
    ensures
        spec_trim(s) == s,
{
    if s.len() > 0 {
        assert(spec_trim_start(s) == s);
        assert(spec_trim_end(s) == s);
    }
}

/// A string whose last byte is not `b` loses nothing to a trailing strip.
proof fn lemma_strip_suffix_id(s: Seq<u8>, b: u8)
    requires
        s.len() == 0 || s.last() != b,
    ensures
        strip_suffix_rep(s, b) == s,
{
}

/// A serialized threshold parses back to itself: the digits carry no
/// trailing comma, no whitespace, and a value within `u8`.
pub proof fn lemma_threshold_round_trip(v: u8)
    ensures
        spec_thr_of(spec_fmt_nat(v as int)) == v,
{
    let s = spec_fmt_nat(v as int);
    lemma_fmt_nat_digits(v as int);
    assert(s.last() != 44 && !is_ws(s.last())) by {
        assert(is_digit(s[s.len() - 1]));
    }
    lemma_strip_suffix_id(s, 44);
    assert(forall|i: int| 0 <= i < s.len() ==> !is_ws(#[trigger] s[i]));
    lemma_trim_id(s);
    assert(s[0] != 43) by {
        assert(is_digit(s[0]));
    }
    assert(spec_parse_u8(s) == Some(v));
}

/// A serialized operator token selects the same operator again.
pub proof fn lemma_operator_round_trip(op: RelationalOperator)
    ensures
        spec_op_of(spec_op_token(op)) == op,
{
    assert(crate::parser::kw_op_eq().len() == 2 && crate::parser::kw_op_eq()[0] == 61);
    assert(crate::parser::kw_op_ne().len() == 2 && crate::parser::kw_op_ne()[0] == 33);
    assert(crate::parser::kw_op_lt().len() == 1 && crate::parser::kw_op_lt()[0] == 60);
    assert(crate::parser::kw_op_le().len() == 2 && crate::parser::kw_op_le()[0] == 60);
    assert(crate::parser::kw_op_gt().len() == 1 && crate::parser::kw_op_gt()[0] == 62);
    assert(crate::parser::kw_op_ge().len() == 2 && crate::parser::kw_op_ge()[0] == 62);
}

/// Stripping trailing zero digits divides out the matching power of ten and
/// keeps a digit string whose last digit is nonzero.
proof fn lemma_strip_zeros(s: Seq<u8>)
    requires
        all_digits(s),
    ensures
        ({
            let t = strip_suffix_rep(s, 48);
            &&& t.len() <= s.len()
            &&& all_digits(t)
            &&& t.len() > 0 ==> t.last() != 48
            &&& digits_val(t) * pow10(s.len() - t.len()) == digits_val(s)
        }),
    decreases s.len(),
{
    let t = strip_suffix_rep(s, 48);
    if s.len() > 0 && s.last() == 48 {
        assert(all_digits(s.drop_last())) by {
            assert(forall|i: int|
                0 <= i < s.drop_last().len() ==> #[trigger] s.drop_last()[i] == s[i]);
        }
        lemma_strip_zeros(s.drop_last());
        let t2 = strip_suffix_rep(s.drop_last(), 48);
        assert(t == t2);
        assert(digits_val(s) == digits_val(s.drop_last()) * 10);
        assert(pow10(s.len() - t.len()) == 10 * pow10(s.len() - 1 - t.len()));
        assert(digits_val(t) * pow10(s.len() - t.len()) == digits_val(t) * (10 * pow10(
            s.len() - 1 - t.len(),
        )));
        assert(digits_val(t) * (10 * pow10(s.len() - 1 - t.len())) == (digits_val(t) * pow10(
            s.len() - 1 - t.len(),
        )) * 10) by (nonlinear_arith);
    } else {
        assert(t == s);
        assert(pow10(0) == 1);
    }
}

/// The six zero-padded digits of a number below one million are digits and
/// carry its value.
proof fn lemma_pad6_val(p: int)
    requires
        0 <= p < 1_000_000,
    ensures
        all_digits(spec_pad6(p)),
        spec_pad6(p).len() == 6,
        digits_val(spec_pad6(p)) == p,
{
    let s = spec_pad6(p);
    assert(forall|i: int| 0 <= i < s.len() ==> is_digit(#[trigger] s[i]));
    assert((48 + (p / 100_000) % 10) as u8 == 48 + (p / 100_000) % 10);
    assert((48 + (p / 10_000) % 10) as u8 == 48 + (p / 10_000) % 10);
    assert((48 + (p / 1_000) % 10) as u8 == 48 + (p / 1_000) % 10);
    assert((48 + (p / 100) % 10) as u8 == 48 + (p / 100) % 10);
    assert((48 + (p / 10) % 10) as u8 == 48 + (p / 10) % 10);
    assert((48 + p % 10) as u8 == 48 + p % 10);
    let s5 = s.drop_last();
    let s4 = s5.drop_last();
    let s3 = s4.drop_last();
    let s2 = s3.drop_last();
    let s1 = s2.drop_last();
    let s0 = s1.drop_last();
    assert(s5 =~= seq![s[0], s[1], s[2], s[3], s[4]]);
    assert(s4 =~= seq![s[0], s[1], s[2], s[3]]);
    assert(s3 =~= seq![s[0], s[1], s[2]]);
    assert(s2 =~= seq![s[0], s[1]]);
    assert(s1 =~= seq![s[0]]);
    assert(s0 =~= Seq::<u8>::empty());
    assert(digits_val(Seq::<u8>::empty()) == 0);
    assert(digits_val(s1) == (p / 100_000) % 10);
    assert(digits_val(s2) == digits_val(s1) * 10 + (p / 10_000) % 10);
    assert(digits_val(s3) == digits_val(s2) * 10 + (p / 1_000) % 10);
    assert(digits_val(s4) == digits_val(s3) * 10 + (p / 100) % 10);
    assert(digits_val(s5) == digits_val(s4) * 10 + (p / 10) % 10);
    assert(digits_val(s) == digits_val(s5) * 10 + p % 10);
    assert((p / 100_000) % 10 == p / 100_000);
    assert(p == (p / 10) * 10 + p % 10);
    assert(p / 10 == (p / 100) * 10 + (p / 10) % 10) by {
        assert(p / 10 / 10 == p / 100);
    }
    assert(p / 100 == (p / 1_000) * 10 + (p / 100) % 10) by {
        assert(p / 100 / 10 == p / 1_000);
    }
    assert(p / 1_000 == (p / 10_000) * 10 + (p / 1_000) % 10) by {
        assert(p / 1_000 / 10 == p / 10_000);
    }
    assert(p / 10_000 == (p / 100_000) * 10 + (p / 10_000) % 10) by {
        assert(p / 10_000 / 10 == p / 100_000);
    }
}

/// A rendered probability parses back to exactly the same fixed-point
/// value: `1` and `0` literally, and a proper fraction through its six
/// decimal digits with trailing zeros trimmed.
pub proof fn lemma_probability_round_trip(p: u32)
    requires
        p <= PROB_ONE,
    ensures
        spec_parse_prob(spec_fmt_prob(p)) == p,
{
    let tok = spec_fmt_prob(p);
    if p == PROB_ONE {
        assert(tok =~= seq![49u8]);
        assert(spec_find(tok, seq![46u8], 0) is None) by {
            assert(seq![46u8][0] == 46);
            assert(seq![46u8].len() == 1);
            assert(spec_find(tok, seq![46u8], 1) is None);
            assert(!matches_at(tok, 0, seq![46u8])) by {
                assert(tok.subrange(0, 1) =~= tok);
                assert(tok[0] == 49);
            }
        }
        assert(all_digits(tok));
        assert(tok.drop_last() =~= Seq::<u8>::empty());
        assert(digits_val(Seq::<u8>::empty()) == 0);
        assert(tok.last() == 49);
        assert(digits_val(tok) == 1);
    } else if p == 0 {
        assert(tok =~= seq![48u8]);
        assert(spec_find(tok, seq![46u8], 0) is None) by {
            assert(seq![46u8][0] == 46);
            assert(seq![46u8].len() == 1);
            assert(spec_find(tok, seq![46u8], 1) is None);
            assert(!matches_at(tok, 0, seq![46u8])) by {
                assert(tok.subrange(0, 1) =~= tok);
                assert(tok[0] == 48);
            }
        }
        assert(all_digits(tok));
        assert(tok.drop_last() =~= Seq::<u8>::empty());
        assert(digits_val(Seq::<u8>::empty()) == 0);
        assert(tok.last() == 48);
        assert(digits_val(tok) == 0);
    } else {
        let pad = spec_pad6(p as int);
        lemma_pad6_val(p as int);
        let frac = strip_suffix_rep(pad, 48);
        lemma_strip_zeros(pad);
        assert(frac.len() > 0) by {
            if frac.len() == 0 {
                assert(digits_val(frac) == 0);
                assert(digits_val(frac) * pow10(6 - frac.len()) == 0);
            }
        }
        assert(tok == seq![48u8, 46u8] + frac);
        assert(tok[0] == 48);
        let body = tok;
        assert(spec_find(body, seq![46u8], 0) == Some(1int)) by {
            assert(seq![46u8][0] == 46);
            assert(seq![46u8].len() == 1);
            assert(matches_at(body, 1, seq![46u8])) by {
                assert(body.subrange(1, 2) =~= seq![body[1]]);
                assert(body[1] == 46);
            }
            assert(spec_find(body, seq![46u8], 1) == Some(1int));
            assert(!matches_at(body, 0, seq![46u8])) by {
                assert(body.subrange(0, 1) =~= seq![body[0]]);
                assert(body[0] == 48);
            }
        }
        let intpart = body.take(1);
        assert(intpart =~= seq![48u8]);
        assert(all_digits(intpart));
        assert(intpart.drop_last() =~= Seq::<u8>::empty());
        assert(digits_val(Seq::<u8>::empty()) == 0);
        assert(digits_val(intpart) == 0);
        let fr = body.skip(2);
        assert(fr =~= frac);
        assert(all_digits(fr));
        let k: int = if fr.len() < 6 {
            fr.len() as int
        } else {
            6
        };
        assert(k == fr.len());
        assert(fr.take(k) =~= fr);
        assert(spec_frac6(fr) == digits_val(fr) * pow10(6 - fr.len()));
        assert(digits_val(fr) * pow10(6 - fr.len()) == p);
    }
}

/// Tokens joined by single spaces.
pub open spec fn join_sp(toks: Seq<Seq<u8>>) -> Seq<u8>
    decreases toks.len(),
{
    if toks.len() == 0 {
        Seq::empty()
    } else if toks.len() == 1 {
        toks[0]
    } else {
        toks[0] + seq![32u8] + join_sp(toks.drop_first())
    }
}

/// A nonempty token without whitespace.
pub open spec fn ws_free(t: Seq<u8>) -> bool {
    t.len() > 0 && forall|i: int| 0 <= i < t.len() ==> !is_ws(#[trigger] t[i])
}

/// Joining two nonempty token lists inserts exactly one space between them.
proof fn lemma_join_sp_append(a: Seq<Seq<u8>>, b: Seq<Seq<u8>>)
    requires
        a.len() > 0,
        b.len() > 0,
    ensures
        join_sp(a + b) == join_sp(a) + seq![32u8] + join_sp(b),
    decreases a.len(),
{
    if a.len() == 1 {
        assert((a + b).len() >= 2);
        assert((a + b)[0] == a[0]);
        assert((a + b).drop_first() =~= b);
        assert(join_sp(a + b) == a[0] + seq![32u8] + join_sp(b));
    } else {
        lemma_join_sp_append(a.drop_first(), b);
        assert((a + b)[0] == a[0]);
        assert((a + b).drop_first() =~= a.drop_first() + b);
        assert(join_sp(a + b) == a[0] + seq![32u8] + join_sp(a.drop_first() + b));
        assert(a[0] + seq![32u8] + (join_sp(a.drop_first()) + seq![32u8] + join_sp(b)) =~= (a[0]
            + seq![32u8] + join_sp(a.drop_first())) + seq![32u8] + join_sp(b));
    }
}

/// Splitting a single-space join of whitespace-free tokens recovers exactly
/// the tokens.
proof fn lemma_split_ws_join(toks: Seq<Seq<u8>>)
    requires
        forall|i: int| 0 <= i < toks.len() ==> ws_free(#[trigger] toks[i]),
    ensures
        crate::scan::spec_split_ws(join_sp(toks)) == toks,
    decreases toks.len(),
{
    if toks.len() == 0 {
        assert(crate::scan::spec_split_ws(join_sp(toks)) =~= toks);
    } else {
        let s = join_sp(toks);
        let t0 = toks[0];
        assert(ws_free(t0));
        let j = t0.len() as int;
        if toks.len() == 1 {
            assert(s == t0);
            assert(forall|k: int| 0 <= k < j ==> !is_ws(#[trigger] s[k]));
            crate::scan::lemma_tok_len_suffix(s, 0, j);
            assert(s.skip(0) =~= s);
            assert(crate::scan::tok_len(s) == j);
            assert(s.take(j) =~= t0);
            assert(s.skip(j) =~= Seq::<u8>::empty());
            assert(crate::scan::spec_split_ws(s.skip(j)) =~= Seq::<Seq<u8>>::empty());
            assert(crate::scan::spec_split_ws(s) =~= toks);
        } else {
            assert(s == t0 + seq![32u8] + join_sp(toks.drop_first()));
            assert(forall|k: int| 0 <= k < j ==> s[k] == t0[k]);
            assert(forall|k: int| 0 <= k < j ==> !is_ws(#[trigger] s[k]));
            assert(s[j] == 32);
            crate::scan::lemma_tok_len_suffix(s, 0, j);
            assert(s.skip(0) =~= s);
            assert(crate::scan::tok_len(s) == j);
            assert(s.take(j) =~= t0);
            let rest = s.skip(j);
            assert(rest[0] == 32);
            assert(rest.drop_first() =~= join_sp(toks.drop_first()));
            assert(forall|i: int|
                0 <= i < toks.drop_first().len() ==> ws_free(#[trigger] toks.drop_first()[i]));
            lemma_split_ws_join(toks.drop_first());
            assert(crate::scan::spec_split_ws(rest) == toks.drop_first());
            assert(crate::scan::spec_split_ws(s) =~= toks);
        }
    }
}

/// An id whose registry name resolves back to it: the name found for the
/// id is carried by no earlier state under another id.
pub open spec fn id_name_stable(states: Seq<StateModel>, id: u8) -> bool {
    match spec_name_of_id(states, id) {
        Some(n) => spec_lookup_name(states, n) == Some(id),
        None => false,
    }
}

/// A state name the grammar round-trips: nonempty, free of whitespace and
/// quotes, not ending in a closing parenthesis, and not beginning with the
/// `count(` keyword.
pub open spec fn grammar_safe_name(n: Seq<u8>) -> bool {
    &&& n.len() > 0
    &&& forall|i: int| 0 <= i < n.len() ==> (!is_ws(#[trigger] n[i]) && n[i] != 39)
    &&& n.last() != 41
    &&& !matches_at(n, 0, kw_count_open())
}

/// A condition the grammar round-trips against a registry: its neighbor id
/// resolves stably and its name is grammar-safe.
pub open spec fn cond_round_trippable(states: Seq<StateModel>, c: Condition) -> bool {
    &&& id_name_stable(states, c.neighbor_state_id)
    &&& grammar_safe_name(spec_name_of_id(states, c.neighbor_state_id).unwrap())
}

/// The serialized `count(<name>)` token of a condition.
pub open spec fn count_token(states: Seq<StateModel>, c: Condition) -> Seq<u8> {
    kw_count_open() + crate::writer::spec_display_name(states, c.neighbor_state_id) + seq![41u8]
}

/// The token list a condition region serializes to: per condition the
/// `count(...)`, operator and threshold tokens, with one combiner token
/// between consecutive conditions.
pub open spec fn cond_tokens(
    states: Seq<StateModel>,
    conds: Seq<Condition>,
    combs: Seq<ConditionCombiner>,
) -> Seq<Seq<u8>> {
    Seq::new(
        (4 * conds.len() - 1) as nat,
        |j: int|
            if j % 4 == 0 {
                count_token(states, conds[j / 4])
            } else if j % 4 == 1 {
                spec_op_token(conds[j / 4].operator)
            } else if j % 4 == 2 {
                spec_fmt_nat(conds[j / 4].threshold as int)
            } else {
                crate::writer::spec_comb_token(combs[j / 4])
            },
    )
}

/// Stripping the `count(` prefix and the closing parenthesis from a
/// serialized count token recovers exactly the grammar-safe name.
proof fn lemma_strip_count_token(name: Seq<u8>)
    requires
        grammar_safe_name(name),
    ensures
        strip_suffix_rep(strip_prefix_rep(kw_count_open() + name + seq![41u8], kw_count_open()), 41)
            == name,
{
    let t = kw_count_open() + name + seq![41u8];
    let inner = name + seq![41u8];
    assert(matches_at(t, 0, kw_count_open())) by {
        assert(t.subrange(0, 6) =~= kw_count_open());
    }
    assert(t.skip(6) =~= inner);
    assert(!matches_at(inner, 0, kw_count_open())) by {
        if matches_at(inner, 0, kw_count_open()) {
            if name.len() >= 6 {
                assert(name.subrange(0, 6) =~= inner.subrange(0, 6));
                assert(matches_at(name, 0, kw_count_open()));
            } else if name.len() == 5 {
                assert(inner.subrange(0, 6)[5] == inner[5]);
                assert(inner[5] == 41);
                assert(kw_count_open()[5] == 40);
            } else {
                assert(inner.len() < 6);
            }
        }
    }
    assert(strip_prefix_rep(t, kw_count_open()) == strip_prefix_rep(inner, kw_count_open()));
    assert(strip_prefix_rep(inner, kw_count_open()) == inner);
    assert(inner.last() == 41);
    assert(inner.drop_last() =~= name);
    assert(strip_suffix_rep(inner, 41) == strip_suffix_rep(name, 41));
    assert(name.last() != 41);
    assert(strip_suffix_rep(name, 41) == name);
}

/// Scanning the serialized token list from the start of condition `i`
/// recovers the conditions and combiners from `i` on.
proof fn lemma_scan_cond_tokens(
    states: Seq<StateModel>,
    conds: Seq<Condition>,
    combs: Seq<ConditionCombiner>,
    i: int,
)
    requires
        0 <= i < conds.len(),
        combs.len() == conds.len() - 1,
        forall|k: int| 0 <= k < conds.len() ==> cond_round_trippable(states, #[trigger] conds[k]),
    ensures
        crate::parser::spec_scan_conds(cond_tokens(states, conds, combs), 4 * i, states) == (
            conds.skip(i),
            combs.skip(i),
        ),
    decreases conds.len() - i,
{
    let toks = cond_tokens(states, conds, combs);
    let n = conds.len() as int;
    let c = conds[i];
    assert(cond_round_trippable(states, c));
    let name = spec_name_of_id(states, c.neighbor_state_id).unwrap();
    assert(crate::writer::spec_display_name(states, c.neighbor_state_id) == name);
    assert(toks[4 * i] == count_token(states, c)) by {
        assert((4 * i) % 4 == 0 && (4 * i) / 4 == i);
    }
    assert(toks[4 * i + 1] == spec_op_token(c.operator)) by {
        assert((4 * i + 1) % 4 == 1 && (4 * i + 1) / 4 == i);
    }
    assert(toks[4 * i + 2] == spec_fmt_nat(c.threshold as int)) by {
        assert((4 * i + 2) % 4 == 2 && (4 * i + 2) / 4 == i);
    }
    let tok = toks[4 * i];
    assert(matches_at(tok, 0, kw_count_open())) by {
        assert(tok.subrange(0, 6) =~= kw_count_open());
    }
    lemma_strip_count_token(name);
    assert(spec_lookup_name(states, name) == Some(c.neighbor_state_id));
    lemma_operator_round_trip(c.operator);
    lemma_threshold_round_trip(c.threshold);
    let rest_at = if 4 * i + 3 <= toks.len() as int {
        4 * i + 3
    } else {
        toks.len() as int
    };
    assert(crate::parser::spec_scan_conds(toks, 4 * i, states) == (
        seq![c] + crate::parser::spec_scan_conds(toks, rest_at, states).0,
        crate::parser::spec_scan_conds(toks, rest_at, states).1,
    ));
    if i == n - 1 {
        assert(toks.len() == 4 * n - 1);
        assert(rest_at == toks.len() as int);
        assert(crate::parser::spec_scan_conds(toks, rest_at, states) == (
            Seq::<Condition>::empty(),
            Seq::<ConditionCombiner>::empty(),
        ));
        assert(conds.skip(i) =~= seq![c] + Seq::<Condition>::empty());
        assert(combs.skip(i) =~= Seq::<ConditionCombiner>::empty());
    } else {
        assert(rest_at == 4 * i + 3);
        let ctok = toks[4 * i + 3];
        assert(ctok == crate::writer::spec_comb_token(combs[i])) by {
            assert((4 * i + 3) % 4 == 3 && (4 * i + 3) / 4 == i);
        }
        assert(!matches_at(ctok, 0, kw_count_open())) by {
            assert(ctok.len() <= 3);
        }
        assert(crate::parser::kw_and3().len() == 3 && crate::parser::kw_and3()[0] == 65);
        assert(crate::parser::kw_or2().len() == 2 && crate::parser::kw_or2()[0] == 79);
        assert(crate::parser::kw_xor3().len() == 3 && crate::parser::kw_xor3()[0] == 88);
        lemma_scan_cond_tokens(states, conds, combs, i + 1);
        assert(crate::parser::spec_scan_conds(toks, 4 * i + 4, states) == (
            conds.skip(i + 1),
            combs.skip(i + 1),
        ));
        assert(crate::parser::spec_scan_conds(toks, 4 * i + 3, states) == (
            conds.skip(i + 1),
            seq![combs[i]] + combs.skip(i + 1),
        ));
        assert(conds.skip(i) =~= seq![c] + conds.skip(i + 1));
        assert(combs.skip(i) =~= seq![combs[i]] + combs.skip(i + 1));
    }
}

/// Digits are not whitespace.
proof fn lemma_digits_ws_free(v: int)
    requires
        v >= 0,
    ensures
        ws_free(spec_fmt_nat(v)),
{
    lemma_fmt_nat_digits(v);
    let s = spec_fmt_nat(v);
    assert forall|i: int| 0 <= i < s.len() implies !is_ws(#[trigger] s[i]) by {
        assert(is_digit(s[i]));
    }
}

/// Every serialized condition-region token is a nonempty whitespace-free
/// token.
proof fn lemma_cond_tokens_ws_free(
    states: Seq<StateModel>,
    conds: Seq<Condition>,
    combs: Seq<ConditionCombiner>,
)
    requires
        conds.len() > 0,
        combs.len() == conds.len() - 1,
        forall|k: int| 0 <= k < conds.len() ==> cond_round_trippable(states, #[trigger] conds[k]),
    ensures
        forall|j: int|
            0 <= j < cond_tokens(states, conds, combs).len() ==> ws_free(
                #[trigger] cond_tokens(states, conds, combs)[j],
            ),
{
    let toks = cond_tokens(states, conds, combs);
    assert forall|j: int| 0 <= j < toks.len() implies ws_free(#[trigger] toks[j]) by {
        let q = j / 4;
        assert(0 <= q < conds.len()) by {
            assert(toks.len() == 4 * conds.len() - 1);
        }
        assert(cond_round_trippable(states, conds[q]));
        if j % 4 == 0 {
            let name = spec_name_of_id(states, conds[q].neighbor_state_id).unwrap();
            assert(crate::writer::spec_display_name(states, conds[q].neighbor_state_id) == name);
            let t = toks[j];
            assert(t == kw_count_open() + name + seq![41u8]);
            assert forall|i: int| 0 <= i < t.len() implies !is_ws(#[trigger] t[i]) by {
                if i < 6 {
                    assert(t[i] == kw_count_open()[i]);
                } else if i < 6 + name.len() {
                    assert(t[i] == name[i - 6]);
                } else {
                    assert(t[i] == 41);
                }
            }
        } else if j % 4 == 1 {
            assert(toks[j] == spec_op_token(conds[q].operator));
        } else if j % 4 == 2 {
            lemma_digits_ws_free(conds[q].threshold as int);
            assert(toks[j] == spec_fmt_nat(conds[q].threshold as int));
        } else {
            assert(0 <= q < combs.len()) by {
                assert(toks.len() == 4 * conds.len() - 1);
                assert(j <= toks.len() - 1);
            }
            assert(toks[j] == crate::writer::spec_comb_token(combs[q]));
        }
    }
}

/// The serialized condition region is exactly its token list joined by
/// single spaces.
proof fn lemma_conds_str_is_join(
    states: Seq<StateModel>,
    conds: Seq<Condition>,
    combs: Seq<ConditionCombiner>,
    n: int,
)
    requires
        1 <= n <= conds.len(),
        combs.len() == conds.len() - 1,
    ensures
        crate::writer::spec_conds_prefix_str(states, conds, combs, n) == join_sp(
            cond_tokens(states, conds.take(n), combs.take(n - 1)),
        ),
    decreases n,
{
    let toks = cond_tokens(states, conds.take(n), combs.take(n - 1));
    if n == 1 {
        let c = conds[0];
        assert(toks.len() == 3);
        assert(toks[0] == count_token(states, conds.take(1)[0]));
        assert(conds.take(1)[0] == c);
        assert(toks[1] == spec_op_token(c.operator));
        assert(toks[2] == spec_fmt_nat(c.threshold as int));
        assert(toks.drop_first() =~= seq![toks[1], toks[2]]);
        assert(toks.drop_first().drop_first() =~= seq![toks[2]]);
        assert(join_sp(toks.drop_first().drop_first()) == toks[2]);
        assert(join_sp(toks.drop_first()) == toks[1] + seq![32u8] + toks[2]);
        assert(join_sp(toks) == toks[0] + seq![32u8] + (toks[1] + seq![32u8] + toks[2]));
        assert(crate::writer::spec_conds_prefix_str(states, conds, combs, 1)
            == crate::writer::spec_cond_str(states, c));
        assert(crate::writer::spec_cond_str(states, c) =~= toks[0] + seq![32u8] + (toks[1] + seq![
            32u8,
        ] + toks[2]));
    } else {
        lemma_conds_str_is_join(states, conds, combs, n - 1);
        let prev = cond_tokens(states, conds.take(n - 1), combs.take(n - 2));
        let c = conds[n - 1];
        let tail = seq![
            crate::writer::spec_comb_token(combs[n - 2]),
            count_token(states, c),
            spec_op_token(c.operator),
            spec_fmt_nat(c.threshold as int),
        ];
        assert(toks =~= prev + tail) by {
            assert(toks.len() == 4 * n - 1);
            assert(prev.len() == 4 * (n - 1) - 1);
            assert forall|j: int| 0 <= j < toks.len() implies toks[j] == (prev + tail)[j] by {
                if j < prev.len() {
                    assert(conds.take(n)[j / 4] == conds.take(n - 1)[j / 4]);
                    if j % 4 == 3 {
                        assert(combs.take(n - 1)[j / 4] == combs.take(n - 2)[j / 4]);
                    }
                } else {
                    let d = j - prev.len();
                    assert(j == 4 * (n - 1) - 1 + d);
                    if d == 0 {
                        assert(j % 4 == 3 && j / 4 == n - 2);
                        assert(combs.take(n - 1)[n - 2] == combs[n - 2]);
                    } else if d == 1 {
                        assert(j % 4 == 0 && j / 4 == n - 1);
                        assert(conds.take(n)[n - 1] == c);
                    } else if d == 2 {
                        assert(j % 4 == 1 && j / 4 == n - 1);
                        assert(conds.take(n)[n - 1] == c);
                    } else {
                        assert(d == 3);
                        assert(j % 4 == 2 && j / 4 == n - 1);
                        assert(conds.take(n)[n - 1] == c);
                    }
                }
            }
        }
        lemma_join_sp_append(prev, tail);
        assert(tail.drop_first() =~= seq![tail[1], tail[2], tail[3]]);
        assert(tail.drop_first().drop_first() =~= seq![tail[2], tail[3]]);
        assert(tail.drop_first().drop_first().drop_first() =~= seq![tail[3]]);
        assert(join_sp(tail.drop_first().drop_first().drop_first()) == tail[3]);
        assert(join_sp(tail.drop_first().drop_first()) == tail[2] + seq![32u8] + tail[3]);
        assert(join_sp(tail.drop_first()) == tail[1] + seq![32u8] + (tail[2] + seq![32u8]
            + tail[3]));
        assert(join_sp(tail) == tail[0] + seq![32u8] + (tail[1] + seq![32u8] + (tail[2] + seq![
            32u8,
        ] + tail[3])));
        assert(crate::writer::spec_conds_prefix_str(states, conds, combs, n)
            == crate::writer::spec_conds_prefix_str(states, conds, combs, n - 1) + seq![32u8]
            + crate::writer::spec_comb_token(combs[n - 2]) + seq![32u8]
            + crate::writer::spec_cond_str(states, c));
        assert(crate::writer::spec_cond_str(states, c) =~= tail[1] + seq![32u8] + (tail[2] + seq![
            32u8,
        ] + tail[3]));
        assert(join_sp(prev) + seq![32u8] + join_sp(tail) =~= join_sp(prev) + seq![32u8] + tail[0]
            + seq![32u8] + crate::writer::spec_cond_str(states, c));
    }
}

/// The round-trip law for the condition grammar: serializing a nonempty
/// condition list with its combiners and re-scanning the tokens of the
/// emitted region reproduces exactly the same conditions and combiners,
/// provided each referenced state resolves stably to a grammar-safe name.
/// (An empty condition list serializes to the `(no conditions)` literal,
/// which the parser maps back to the empty list by definition.)
pub proof fn lemma_conditions_round_trip(
    states: Seq<StateModel>,
    conds: Seq<Condition>,
    combs: Seq<ConditionCombiner>,
)
    requires
        conds.len() > 0,
        combs.len() == conds.len() - 1,
        forall|k: int| 0 <= k < conds.len() ==> cond_round_trippable(states, #[trigger] conds[k]),
    ensures
        crate::parser::spec_scan_conds(
            crate::scan::spec_split_ws(crate::writer::spec_conds_str(states, conds, combs)),
            0,
            states,
        ) == (conds, combs),
{
    let n = conds.len() as int;
    lemma_conds_str_is_join(states, conds, combs, n);
    assert(conds.take(n) =~= conds);
    assert(combs.take(n - 1) =~= combs);
    let toks = cond_tokens(states, conds, combs);
    lemma_cond_tokens_ws_free(states, conds, combs);
    lemma_split_ws_join(toks);
    lemma_scan_cond_tokens(states, conds, combs, 0);
    assert(conds.skip(0) =~= conds);
    assert(combs.skip(0) =~= combs);
}

/// The first occurrence of a byte is at the position before which it never
/// appears.
proof fn lemma_find_byte_first(s: Seq<u8>, b: u8, from: int, k: int)
    requires
        0 <= from <= k < s.len(),
        s[k] == b,
        forall|j: int| from <= j < k ==> s[j] != b,
    ensures
        spec_find(s, seq![b], from) == Some(k),
    decreases k - from,
{
    assert(seq![b].len() == 1);
    if k == from {
        assert(matches_at(s, from, seq![b])) by {
            assert(s.subrange(from, from + 1) =~= seq![s[from]]);
            assert(seq![b][0] == b);
        }
    } else {
        assert(!matches_at(s, from, seq![b])) by {
            assert(s.subrange(from, from + 1) =~= seq![s[from]]);
            assert(seq![b][0] == b);
        }
        lemma_find_byte_first(s, b, from + 1, k);
    }
}

/// A state name the state-block grammar round-trips: nonempty, free of
/// whitespace, commas and parentheses.
pub open spec fn block_safe_name(n: Seq<u8>) -> bool {
    &&& n.len() > 0
    &&& forall|i: int|
        0 <= i < n.len() ==> (!is_ws(#[trigger] n[i]) && n[i] != 44 && n[i] != 40 && n[i] != 41)
}

/// The pieces of a serialized state line: the name, then each color channel
/// and the weight as `", "`-separated decimals inside the parentheses.
proof fn lemma_state_line_shape(st: StateModel)
    requires
        block_safe_name(st.name),
    ensures
        ({
            let line = crate::writer::spec_state_line(st);
            let t = line.subrange(4, line.len() - 1);
            t == st.name + seq![40u8] + spec_fmt_nat(st.color.r as int) + seq![44u8, 32u8]
                + spec_fmt_nat(st.color.g as int) + seq![44u8, 32u8] + spec_fmt_nat(
                st.color.b as int,
            ) + seq![44u8, 32u8] + spec_fmt_nat(st.weight as int) + seq![41u8]
        }),
{
    let line = crate::writer::spec_state_line(st);
    let t = line.subrange(4, line.len() - 1);
    assert(t =~= st.name + seq![40u8] + spec_fmt_nat(st.color.r as int) + seq![44u8, 32u8]
        + spec_fmt_nat(st.color.g as int) + seq![44u8, 32u8] + spec_fmt_nat(st.color.b as int)
        + seq![44u8, 32u8] + spec_fmt_nat(st.weight as int) + seq![41u8]);
}

/// A byte that never occurs is never found.
proof fn lemma_find_byte_none(s: Seq<u8>, b: u8, from: int)
    requires
        0 <= from,
        forall|j: int| 0 <= j < s.len() ==> s[j] != b,
    ensures
        spec_find(s, seq![b], from) is None,
    decreases s.len() - from + 1,
{
    assert(seq![b].len() == 1);
    if from + 1 <= s.len() {
        assert(!matches_at(s, from, seq![b])) by {
            assert(s.subrange(from, from + 1) =~= seq![s[from]]);
            assert(seq![b][0] == b);
        }
        lemma_find_byte_none(s, b, from + 1);
    }
}

/// Splitting on a byte takes everything before its first occurrence as the
/// head piece.
proof fn lemma_split_byte_head(s: Seq<u8>, b: u8, k: int)
    requires
        0 <= k < s.len(),
        s[k] == b,
        forall|j: int| 0 <= j < k ==> s[j] != b,
    ensures
        crate::import::spec_split_byte(s, b) == seq![s.take(k)] + crate::import::spec_split_byte(
            s.skip(k + 1),
            b,
        ),
{
    lemma_find_byte_first(s, b, 0, k);
}

/// A byte-free string splits into just itself.
proof fn lemma_split_byte_whole(s: Seq<u8>, b: u8)
    requires
        forall|j: int| 0 <= j < s.len() ==> s[j] != b,
    ensures
        crate::import::spec_split_byte(s, b) == seq![s],
{
    lemma_find_byte_none(s, b, 0);
}

/// The round-trip law for the state-block grammar: the body of a serialized
/// state line, handed to the state-line parser, appends exactly one state
/// carrying the same name, color and weight, under the id the importer
/// assigns by insertion order.
#[verifier::rlimit(100)]
pub proof fn lemma_state_line_round_trip(ist: crate::import::ImportState, st: StateModel)
    requires
        block_safe_name(st.name),
    ensures
        ({
            let line = crate::writer::spec_state_line(st);
            let body = line.subrange(4, line.len() - 1);
            crate::import::spec_state_line_parse(ist, body) == (crate::import::ImportState {
                states: ist.states.push(
                    StateModel {
                        id: ist.states.len() as u8,
                        name: st.name,
                        color: st.color,
                        weight: st.weight,
                    },
                ),
                ..ist
            })
        }),
{
    lemma_state_line_shape(st);
    let line = crate::writer::spec_state_line(st);
    let body = line.subrange(4, line.len() - 1);
    let name = st.name;
    let rr = spec_fmt_nat(st.color.r as int);
    let gg = spec_fmt_nat(st.color.g as int);
    let bb = spec_fmt_nat(st.color.b as int);
    let ww = spec_fmt_nat(st.weight as int);
    lemma_fmt_nat_digits(st.color.r as int);
    lemma_fmt_nat_digits(st.color.g as int);
    lemma_fmt_nat_digits(st.color.b as int);
    lemma_fmt_nat_digits(st.weight as int);
    let n0 = name.len() as int;
    let o_r = n0 + 1;
    let o_g = o_r + rr.len() + 2;
    let o_b = o_g + gg.len() + 2;
    let o_w = o_b + bb.len() + 2;
    let endp = o_w + ww.len() as int;
    assert(body.len() == endp + 1);
    assert forall|j: int| 0 <= j < body.len() implies #[trigger] body[j] == (if j < n0 {
        name[j]
    } else if j == n0 {
        40u8
    } else if j < o_r + rr.len() {
        rr[j - o_r]
    } else if j == o_r + rr.len() {
        44u8
    } else if j == o_r + rr.len() + 1 {
        32u8
    } else if j < o_g + gg.len() {
        gg[j - o_g]
    } else if j == o_g + gg.len() {
        44u8
    } else if j == o_g + gg.len() + 1 {
        32u8
    } else if j < o_b + bb.len() {
        bb[j - o_b]
    } else if j == o_b + bb.len() {
        44u8
    } else if j == o_b + bb.len() + 1 {
        32u8
    } else if j < endp {
        ww[j - o_w]
    } else {
        41u8
    }) by {}
    // The opening parenthesis is the first: names are parenthesis-free and
    // everything before it is the name.
    assert(body[n0] == 40);
    assert(forall|j: int| 0 <= j < n0 ==> body[j] != 40);
    lemma_find_byte_first(body, 40, 0, n0);
    // The closing parenthesis is the last byte and occurs nowhere earlier.
    assert(body[endp] == 41);
    assert forall|j: int| 0 <= j < endp implies body[j] != 41 by {
        if j < n0 {
        } else if o_r <= j < o_r + rr.len() {
            assert(is_digit(rr[j - o_r]));
        } else if o_g <= j < o_g + gg.len() {
            assert(is_digit(gg[j - o_g]));
        } else if o_b <= j < o_b + bb.len() {
            assert(is_digit(bb[j - o_b]));
        } else if o_w <= j < endp {
            assert(is_digit(ww[j - o_w]));
        }
    }
    lemma_find_byte_first(body, 41, 0, endp);
    // Name recovery: everything before the parenthesis, trimmed, commas
    // stripped.
    let head = body.take(n0);
    assert(head =~= name);
    lemma_trim_id(name);
    assert(name.last() != 44);
    lemma_strip_suffix_id(name, 44);
    // The number region splits on commas into the four decimals.
    let region = body.subrange(n0 + 1, endp);
    assert(region =~= rr + seq![44u8, 32u8] + gg + seq![44u8, 32u8] + bb + seq![44u8, 32u8] + ww);
    let p1 = rr.len() as int;
    assert(region[p1] == 44);
    assert forall|j: int| 0 <= j < p1 implies region[j] != 44 by {
        assert(is_digit(rr[j]));
    }
    lemma_split_byte_head(region, 44, p1);
    assert(region.take(p1) =~= rr);
    let rest1 = region.skip(p1 + 1);
    assert(rest1 =~= seq![32u8] + gg + seq![44u8, 32u8] + bb + seq![44u8, 32u8] + ww);
    let p2 = 1 + gg.len() as int;
    assert(rest1[p2] == 44);
    assert forall|j: int| 0 <= j < p2 implies rest1[j] != 44 by {
        if j >= 1 {
            assert(is_digit(gg[j - 1]));
        }
    }
    lemma_split_byte_head(rest1, 44, p2);
    assert(rest1.take(p2) =~= seq![32u8] + gg);
    let rest2 = rest1.skip(p2 + 1);
    assert(rest2 =~= seq![32u8] + bb + seq![44u8, 32u8] + ww);
    let p3 = 1 + bb.len() as int;
    assert(rest2[p3] == 44);
    assert forall|j: int| 0 <= j < p3 implies rest2[j] != 44 by {
        if j >= 1 {
            assert(is_digit(bb[j - 1]));
        }
    }
    lemma_split_byte_head(rest2, 44, p3);
    assert(rest2.take(p3) =~= seq![32u8] + bb);
    let rest3 = rest2.skip(p3 + 1);
    assert(rest3 =~= seq![32u8] + ww);
    assert forall|j: int| 0 <= j < rest3.len() implies rest3[j] != 44 by {
        if j >= 1 {
            assert(is_digit(ww[j - 1]));
        }
    }
    lemma_split_byte_whole(rest3, 44);
    let parts = crate::import::spec_split_byte(region, 44);
    assert(parts =~= seq![rr, seq![32u8] + gg, seq![32u8] + bb, seq![32u8] + ww]);
    // Each piece trims to its digits and parses to its value.
    lemma_number_piece(rr, st.color.r);
    lemma_space_number_piece(gg, st.color.g);
    lemma_space_number_piece(bb, st.color.b);
    lemma_space_number_piece(ww, st.weight);
    let numf = |p: Seq<u8>|
        match spec_parse_u8(spec_trim(p)) {
            Some(v) => v,
            None => 0u8,
        };
    let nums = parts.map_values(numf);
    assert(nums.len() == 4);
    assert(nums[0] == st.color.r);
    assert(nums[1] == st.color.g);
    assert(nums[2] == st.color.b);
    assert(nums[3] == st.weight);
}

/// A bare decimal piece parses to its value.
proof fn lemma_number_piece(d: Seq<u8>, v: u8)
    requires
        d == spec_fmt_nat(v as int),
    ensures
        spec_parse_u8(spec_trim(d)) == Some(v),
{
    lemma_fmt_nat_digits(v as int);
    assert(forall|i: int| 0 <= i < d.len() ==> !is_ws(#[trigger] d[i]));
    lemma_trim_id(d);
    assert(d[0] != 43) by {
        assert(is_digit(d[0]));
    }
}

/// A space-prefixed decimal piece trims to its digits and parses to its
/// value.
proof fn lemma_space_number_piece(d: Seq<u8>, v: u8)
    requires
        d == spec_fmt_nat(v as int),
    ensures
        spec_parse_u8(spec_trim(seq![32u8] + d)) == Some(v),
{
    lemma_fmt_nat_digits(v as int);
    let p = seq![32u8] + d;
    assert(is_ws(p[0]));
    assert(p.drop_first() =~= d);
    assert(spec_trim_start(p) == spec_trim_start(d));
    assert(forall|i: int| 0 <= i < d.len() ==> !is_ws(#[trigger] d[i]));
    assert(spec_trim_start(d) == d);
    assert(spec_trim_end(d) == d);
    assert(d[0] != 43) by {
        assert(is_digit(d[0]));
    }
}

/// A match before which the pattern never occurs is the first found.
proof fn lemma_find_pat_first(s: Seq<u8>, pat: Seq<u8>, from: int, k: int)
    requires
        0 <= from <= k,
        matches_at(s, k, pat),
        forall|q: int| from <= q < k ==> !matches_at(s, q, pat),
    ensures
        spec_find(s, pat, from) == Some(k),
    decreases k - from,
{
    if from < k {
        lemma_find_pat_first(s, pat, from + 1, k);
    }
}

/// In a join of whitespace-free tokens, the first and last bytes are
/// non-whitespace and the join is nonempty.
proof fn lemma_join_ends(toks: Seq<Seq<u8>>)
    requires
        toks.len() > 0,
        forall|i: int| 0 <= i < toks.len() ==> ws_free(#[trigger] toks[i]),
    ensures
        join_sp(toks).len() > 0,
        join_sp(toks)[0] == toks[0][0],
        join_sp(toks).last() == toks.last().last(),
        !is_ws(join_sp(toks)[0]),
        !is_ws(join_sp(toks).last()),
    decreases toks.len(),
{
    let s = join_sp(toks);
    if toks.len() == 1 {
        assert(s == toks[0]);
    } else {
        lemma_join_ends(toks.drop_first());
        assert(s == toks[0] + seq![32u8] + join_sp(toks.drop_first()));
        assert(s[0] == toks[0][0]);
        assert(s.last() == join_sp(toks.drop_first()).last());
        assert(toks.drop_first().last() == toks.last());
    }
}

/// In a join of whitespace-free tokens none of which ends in the byte `b`,
/// no occurrence of `b` is immediately followed by a space.
proof fn lemma_join_no_byte_space(toks: Seq<Seq<u8>>, b: u8)
    requires
        b != 32,
        forall|i: int| 0 <= i < toks.len() ==> ws_free(#[trigger] toks[i]),
        forall|i: int| 0 <= i < toks.len() ==> (#[trigger] toks[i]).last() != b,
    ensures
        forall|p: int|
            0 <= p < join_sp(toks).len() - 1 && #[trigger] join_sp(toks)[p] == b ==> join_sp(
                toks,
            )[p + 1] != 32,
    decreases toks.len(),
{
    let s = join_sp(toks);
    if toks.len() == 0 {
    } else if toks.len() == 1 {
        assert(s == toks[0]);
        assert forall|p: int| 0 <= p < s.len() - 1 && #[trigger] s[p] == b implies s[p + 1] != 32
            by {
            assert(!is_ws(toks[0][p + 1]));
        }
    } else {
        lemma_join_no_byte_space(toks.drop_first(), b);
        let t0 = toks[0];
        let rest = join_sp(toks.drop_first());
        assert(s == t0 + seq![32u8] + rest);
        assert forall|p: int| 0 <= p < s.len() - 1 && #[trigger] s[p] == b implies s[p + 1] != 32
            by {
            if p < t0.len() - 1 {
                assert(s[p] == t0[p]);
                assert(s[p + 1] == t0[p + 1]);
                assert(!is_ws(t0[p + 1]));
            } else if p == t0.len() - 1 {
                assert(s[p] == t0.last());
            } else if p == t0.len() {
                assert(s[p] == 32);
            } else {
                let q = p - t0.len() - 1;
                assert(s[p] == rest[q]);
                assert(s[p + 1] == rest[q + 1]);
                if q < rest.len() - 1 {
                } else {
                    assert(p + 1 == s.len());
                }
            }
        }
    }
}

/// The serialized condition region: nonempty, non-whitespace at both ends,
/// and no capital `N` immediately followed by a space.
proof fn lemma_conds_str_shape(
    states: Seq<StateModel>,
    conds: Seq<Condition>,
    combs: Seq<ConditionCombiner>,
)
    requires
        combs.len() == (if conds.len() == 0 { 0int } else { conds.len() - 1 }),
        forall|k: int| 0 <= k < conds.len() ==> cond_round_trippable(states, #[trigger] conds[k]),
    ensures
        ({
            let cs = crate::writer::spec_conds_str(states, conds, combs);
            &&& cs.len() > 0
            &&& !is_ws(cs[0])
            &&& !is_ws(cs.last())
            &&& cs.last() != 78
            &&& conds.len() > 0 ==> cs[0] == 99
            &&& forall|p: int|
                0 <= p < cs.len() - 1 && #[trigger] cs[p] == 78 ==> cs[p + 1] != 32
        }),
{
    let cs = crate::writer::spec_conds_str(states, conds, combs);
    if conds.len() == 0 {
        assert(cs == crate::parser::kw_nocond());
        assert(forall|p: int| 0 <= p < cs.len() ==> #[trigger] cs[p] != 78);
        assert(!is_ws(cs[0]));
        assert(!is_ws(cs.last()));
    } else {
        let n = conds.len() as int;
        lemma_conds_str_is_join(states, conds, combs, n);
        assert(conds.take(n) =~= conds);
        assert(combs.take(n - 1) =~= combs);
        let toks = cond_tokens(states, conds, combs);
        lemma_cond_tokens_ws_free(states, conds, combs);
        assert(cs == join_sp(toks));
        assert(toks.len() > 0);
        lemma_join_ends(toks);
        assert(toks[0] == count_token(states, conds[0]));
        assert(toks[0][0] == 99);
        assert forall|i: int| 0 <= i < toks.len() implies (#[trigger] toks[i]).last() != 78 by {
            let q = i / 4;
            assert(0 <= q < conds.len()) by {
                assert(toks.len() == 4 * conds.len() - 1);
            }
            if i % 4 == 0 {
                assert(toks[i] == count_token(states, conds[q]));
                assert(toks[i].last() == 41);
            } else if i % 4 == 1 {
                assert(toks[i] == spec_op_token(conds[q].operator));
            } else if i % 4 == 2 {
                assert(toks[i] == spec_fmt_nat(conds[q].threshold as int));
                lemma_fmt_nat_digits(conds[q].threshold as int);
                assert(is_digit(toks[i].last()));
            } else {
                assert(0 <= q < combs.len()) by {
                    assert(toks.len() == 4 * conds.len() - 1);
                    assert(i <= toks.len() - 1);
                }
                assert(toks[i] == crate::writer::spec_comb_token(combs[q]));
            }
        }
        lemma_join_no_byte_space(toks, 78);
        assert(cs.last() == toks.last().last());
    }
}

/// A keyword containing an interior `<byte><space>` pair is first found at a
/// match before which that pair never occurs.
proof fn lemma_pat_first_by_pair(t: Seq<u8>, pat: Seq<u8>, fp: int, b: u8, i: int)
    requires
        0 <= i,
        i + 1 < pat.len(),
        pat[i] == b,
        pat[i + 1] == 32,
        matches_at(t, fp, pat),
        forall|p: int|
            0 <= p < fp + i && #[trigger] t[p] == b ==> (p + 1 >= t.len() || t[p + 1] != 32),
    ensures
        spec_find(t, pat, 0) == Some(fp),
{
    assert forall|q: int| 0 <= q < fp implies !matches_at(t, q, pat) by {
        if matches_at(t, q, pat) {
            assert(t.subrange(q, q + pat.len())[i] == t[q + i]);
            assert(t.subrange(q, q + pat.len())[i + 1] == t[q + i + 1]);
            assert(t[q + i] == b && t[q + i + 1] == 32);
        }
    }
    lemma_find_pat_first(t, pat, 0, fp);
}

/// A rendered probability is a single whitespace-free token.
proof fn lemma_fmt_prob_ws_free(p: u32)
    requires
        p <= PROB_ONE,
    ensures
        ws_free(spec_fmt_prob(p)),
{
    let tok = spec_fmt_prob(p);
    if p == PROB_ONE || p == 0 {
    } else {
        let pad = spec_pad6(p as int);
        lemma_pad6_val(p as int);
        lemma_strip_zeros(pad);
        let frac = strip_suffix_rep(pad, 48);
        assert(tok == seq![48u8, 46u8] + frac);
        assert forall|i: int| 0 <= i < tok.len() implies !is_ws(#[trigger] tok[i]) by {
            if i >= 2 {
                assert(tok[i] == frac[i - 2]);
                assert(is_digit(frac[i - 2]));
            }
        }
    }
}

/// The registry name of a rule's source state.
pub open spec fn rl_cur(states: Seq<StateModel>, rule: RuleModel) -> Seq<u8> {
    spec_name_of_id(states, rule.current_state_id).unwrap()
}

/// The registry name of a rule's destination state.
pub open spec fn rl_nxt(states: Seq<StateModel>, rule: RuleModel) -> Seq<u8> {
    spec_name_of_id(states, rule.next_state_id).unwrap()
}

/// The serialized condition region of a rule.
pub open spec fn rl_cs(states: Seq<StateModel>, rule: RuleModel) -> Seq<u8> {
    crate::writer::spec_conds_str(states, rule.conditions, rule.combiners)
}

/// Where `THEN next is` stands in the serialized rule line.
pub open spec fn rl_fp(states: Seq<StateModel>, rule: RuleModel) -> int {
    22 + rl_cur(states, rule).len() as int + rl_cs(states, rule).len() as int
}

/// The trimmed text between the keywords of the serialized rule line.
pub open spec fn rl_bi(states: Seq<StateModel>, rule: RuleModel) -> Seq<u8> {
    seq![39u8] + rl_cur(states, rule) + seq![39u8, 32u8] + crate::parser::kw_and3() + seq![32u8]
        + rl_cs(states, rule)
}

/// The trimmed text after `THEN next is` of the serialized rule line.
pub open spec fn rl_tpi(states: Seq<StateModel>, rule: RuleModel) -> Seq<u8> {
    seq![39u8] + rl_nxt(states, rule) + seq![39u8, 32u8] + crate::parser::kw_with() + seq![32u8]
        + spec_fmt_prob(rule.probability)
}

/// The side conditions under which a rule's serialized line parses back to
/// the rule itself: structural validity, and source, destination and every
/// condition state resolving stably to grammar-safe names.
pub open spec fn rule_round_trippable(states: Seq<StateModel>, rule: RuleModel) -> bool {
    &&& rule.wf()
    &&& id_name_stable(states, rule.current_state_id)
    &&& grammar_safe_name(rl_cur(states, rule))
    &&& id_name_stable(states, rule.next_state_id)
    &&& grammar_safe_name(rl_nxt(states, rule))
    &&& forall|k: int|
        0 <= k < rule.conditions.len() ==> cond_round_trippable(states, #[trigger] rule.conditions[k])
}

/// The serialized rule line trims to itself, opens with `IF current is`,
/// and has `THEN next is` first at its emitted position, splitting the line
/// into the expected head and tail.
#[verifier::rlimit(100)]
proof fn rl_lemma_skeleton(states: Seq<StateModel>, rule: RuleModel)
    requires
        rule_round_trippable(states, rule),
    ensures
        ({
            let line = crate::writer::spec_rule_line(states, rule);
            let fp = rl_fp(states, rule);
            &&& spec_trim(line) == line
            &&& matches_at(line, 0, crate::parser::kw_if())
            &&& spec_find(line, crate::parser::kw_then(), 0) == Some(fp)
            &&& spec_trim(line.subrange(13, fp)) == rl_bi(states, rule)
            &&& spec_trim(line.subrange(fp + 12, line.len() as int)) == rl_tpi(states, rule)
        }),
{
    let cur = rl_cur(states, rule);
    let nxt = rl_nxt(states, rule);
    assert(crate::writer::spec_display_name(states, rule.current_state_id) == cur);
    assert(crate::writer::spec_display_name(states, rule.next_state_id) == nxt);
    let cs = rl_cs(states, rule);
    let pr = spec_fmt_prob(rule.probability);
    lemma_conds_str_shape(states, rule.conditions, rule.combiners);
    lemma_fmt_prob_ws_free(rule.probability);
    let line = crate::writer::spec_rule_line(states, rule);
    let lc = cur.len() as int;
    let lcs = cs.len() as int;
    let fp = rl_fp(states, rule);
    assert(line.len() == fp + 12 + 2 + nxt.len() + 2 + 9 + 1 + pr.len());

    let br = seq![32u8, 39u8] + cur + seq![39u8, 32u8] + crate::parser::kw_and3() + seq![32u8] + cs
        + seq![32u8];
    let tp = seq![32u8, 39u8] + nxt + seq![39u8, 32u8] + crate::parser::kw_with() + seq![32u8] + pr;
    assert(line.subrange(0, 13) =~= crate::parser::kw_if());
    assert(line.subrange(13, fp) =~= br);
    assert(line.subrange(fp, fp + 12) =~= crate::parser::kw_then());
    assert(line.subrange(fp + 12, line.len() as int) =~= tp);

    assert(line[0] == 73);
    assert(line.last() == pr.last()) by {
        assert(line.last() == tp.last());
    }
    assert(!is_ws(line.last()));
    assert(spec_trim_start(line) == line);
    assert(spec_trim_end(line) == line);

    assert(matches_at(line, 0, crate::parser::kw_if()));

    assert(matches_at(line, fp, crate::parser::kw_then()));
    assert(crate::parser::kw_then()[3] == 78 && crate::parser::kw_then()[4] == 32);
    assert forall|p: int|
        0 <= p < fp + 3 && #[trigger] line[p] == 78 implies (p + 1 >= line.len() || line[p + 1]
            != 32) by {
        if p < 13 {
            assert(line.subrange(0, 13)[p] == line[p]);
            assert(crate::parser::kw_if()[p] != 78);
        } else if p < fp {
            let j = p - 13;
            assert(line.subrange(13, fp)[j] == line[p]);
            assert(br[j] == line[p]);
            if j < 2 {
            } else if j < 2 + lc {
                assert(line[p + 1] == br[j + 1]) by {
                    assert(line.subrange(13, fp)[j + 1] == line[p + 1]);
                }
                if j < 1 + lc {
                    assert(br[j + 1] == cur[j - 1]);
                    assert(!is_ws(cur[j - 1]));
                } else {
                    assert(br[j + 1] == 39);
                }
            } else if j < 4 + lc {
                assert(br[j] == 39 || br[j] == 32);
            } else if j < 7 + lc {
                assert(line[p + 1] == br[j + 1]) by {
                    assert(line.subrange(13, fp)[j + 1] == line[p + 1]);
                }
                if j == 4 + lc {
                    assert(br[j] == 65);
                } else if j == 5 + lc {
                    assert(br[j + 1] == 68);
                } else {
                    assert(br[j] == 68);
                }
            } else if j == 7 + lc {
                assert(br[j] == 32);
            } else if j < 8 + lc + lcs {
                let q = j - (8 + lc);
                assert(br[j] == cs[q]);
                if q < lcs - 1 {
                    assert(line[p + 1] == br[j + 1]) by {
                        assert(line.subrange(13, fp)[j + 1] == line[p + 1]);
                    }
                    assert(br[j + 1] == cs[q + 1]);
                } else {
                    assert(cs.last() != 78);
                }
            } else {
                assert(br[j] == 32);
            }
        } else {
            assert(line.subrange(fp, fp + 12)[p - fp] == line[p]);
            assert(crate::parser::kw_then()[p - fp] != 78);
        }
    }
    lemma_pat_first_by_pair(line, crate::parser::kw_then(), fp, 78, 3);

    let bi = rl_bi(states, rule);
    assert(br[0] == 32 && br[1] == 39);
    assert(br.last() == 32);
    assert(spec_trim(br) == bi) by {
        crate::scan::lemma_trim_start_skip(br, 1);
        let mid = br.skip(1);
        assert(mid =~= bi + seq![32u8]);
        crate::scan::lemma_trim_end_take(mid, mid.len() - 1);
        assert(mid.take(mid.len() - 1) =~= bi);
    }
    let tpi = rl_tpi(states, rule);
    assert(spec_trim(tp) == tpi) by {
        assert(tp[0] == 32);
        assert(tp.last() == pr.last());
        crate::scan::lemma_trim_start_skip(tp, 1);
        assert(tp.skip(1) =~= tpi);
        assert(spec_trim_end(tpi) == tpi) by {
            assert(tpi.last() == pr.last());
        }
    }
}

/// The between-keywords text of a serialized rule line yields back the
/// quoted source name and the condition region.
#[verifier::rlimit(100)]
proof fn rl_lemma_between(states: Seq<StateModel>, rule: RuleModel)
    requires
        rule_round_trippable(states, rule),
    ensures
        ({
            let bi = rl_bi(states, rule);
            let cur = rl_cur(states, rule);
            let cs = rl_cs(states, rule);
            let lc = cur.len() as int;
            &&& spec_find(bi, seq![39u8], 0) == Some(0int)
            &&& spec_find(bi, seq![39u8], 1) == Some(1 + lc)
            &&& spec_trim(bi.subrange(1, 1 + lc)) == cur
            &&& matches_at(spec_trim(bi.subrange(2 + lc, bi.len() as int)), 0, crate::parser::kw_and3())
            &&& spec_trim(spec_trim(bi.subrange(2 + lc, bi.len() as int)).skip(3)) == cs
        }),
{
    let bi = rl_bi(states, rule);
    let cur = rl_cur(states, rule);
    let cs = rl_cs(states, rule);
    let lc = cur.len() as int;
    lemma_conds_str_shape(states, rule.conditions, rule.combiners);
    assert(bi[0] == 39);
    lemma_find_byte_first(bi, 39, 0, 0);
    assert forall|j: int| 1 <= j < 1 + lc implies bi[j] != 39 by {
        assert(bi[j] == cur[j - 1]);
    }
    assert(bi[1 + lc] == 39);
    lemma_find_byte_first(bi, 39, 1, 1 + lc);
    assert(bi.subrange(1, 1 + lc) =~= cur);
    lemma_trim_id(cur);
    let ai = crate::parser::kw_and3() + seq![32u8] + cs;
    let after = spec_trim(bi.subrange(2 + lc, bi.len() as int));
    assert(after == ai) by {
        assert(bi.subrange(2 + lc, bi.len() as int) =~= seq![32u8] + ai);
        assert(is_ws((seq![32u8] + ai)[0]));
        crate::scan::lemma_trim_start_skip(seq![32u8] + ai, 1);
        assert((seq![32u8] + ai).skip(1) =~= ai);
        assert(spec_trim_end(ai) == ai) by {
            assert(ai.last() == cs.last());
        }
    }
    assert(matches_at(ai, 0, crate::parser::kw_and3())) by {
        assert(ai.subrange(0, 3) =~= crate::parser::kw_and3());
    }
    assert(spec_trim(ai.skip(3)) == cs) by {
        assert(ai.skip(3) =~= seq![32u8] + cs);
        assert(is_ws((seq![32u8] + cs)[0]));
        crate::scan::lemma_trim_start_skip(seq![32u8] + cs, 1);
        assert((seq![32u8] + cs).skip(1) =~= cs);
        assert(spec_trim_end(cs) == cs);
    }
}

/// The tail of a serialized rule line yields back the quoted destination
/// name and the probability token.
#[verifier::rlimit(100)]
proof fn rl_lemma_tail(states: Seq<StateModel>, rule: RuleModel)
    requires
        rule_round_trippable(states, rule),
    ensures
        ({
            let tpi = rl_tpi(states, rule);
            let nxt = rl_nxt(states, rule);
            let ln = nxt.len() as int;
            let w = ln + 3;
            &&& spec_find(tpi, crate::parser::kw_with(), 0) == Some(w)
            &&& spec_find(spec_trim(tpi.take(w)), seq![39u8], 0) == Some(0int)
            &&& spec_find(spec_trim(tpi.take(w)), seq![39u8], 1) == Some(1 + ln)
            &&& spec_trim(spec_trim(tpi.take(w)).subrange(1, 1 + ln)) == nxt
            &&& crate::scan::spec_split_ws(tpi.skip(w + 9)) == seq![spec_fmt_prob(rule.probability)]
        }),
{
    let tpi = rl_tpi(states, rule);
    let nxt = rl_nxt(states, rule);
    let pr = spec_fmt_prob(rule.probability);
    let ln = nxt.len() as int;
    let w = ln + 3;
    lemma_fmt_prob_ws_free(rule.probability);
    assert(matches_at(tpi, w, crate::parser::kw_with())) by {
        assert(tpi.subrange(w, w + 9) =~= crate::parser::kw_with());
    }
    assert(crate::parser::kw_with()[3] == 72 && crate::parser::kw_with()[4] == 32);
    assert forall|p: int|
        0 <= p < w + 3 && #[trigger] tpi[p] == 72 implies (p + 1 >= tpi.len() || tpi[p + 1] != 32)
        by {
        if p == 0 {
        } else if p < 1 + ln {
            if p < ln {
                assert(tpi[p + 1] == nxt[p]);
                assert(!is_ws(nxt[p]));
            } else {
                assert(tpi[p + 1] == 39);
            }
        } else if p < 3 + ln {
            assert(tpi[p] == 39 || tpi[p] == 32);
        } else {
            assert(tpi.subrange(w, w + 9)[p - w] == tpi[p]);
            assert(crate::parser::kw_with()[p - w] != 72);
        }
    }
    lemma_pat_first_by_pair(tpi, crate::parser::kw_with(), w, 72, 3);

    let ci = seq![39u8] + nxt + seq![39u8];
    let core = spec_trim(tpi.take(w));
    assert(core == ci) by {
        assert(tpi.take(w) =~= ci + seq![32u8]);
        assert((ci + seq![32u8])[0] == 39);
        crate::scan::lemma_trim_end_take(ci + seq![32u8], w - 1);
        assert((ci + seq![32u8]).take(w - 1) =~= ci);
        assert(spec_trim_start(ci + seq![32u8]) == ci + seq![32u8]);
    }
    assert(ci[0] == 39);
    lemma_find_byte_first(ci, 39, 0, 0);
    assert forall|j: int| 1 <= j < 1 + ln implies ci[j] != 39 by {
        assert(ci[j] == nxt[j - 1]);
    }
    assert(ci[1 + ln] == 39);
    lemma_find_byte_first(ci, 39, 1, 1 + ln);
    assert(ci.subrange(1, 1 + ln) =~= nxt);
    lemma_trim_id(nxt);
    let prob_region = tpi.skip(w + 9);
    assert(prob_region =~= seq![32u8] + pr);
    assert(crate::scan::spec_split_ws(prob_region) == seq![pr]) by {
        assert(is_ws(prob_region[0]));
        assert(prob_region.drop_first() =~= pr);
        lemma_split_ws_join(seq![pr]);
        assert(join_sp(seq![pr]) == pr);
    }
}

/// The round-trip law for a whole rule line: parsing the serialized line of
/// a well-formed rule against the same registry reproduces exactly that
/// rule, provided the states it references resolve stably to grammar-safe
/// names.
#[verifier::rlimit(100)]
pub proof fn lemma_rule_line_round_trip(states: Seq<StateModel>, rule: RuleModel)
    requires
        rule_round_trippable(states, rule),
    ensures
        crate::parser::spec_parse_rule(crate::writer::spec_rule_line(states, rule), states) == Ok::<
            RuleModel,
            crate::parser::RuleParseError,
        >(rule),
{
    let line = crate::writer::spec_rule_line(states, rule);
    let cur = rl_cur(states, rule);
    let nxt = rl_nxt(states, rule);
    let cs = rl_cs(states, rule);
    let lc = cur.len() as int;
    let ln = nxt.len() as int;
    rl_lemma_skeleton(states, rule);
    rl_lemma_between(states, rule);
    rl_lemma_tail(states, rule);
    lemma_probability_round_trip(rule.probability);
    lemma_conds_str_shape(states, rule.conditions, rule.combiners);
    assert(spec_lookup_name(states, cur) == Some(rule.current_state_id));
    assert(spec_lookup_name(states, nxt) == Some(rule.next_state_id));

    let t = spec_trim(line);
    assert(t == line);
    let fp = rl_fp(states, rule);
    assert(spec_find(t, crate::parser::kw_then(), 0) == Some(fp));
    let between = spec_trim(t.subrange(13, fp));
    assert(between == rl_bi(states, rule));
    let then_part = spec_trim(t.subrange(fp + 12, t.len() as int));
    assert(then_part == rl_tpi(states, rule));
    let w = ln + 3;
    assert(spec_find(then_part, crate::parser::kw_with(), 0) == Some(w));
    let core = spec_trim(then_part.take(w));
    assert(spec_find(core, seq![39u8], 0) == Some(0int));
    assert(spec_find(core, seq![39u8], 1int) == Some(1 + ln));
    let next_name = spec_trim(core.subrange(1int, 1 + ln));
    assert(next_name == nxt);
    assert(spec_find(between, seq![39u8], 0) == Some(0int));
    assert(spec_find(between, seq![39u8], 1int) == Some(1 + lc));
    let current_name = spec_trim(between.subrange(1int, 1 + lc));
    assert(current_name == cur);
    let after = spec_trim(between.subrange(1 + lc + 1, between.len() as int));
    assert(matches_at(after, 0, crate::parser::kw_and3()));
    let region = spec_trim(after.skip(3));
    assert(region == cs);
    let ptoks = crate::scan::spec_split_ws(then_part.skip(w + 9));
    assert(ptoks == seq![spec_fmt_prob(rule.probability)]);
    assert(ptoks.len() > 0 && ptoks[0] == spec_fmt_prob(rule.probability));
    assert(crate::parser::spec_parse_prob(ptoks[0]) == rule.probability);

    let sc = if region.len() == 0 || region == crate::parser::kw_nocond() {
        (Seq::<Condition>::empty(), Seq::<ConditionCombiner>::empty())
    } else {
        crate::parser::spec_scan_conds(crate::scan::spec_split_ws(region), 0, states)
    };
    if rule.conditions.len() == 0 {
        assert(cs == crate::parser::kw_nocond());
        assert(sc == (rule.conditions, rule.combiners)) by {
            assert(rule.conditions =~= Seq::<Condition>::empty());
            assert(rule.combiners =~= Seq::<ConditionCombiner>::empty());
        }
    } else {
        assert(cs != crate::parser::kw_nocond()) by {
            assert(cs[0] == 99);
            assert(crate::parser::kw_nocond()[0] == 40);
        }
        assert(cs.len() > 0);
        lemma_conditions_round_trip(states, rule.conditions, rule.combiners);
        assert(sc == (rule.conditions, rule.combiners));
    }
    assert(sc.1.len() == (if sc.0.len() == 0 { 0int } else { sc.0.len() - 1 }));
    assert(RuleModel {
        current_state_id: rule.current_state_id,
        conditions: sc.0,
        combiners: sc.1,
        next_state_id: rule.next_state_id,
        probability: rule.probability,
    } == rule);
}
/// A registry name that cannot be mistaken for a block header: it is
/// block-safe and does not begin with the `WIDTH`, `STATE` or `RULES`
/// keywords.
pub open spec fn block_line_safe_name(n: Seq<u8>) -> bool {
    &&& block_safe_name(n)
    &&& !matches_at(n, 0, crate::import::kw_width())
    &&& !matches_at(n, 0, crate::import::kw_state5())
    &&& !matches_at(n, 0, crate::import::kw_rules5())
}

/// Inside the state block, an indented serialized state line appends
/// exactly its state, under the id the importer assigns by insertion
/// order.
pub proof fn lemma_import_state_line(ist: crate::import::ImportState, st: StateModel)
    requires
        ist.in_states,
        block_line_safe_name(st.name),
    ensures
        ({
            let line = crate::writer::spec_state_line(st);
            crate::import::spec_import_line(ist, line.take(line.len() - 1))
                == (crate::import::ImportState {
                states: ist.states.push(
                    StateModel {
                        id: ist.states.len() as u8,
                        name: st.name,
                        color: st.color,
                        weight: st.weight,
                    },
                ),
                ..ist
            })
        }),
{
    let line = crate::writer::spec_state_line(st);
    let lc = line.take(line.len() - 1);
    let body = line.subrange(4, line.len() - 1);
    lemma_state_line_shape(st);
    lemma_fmt_nat_digits(st.weight as int);
    let t = spec_trim(lc);
    assert(t == body) by {
        assert(forall|j: int| 0 <= j < 4 ==> is_ws(#[trigger] lc[j]));
        assert(lc[4] == body[0]);
        assert(body[0] == st.name[0]);
        assert(!is_ws(lc[4]));
        crate::scan::lemma_trim_start_skip(lc, 4);
        assert(lc.skip(4) =~= body);
        assert(body.last() == 41);
        assert(spec_trim_end(body) == body);
    }
    assert(t.len() > 0);
    assert(!matches_at(t, 0, crate::import::kw_width())) by {
        if matches_at(t, 0, crate::import::kw_width()) {
            assert(matches_at(st.name, 0, crate::import::kw_width())) by {
                if st.name.len() >= 5 {
                    assert(st.name.subrange(0, 5) =~= t.subrange(0, 5));
                } else {
                    assert(t.subrange(0, 5)[st.name.len() as int] == t[st.name.len() as int]);
                    assert(t[st.name.len() as int] == 40);
                    assert(crate::import::kw_width()[st.name.len() as int] != 40);
                }
            }
        }
    }
    assert(!matches_at(t, 0, crate::import::kw_state5())) by {
        if matches_at(t, 0, crate::import::kw_state5()) {
            assert(matches_at(st.name, 0, crate::import::kw_state5())) by {
                if st.name.len() >= 5 {
                    assert(st.name.subrange(0, 5) =~= t.subrange(0, 5));
                } else {
                    assert(t.subrange(0, 5)[st.name.len() as int] == t[st.name.len() as int]);
                    assert(t[st.name.len() as int] == 40);
                    assert(crate::import::kw_state5()[st.name.len() as int] != 40);
                }
            }
        }
    }
    assert(!matches_at(t, 0, crate::import::kw_rules5())) by {
        if matches_at(t, 0, crate::import::kw_rules5()) {
            assert(matches_at(st.name, 0, crate::import::kw_rules5())) by {
                if st.name.len() >= 5 {
                    assert(st.name.subrange(0, 5) =~= t.subrange(0, 5));
                } else {
                    assert(t.subrange(0, 5)[st.name.len() as int] == t[st.name.len() as int]);
                    assert(t[st.name.len() as int] == 40);
                    assert(crate::import::kw_rules5()[st.name.len() as int] != 40);
                }
            }
        }
    }
    assert(t != seq![125u8]) by {
        assert(t.len() >= st.name.len() + 2);
    }
    lemma_state_line_round_trip(ist, st);
}

/// Inside the rules block, an indented serialized rule line appends exactly
/// its rule.
pub proof fn lemma_import_rule_line(ist: crate::import::ImportState, rule: RuleModel)
    requires
        ist.in_rules,
        !ist.in_states,
        rule_round_trippable(ist.states, rule),
    ensures
        crate::import::spec_import_line(
            ist,
            seq![32u8, 32u8, 32u8, 32u8] + crate::writer::spec_rule_line(ist.states, rule),
        ) == (crate::import::ImportState { rules: ist.rules.push(rule), ..ist }),
{
    let rl = crate::writer::spec_rule_line(ist.states, rule);
    let lc = seq![32u8, 32u8, 32u8, 32u8] + rl;
    rl_lemma_skeleton(ist.states, rule);
    let t = spec_trim(lc);
    assert(t == rl) by {
        assert(forall|j: int| 0 <= j < 4 ==> is_ws(#[trigger] lc[j]));
        assert(lc[4] == rl[0]);
        assert(rl[0] == 73);
        crate::scan::lemma_trim_start_skip(lc, 4);
        assert(lc.skip(4) =~= rl);
        assert(spec_trim_start(rl) == rl);
        assert(spec_trim_end(rl) == rl) by {
            assert(spec_trim(rl) == rl);
        }
    }
    assert(t.len() > 0);
    assert(t[0] == 73);
    assert(!matches_at(t, 0, crate::import::kw_width())) by {
        if matches_at(t, 0, crate::import::kw_width()) {
            assert(t.subrange(0, 5)[0] == t[0]);
            assert(crate::import::kw_width()[0] == 87);
        }
    }
    assert(!matches_at(t, 0, crate::import::kw_state5())) by {
        if matches_at(t, 0, crate::import::kw_state5()) {
            assert(t.subrange(0, 5)[0] == t[0]);
            assert(crate::import::kw_state5()[0] == 83);
        }
    }
    assert(!matches_at(t, 0, crate::import::kw_rules5())) by {
        if matches_at(t, 0, crate::import::kw_rules5()) {
            assert(t.subrange(0, 5)[0] == t[0]);
            assert(crate::import::kw_rules5()[0] == 82);
        }
    }
    assert(t != seq![125u8]) by {
        assert(t[0] != 125);
    }
    lemma_rule_line_round_trip(ist.states, rule);
}

/// No byte of `s` is a newline.
pub open spec fn nl_free(s: Seq<u8>) -> bool {
    forall|i: int| 0 <= i < s.len() ==> #[trigger] s[i] != 10
}

/// The first `n` lines, each closed with a newline, as one block of text.
pub open spec fn concat_lines(lines: Seq<Seq<u8>>, n: int) -> Seq<u8>
    decreases n,
{
    if n <= 0 {
        Seq::empty()
    } else {
        concat_lines(lines, n - 1) + lines[n - 1] + seq![10u8]
    }
}

/// A block of newline-closed lines peels from the front.
proof fn lemma_concat_lines_front(lines: Seq<Seq<u8>>, n: int)
    requires
        1 <= n <= lines.len(),
    ensures
        concat_lines(lines, n) == lines[0] + seq![10u8] + concat_lines(lines.drop_first(), n - 1),
    decreases n,
{
    if n == 1 {
        assert(concat_lines(lines, 0) =~= Seq::<u8>::empty());
        assert(concat_lines(lines.drop_first(), 0) =~= Seq::<u8>::empty());
        assert(concat_lines(lines, 1) =~= lines[0] + seq![10u8] + concat_lines(
            lines.drop_first(),
            0,
        ));
    } else {
        lemma_concat_lines_front(lines, n - 1);
        assert(lines.drop_first()[n - 2] == lines[n - 1]);
        assert((lines[0] + seq![10u8] + concat_lines(lines.drop_first(), n - 2)) + lines[n - 1]
            + seq![10u8] =~= lines[0] + seq![10u8] + (concat_lines(lines.drop_first(), n - 2)
            + lines.drop_first()[n - 2] + seq![10u8]));
    }
}

/// Splitting a block of newline-closed, newline-free lines on newlines
/// recovers the lines, plus one trailing empty piece.
proof fn lemma_split_concat_lines(lines: Seq<Seq<u8>>)
    requires
        forall|i: int| 0 <= i < lines.len() ==> nl_free(#[trigger] lines[i]),
    ensures
        crate::import::spec_split_byte(concat_lines(lines, lines.len() as int), 10) == lines + seq![
            Seq::<u8>::empty(),
        ],
    decreases lines.len(),
{
    let text = concat_lines(lines, lines.len() as int);
    if lines.len() == 0 {
        assert(text =~= Seq::<u8>::empty());
        lemma_split_byte_whole(text, 10);
        assert(seq![text] =~= lines + seq![Seq::<u8>::empty()]);
    } else {
        lemma_concat_lines_front(lines, lines.len() as int);
        let rest = concat_lines(lines.drop_first(), lines.len() - 1);
        assert(text == lines[0] + seq![10u8] + rest);
        let k = lines[0].len() as int;
        assert(text[k] == 10);
        assert forall|j: int| 0 <= j < k implies text[j] != 10 by {
            assert(text[j] == lines[0][j]);
        }
        lemma_split_byte_head(text, 10, k);
        assert(text.take(k) =~= lines[0]);
        assert(text.skip(k + 1) =~= rest);
        assert(forall|i: int|
            0 <= i < lines.drop_first().len() ==> nl_free(#[trigger] lines.drop_first()[i]));
        lemma_split_concat_lines(lines.drop_first());
        assert(seq![lines[0]] + (lines.drop_first() + seq![Seq::<u8>::empty()]) =~= lines + seq![
            Seq::<u8>::empty(),
        ]);
    }
}

/// A join of whitespace-free tokens contains no newline.
proof fn lemma_join_nl_free(toks: Seq<Seq<u8>>)
    requires
        forall|i: int| 0 <= i < toks.len() ==> ws_free(#[trigger] toks[i]),
    ensures
        nl_free(join_sp(toks)),
    decreases toks.len(),
{
    let s = join_sp(toks);
    if toks.len() == 0 {
    } else if toks.len() == 1 {
        assert forall|j: int| 0 <= j < s.len() implies #[trigger] s[j] != 10 by {
            assert(!is_ws(toks[0][j]));
        }
    } else {
        lemma_join_nl_free(toks.drop_first());
        let t0 = toks[0];
        let rest = join_sp(toks.drop_first());
        assert(s == t0 + seq![32u8] + rest);
        assert forall|j: int| 0 <= j < s.len() implies #[trigger] s[j] != 10 by {
            if j < t0.len() {
                assert(s[j] == t0[j]);
                assert(!is_ws(t0[j]));
            } else if j == t0.len() {
                assert(s[j] == 32);
            } else {
                assert(s[j] == rest[j - t0.len() - 1]);
            }
        }
    }
}

/// A serialized rule line contains no newline.
#[verifier::rlimit(100)]
proof fn lemma_rule_line_nl_free(states: Seq<StateModel>, rule: RuleModel)
    requires
        rule_round_trippable(states, rule),
    ensures
        nl_free(crate::writer::spec_rule_line(states, rule)),
{
    let cur = rl_cur(states, rule);
    let nxt = rl_nxt(states, rule);
    let cs = rl_cs(states, rule);
    let pr = spec_fmt_prob(rule.probability);
    assert(crate::writer::spec_display_name(states, rule.current_state_id) == cur);
    assert(crate::writer::spec_display_name(states, rule.next_state_id) == nxt);
    lemma_fmt_prob_ws_free(rule.probability);
    assert(nl_free(cs)) by {
        if rule.conditions.len() == 0 {
            assert(cs == crate::parser::kw_nocond());
            assert(forall|j: int| 0 <= j < cs.len() ==> #[trigger] cs[j] != 10);
        } else {
            let n = rule.conditions.len() as int;
            lemma_conds_str_is_join(states, rule.conditions, rule.combiners, n);
            assert(rule.conditions.take(n) =~= rule.conditions);
            assert(rule.combiners.take(n - 1) =~= rule.combiners);
            let toks = cond_tokens(states, rule.conditions, rule.combiners);
            lemma_cond_tokens_ws_free(states, rule.conditions, rule.combiners);
            lemma_join_nl_free(toks);
            assert(cs == join_sp(toks));
        }
    }
    let line = crate::writer::spec_rule_line(states, rule);
    let lc = cur.len() as int;
    let lcs = cs.len() as int;
    let fp = rl_fp(states, rule);
    let br = seq![32u8, 39u8] + cur + seq![39u8, 32u8] + crate::parser::kw_and3() + seq![32u8] + cs
        + seq![32u8];
    let tp = seq![32u8, 39u8] + nxt + seq![39u8, 32u8] + crate::parser::kw_with() + seq![32u8] + pr;
    assert(line.subrange(0, 13) =~= crate::parser::kw_if());
    assert(line.subrange(13, fp) =~= br);
    assert(line.subrange(fp, fp + 12) =~= crate::parser::kw_then());
    assert(line.subrange(fp + 12, line.len() as int) =~= tp);
    assert forall|p: int| 0 <= p < line.len() implies #[trigger] line[p] != 10 by {
        if p < 13 {
            assert(line.subrange(0, 13)[p] == line[p]);
            assert(crate::parser::kw_if()[p] != 10);
        } else if p < fp {
            let j = p - 13;
            assert(line.subrange(13, fp)[j] == line[p]);
            if j < 2 {
            } else if j < 2 + lc {
                assert(br[j] == cur[j - 2]);
                assert(!is_ws(cur[j - 2]));
            } else if j < 4 + lc {
            } else if j < 7 + lc {
                assert(br[j] == crate::parser::kw_and3()[j - 4 - lc]);
                assert(crate::parser::kw_and3()[j - 4 - lc] != 10);
            } else if j == 7 + lc {
            } else if j < 8 + lc + lcs {
                assert(br[j] == cs[j - 8 - lc]);
            } else {
            }
        } else if p < fp + 12 {
            assert(line.subrange(fp, fp + 12)[p - fp] == line[p]);
            assert(crate::parser::kw_then()[p - fp] != 10);
        } else {
            let j = p - fp - 12;
            assert(line.subrange(fp + 12, line.len() as int)[j] == line[p]);
            let ln = nxt.len() as int;
            if j < 2 {
            } else if j < 2 + ln {
                assert(tp[j] == nxt[j - 2]);
                assert(!is_ws(nxt[j - 2]));
            } else if j < 4 + ln {
            } else if j < 13 + ln {
                assert(tp[j] == crate::parser::kw_with()[j - 4 - ln]);
                assert(crate::parser::kw_with()[j - 4 - ln] != 10);
            } else if j == 13 + ln {
            } else {
                assert(tp[j] == pr[j - 14 - ln]);
                assert(!is_ws(pr[j - 14 - ln]));
            }
        }
    }
}

/// The body of a serialized state line contains no newline.
proof fn lemma_state_line_nl_free(st: StateModel)
    requires
        block_safe_name(st.name),
    ensures
        nl_free(crate::writer::spec_state_line(st).take(
            crate::writer::spec_state_line(st).len() - 1,
        )),
{
    let line = crate::writer::spec_state_line(st);
    let lc = line.take(line.len() - 1);
    lemma_state_line_shape(st);
    lemma_fmt_nat_digits(st.color.r as int);
    lemma_fmt_nat_digits(st.color.g as int);
    lemma_fmt_nat_digits(st.color.b as int);
    lemma_fmt_nat_digits(st.weight as int);
    let body = line.subrange(4, line.len() - 1);
    assert forall|p: int| 0 <= p < lc.len() implies #[trigger] lc[p] != 10 by {
        if p < 4 {
            assert(lc[p] == 32);
        } else {
            let rr = spec_fmt_nat(st.color.r as int);
            let gg = spec_fmt_nat(st.color.g as int);
            let bb = spec_fmt_nat(st.color.b as int);
            let ww = spec_fmt_nat(st.weight as int);
            let j = p - 4;
            assert(lc[p] == body[j]);
            let n0 = st.name.len() as int;
            let o_r = n0 + 1;
            let o_g = o_r + rr.len() + 2;
            let o_b = o_g + gg.len() + 2;
            let o_w = o_b + bb.len() + 2;
            if j < n0 {
                assert(body[j] == st.name[j]);
                assert(!is_ws(st.name[j]));
            } else if j < o_r {
            } else if j < o_r + rr.len() {
                assert(body[j] == rr[j - o_r]);
                assert(is_digit(rr[j - o_r]));
            } else if j < o_g {
            } else if j < o_g + gg.len() {
                assert(body[j] == gg[j - o_g]);
                assert(is_digit(gg[j - o_g]));
            } else if j < o_b {
            } else if j < o_b + bb.len() {
                assert(body[j] == bb[j - o_b]);
                assert(is_digit(bb[j - o_b]));
            } else if j < o_w {
            } else if j < o_w + ww.len() {
                assert(body[j] == ww[j - o_w]);
                assert(is_digit(ww[j - o_w]));
            } else {
                assert(body[j] == 41);
            }
        }
    }
}

/// A serialized `usize` parses back to itself.
proof fn lemma_usize_number_round(v: usize)
    ensures
        crate::scan::spec_parse_usize(spec_fmt_nat(v as int)) == Some(v),
{
    let d = spec_fmt_nat(v as int);
    lemma_fmt_nat_digits(v as int);
    assert(d[0] != 43) by {
        assert(is_digit(d[0]));
    }
}

/// The dimension line of the export.
pub open spec fn rl_width_line(w: int, h: int) -> Seq<u8> {
    seq![87u8, 73u8, 68u8, 84u8, 72u8, 32u8] + spec_fmt_nat(w) + seq![
        32u8,
        72u8,
        69u8,
        73u8,
        71u8,
        72u8,
        84u8,
        32u8,
    ] + spec_fmt_nat(h)
}

/// The dimension line reproduces its width and height.
proof fn lemma_import_width_line(ist: crate::import::ImportState, w: usize, h: usize)
    ensures
        crate::import::spec_import_line(ist, rl_width_line(w as int, h as int))
            == (crate::import::ImportState { width: w, height: h, ..ist }),
{
    let wd = spec_fmt_nat(w as int);
    let hd = spec_fmt_nat(h as int);
    lemma_fmt_nat_digits(w as int);
    lemma_fmt_nat_digits(h as int);
    lemma_usize_number_round(w);
    lemma_usize_number_round(h);
    let wtok = seq![87u8, 73u8, 68u8, 84u8, 72u8];
    let htok = seq![72u8, 69u8, 73u8, 71u8, 72u8, 84u8];
    let toks = seq![wtok, wd, htok, hd];
    let line = rl_width_line(w as int, h as int);
    assert(join_sp(toks) == line) by {
        assert(toks.drop_first() =~= seq![wd, htok, hd]);
        assert(toks.drop_first().drop_first() =~= seq![htok, hd]);
        assert(toks.drop_first().drop_first().drop_first() =~= seq![hd]);
        assert(join_sp(toks.drop_first().drop_first().drop_first()) == hd);
        assert(join_sp(toks.drop_first().drop_first()) == htok + seq![32u8] + hd);
        assert(join_sp(toks.drop_first()) == wd + seq![32u8] + (htok + seq![32u8] + hd));
        assert(join_sp(toks) == wtok + seq![32u8] + (wd + seq![32u8] + (htok + seq![32u8] + hd)));
        assert(wtok + seq![32u8] + (wd + seq![32u8] + (htok + seq![32u8] + hd)) =~= line);
    }
    assert forall|i: int| 0 <= i < toks.len() implies ws_free(#[trigger] toks[i]) by {
        if i == 1 {
            assert forall|j: int| 0 <= j < wd.len() implies !is_ws(#[trigger] wd[j]) by {
                assert(is_digit(wd[j]));
            }
        } else if i == 3 {
            assert forall|j: int| 0 <= j < hd.len() implies !is_ws(#[trigger] hd[j]) by {
                assert(is_digit(hd[j]));
            }
        }
    }
    lemma_split_ws_join(toks);
    let t = spec_trim(line);
    assert(t == line) by {
        assert(line[0] == 87);
        assert(line.last() == hd.last());
        assert(is_digit(hd.last()));
        assert(spec_trim_start(line) == line);
        assert(spec_trim_end(line) == line);
    }
    assert(matches_at(t, 0, crate::import::kw_width())) by {
        assert(t.subrange(0, 5) =~= crate::import::kw_width());
    }
    assert(crate::scan::spec_split_ws(t) == toks);
    assert(toks[1] == wd && toks[3] == hd);
}

/// The `STATE {` header line turns the state block on.
proof fn lemma_import_state_open(ist: crate::import::ImportState)
    ensures
        crate::import::spec_import_line(ist, seq![83u8, 84u8, 65u8, 84u8, 69u8, 32u8, 123u8])
            == (crate::import::ImportState { in_states: true, in_rules: false, ..ist }),
{
    let line = seq![83u8, 84u8, 65u8, 84u8, 69u8, 32u8, 123u8];
    let t = spec_trim(line);
    assert(t == line) by {
        assert(line[0] == 83);
        assert(line.last() == 123);
        assert(spec_trim_start(line) == line);
        assert(spec_trim_end(line) == line);
    }
    assert(!matches_at(t, 0, crate::import::kw_width())) by {
        if matches_at(t, 0, crate::import::kw_width()) {
            assert(t.subrange(0, 5)[0] == t[0]);
            assert(crate::import::kw_width()[0] == 87);
        }
    }
    assert(matches_at(t, 0, crate::import::kw_state5())) by {
        assert(t.subrange(0, 5) =~= crate::import::kw_state5());
    }
    assert(t[6] == 123);
}

/// The `RULES {` header line turns the rules block on.
proof fn lemma_import_rules_open(ist: crate::import::ImportState)
    ensures
        crate::import::spec_import_line(ist, seq![82u8, 85u8, 76u8, 69u8, 83u8, 32u8, 123u8])
            == (crate::import::ImportState { in_rules: true, in_states: false, ..ist }),
{
    let line = seq![82u8, 85u8, 76u8, 69u8, 83u8, 32u8, 123u8];
    let t = spec_trim(line);
    assert(t == line) by {
        assert(line[0] == 82);
        assert(line.last() == 123);
        assert(spec_trim_start(line) == line);
        assert(spec_trim_end(line) == line);
    }
    assert(!matches_at(t, 0, crate::import::kw_width())) by {
        if matches_at(t, 0, crate::import::kw_width()) {
            assert(t.subrange(0, 5)[0] == t[0]);
            assert(crate::import::kw_width()[0] == 87);
        }
    }
    assert(!matches_at(t, 0, crate::import::kw_state5())) by {
        if matches_at(t, 0, crate::import::kw_state5()) {
            assert(t.subrange(0, 5)[0] == t[0]);
            assert(crate::import::kw_state5()[0] == 83);
        }
    }
    assert(matches_at(t, 0, crate::import::kw_rules5())) by {
        assert(t.subrange(0, 5) =~= crate::import::kw_rules5());
    }
    assert(t[6] == 123);
}

/// A lone closing brace turns both blocks off.
proof fn lemma_import_close(ist: crate::import::ImportState)
    ensures
        crate::import::spec_import_line(ist, seq![125u8]) == (crate::import::ImportState {
            in_states: false,
            in_rules: false,
            ..ist
        }),
{
    let line = seq![125u8];
    let t = spec_trim(line);
    assert(t == line) by {
        assert(!is_ws(line[0]));
        assert(spec_trim_start(line) == line);
        assert(spec_trim_end(line) == line);
    }
    assert(t =~= seq![125u8]);
}

/// An empty line changes nothing.
proof fn lemma_import_empty(ist: crate::import::ImportState)
    ensures
        crate::import::spec_import_line(ist, Seq::<u8>::empty()) == ist,
{
    assert(spec_trim_start(Seq::<u8>::empty()) =~= Seq::<u8>::empty());
    assert(spec_trim(Seq::<u8>::empty()).len() == 0);
}

/// The state-line bodies of the export, in registry order.
pub open spec fn rl_state_contents(states: Seq<StateModel>) -> Seq<Seq<u8>> {
    Seq::new(
        states.len(),
        |i: int|
            crate::writer::spec_state_line(states[i]).take(
                crate::writer::spec_state_line(states[i]).len() - 1,
            ),
    )
}

/// The indented rule lines of the export, in declaration order.
pub open spec fn rl_rule_contents(states: Seq<StateModel>, rules: Seq<RuleModel>) -> Seq<Seq<u8>> {
    Seq::new(
        rules.len(),
        |i: int| seq![32u8, 32u8, 32u8, 32u8] + crate::writer::spec_rule_line(states, rules[i]),
    )
}

/// Every line of the export, in order.
pub open spec fn export_lines(
    states: Seq<StateModel>,
    rules: Seq<RuleModel>,
    w: int,
    h: int,
) -> Seq<Seq<u8>> {
    seq![rl_width_line(w, h), seq![83u8, 84u8, 65u8, 84u8, 69u8, 32u8, 123u8]] + rl_state_contents(
        states,
    ) + seq![seq![125u8], Seq::<u8>::empty(), seq![82u8, 85u8, 76u8, 69u8, 83u8, 32u8, 123u8]]
        + rl_rule_contents(states, rules) + seq![seq![125u8]]
}

/// A prefix of a longer line list concatenates identically.
proof fn lemma_concat_lines_prefix(a: Seq<Seq<u8>>, b: Seq<Seq<u8>>, n: int)
    requires
        0 <= n <= a.len(),
    ensures
        concat_lines(a + b, n) == concat_lines(a, n),
    decreases n,
{
    if n > 0 {
        lemma_concat_lines_prefix(a, b, n - 1);
        assert((a + b)[n - 1] == a[n - 1]);
    }
}

/// Concatenating two line lists concatenates their blocks.
proof fn lemma_concat_lines_append(a: Seq<Seq<u8>>, b: Seq<Seq<u8>>, n: int)
    requires
        0 <= n <= b.len(),
    ensures
        concat_lines(a + b, a.len() + n) == concat_lines(a, a.len() as int) + concat_lines(b, n),
    decreases n,
{
    if n == 0 {
        lemma_concat_lines_prefix(a, b, a.len() as int);
        assert(concat_lines(b, 0) =~= Seq::<u8>::empty());
        assert(concat_lines(a, a.len() as int) + Seq::<u8>::empty() =~= concat_lines(
            a,
            a.len() as int,
        ));
    } else {
        lemma_concat_lines_append(a, b, n - 1);
        assert((a + b)[a.len() + n - 1] == b[n - 1]);
        assert((concat_lines(a, a.len() as int) + concat_lines(b, n - 1)) + b[n - 1] + seq![10u8]
            =~= concat_lines(a, a.len() as int) + (concat_lines(b, n - 1) + b[n - 1] + seq![
            10u8,
        ]));
    }
}

/// The serialized state block is its line bodies, newline-closed.
proof fn lemma_state_block_concat(states: Seq<StateModel>, n: int)
    requires
        0 <= n <= states.len(),
    ensures
        crate::writer::spec_state_lines(states, n) == concat_lines(rl_state_contents(states), n),
    decreases n,
{
    if n > 0 {
        lemma_state_block_concat(states, n - 1);
        let line = crate::writer::spec_state_line(states[n - 1]);
        assert(rl_state_contents(states)[n - 1] == line.take(line.len() - 1));
        assert(line.last() == 10);
        assert(line.take(line.len() - 1) + seq![10u8] =~= line);
        assert(concat_lines(rl_state_contents(states), n) =~= crate::writer::spec_state_lines(
            states,
            n - 1,
        ) + line);
    }
}

/// The serialized rules block is its indented lines, newline-closed.
proof fn lemma_rule_block_concat(states: Seq<StateModel>, rules: Seq<RuleModel>, n: int)
    requires
        0 <= n <= rules.len(),
    ensures
        crate::writer::spec_rule_lines(states, rules, n) == concat_lines(
            rl_rule_contents(states, rules),
            n,
        ),
    decreases n,
{
    if n > 0 {
        lemma_rule_block_concat(states, rules, n - 1);
        assert(rl_rule_contents(states, rules)[n - 1] == seq![32u8, 32u8, 32u8, 32u8]
            + crate::writer::spec_rule_line(states, rules[n - 1]));
        assert(concat_lines(rl_rule_contents(states, rules), n)
            =~= crate::writer::spec_rule_lines(states, rules, n - 1) + seq![
            32u8,
            32u8,
            32u8,
            32u8,
        ] + crate::writer::spec_rule_line(states, rules[n - 1]) + seq![10u8]);
    }
}

/// The whole export text is its line list, newline-closed.
#[verifier::rlimit(100)]
proof fn lemma_export_concat(states: Seq<StateModel>, rules: Seq<RuleModel>, w: int, h: int)
    ensures
        crate::writer::spec_export(states, rules, w, h) == concat_lines(
            export_lines(states, rules, w, h),
            export_lines(states, rules, w, h).len() as int,
        ),
{
    let sc = rl_state_contents(states);
    let rc = rl_rule_contents(states, rules);
    let head = seq![rl_width_line(w, h), seq![83u8, 84u8, 65u8, 84u8, 69u8, 32u8, 123u8]];
    let mid = seq![seq![125u8], Seq::<u8>::empty(), seq![82u8, 85u8, 76u8, 69u8, 83u8, 32u8, 123u8]];
    let tail = seq![seq![125u8]];
    let all = export_lines(states, rules, w, h);
    assert(all == head + sc + mid + rc + tail);
    lemma_state_block_concat(states, states.len() as int);
    lemma_rule_block_concat(states, rules, rules.len() as int);
    let a4 = head + sc + mid + rc;
    lemma_concat_lines_append(a4, tail, 1);
    assert(a4 + tail =~= all);
    assert(concat_lines(tail, 0) =~= Seq::<u8>::empty());
    assert(concat_lines(tail, 1) =~= seq![125u8, 10u8]);
    let a3 = head + sc + mid;
    lemma_concat_lines_append(a3, rc, rc.len() as int);
    assert(a3 + rc =~= a4);
    let a2 = head + sc;
    lemma_concat_lines_append(a2, mid, 3);
    assert(a2 + mid =~= a3);
    assert(concat_lines(mid, 0) =~= Seq::<u8>::empty());
    assert(concat_lines(mid, 1) =~= seq![125u8, 10u8]);
    assert(concat_lines(mid, 2) =~= seq![125u8, 10u8, 10u8]);
    assert(concat_lines(mid, 3) =~= seq![125u8, 10u8, 10u8, 82u8, 85u8, 76u8, 69u8, 83u8, 32u8, 123u8, 10u8]);
    lemma_concat_lines_append(head, sc, sc.len() as int);
    assert(head + sc =~= a2);
    assert(concat_lines(head, 0) =~= Seq::<u8>::empty());
    assert(concat_lines(head, 1) =~= rl_width_line(w, h) + seq![10u8]);
    assert(concat_lines(head, 2) =~= rl_width_line(w, h) + seq![10u8] + seq![
        83u8,
        84u8,
        65u8,
        84u8,
        69u8,
        32u8,
        123u8,
        10u8,
    ]);
    assert(crate::writer::spec_export(states, rules, w, h) =~= concat_lines(head, 2)
        + crate::writer::spec_state_lines(states, states.len() as int) + concat_lines(mid, 3)
        + crate::writer::spec_rule_lines(states, rules, rules.len() as int) + concat_lines(
        tail,
        1,
    ));
}

/// Walking the state-block lines of the export builds the registry back up,
/// one state per line, ids by insertion order.
#[verifier::rlimit(100)]
proof fn lemma_walk_states(
    full: Seq<Seq<u8>>,
    states: Seq<StateModel>,
    idx: int,
    k: int,
    ist: crate::import::ImportState,
)
    requires
        0 <= k <= states.len(),
        states.len() <= 256,
        0 <= idx,
        idx + (states.len() - k) <= full.len(),
        forall|kk: int|
            k <= kk < states.len() ==> full[idx + kk - k] == #[trigger] rl_state_contents(
                states,
            )[kk],
        forall|i: int| 0 <= i < states.len() ==> (#[trigger] states[i]).id == i,
        forall|i: int| 0 <= i < states.len() ==> block_line_safe_name((#[trigger] states[i]).name),
        ist.in_states,
        ist.states == states.take(k),
    ensures
        crate::import::spec_import_run(full, idx, ist) == crate::import::spec_import_run(
            full,
            idx + (states.len() - k),
            crate::import::ImportState { states: states, ..ist },
        ),
    decreases states.len() - k,
{
    if k == states.len() {
        assert(states.take(k) =~= states);
        assert(crate::import::ImportState { states: states, ..ist } == ist);
    } else {
        let st = states[k];
        let line = crate::writer::spec_state_line(st);
        assert(full[idx + k - k] == rl_state_contents(states)[k]);
        assert(rl_state_contents(states)[k] == line.take(line.len() - 1));
        assert(full[idx] == line.take(line.len() - 1));
        lemma_import_state_line(ist, st);
        let pushed = StateModel {
            id: ist.states.len() as u8,
            name: st.name,
            color: st.color,
            weight: st.weight,
        };
        assert(ist.states.len() == k);
        assert(pushed == st) by {
            assert(st.id == k);
            assert(k as u8 == st.id);
        }
        let ist2 = crate::import::ImportState { states: ist.states.push(st), ..ist };
        assert(crate::import::spec_import_line(ist, full[idx]) == ist2);
        assert(ist.states.push(st) =~= states.take(k + 1));
        lemma_walk_states(full, states, idx + 1, k + 1, ist2);
        assert(crate::import::spec_import_run(full, idx, ist)
            == crate::import::spec_import_run(full, idx + 1, ist2));
    }
}

/// Walking the rules-block lines of the export, and the closing brace and
/// trailing empty line after them, gathers exactly the rules back.
#[verifier::rlimit(100)]
proof fn lemma_walk_rules(
    full: Seq<Seq<u8>>,
    states: Seq<StateModel>,
    rules: Seq<RuleModel>,
    idx: int,
    j: int,
    ist: crate::import::ImportState,
)
    requires
        0 <= j <= rules.len(),
        0 <= idx,
        idx + (rules.len() - j) + 2 == full.len(),
        forall|jj: int|
            j <= jj < rules.len() ==> full[idx + jj - j] == #[trigger] rl_rule_contents(
                states,
                rules,
            )[jj],
        full[full.len() - 2] == seq![125u8],
        full[full.len() - 1] == Seq::<u8>::empty(),
        forall|kk: int| 0 <= kk < rules.len() ==> rule_round_trippable(states, #[trigger] rules[kk]),
        ist.in_rules,
        !ist.in_states,
        ist.states == states,
    ensures
        crate::import::spec_import_run(full, idx, ist) == (crate::import::ImportState {
            rules: ist.rules + rules.skip(j),
            in_states: false,
            in_rules: false,
            ..ist
        }),
    decreases rules.len() - j,
{
    if j == rules.len() {
        assert(full[idx] == seq![125u8]);
        lemma_import_close(ist);
        let ist2 = crate::import::ImportState { in_states: false, in_rules: false, ..ist };
        assert(crate::import::spec_import_line(ist, full[idx]) == ist2);
        assert(crate::import::spec_import_run(full, idx, ist)
            == crate::import::spec_import_run(full, idx + 1, ist2));
        assert(full[idx + 1] == Seq::<u8>::empty());
        lemma_import_empty(ist2);
        assert(crate::import::spec_import_line(ist2, full[idx + 1]) == ist2);
        assert(crate::import::spec_import_run(full, idx + 1, ist2)
            == crate::import::spec_import_run(full, idx + 2, ist2));
        assert(crate::import::spec_import_run(full, idx + 2, ist2) == ist2);
        assert(ist.rules + rules.skip(j) =~= ist.rules);
        assert(ist2 == (crate::import::ImportState {
            rules: ist.rules + rules.skip(j),
            in_states: false,
            in_rules: false,
            ..ist
        }));
    } else {
        let rule = rules[j];
        assert(full[idx + j - j] == rl_rule_contents(states, rules)[j]);
        assert(rl_rule_contents(states, rules)[j] == seq![32u8, 32u8, 32u8, 32u8]
            + crate::writer::spec_rule_line(states, rule));
        assert(full[idx] == seq![32u8, 32u8, 32u8, 32u8] + crate::writer::spec_rule_line(
            states,
            rule,
        ));
        lemma_import_rule_line(ist, rule);
        let ist2 = crate::import::ImportState { rules: ist.rules.push(rule), ..ist };
        assert(crate::import::spec_import_line(ist, full[idx]) == ist2);
        lemma_walk_rules(full, states, rules, idx + 1, j + 1, ist2);
        assert(ist.rules.push(rule) + rules.skip(j + 1) =~= ist.rules + rules.skip(j));
    }
}

/// The round-trip law for the whole export: importing the serialized text
/// of a registry and ruleset reproduces both exactly, along with the grid
/// dimensions, provided the registry's ids are dense in registry order and
/// its names are block-safe and resolve stably.
#[verifier::rlimit(100)]
pub proof fn lemma_export_import_round_trip(
    states: Seq<StateModel>,
    rules: Seq<RuleModel>,
    w: usize,
    h: usize,
)
    requires
        states.len() <= 256,
        forall|i: int| 0 <= i < states.len() ==> (#[trigger] states[i]).id == i,
        forall|i: int| 0 <= i < states.len() ==> block_line_safe_name((#[trigger] states[i]).name),
        forall|k: int| 0 <= k < rules.len() ==> rule_round_trippable(states, #[trigger] rules[k]),
    ensures
        crate::import::spec_import(crate::writer::spec_export(states, rules, w as int, h as int))
            == (crate::import::ImportState {
            width: w,
            height: h,
            states: states,
            rules: rules,
            in_states: false,
            in_rules: false,
        }),
{
    let text = crate::writer::spec_export(states, rules, w as int, h as int);
    let all = export_lines(states, rules, w as int, h as int);
    let sc = rl_state_contents(states);
    let rc = rl_rule_contents(states, rules);
    let ns = states.len() as int;
    let nr = rules.len() as int;
    lemma_export_concat(states, rules, w as int, h as int);
    assert(sc.len() == ns);
    assert(rc.len() == nr);
    assert(all.len() == 6 + ns + nr);

    assert forall|i: int| 0 <= i < all.len() implies nl_free(#[trigger] all[i]) by {
        if i == 0 {
            let wl = rl_width_line(w as int, h as int);
            lemma_fmt_nat_digits(w as int);
            lemma_fmt_nat_digits(h as int);
            assert forall|p: int| 0 <= p < wl.len() implies #[trigger] wl[p] != 10 by {
                let wd = spec_fmt_nat(w as int);
                let hd = spec_fmt_nat(h as int);
                if p < 6 {
                } else if p < 6 + wd.len() {
                    assert(wl[p] == wd[p - 6]);
                    assert(is_digit(wd[p - 6]));
                } else if p < 14 + wd.len() {
                } else {
                    assert(wl[p] == hd[p - 14 - wd.len()]);
                    assert(is_digit(hd[p - 14 - wd.len()]));
                }
            }
        } else if i == 1 || i == 4 + ns {
        } else if i < 2 + ns {
            assert(all[i] == sc[i - 2]);
            lemma_state_line_nl_free(states[i - 2]);
        } else if i == 2 + ns || i == 3 + ns {
        } else if i < 5 + ns + nr {
            let j = i - 5 - ns;
            assert(all[i] == rc[j]);
            lemma_rule_line_nl_free(states, rules[j]);
            let rl = crate::writer::spec_rule_line(states, rules[j]);
            assert forall|p: int| 0 <= p < rc[j].len() implies #[trigger] rc[j][p] != 10 by {
                if p >= 4 {
                    assert(rc[j][p] == rl[p - 4]);
                }
            }
        } else {
        }
    }
    lemma_split_concat_lines(all);
    let full = all + seq![Seq::<u8>::empty()];
    assert(crate::import::spec_split_byte(text, 10) == full);

    let i0 = crate::import::import_init();
    assert(full[0] == rl_width_line(w as int, h as int));
    lemma_import_width_line(i0, w, h);
    let i1 = crate::import::ImportState { width: w, height: h, ..i0 };
    assert(crate::import::spec_import_run(full, 0, i0) == crate::import::spec_import_run(
        full,
        1,
        i1,
    ));
    assert(full[1] == seq![83u8, 84u8, 65u8, 84u8, 69u8, 32u8, 123u8]);
    lemma_import_state_open(i1);
    let i2 = crate::import::ImportState { in_states: true, in_rules: false, ..i1 };
    assert(crate::import::spec_import_run(full, 1, i1) == crate::import::spec_import_run(
        full,
        2,
        i2,
    ));
    assert(i2.states =~= states.take(0));
    assert forall|kk: int| 0 <= kk < ns implies full[2 + kk] == #[trigger] sc[kk] by {
        assert(all[2 + kk] == sc[kk]);
    }
    lemma_walk_states(full, states, 2, 0, i2);
    let i3 = crate::import::ImportState { states: states, ..i2 };
    assert(crate::import::spec_import_run(full, 2, i2) == crate::import::spec_import_run(
        full,
        2 + ns,
        i3,
    ));
    assert(full[2 + ns] == seq![125u8]);
    lemma_import_close(i3);
    let i4 = crate::import::ImportState { in_states: false, in_rules: false, ..i3 };
    assert(crate::import::spec_import_run(full, 2 + ns, i3) == crate::import::spec_import_run(
        full,
        3 + ns,
        i4,
    ));
    assert(full[3 + ns] == Seq::<u8>::empty());
    lemma_import_empty(i4);
    assert(crate::import::spec_import_run(full, 3 + ns, i4) == crate::import::spec_import_run(
        full,
        4 + ns,
        i4,
    ));
    assert(full[4 + ns] == seq![82u8, 85u8, 76u8, 69u8, 83u8, 32u8, 123u8]);
    lemma_import_rules_open(i4);
    let i5 = crate::import::ImportState { in_rules: true, in_states: false, ..i4 };
    assert(crate::import::spec_import_run(full, 4 + ns, i4) == crate::import::spec_import_run(
        full,
        5 + ns,
        i5,
    ));
    assert forall|jj: int| 0 <= jj < nr implies full[5 + ns + jj] == #[trigger] rc[jj] by {
        assert(all[5 + ns + jj] == rc[jj]);
    }
    assert(full[full.len() - 2] == seq![125u8]) by {
        assert(all[6 + ns + nr - 1] == seq![125u8]);
    }
    assert(full[full.len() - 1] == Seq::<u8>::empty());
    lemma_walk_rules(full, states, rules, 5 + ns, 0, i5);
    assert(i5.rules + rules.skip(0) =~= rules);
}

} // verus!
