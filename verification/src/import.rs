//! The full-file importer: the `WIDTH <w> HEIGHT <h>` line, the
//! `STATE { ... }` block of `name(r, g, b[, weight])` lines, and the
//! `RULES { ... }` block of rule lines, scanned line by line. Ids are
//! assigned by insertion order; rule lines that fail to parse are dropped,
//! never fatal.

use vstd::prelude::*;
use crate::parser::{RuleParseError, kw_and3, parse_rule, spec_parse_rule, strip_suffix_rep,
    strip_suffix_rep_vec_pub};
use crate::registry::{CAState, Rgb, StateModel, registry_model};
use crate::rules::{RuleModel, TransitionRule, ruleset_model, ruleset_wf};
use crate::scan::{matches_at, parse_u8_bytes, parse_usize_bytes, spec_find, spec_parse_u8,
    spec_parse_usize, spec_split_ws, spec_trim, split_ws_vec, starts_with_bytes, subrange_vec,
    trim_vec, find_sub, contains_byte_exec, lemma_find_some};

verus! {

/// The bytes of `"WIDTH"`.
pub open spec fn kw_width() -> Seq<u8> {
    seq![87u8, 73u8, 68u8, 84u8, 72u8]
}

/// The bytes of `"WIDTH"`, executably.
pub fn kw_width_vec() -> (r: Vec<u8>)
    ensures
        r@ == kw_width(),
{
    let r: Vec<u8> = vec![87u8, 73u8, 68u8, 84u8, 72u8];
    proof {
        assert(r@ =~= kw_width());
    }
    r
}

/// The bytes of `"STATE"`.
pub open spec fn kw_state5() -> Seq<u8> {
    seq![83u8, 84u8, 65u8, 84u8, 69u8]
}

/// The bytes of `"STATE"`, executably.
pub fn kw_state5_vec() -> (r: Vec<u8>)
    ensures
        r@ == kw_state5(),
{
    let r: Vec<u8> = vec![83u8, 84u8, 65u8, 84u8, 69u8];
    proof {
        assert(r@ =~= kw_state5());
    }
    r
}

/// The bytes of `"RULES"`.
pub open spec fn kw_rules5() -> Seq<u8> {
    seq![82u8, 85u8, 76u8, 69u8, 83u8]
}

/// The bytes of `"RULES"`, executably.
pub fn kw_rules5_vec() -> (r: Vec<u8>)
    ensures
        r@ == kw_rules5(),
{
    let r: Vec<u8> = vec![82u8, 85u8, 76u8, 69u8, 83u8];
    proof {
        assert(r@ =~= kw_rules5());
    }
    r
}

/// `s` split on every occurrence of `b`, keeping empty pieces.
pub open spec fn spec_split_byte(s: Seq<u8>, b: u8) -> Seq<Seq<u8>>
    decreases s.len(),
    via spec_split_byte_decreases
{
    match spec_find(s, seq![b], 0) {
        None => seq![s],
        Some(p) => seq![s.take(p)] + spec_split_byte(s.skip(p + 1), b),
    }
}

#[via_fn]
proof fn spec_split_byte_decreases(s: Seq<u8>, b: u8) {
    match spec_find(s, seq![b], 0) {
        None => {},
        Some(p) => {
            lemma_find_some(s, seq![b], 0, p);
        },
    }
}

/// `s` split on every occurrence of `b`, executably.
pub fn split_byte_vec(s: &[u8], b: u8) -> (r: Vec<Vec<u8>>)
    ensures
        r.deep_view() == spec_split_byte(s@, b),
    decreases s@.len(),
{
    let pat: Vec<u8> = vec![b];
    proof {
        assert(pat@ =~= seq![b]);
    }
    let n = s.len();
    match find_sub(s, pat.as_slice(), 0) {
        None => {
            let whole = subrange_vec(s, 0, n);
            proof {
                assert(whole@ =~= s@);
                assert(whole.deep_view() =~= whole@);
            }
            let ghost wv = whole@;
            let mut r: Vec<Vec<u8>> = Vec::new();
            r.push(whole);
            proof {
                assert(r.deep_view() =~= seq![wv]);
            }
            r
        },
        Some(p) => {
            proof {
                lemma_find_some(s@, seq![b], 0, p as int);
            }
            let head = subrange_vec(s, 0, p);
            let tail = subrange_vec(s, p + 1, n);
            proof {
                assert(head@ =~= s@.take(p as int));
                assert(tail@ =~= s@.skip(p + 1));
            }
            let ghost hv = head@;
            proof {
                assert(head.deep_view() =~= hv);
            }
            let mut rest = split_byte_vec(tail.as_slice(), b);
            let ghost restdv = rest.deep_view();
            rest.insert(0, head);
            proof {
                assert(rest.deep_view() =~= seq![hv] + restdv);
            }
            rest
        },
    }
}

/// The importer's running state: the dimensions and contents gathered so
/// far, and which block the scan is inside.
pub ghost struct ImportState {
    pub width: usize,
    pub height: usize,
    pub states: Seq<StateModel>,
    pub rules: Seq<RuleModel>,
    pub in_states: bool,
    pub in_rules: bool,
}

/// The importer's starting state: no dimensions, nothing gathered.
pub open spec fn import_init() -> ImportState {
    ImportState {
        width: 0,
        height: 0,
        states: Seq::empty(),
        rules: Seq::empty(),
        in_states: false,
        in_rules: false,
    }
}

/// What one state-block line contributes: `name(r, g, b[, weight])`, the
/// name trimmed and stripped of trailing commas, each number trimmed and
/// parsed with default 0, a missing weight defaulting to 1, and the id
/// assigned by insertion order. Lines without a parenthesis pair in order
/// are ignored.
pub open spec fn spec_state_line_parse(st: ImportState, t: Seq<u8>) -> ImportState {
    match spec_find(t, seq![40u8], 0) {
        None => st,
        Some(start) => match spec_find(t, seq![41u8], 0) {
            None => st,
            Some(end) => {
                if end < start + 1 {
                    st
                } else {
                    let name = strip_suffix_rep(spec_trim(t.take(start)), 44);
                    let parts = spec_split_byte(t.subrange(start + 1, end), 44);
                    let nums = parts.map_values(
                        |p: Seq<u8>|
                            match spec_parse_u8(spec_trim(p)) {
                                Some(v) => v,
                                None => 0u8,
                            },
                    );
                    let rgbw: (u8, u8, u8, u8) = if nums.len() == 4 {
                        (nums[0], nums[1], nums[2], nums[3])
                    } else if nums.len() == 3 {
                        (nums[0], nums[1], nums[2], 1u8)
                    } else {
                        (0u8, 0u8, 0u8, 1u8)
                    };
                    ImportState {
                        states: st.states.push(
                            StateModel {
                                id: st.states.len() as u8,
                                name: name,
                                color: Rgb { r: rgbw.0, g: rgbw.1, b: rgbw.2 },
                                weight: rgbw.3,
                            },
                        ),
                        ..st
                    }
                }
            },
        },
    }
}

/// What one line of the import does to the running state.
pub open spec fn spec_import_line(st: ImportState, line: Seq<u8>) -> ImportState {
    let t = spec_trim(line);
    if t.len() == 0 {
        st
    } else if matches_at(t, 0, kw_width()) {
        let toks = spec_split_ws(t);
        if toks.len() >= 4 {
            let w = match spec_parse_usize(toks[1]) {
                Some(v) => v,
                None => 50usize,
            };
            let h = match spec_parse_usize(toks[3]) {
                Some(v) => v,
                None => 50usize,
            };
            ImportState { width: w, height: h, ..st }
        } else {
            st
        }
    } else if matches_at(t, 0, kw_state5()) && (exists|i: int|
        0 <= i < t.len() && t[i] == 123) {
        ImportState { in_states: true, in_rules: false, ..st }
    } else if matches_at(t, 0, kw_rules5()) && (exists|i: int|
        0 <= i < t.len() && t[i] == 123) {
        ImportState { in_rules: true, in_states: false, ..st }
    } else if t == seq![125u8] {
        ImportState { in_states: false, in_rules: false, ..st }
    } else if st.in_states {
        spec_state_line_parse(st, t)
    } else if st.in_rules {
        match spec_parse_rule(t, st.states) {
            Ok(r) => ImportState { rules: st.rules.push(r), ..st },
            Err(_) => st,
        }
    } else {
        st
    }
}

/// The import run over the lines from index `i` on.
pub open spec fn spec_import_run(lines: Seq<Seq<u8>>, i: int, st: ImportState) -> ImportState
    decreases lines.len() - i,
{
    if i < 0 || i >= lines.len() {
        st
    } else {
        spec_import_run(lines, i + 1, spec_import_line(st, lines[i]))
    }
}

/// What a full import of `text` yields.
pub open spec fn spec_import(text: Seq<u8>) -> ImportState {
    spec_import_run(spec_split_byte(text, 10), 0, import_init())
}

/// One import line keeps every gathered rule well-formed.
proof fn lemma_import_line_wf(st: ImportState, line: Seq<u8>)
    requires
        ruleset_wf(st.rules),
    ensures
        ruleset_wf(spec_import_line(st, line).rules),
{
    let t = spec_trim(line);
    let next = spec_import_line(st, line);
    if next.rules != st.rules {
        crate::parser::lemma_parse_rule_ok_wf(t, st.states);
        assert forall|i: int| 0 <= i < next.rules.len() implies (#[trigger] next.rules[i]).wf() by {
            if i < st.rules.len() {
                assert(st.rules[i].wf());
            }
        }
    }
}

/// An import run keeps every gathered rule well-formed.
proof fn lemma_import_run_wf(lines: Seq<Seq<u8>>, i: int, st: ImportState)
    requires
        ruleset_wf(st.rules),
    ensures
        ruleset_wf(spec_import_run(lines, i, st).rules),
    decreases lines.len() - i,
{
    if 0 <= i < lines.len() {
        lemma_import_line_wf(st, lines[i]);
        lemma_import_run_wf(lines, i + 1, spec_import_line(st, lines[i]));
    }
}

/// Import a whole text block: dimensions, registry and ruleset, exactly as
/// the import state machine describes; malformed rule lines are dropped.
#[verifier::rlimit(100)]
pub fn parse_model(text: &[u8]) -> (r: (usize, usize, Vec<CAState>, Vec<TransitionRule>))
    ensures
        r.0 == spec_import(text@).width,
        r.1 == spec_import(text@).height,
        registry_model(r.2@) == spec_import(text@).states,
        ruleset_model(r.3@) == spec_import(text@).rules,
        ruleset_wf(ruleset_model(r.3@)),
{
    let lines = split_byte_vec(text, 10);
    let ghost slines = spec_split_byte(text@, 10);
    let kw_width_v = kw_width_vec();
    let kw_state_v = kw_state5_vec();
    let kw_rules_v = kw_rules5_vec();

    let mut width: usize = 0;
    let mut height: usize = 0;
    let mut states: Vec<CAState> = Vec::new();
    let mut rules: Vec<TransitionRule> = Vec::new();
    let mut in_states = false;
    let mut in_rules = false;

    let n = lines.len();
    let mut i: usize = 0;
    proof {
        assert(registry_model(states@) =~= import_init().states);
        assert(ruleset_model(rules@) =~= import_init().rules);
    }
    while i < n
        invariant
            n == lines@.len(),
            lines.deep_view() == slines,
            i <= n,
            kw_width_v@ == kw_width(),
            kw_state_v@ == kw_state5(),
            kw_rules_v@ == kw_rules5(),
            spec_import(text@) == spec_import_run(
                slines,
                i as int,
                ImportState {
                    width,
                    height,
                    states: registry_model(states@),
                    rules: ruleset_model(rules@),
                    in_states,
                    in_rules,
                },
            ),
        decreases n - i,
    {
        let ghost prev = ImportState {
            width,
            height,
            states: registry_model(states@),
            rules: ruleset_model(rules@),
            in_states,
            in_rules,
        };
        proof {
            assert(lines.deep_view()[i as int] == lines@[i as int]@);
        }
        let t = trim_vec(lines[i].as_slice());
        let ghost tl = spec_trim(slines[i as int]);
        proof {
            assert(t@ == tl);
        }
        if t.len() == 0 {
        } else if starts_with_bytes(t.as_slice(), kw_width_v.as_slice()) {
            let toks = split_ws_vec(t.as_slice());
            if toks.len() >= 4 {
                proof {
                    assert(toks.deep_view()[1] == toks@[1]@);
                    assert(toks.deep_view()[3] == toks@[3]@);
                }
                width = match parse_usize_bytes(toks[1].as_slice()) {
                    Some(v) => v,
                    None => 50,
                };
                height = match parse_usize_bytes(toks[3].as_slice()) {
                    Some(v) => v,
                    None => 50,
                };
            }
        } else if starts_with_bytes(t.as_slice(), kw_state_v.as_slice()) && contains_byte_exec(
            t.as_slice(),
            123,
        ) {
            in_states = true;
            in_rules = false;
        } else if starts_with_bytes(t.as_slice(), kw_rules_v.as_slice()) && contains_byte_exec(
            t.as_slice(),
            123,
        ) {
            in_rules = true;
            in_states = false;
        } else if t.len() == 1 && t[0] == 125 {
            proof {
                assert(tl =~= seq![125u8]);
            }
            in_states = false;
            in_rules = false;
        } else if in_states {
            proof {
                assert(tl != seq![125u8]);
            }
            let open_paren: Vec<u8> = vec![40u8];
            let close_paren: Vec<u8> = vec![41u8];
            proof {
                assert(open_paren@ =~= seq![40u8]);
                assert(close_paren@ =~= seq![41u8]);
            }
            match find_sub(t.as_slice(), open_paren.as_slice(), 0) {
                None => {},
                Some(start) => match find_sub(t.as_slice(), close_paren.as_slice(), 0) {
                    None => {},
                    Some(end) => {
                        proof {
                            lemma_find_some(tl, seq![40u8], 0, start as int);
                            lemma_find_some(tl, seq![41u8], 0, end as int);
                        }
                        if end >= start + 1 {
                            let name = strip_suffix_rep_vec_pub(
                                trim_vec(subrange_vec(t.as_slice(), 0, start).as_slice()).as_slice(),
                                44,
                            );
                            proof {
                                assert(tl.subrange(0, start as int) =~= tl.take(start as int));
                            }
                            let region = subrange_vec(t.as_slice(), start + 1, end);
                            let parts = split_byte_vec(region.as_slice(), 44);
                            let ghost sparts = spec_split_byte(tl.subrange(start + 1, end as int), 44);
                            proof {
                                assert(parts.deep_view() == sparts);
                            }
                            let ghost numf = |p: Seq<u8>|
                                match spec_parse_u8(spec_trim(p)) {
                                    Some(v) => v,
                                    None => 0u8,
                                };
                            let np = parts.len();
                            let mut nums: Vec<u8> = Vec::new();
                            let mut j: usize = 0;
                            while j < np
                                invariant
                                    np == parts@.len(),
                                    parts.deep_view() == sparts,
                                    j <= np,
                                    nums@.len() == j,
                                    forall|k: int|
                                        0 <= k < j ==> #[trigger] nums@[k] == (
                                        match spec_parse_u8(spec_trim(sparts[k])) {
                                            Some(v) => v,
                                            None => 0u8,
                                        }),
                                decreases np - j,
                            {
                                proof {
                                    assert(parts.deep_view()[j as int] == parts@[j as int]@);
                                }
                                let v = match parse_u8_bytes(
                                    trim_vec(parts[j].as_slice()).as_slice(),
                                ) {
                                    Some(v) => v,
                                    None => 0,
                                };
                                nums.push(v);
                                j += 1;
                            }
                            proof {
                                assert(nums@ =~= sparts.map_values(numf));
                            }
                            let rgbw: (u8, u8, u8, u8) = if nums.len() == 4 {
                                (nums[0], nums[1], nums[2], nums[3])
                            } else if nums.len() == 3 {
                                (nums[0], nums[1], nums[2], 1)
                            } else {
                                (0, 0, 0, 1)
                            };
                            let id = states.len() as u8;
                            let ghost old_states = states@;
                            states.push(
                                CAState {
                                    id,
                                    name,
                                    color: Rgb { r: rgbw.0, g: rgbw.1, b: rgbw.2 },
                                    weight: rgbw.3,
                                },
                            );
                            proof {
                                assert(registry_model(states@) =~= registry_model(
                                    old_states,
                                ).push(states@.last()@));
                            }
                        }
                    },
                },
            }
        } else if in_rules {
            proof {
                assert(tl != seq![125u8]);
            }
            match parse_rule(t.as_slice(), &states) {
                Ok(rule) => {
                    let ghost old_rules = rules@;
                    proof {
                        assert(rule@.wf()) by {
                            crate::parser::lemma_parse_rule_ok_wf(tl, registry_model(states@));
                        }
                    }
                    rules.push(rule);
                    proof {
                        assert(ruleset_model(rules@) =~= ruleset_model(old_rules).push(
                            rules@.last()@,
                        ));
                    }
                },
                Err(_) => {},
            }
        } else {
            proof {
                assert(tl != seq![125u8]);
            }
        }
        proof {
            let cur = ImportState {
                width,
                height,
                states: registry_model(states@),
                rules: ruleset_model(rules@),
                in_states,
                in_rules,
            };
            assert(cur == spec_import_line(prev, slines[i as int]));
        }
        i += 1;
    }
    proof {
        lemma_import_run_wf(slines, 0, import_init());
        assert(spec_import_run(
            slines,
            n as int,
            ImportState {
                width,
                height,
                states: registry_model(states@),
                rules: ruleset_model(rules@),
                in_states,
                in_rules,
            },
        ) == ImportState {
            width,
            height,
            states: registry_model(states@),
            rules: ruleset_model(rules@),
            in_states,
            in_rules,
        });
    }
    (width, height, states, rules)
}

} // verus!
