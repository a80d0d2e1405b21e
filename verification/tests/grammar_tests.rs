use ca_modeler::automaton::Automaton;
use ca_modeler::import::parse_model;
use ca_modeler::parser::RuleParseError;
use ca_modeler::parser::parse_rule;
use ca_modeler::registry::CAState;
use ca_modeler::registry::Rgb;
use ca_modeler::rules::Condition;
use ca_modeler::rules::ConditionCombiner;
use ca_modeler::rules::PROB_ONE;
use ca_modeler::rules::RelationalOperator;
use ca_modeler::rules::TransitionRule;
use ca_modeler::writer::export_model;

fn rgb() -> Rgb {
    Rgb { r: 0, g: 0, b: 0 }
}

fn state(id: u8, name: &[u8], weight: u8) -> CAState {
    CAState { id, name: name.to_vec(), color: rgb(), weight }
}

fn forest() -> Vec<CAState> {
    vec![state(0, b"Empty", 10), state(1, b"Tree", 7), state(2, b"Burning", 3)]
}

#[test]
fn parses_the_forest_fire_rule_line() {
    let line = b"IF current is 'Tree' AND count(Burning) >= 1 THEN next is 'Burning' WITH PROB 0.5";
    let rule = parse_rule(line, &forest()).expect("parses");
    assert_eq!(rule.current_state_id, 1);
    assert_eq!(rule.conditions.len(), 1);
    assert_eq!(rule.conditions[0].neighbor_state_id, 2);
    assert_eq!(rule.conditions[0].operator, RelationalOperator::GreaterOrEqual);
    assert_eq!(rule.conditions[0].threshold, 1);
    assert!(rule.combiners.is_empty());
    assert_eq!(rule.next_state_id, 2);
    assert_eq!(rule.probability, 500_000);
}

#[test]
fn parses_no_conditions_and_defaults_probability() {
    let line = b"IF current is 'Tree' AND (no conditions) THEN next is 'Empty'";
    let rule = parse_rule(line, &forest()).expect("parses");
    assert!(rule.conditions.is_empty());
    assert!(rule.combiners.is_empty());
    assert_eq!(rule.probability, PROB_ONE);
}

#[test]
fn parses_multi_condition_chain_in_order() {
    let line = b"IF current is 'Empty' AND count(Tree) > 1 OR count(Burning) == 0 XOR count(Tree) <= 5 THEN next is 'Tree' WITH PROB 1";
    let rule = parse_rule(line, &forest()).expect("parses");
    assert_eq!(rule.conditions.len(), 3);
    assert_eq!(
        rule.combiners,
        vec![ConditionCombiner::Or, ConditionCombiner::Xor]
    );
    assert_eq!(rule.conditions[0].operator, RelationalOperator::GreaterThan);
    assert_eq!(rule.conditions[1].operator, RelationalOperator::Equals);
    assert_eq!(rule.conditions[2].operator, RelationalOperator::LessOrEqual);
    assert_eq!(rule.probability, PROB_ONE);
}

#[test]
fn rule_line_error_taxonomy() {
    let s = forest();
    assert_eq!(
        parse_rule(b"WHEN current is 'Tree' THEN next is 'Empty'", &s),
        Err(RuleParseError::MissingIf)
    );
    assert_eq!(
        parse_rule(b"IF current is 'Tree' AND count(Tree) == 1", &s),
        Err(RuleParseError::MissingThen)
    );
    assert_eq!(
        parse_rule(b"IF current is 'Tree' THEN next is Empty", &s),
        Err(RuleParseError::MalformedNext)
    );
    assert_eq!(
        parse_rule(b"IF current is Tree THEN next is 'Empty'", &s),
        Err(RuleParseError::MalformedCurrent)
    );
    assert_eq!(
        parse_rule(b"IF current is 'Shrub' THEN next is 'Empty'", &s),
        Err(RuleParseError::UnknownCurrentState)
    );
    assert_eq!(
        parse_rule(b"IF current is 'Tree' THEN next is 'Shrub'", &s),
        Err(RuleParseError::UnknownNextState)
    );
    assert_eq!(
        parse_rule(
            b"IF current is 'Tree' AND count(Tree) == 1 count(Tree) == 2 THEN next is 'Tree'",
            &s,
        ),
        Err(RuleParseError::CombinerMismatch)
    );
}

#[test]
fn soft_defaults_for_neighbor_name_operator_and_threshold() {
    // Unknown neighbor state degrades to id 0; an unrecognized operator and
    // an unparseable threshold take their defaults.
    let line = b"IF current is 'Tree' AND count(Shrub) ~ x THEN next is 'Empty' WITH PROB 1.0";
    let rule = parse_rule(line, &forest()).expect("parses");
    assert_eq!(rule.conditions.len(), 1);
    assert_eq!(rule.conditions[0].neighbor_state_id, 0);
    assert_eq!(rule.conditions[0].operator, RelationalOperator::Equals);
    assert_eq!(rule.conditions[0].threshold, 0);
}

#[test]
fn probability_parsing_and_clamping() {
    let s = forest();
    let parse_with = |p: &str| {
        let line = format!("IF current is 'Tree' AND (no conditions) THEN next is 'Empty' WITH PROB {}", p);
        parse_rule(line.as_bytes(), &s).expect("parses").probability
    };
    assert_eq!(parse_with("0.25"), 250_000);
    assert_eq!(parse_with("1"), PROB_ONE);
    assert_eq!(parse_with("1.0"), PROB_ONE);
    assert_eq!(parse_with("0"), 0);
    assert_eq!(parse_with("0.0"), 0);
    assert_eq!(parse_with("2.5"), PROB_ONE);
    assert_eq!(parse_with("-0.5"), 0);
    assert_eq!(parse_with("abc"), PROB_ONE);
    assert_eq!(parse_with(".5"), 500_000);
    assert_eq!(parse_with("0.123456789"), 123_456);
}

#[test]
fn conditions_as_string_round_texts() {
    let s = forest();
    let empty = TransitionRule {
        current_state_id: 1,
        conditions: Vec::new(),
        combiners: Vec::new(),
        next_state_id: 0,
        probability: PROB_ONE,
    };
    assert_eq!(empty.conditions_as_string(&s), b"(no conditions)".to_vec());

    let rule = TransitionRule {
        current_state_id: 1,
        conditions: vec![
            Condition { neighbor_state_id: 2, operator: RelationalOperator::GreaterOrEqual, threshold: 1 },
            Condition { neighbor_state_id: 1, operator: RelationalOperator::NotEquals, threshold: 8 },
        ],
        combiners: vec![ConditionCombiner::Xor],
        next_state_id: 2,
        probability: PROB_ONE,
    };
    assert_eq!(
        rule.conditions_as_string(&s),
        b"count(Burning) >= 1 XOR count(Tree) != 8".to_vec()
    );
}

#[test]
fn export_emits_the_documented_format() {
    let states = vec![state(0, b"Empty", 10), state(1, b"Tree", 7)];
    let rules = vec![TransitionRule {
        current_state_id: 0,
        conditions: vec![Condition {
            neighbor_state_id: 1,
            operator: RelationalOperator::GreaterThan,
            threshold: 2,
        }],
        combiners: Vec::new(),
        next_state_id: 1,
        probability: 300_000,
    }];
    let out = export_model(&states, &rules, 12, 34);
    let expected = "WIDTH 12 HEIGHT 34\n\
                    STATE {\n\
                    \x20   Empty(0, 0, 0, 10)\n\
                    \x20   Tree(0, 0, 0, 7)\n\
                    }\n\n\
                    RULES {\n\
                    \x20   IF current is 'Empty' AND count(Tree) > 2 THEN next is 'Tree' WITH PROB 0.3\n\
                    }\n";
    assert_eq!(String::from_utf8(out).unwrap(), expected);
}

#[test]
fn import_reads_dimensions_states_and_rules() {
    let text = b"WIDTH 7 HEIGHT 9\n\
                 STATE {\n\
                 \x20   Empty(0, 0, 0, 10)\n\
                 \x20   Tree(0, 200, 0)\n\
                 }\n\n\
                 RULES {\n\
                 \x20   IF current is 'Empty' AND (no conditions) THEN next is 'Tree' WITH PROB 0.5\n\
                 \x20   this line is not a rule\n\
                 }\n";
    let (w, h, states, rules) = parse_model(text);
    assert_eq!((w, h), (7, 9));
    assert_eq!(states.len(), 2);
    assert_eq!(states[0].id, 0);
    assert_eq!(states[0].name, b"Empty".to_vec());
    assert_eq!(states[0].weight, 10);
    // A missing weight defaults to 1.
    assert_eq!(states[1].id, 1);
    assert_eq!(states[1].color.g, 200);
    assert_eq!(states[1].weight, 1);
    // The malformed rule line is dropped, not fatal.
    assert_eq!(rules.len(), 1);
    assert_eq!(rules[0].current_state_id, 0);
    assert_eq!(rules[0].next_state_id, 1);
    assert_eq!(rules[0].probability, 500_000);
}

#[test]
fn export_then_import_reproduces_the_ruleset() {
    let states = vec![
        state(0, b"Empty", 10),
        state(1, b"Tree", 7),
        state(2, b"Burning", 3),
    ];
    let rules = vec![
        TransitionRule {
            current_state_id: 2,
            conditions: Vec::new(),
            combiners: Vec::new(),
            next_state_id: 0,
            probability: 800_000,
        },
        TransitionRule {
            current_state_id: 1,
            conditions: vec![
                Condition { neighbor_state_id: 2, operator: RelationalOperator::GreaterOrEqual, threshold: 1 },
                Condition { neighbor_state_id: 1, operator: RelationalOperator::LessThan, threshold: 7 },
            ],
            combiners: vec![ConditionCombiner::And],
            next_state_id: 2,
            probability: 500_000,
        },
        TransitionRule {
            current_state_id: 0,
            conditions: Vec::new(),
            combiners: Vec::new(),
            next_state_id: 1,
            probability: PROB_ONE,
        },
    ];
    let text = export_model(&states, &rules, 50, 40);
    let (w, h, states2, rules2) = parse_model(&text);
    assert_eq!((w, h), (50, 40));
    assert_eq!(states2, states);
    assert_eq!(rules2, rules);
}

#[test]
fn import_model_replaces_the_session_wholesale() {
    let mut a = Automaton::new();
    let text = b"WIDTH 6 HEIGHT 4\n\
                 STATE {\n\
                 \x20   Off(0, 0, 0, 1)\n\
                 }\n\n\
                 RULES {\n\
                 \x20   IF current is 'Off' AND (no conditions) THEN next is 'Off' WITH PROB 1\n\
                 }\n";
    a.import_model(text);
    assert_eq!(a.grid.width, 6);
    assert_eq!(a.grid.height, 4);
    assert_eq!(a.states.len(), 1);
    assert_eq!(a.rules.len(), 1);
    // The fresh grid samples only the one positive-weight state.
    for r in 0..4 {
        for c in 0..6 {
            assert_eq!(a.grid.get_state(r, c), Some(0));
        }
    }
    // Round trip through the session's own exporter.
    let out = a.export_rules();
    let (w2, h2, s2, r2) = parse_model(&out);
    assert_eq!((w2, h2), (6, 4));
    assert_eq!(s2, a.states);
    assert_eq!(r2, a.rules);
}

#[test]
fn optional_leading_and_is_stripped() {
    let line = b"IF current is 'Tree' count(Burning) >= 1 THEN next is 'Burning'";
    let with_and = b"IF current is 'Tree' AND count(Burning) >= 1 THEN next is 'Burning'";
    let a = parse_rule(line, &forest()).expect("parses");
    let b = parse_rule(with_and, &forest()).expect("parses");
    assert_eq!(a, b);
    assert_eq!(a.conditions.len(), 1);
}
