use ca_modeler::automaton::Automaton;
use ca_modeler::automaton::ExampleModel;
use ca_modeler::grid::CAGrid;
use ca_modeler::grid::Neighborhood;
use ca_modeler::registry::CAState;
use ca_modeler::registry::Rgb;
use ca_modeler::rules::Condition;
use ca_modeler::rules::ConditionCombiner;
use ca_modeler::rules::PROB_ONE;
use ca_modeler::rules::RelationalOperator;
use ca_modeler::rules::TransitionRule;
use ca_modeler::step::step_grid;

fn rgb() -> Rgb {
    Rgb { r: 0, g: 0, b: 0 }
}

fn state(id: u8, name: &[u8], weight: u8) -> CAState {
    CAState { id, name: name.to_vec(), color: rgb(), weight }
}

fn cells_of(g: &CAGrid) -> Vec<Vec<u8>> {
    g.cells.clone()
}

#[test]
fn empty_ruleset_leaves_grid_unchanged() {
    let mut g = CAGrid::filled(4, 4, 0, Neighborhood::Moore);
    g.set_state(1, 1, 1);
    g.set_state(2, 3, 2);
    let before = cells_of(&g);
    let next = step_grid(&g, &Vec::new());
    assert_eq!(next.cells, before);
}

#[test]
fn unmatched_cells_are_unchanged() {
    let mut g = CAGrid::filled(3, 3, 0, Neighborhood::Moore);
    g.set_state(1, 1, 1);
    // The only rule rewrites state 5, which no cell holds.
    let rules = vec![TransitionRule {
        current_state_id: 5,
        conditions: Vec::new(),
        combiners: Vec::new(),
        next_state_id: 0,
        probability: PROB_ONE,
    }];
    let before = cells_of(&g);
    let next = step_grid(&g, &rules);
    assert_eq!(next.cells, before);
}

#[test]
fn certain_unconditional_rule_rewrites_every_source_cell() {
    let mut g = CAGrid::filled(3, 3, 0, Neighborhood::Moore);
    g.set_state(0, 0, 1);
    g.set_state(2, 2, 1);
    let rules = vec![TransitionRule {
        current_state_id: 1,
        conditions: Vec::new(),
        combiners: Vec::new(),
        next_state_id: 2,
        probability: PROB_ONE,
    }];
    let next = step_grid(&g, &rules);
    for r in 0..3 {
        for c in 0..3 {
            let expected = if (r, c) == (0, 0) || (r, c) == (2, 2) { 2 } else { 0 };
            assert_eq!(next.get_state(r, c), Some(expected));
        }
    }
}

#[test]
fn probability_zero_rule_never_fires() {
    let g = CAGrid::filled(3, 3, 1, Neighborhood::Moore);
    let rules = vec![TransitionRule {
        current_state_id: 1,
        conditions: Vec::new(),
        combiners: Vec::new(),
        next_state_id: 0,
        probability: 0,
    }];
    let next = step_grid(&g, &rules);
    for r in 0..3 {
        for c in 0..3 {
            assert_eq!(next.get_state(r, c), Some(1));
        }
    }
}

#[test]
fn lone_alive_center_dies_of_isolation() {
    // 3x3 grid, Dead(0)/Alive(1), rule:
    // IF current is 'Alive' AND count(Alive) < 2 THEN next is 'Dead' WITH PROB 1.0
    let states = vec![state(0, b"Dead", 5), state(1, b"Alive", 5)];
    let line = b"IF current is 'Alive' AND count(Alive) < 2 THEN next is 'Dead' WITH PROB 1.0";
    let rule = ca_modeler::parser::parse_rule(line, &states).expect("rule parses");
    assert_eq!(rule.probability, PROB_ONE);
    let mut g = CAGrid::filled(3, 3, 0, Neighborhood::Moore);
    g.set_state(1, 1, 1);
    let next = step_grid(&g, &vec![rule]);
    for r in 0..3 {
        for c in 0..3 {
            assert_eq!(next.get_state(r, c), Some(0));
        }
    }
}

#[test]
fn xor_of_two_true_conditions_does_not_fire() {
    // Both conditions are individually true (count == 2), so XOR makes the
    // whole guard false and the rule must not fire.
    let cond = Condition {
        neighbor_state_id: 1,
        operator: RelationalOperator::Equals,
        threshold: 2,
    };
    let xor_rule = TransitionRule {
        current_state_id: 0,
        conditions: vec![cond, cond],
        combiners: vec![ConditionCombiner::Xor],
        next_state_id: 2,
        probability: PROB_ONE,
    };
    let mut g = CAGrid::filled(3, 3, 0, Neighborhood::Moore);
    g.set_state(0, 1, 1);
    g.set_state(2, 1, 1);
    assert_eq!(g.count_neighbors(1, 1, 1), 2);
    let next = step_grid(&g, &vec![xor_rule]);
    assert_eq!(next.get_state(1, 1), Some(0));

    // The same conditions joined by AND fire.
    let and_rule = TransitionRule {
        current_state_id: 0,
        conditions: vec![cond, cond],
        combiners: vec![ConditionCombiner::And],
        next_state_id: 2,
        probability: PROB_ONE,
    };
    let next2 = step_grid(&g, &vec![and_rule]);
    assert_eq!(next2.get_state(1, 1), Some(2));
}

#[test]
fn first_matching_rule_wins() {
    let mut g = CAGrid::filled(1, 1, 1, Neighborhood::Moore);
    g.set_state(0, 0, 1);
    let to_two = TransitionRule {
        current_state_id: 1,
        conditions: Vec::new(),
        combiners: Vec::new(),
        next_state_id: 2,
        probability: PROB_ONE,
    };
    let to_three = TransitionRule {
        current_state_id: 1,
        conditions: Vec::new(),
        combiners: Vec::new(),
        next_state_id: 3,
        probability: PROB_ONE,
    };
    let next = step_grid(&g, &vec![to_two, to_three]);
    assert_eq!(next.get_state(0, 0), Some(2));
}

#[test]
fn game_of_life_blinker_oscillates() {
    let mut a = Automaton::new();
    a.grid = CAGrid::filled(5, 5, 0, Neighborhood::Moore);
    a.paint_cell(2, 1, 1);
    a.paint_cell(2, 2, 1);
    a.paint_cell(2, 3, 1);
    a.step_simulation_logic();
    assert_eq!(a.grid.get_state(1, 2), Some(1));
    assert_eq!(a.grid.get_state(2, 2), Some(1));
    assert_eq!(a.grid.get_state(3, 2), Some(1));
    assert_eq!(a.grid.get_state(2, 1), Some(0));
    assert_eq!(a.grid.get_state(2, 3), Some(0));
}

#[test]
fn step_with_empty_registry_is_a_no_op() {
    let mut a = Automaton::new();
    a.states = Vec::new();
    let before = cells_of(&a.grid);
    a.step_simulation_logic();
    assert_eq!(a.grid.cells, before);
}

#[test]
fn add_state_fills_the_smallest_id_gap() {
    let mut a = Automaton::new();
    a.states = vec![state(0, b"A", 1), state(2, b"C", 1)];
    assert!(a.add_state(b"B".to_vec(), rgb()));
    assert_eq!(a.states.len(), 3);
    assert_eq!(a.states[2].id, 1);
    assert_eq!(a.states[2].name, b"B".to_vec());
    assert_eq!(a.states[2].weight, 1);
    assert!(!a.add_state(Vec::new(), rgb()));
}

#[test]
fn remove_state_cascades_to_rules_and_grid() {
    let mut a = Automaton::new();
    a.states = vec![state(0, b"Dead", 5), state(1, b"Alive", 5), state(2, b"Odd", 5)];
    a.rules = vec![
        TransitionRule {
            current_state_id: 2,
            conditions: Vec::new(),
            combiners: Vec::new(),
            next_state_id: 0,
            probability: PROB_ONE,
        },
        TransitionRule {
            current_state_id: 0,
            conditions: vec![Condition {
                neighbor_state_id: 2,
                operator: RelationalOperator::Equals,
                threshold: 1,
            }],
            combiners: Vec::new(),
            next_state_id: 1,
            probability: PROB_ONE,
        },
        TransitionRule {
            current_state_id: 0,
            conditions: Vec::new(),
            combiners: Vec::new(),
            next_state_id: 1,
            probability: PROB_ONE,
        },
    ];
    a.grid = CAGrid::filled(2, 2, 2, Neighborhood::Moore);
    a.remove_state(2);
    assert_eq!(a.states.len(), 2);
    // Both rules touching id 2 are gone; the unrelated one survives.
    assert_eq!(a.rules.len(), 1);
    assert_eq!(a.rules[0].next_state_id, 1);
    assert!(a.rules[0].conditions.is_empty());
    // Cells of the removed state are repainted to the fallback id 1.
    for r in 0..2 {
        for c in 0..2 {
            assert_eq!(a.grid.get_state(r, c), Some(1));
        }
    }
}

#[test]
fn set_state_weight_updates_only_that_state() {
    let mut a = Automaton::new();
    a.set_state_weight(1, 99);
    assert_eq!(a.states[1].weight, 99);
    assert_eq!(a.states[0].weight, 5);
}

#[test]
fn weight_text_clamps_and_defaults() {
    let mut a = Automaton::new();
    a.set_state_weight_text(0, b" 12 ");
    assert_eq!(a.states[0].weight, 12);
    a.set_state_weight_text(0, b"999");
    assert_eq!(a.states[0].weight, 255);
    a.set_state_weight_text(0, b"");
    assert_eq!(a.states[0].weight, 0);
    a.set_state_weight_text(0, b"abc");
    assert_eq!(a.states[0].weight, 0);
    a.set_state_weight_text(0, b"+7");
    assert_eq!(a.states[0].weight, 7);
}

#[test]
fn add_rule_validates_combiner_count() {
    let mut a = Automaton::new();
    let n = a.rules.len();
    let bad = TransitionRule {
        current_state_id: 0,
        conditions: vec![Condition {
            neighbor_state_id: 1,
            operator: RelationalOperator::Equals,
            threshold: 1,
        }],
        combiners: vec![ConditionCombiner::And],
        next_state_id: 1,
        probability: PROB_ONE,
    };
    assert!(!a.add_rule(bad));
    assert_eq!(a.rules.len(), n);
    let over = TransitionRule {
        current_state_id: 0,
        conditions: Vec::new(),
        combiners: Vec::new(),
        next_state_id: 1,
        probability: PROB_ONE + 1,
    };
    assert!(!a.add_rule(over));
    let good = TransitionRule {
        current_state_id: 0,
        conditions: Vec::new(),
        combiners: Vec::new(),
        next_state_id: 1,
        probability: PROB_ONE,
    };
    assert!(a.add_rule(good));
    assert_eq!(a.rules.len(), n + 1);
}

#[test]
fn remove_rule_keeps_order() {
    let mut a = Automaton::new();
    let n = a.rules.len();
    let last = a.rules[n - 1].clone();
    a.remove_rule(0);
    assert_eq!(a.rules.len(), n - 1);
    assert_eq!(a.rules[n - 2], last);
    a.remove_rule(100);
    assert_eq!(a.rules.len(), n - 1);
}

#[test]
fn forest_fire_example_has_stochastic_rules() {
    let mut a = Automaton::new();
    a.load_example(ExampleModel::ForestFire);
    assert_eq!(a.states.len(), 3);
    assert_eq!(a.states[1].name, b"Tree".to_vec());
    assert_eq!(a.rules.len(), 3);
    assert_eq!(a.rules[0].probability, 800_000);
    assert_eq!(a.rules[1].probability, 500_000);
    assert_eq!(a.rules[2].probability, 300_000);
}

#[test]
fn wireworld_example_has_or_joined_conditions() {
    let mut a = Automaton::new();
    a.load_example(ExampleModel::Wireworld);
    assert_eq!(a.states.len(), 4);
    assert_eq!(a.rules.len(), 3);
    assert_eq!(a.rules[2].conditions.len(), 2);
    assert_eq!(a.rules[2].combiners, vec![ConditionCombiner::Or]);
}

#[test]
fn resize_and_neighborhood_changes() {
    let mut a = Automaton::new();
    a.resize_grid(7, 9);
    assert_eq!(a.grid.width, 7);
    assert_eq!(a.grid.height, 9);
    a.set_neighborhood(Neighborhood::ExtendedMoore);
    assert_eq!(a.grid.neighborhood, Neighborhood::ExtendedMoore);
    assert_eq!(a.grid.width, 7);
}

#[test]
fn parallel_threshold_path_matches_the_contract() {
    // 100x100 = 10_000 cells reaches the parallel path; a deterministic
    // ruleset must give the same outcome as sequential stepping.
    let mut g = CAGrid::filled(100, 100, 0, Neighborhood::Moore);
    g.set_state(50, 50, 1);
    let rules = vec![TransitionRule {
        current_state_id: 1,
        conditions: Vec::new(),
        combiners: Vec::new(),
        next_state_id: 2,
        probability: PROB_ONE,
    }];
    let next = step_grid(&g, &rules);
    assert_eq!(next.get_state(50, 50), Some(2));
    assert_eq!(next.get_state(0, 0), Some(0));
    assert_eq!(next.get_state(99, 99), Some(0));
}
