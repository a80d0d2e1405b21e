//! The editing session around the engine: the state registry, the ordered
//! ruleset, and the grid, kept consistent by cascading operations.

use vstd::prelude::*;
use crate::grid::{CAGrid, Neighborhood, cell_at, grid_cells, grid_wf, in_grid, sampled_from};
use crate::registry::{CAState, Rgb, StateModel, registry_model};
use crate::rules::{Condition, ConditionCombiner, PROB_ONE, RelationalOperator, RuleModel,
    TransitionRule, ruleset_model, ruleset_wf};
use crate::import::{parse_model, spec_import};
use crate::scan::{all_digits, digits_val, is_digit, spec_trim, trim_vec};
use crate::step::{grid_step_post, step_grid};
use crate::writer::{export_model, spec_export};

verus! {

/// Cells of a removed state are repainted to this id.
pub const DEFAULT_STATE_ID: u8 = 1;

/// Default grid width at startup.
pub const DEFAULT_GRID_WIDTH: usize = 50;

/// Default grid height at startup.
pub const DEFAULT_GRID_HEIGHT: usize = 40;

/// The example automata the session can be reset to.
#[derive(Clone, Copy, PartialEq, Eq, Structural, Debug)]
pub enum ExampleModel {
    GameOfLife,
    Wireworld,
    Greenberg,
    TuringPatterns,
    ForestFire,
}

/// Whether some state in the registry carries this id.
pub open spec fn id_used(states: Seq<StateModel>, id: u8) -> bool {
    exists|i: int| 0 <= i < states.len() && (#[trigger] states[i]).id == id
}

/// Whether a rule references the id as source, destination, or in any
/// condition's neighbor state.
pub open spec fn rule_mentions(rule: RuleModel, id: u8) -> bool {
    ||| rule.current_state_id == id
    ||| rule.next_state_id == id
    ||| exists|i: int|
        0 <= i < rule.conditions.len() && (#[trigger] rule.conditions[i]).neighbor_state_id == id
}

/// The rules that survive the removal of state `id`, in order.
pub open spec fn retained_rules(rules: Seq<RuleModel>, id: u8) -> Seq<RuleModel>
    decreases rules.len(),
{
    if rules.len() == 0 {
        Seq::empty()
    } else if rule_mentions(rules[0], id) {
        retained_rules(rules.drop_first(), id)
    } else {
        seq![rules[0]] + retained_rules(rules.drop_first(), id)
    }
}

/// Every id a rule references is carried by some state of the registry.
pub open spec fn rules_resolvable(rules: Seq<RuleModel>, states: Seq<StateModel>) -> bool {
    forall|i: int|
        0 <= i < rules.len() ==> {
            &&& id_used(states, (#[trigger] rules[i]).current_state_id)
            &&& id_used(states, rules[i].next_state_id)
            &&& forall|j: int|
                0 <= j < rules[i].conditions.len() ==> id_used(
                    states,
                    (#[trigger] rules[i].conditions[j]).neighbor_state_id,
                )
        }
}

/// A whole editing session: the registry, the ordered ruleset, and the grid.
/// The ruleset order is first-match-wins and is preserved by every
/// operation; cross-references are by id and cascades keep them consistent.
#[derive(Clone, Debug, PartialEq)]
pub struct Automaton {
    pub states: Vec<CAState>,
    pub rules: Vec<TransitionRule>,
    pub grid: CAGrid,
}

/// Session validity: the grid has its declared shape and every rule is
/// structurally well-formed.
pub open spec fn automaton_wf(a: Automaton) -> bool {
    &&& grid_wf(a.grid)
    &&& ruleset_wf(ruleset_model(a.rules@))
}

impl Automaton {
    /// A fresh session: the Game of Life preset over a default-sized,
    /// randomly initialized Moore grid.
    pub fn new() -> (a: Automaton)
        ensures
            automaton_wf(a),
            a.grid.width == DEFAULT_GRID_WIDTH,
            a.grid.height == DEFAULT_GRID_HEIGHT,
            a.grid.neighborhood == Neighborhood::Moore,
    {
        let (states, rules) = example_states_and_rules(ExampleModel::GameOfLife);
        let grid = CAGrid::new(DEFAULT_GRID_WIDTH, DEFAULT_GRID_HEIGHT, &states, Neighborhood::Moore);
        Automaton { states, rules, grid }
    }

    /// Add a state under the smallest unused id (gap-filling, not the
    /// registry length), with default weight 1. Nothing happens on an empty
    /// name or a full id space.
    pub fn add_state(&mut self, name: Vec<u8>, color: Rgb) -> (added: bool)
        requires
            automaton_wf(*old(self)),
        ensures
            automaton_wf(*final(self)),
            final(self).rules == old(self).rules,
            final(self).grid == old(self).grid,
            added ==> {
                &&& name@.len() > 0
                &&& final(self).states@.len() == old(self).states@.len() + 1
                &&& final(self).states@.drop_last() == old(self).states@
                &&& final(self).states@.last().name@ == name@
                &&& final(self).states@.last().color == color
                &&& final(self).states@.last().weight == 1
                &&& !id_used(
                    registry_model(old(self).states@),
                    final(self).states@.last().id,
                )
                &&& forall|k: int|
                    0 <= k < final(self).states@.last().id ==> #[trigger] id_used(
                        registry_model(old(self).states@),
                        k as u8,
                    )
            },
            !added ==> {
                &&& *final(self) == *old(self)
                &&& (name@.len() == 0 || forall|k: int|
                    0 <= k < 256 ==> #[trigger] id_used(registry_model(old(self).states@), k as u8))
            },
    {
        if name.len() == 0 {
            return false;
        }
        let mut candidate: u16 = 0;
        while candidate < 256
            invariant
                *self == *old(self),
                automaton_wf(*self),
                name@.len() > 0,
                forall|k: int|
                    0 <= k < candidate ==> #[trigger] id_used(registry_model(self.states@), k as u8),
            decreases 256 - candidate,
        {
            let id = candidate as u8;
            let mut used = false;
            let n = self.states.len();
            let mut i: usize = 0;
            while i < n
                invariant
                    n == self.states@.len(),
                    i <= n,
                    used == exists|j: int|
                        0 <= j < i && (#[trigger] registry_model(self.states@)[j]).id == id,
                decreases n - i,
            {
                if self.states[i].id == id {
                    proof {
                        assert(registry_model(self.states@)[i as int].id == id);
                    }
                    used = true;
                }
                i += 1;
            }
            if !used {
                proof {
                    assert(!id_used(registry_model(self.states@), id));
                }
                let ghost old_states = self.states@;
                self.states.push(CAState { id, name, color, weight: 1 });
                proof {
                    assert(self.states@.drop_last() =~= old_states);
                }
                return true;
            }
            proof {
                assert(id_used(registry_model(self.states@), id));
            }
            candidate += 1;
        }
        false
    }

    /// Remove the state at `index` and cascade: drop every rule that
    /// references the removed id anywhere, and repaint every grid cell
    /// holding it to the fallback id. Out-of-range indices do nothing.
    pub fn remove_state(&mut self, index: usize)
        requires
            automaton_wf(*old(self)),
        ensures
            automaton_wf(*final(self)),
            index < old(self).states@.len() ==> {
                let removed_id = old(self).states@[index as int].id;
                &&& final(self).states@ == old(self).states@.remove(index as int)
                &&& ruleset_model(final(self).rules@) == retained_rules(
                    ruleset_model(old(self).rules@),
                    removed_id,
                )
                &&& final(self).grid.width == old(self).grid.width
                &&& final(self).grid.height == old(self).grid.height
                &&& final(self).grid.neighborhood == old(self).grid.neighborhood
                &&& forall|r: int, c: int|
                    in_grid(old(self).grid, r, c) ==> #[trigger] cell_at(final(self).grid, r, c)
                        == (if cell_at(old(self).grid, r, c) == removed_id {
                        DEFAULT_STATE_ID
                    } else {
                        cell_at(old(self).grid, r, c)
                    })
            },
            index >= old(self).states@.len() ==> *final(self) == *old(self),
    {
        if index >= self.states.len() {
            return;
        }
        let removed_id = self.states[index].id;
        self.states.remove(index);

        let ghost old_rules = ruleset_model(self.rules@);
        let mut i: usize = self.rules.len();
        proof {
            assert(old_rules.skip(i as int) =~= Seq::<RuleModel>::empty());
            assert(self.rules@.take(i as int) =~= self.rules@);
        }
        while i > 0
            invariant
                ruleset_wf(old_rules),
                i <= old_rules.len(),
                self.states@ == old(self).states@.remove(index as int),
                self.grid == old(self).grid,
                grid_wf(self.grid),
                removed_id == old(self).states@[index as int].id,
                index < old(self).states@.len(),
                self.rules@.take(i as int) == old(self).rules@.take(i as int),
                ruleset_model(self.rules@) == ruleset_model(old(self).rules@.take(i as int))
                    + retained_rules(old_rules.skip(i as int), removed_id),
                old_rules == ruleset_model(old(self).rules@),
            decreases i,
        {
            i -= 1;
            proof {
                assert(ruleset_model(self.rules@).len() == self.rules@.len());
                assert(ruleset_model(old(self).rules@.take(i + 1)).len() == i + 1);
                assert(self.rules@.take(i + 1)[i as int] == self.rules@[i as int]);
                assert(old(self).rules@.take(i + 1)[i as int] == old(self).rules@[i as int]);
            }
            let mentions = rule_mentions_exec(&self.rules[i], removed_id);
            proof {
                assert(self.rules@[i as int] == old(self).rules@[i as int]);
                assert(old_rules.skip(i as int)[0] == old_rules[i as int]);
                assert(old_rules.skip(i as int).drop_first() =~= old_rules.skip(i + 1));
            }
            let ghost pre = self.rules@;
            let ghost target = ruleset_model(old(self).rules@.take(i as int)) + retained_rules(
                old_rules.skip(i as int),
                removed_id,
            );
            proof {
                assert(old_rules[i as int] == old(self).rules@[i as int]@);
                assert(ruleset_model(old(self).rules@.take(i as int)).len() == i);
            }
            if mentions {
                self.rules.remove(i);
                proof {
                    assert(rule_mentions(old_rules.skip(i as int)[0], removed_id));
                    assert(retained_rules(old_rules.skip(i as int), removed_id) == retained_rules(
                        old_rules.skip(i + 1),
                        removed_id,
                    ));
                    assert(self.rules@ =~= pre.take(i as int) + pre.skip(i + 1));
                    assert(self.rules@.take(i as int) =~= old(self).rules@.take(i as int));
                    assert(ruleset_model(self.rules@).len() == self.rules@.len());
                    assert forall|j: int|
                        0 <= j < ruleset_model(self.rules@).len() implies #[trigger] ruleset_model(
                        self.rules@,
                    )[j] == target[j] by {
                        assert(ruleset_model(self.rules@)[j] == self.rules@[j]@);
                        assert(ruleset_model(pre).len() == pre.len());
                        if j < i {
                            assert(self.rules@[j] == pre[j]);
                            assert(ruleset_model(pre)[j] == pre[j]@);
                            assert(old(self).rules@.take(i as int)[j] == old(self).rules@[j]);
                            assert(ruleset_model(old(self).rules@.take(i as int))[j] == old(
                                self,
                            ).rules@.take(i as int)[j]@);
                            assert(ruleset_model(old(self).rules@.take(i + 1))[j] == old(
                                self,
                            ).rules@.take(i + 1)[j]@);
                            assert(old(self).rules@.take(i + 1)[j] == old(self).rules@[j]);
                        } else {
                            assert(self.rules@[j] == pre[j + 1]);
                            assert(ruleset_model(pre)[j + 1] == pre[j + 1]@);
                        }
                    }
                    assert(ruleset_model(self.rules@) =~= target);
                }
            } else {
                proof {
                    assert(!rule_mentions(old_rules.skip(i as int)[0], removed_id));
                    assert(retained_rules(old_rules.skip(i as int), removed_id) == seq![
                        old_rules[i as int],
                    ] + retained_rules(old_rules.skip(i + 1), removed_id));
                    assert(ruleset_model(self.rules@).len() == self.rules@.len());
                    assert forall|j: int|
                        0 <= j < ruleset_model(self.rules@).len() implies #[trigger] ruleset_model(
                        self.rules@,
                    )[j] == target[j] by {
                        assert(ruleset_model(self.rules@)[j] == self.rules@[j]@);
                        if j < i {
                            assert(ruleset_model(old(self).rules@.take(i + 1))[j] == old(
                                self,
                            ).rules@.take(i + 1)[j]@);
                            assert(old(self).rules@.take(i as int)[j] == old(self).rules@[j]);
                            assert(old(self).rules@.take(i + 1)[j] == old(self).rules@[j]);
                            assert(ruleset_model(old(self).rules@.take(i as int))[j] == old(
                                self,
                            ).rules@.take(i as int)[j]@);
                        } else if j == i {
                            assert(ruleset_model(old(self).rules@.take(i + 1))[j] == old(
                                self,
                            ).rules@.take(i + 1)[j]@);
                            assert(old(self).rules@.take(i + 1)[j] == old(self).rules@[j]);
                            assert(target[j] == old_rules[i as int]);
                        } else {
                            assert(target[j] == retained_rules(old_rules.skip(i as int), removed_id)[
                                j - i
                            ]);
                            assert(retained_rules(old_rules.skip(i as int), removed_id)[j - i]
                                == retained_rules(old_rules.skip(i + 1), removed_id)[j - i - 1]);
                        }
                    }
                    assert(ruleset_model(self.rules@) =~= target);
                }
            }
        }
        proof {
            assert(old(self).rules@.take(0) =~= Seq::<TransitionRule>::empty());
            assert(ruleset_model(Seq::<TransitionRule>::empty()) =~= Seq::<RuleModel>::empty());
            assert(old_rules.skip(0) =~= old_rules);
            assert(ruleset_model(self.rules@) =~= retained_rules(old_rules, removed_id));
            lemma_retained_rules_wf(old_rules, removed_id);
        }

        self.grid.replace_all(removed_id, DEFAULT_STATE_ID);
    }

    /// Set the sampling weight of the state at `index`; out-of-range indices
    /// do nothing.
    pub fn set_state_weight(&mut self, index: usize, weight: u8)
        requires
            automaton_wf(*old(self)),
        ensures
            automaton_wf(*final(self)),
            final(self).rules == old(self).rules,
            final(self).grid == old(self).grid,
            index < old(self).states@.len() ==> final(self).states@ == old(self).states@.update(
                index as int,
                CAState {
                    id: old(self).states@[index as int].id,
                    name: old(self).states@[index as int].name,
                    color: old(self).states@[index as int].color,
                    weight,
                },
            ),
            index >= old(self).states@.len() ==> *final(self) == *old(self),
    {
        if index < self.states.len() {
            let entry = &mut self.states[index];
            entry.weight = weight;
        }
    }

    /// Append a rule, after validating its structure; a rule with a
    /// combiner-count mismatch or an out-of-range probability is rejected.
    pub fn add_rule(&mut self, rule: TransitionRule) -> (added: bool)
        requires
            automaton_wf(*old(self)),
        ensures
            automaton_wf(*final(self)),
            final(self).states == old(self).states,
            final(self).grid == old(self).grid,
            added == rule@.wf(),
            added ==> final(self).rules@ == old(self).rules@.push(rule),
            !added ==> *final(self) == *old(self),
    {
        if rule.check_wf() {
            let ghost old_rules = self.rules@;
            self.rules.push(rule);
            proof {
                assert forall|j: int|
                    0 <= j < ruleset_model(self.rules@).len() implies (#[trigger] ruleset_model(
                    self.rules@,
                )[j]).wf() by {
                    if j < old_rules.len() {
                        assert(ruleset_model(old_rules)[j].wf());
                        assert(ruleset_model(self.rules@)[j] == ruleset_model(old_rules)[j]);
                    } else {
                        assert(ruleset_model(self.rules@)[j] == rule@);
                    }
                }
            }
            true
        } else {
            false
        }
    }

    /// Remove the rule at `index`, preserving the order of the rest;
    /// out-of-range indices do nothing.
    pub fn remove_rule(&mut self, index: usize)
        requires
            automaton_wf(*old(self)),
        ensures
            automaton_wf(*final(self)),
            final(self).states == old(self).states,
            final(self).grid == old(self).grid,
            index < old(self).rules@.len() ==> final(self).rules@ == old(self).rules@.remove(
                index as int,
            ),
            index >= old(self).rules@.len() ==> *final(self) == *old(self),
    {
        if index < self.rules.len() {
            self.rules.remove(index);
            proof {
                assert forall|j: int|
                    0 <= j < ruleset_model(self.rules@).len() implies (#[trigger] ruleset_model(
                    self.rules@,
                )[j]).wf() by {
                    if j < index {
                        assert(self.rules@[j] == old(self).rules@[j]);
                        assert(ruleset_model(old(self).rules@)[j].wf());
                    } else {
                        assert(self.rules@[j] == old(self).rules@[j + 1]);
                        assert(ruleset_model(old(self).rules@)[j + 1].wf());
                    }
                }
            }
        }
    }

    /// Paint one grid cell to the given state id; out-of-bounds paints are
    /// ignored.
    pub fn paint_cell(&mut self, r: usize, c: usize, state_id: u8)
        requires
            automaton_wf(*old(self)),
        ensures
            automaton_wf(*final(self)),
            final(self).states == old(self).states,
            final(self).rules == old(self).rules,
            final(self).grid.width == old(self).grid.width,
            final(self).grid.height == old(self).grid.height,
            final(self).grid.neighborhood == old(self).grid.neighborhood,
            in_grid(old(self).grid, r as int, c as int) ==> grid_cells(final(self).grid)
                == grid_cells(old(self).grid).update(
                r as int,
                grid_cells(old(self).grid)[r as int].update(c as int, state_id),
            ),
            !in_grid(old(self).grid, r as int, c as int) ==> grid_cells(final(self).grid)
                == grid_cells(old(self).grid),
    {
        self.grid.set_state(r, c, state_id);
    }

    /// Replace the grid wholesale with a freshly sampled one of the given
    /// dimensions, keeping the current neighborhood.
    pub fn resize_grid(&mut self, width: usize, height: usize)
        requires
            automaton_wf(*old(self)),
        ensures
            automaton_wf(*final(self)),
            final(self).states == old(self).states,
            final(self).rules == old(self).rules,
            final(self).grid.width == width,
            final(self).grid.height == height,
            final(self).grid.neighborhood == old(self).grid.neighborhood,
            forall|r: int, c: int|
                in_grid(final(self).grid, r, c) ==> sampled_from(
                    old(self).states@,
                    #[trigger] cell_at(final(self).grid, r, c),
                ),
    {
        self.grid = CAGrid::new(width, height, &self.states, self.grid.neighborhood);
    }

    /// Replace the grid wholesale with a freshly sampled one of the same
    /// dimensions and neighborhood.
    pub fn reset_grid(&mut self)
        requires
            automaton_wf(*old(self)),
        ensures
            automaton_wf(*final(self)),
            final(self).states == old(self).states,
            final(self).rules == old(self).rules,
            final(self).grid.width == old(self).grid.width,
            final(self).grid.height == old(self).grid.height,
            final(self).grid.neighborhood == old(self).grid.neighborhood,
            forall|r: int, c: int|
                in_grid(final(self).grid, r, c) ==> sampled_from(
                    old(self).states@,
                    #[trigger] cell_at(final(self).grid, r, c),
                ),
    {
        let width = self.grid.width;
        let height = self.grid.height;
        self.grid = CAGrid::new(width, height, &self.states, self.grid.neighborhood);
    }

    /// Change the neighborhood used for counting, leaving the cells as they
    /// are.
    pub fn set_neighborhood(&mut self, neighborhood: Neighborhood)
        requires
            automaton_wf(*old(self)),
        ensures
            automaton_wf(*final(self)),
            final(self).states == old(self).states,
            final(self).rules == old(self).rules,
            final(self).grid.width == old(self).grid.width,
            final(self).grid.height == old(self).grid.height,
            final(self).grid.neighborhood == neighborhood,
            grid_cells(final(self).grid) == grid_cells(old(self).grid),
    {
        self.grid.neighborhood = neighborhood;
    }

    /// Advance the grid one generation. An empty registry makes the step a
    /// no-op; otherwise every cell of the new grid is a first-match-wins
    /// outcome of the ruleset computed from a frozen snapshot of the old
    /// grid.
    pub fn step_simulation_logic(&mut self)
        requires
            automaton_wf(*old(self)),
        ensures
            automaton_wf(*final(self)),
            final(self).states == old(self).states,
            final(self).rules == old(self).rules,
            old(self).states@.len() == 0 ==> *final(self) == *old(self),
            old(self).states@.len() > 0 ==> grid_step_post(
                old(self).grid,
                final(self).grid,
                ruleset_model(old(self).rules@),
            ),
    {
        if self.states.len() == 0 {
            return;
        }
        self.grid = step_grid(&self.grid, &self.rules);
    }

    /// Set the sampling weight of the state at `index` from a text field:
    /// a decimal clamps into the `u8` range, an empty or unparseable input
    /// is treated as weight 0.
    pub fn set_state_weight_text(&mut self, index: usize, text: &[u8])
        requires
            automaton_wf(*old(self)),
        ensures
            automaton_wf(*final(self)),
            final(self).rules == old(self).rules,
            final(self).grid == old(self).grid,
            index < old(self).states@.len() ==> final(self).states@ == old(self).states@.update(
                index as int,
                CAState {
                    id: old(self).states@[index as int].id,
                    name: old(self).states@[index as int].name,
                    color: old(self).states@[index as int].color,
                    weight: spec_weight_of_text(text@),
                },
            ),
            index >= old(self).states@.len() ==> *final(self) == *old(self),
    {
        let w = weight_of_text(text);
        self.set_state_weight(index, w);
    }

    /// Serialize the registry, the ruleset and the grid dimensions as the
    /// export text block.
    pub fn export_rules(&self) -> (r: Vec<u8>)
        requires
            automaton_wf(*self),
        ensures
            r@ == spec_export(
                registry_model(self.states@),
                ruleset_model(self.rules@),
                self.grid.width as int,
                self.grid.height as int,
            ),
    {
        proof {
            assert forall|i: int| 0 <= i < self.rules@.len() implies (#[trigger] self.rules@[i]@).wf() by {
                assert(ruleset_model(self.rules@)[i] == self.rules@[i]@);
            }
        }
        export_model(&self.states, &self.rules, self.grid.width, self.grid.height)
    }

    /// Import a whole text block: clear and rebuild the registry and the
    /// ruleset, and replace the grid wholesale with a freshly sampled one of
    /// the imported dimensions, keeping the current neighborhood.
    pub fn import_model(&mut self, text: &[u8])
        requires
            automaton_wf(*old(self)),
        ensures
            automaton_wf(*final(self)),
            registry_model(final(self).states@) == spec_import(text@).states,
            ruleset_model(final(self).rules@) == spec_import(text@).rules,
            final(self).grid.width == spec_import(text@).width,
            final(self).grid.height == spec_import(text@).height,
            final(self).grid.neighborhood == old(self).grid.neighborhood,
    {
        let (width, height, states, rules) = parse_model(text);
        self.states = states;
        self.rules = rules;
        self.grid = CAGrid::new(width, height, &self.states, self.grid.neighborhood);
    }

    /// Replace the registry and ruleset with an example automaton, leaving
    /// the grid as it is.
    pub fn load_example(&mut self, model: ExampleModel)
        requires
            automaton_wf(*old(self)),
        ensures
            automaton_wf(*final(self)),
            final(self).grid == old(self).grid,
            rules_resolvable(
                ruleset_model(final(self).rules@),
                registry_model(final(self).states@),
            ),
    {
        let (states, rules) = example_states_and_rules(model);
        self.states = states;
        self.rules = rules;
    }
}

/// Whether a rule references the id anywhere, executably.
fn rule_mentions_exec(rule: &TransitionRule, id: u8) -> (r: bool)
    ensures
        r == rule_mentions(rule@, id),
{
    if rule.current_state_id == id || rule.next_state_id == id {
        return true;
    }
    let n = rule.conditions.len();
    let mut i: usize = 0;
    while i < n
        invariant
            n == rule.conditions@.len(),
            i <= n,
            forall|j: int|
                0 <= j < i ==> (#[trigger] rule.conditions@[j]).neighbor_state_id != id,
        decreases n - i,
    {
        if rule.conditions[i].neighbor_state_id == id {
            return true;
        }
        i += 1;
    }
    false
}

/// The rules surviving a removal are a subsequence of the ruleset, so their
/// structural validity is preserved.
proof fn lemma_retained_rules_wf(rules: Seq<RuleModel>, id: u8)
    requires
        ruleset_wf(rules),
    ensures
        ruleset_wf(retained_rules(rules, id)),
    decreases rules.len(),
{
    if rules.len() > 0 {
        assert(ruleset_wf(rules.drop_first())) by {
            assert(forall|i: int|
                0 <= i < rules.drop_first().len() ==> (#[trigger] rules.drop_first()[i])
                    == rules[i + 1]);
        }
        lemma_retained_rules_wf(rules.drop_first(), id);
        if !rule_mentions(rules[0], id) {
            let res = seq![rules[0]] + retained_rules(rules.drop_first(), id);
            assert(rules[0].wf());
            assert(forall|i: int|
                1 <= i < res.len() ==> (#[trigger] res[i]) == retained_rules(
                    rules.drop_first(),
                    id,
                )[i - 1]);
        }
    }
}

/// Build one rule from plain parts; display names are never stored, ids are
/// authoritative.
fn mk_rule(
    current: u8,
    conditions: Vec<Condition>,
    combiners: Vec<ConditionCombiner>,
    next: u8,
    probability: u32,
) -> (r: TransitionRule)
    ensures
        r@.current_state_id == current,
        r@.conditions == conditions@,
        r@.combiners == combiners@,
        r@.next_state_id == next,
        r@.probability == probability,
{
    TransitionRule { current_state_id: current, conditions, combiners, next_state_id: next, probability }
}

/// The states and rules of an example automaton. Ids are assigned densely in
/// registry order, every rule is well-formed, and every referenced id is in
/// the registry.
pub fn example_states_and_rules(model: ExampleModel) -> (out: (Vec<CAState>, Vec<TransitionRule>))
    ensures
        ruleset_wf(ruleset_model(out.1@)),
        rules_resolvable(ruleset_model(out.1@), registry_model(out.0@)),
        out.0@.len() > 0,
        forall|i: int| 0 <= i < out.0@.len() ==> (#[trigger] out.0@[i]).id == i,
{
    let mut states: Vec<CAState> = Vec::new();
    let mut rules: Vec<TransitionRule> = Vec::new();
    match model {
        ExampleModel::GameOfLife => {
            states.push(CAState {
                id: 0,
                name: vec![68u8, 101, 97, 100],  // "Dead"
                color: Rgb { r: 0, g: 0, b: 0 },
                weight: 5,
            });
            states.push(CAState {
                id: 1,
                name: vec![65u8, 108, 105, 118, 101],  // "Alive"
                color: Rgb { r: 0, g: 255, b: 0 },
                weight: 5,
            });
            let eq = RelationalOperator::Equals;
            rules.push(mk_rule(
                1,
                vec![Condition { neighbor_state_id: 1, operator: eq, threshold: 2 }],
                Vec::new(),
                1,
                PROB_ONE,
            ));
            rules.push(mk_rule(
                1,
                vec![Condition { neighbor_state_id: 1, operator: eq, threshold: 3 }],
                Vec::new(),
                1,
                PROB_ONE,
            ));
            rules.push(mk_rule(
                0,
                vec![Condition { neighbor_state_id: 1, operator: eq, threshold: 3 }],
                Vec::new(),
                1,
                PROB_ONE,
            ));
            rules.push(mk_rule(
                1,
                vec![
                    Condition {
                        neighbor_state_id: 1,
                        operator: RelationalOperator::LessThan,
                        threshold: 2,
                    },
                ],
                Vec::new(),
                0,
                PROB_ONE,
            ));
            rules.push(mk_rule(
                1,
                vec![
                    Condition {
                        neighbor_state_id: 1,
                        operator: RelationalOperator::GreaterThan,
                        threshold: 3,
                    },
                ],
                Vec::new(),
                0,
                PROB_ONE,
            ));
        },
        ExampleModel::Wireworld => {
            states.push(CAState {
                id: 0,
                name: vec![69u8, 109, 112, 116, 121],  // "Empty"
                color: Rgb { r: 0, g: 0, b: 0 },
                weight: 10,
            });
            states.push(CAState {
                id: 1,
                name: vec![
                    69u8, 108, 101, 99, 116, 114, 111, 110, 72, 101, 97, 100,
                ],  // "ElectronHead"
                color: Rgb { r: 0, g: 0, b: 255 },
                weight: 0,
            });
            states.push(CAState {
                id: 2,
                name: vec![
                    69u8, 108, 101, 99, 116, 114, 111, 110, 84, 97, 105, 108,
                ],  // "ElectronTail"
                color: Rgb { r: 255, g: 0, b: 0 },
                weight: 0,
            });
            states.push(CAState {
                id: 3,
                name: vec![67u8, 111, 110, 100, 117, 99, 116, 111, 114],  // "Conductor"
                color: Rgb { r: 255, g: 255, b: 0 },
                weight: 0,
            });
            rules.push(mk_rule(1, Vec::new(), Vec::new(), 2, PROB_ONE));
            rules.push(mk_rule(2, Vec::new(), Vec::new(), 3, PROB_ONE));
            let eq = RelationalOperator::Equals;
            rules.push(mk_rule(
                3,
                vec![
                    Condition { neighbor_state_id: 1, operator: eq, threshold: 1 },
                    Condition { neighbor_state_id: 1, operator: eq, threshold: 2 },
                ],
                vec![ConditionCombiner::Or],
                1,
                PROB_ONE,
            ));
        },
        ExampleModel::Greenberg => {
            states.push(CAState {
                id: 0,
                name: vec![79u8, 102, 102],  // "Off"
                color: Rgb { r: 0, g: 0, b: 0 },
                weight: 10,
            });
            states.push(CAState {
                id: 1,
                name: vec![79u8, 110],  // "On"
                color: Rgb { r: 0, g: 0, b: 255 },
                weight: 10,
            });
            states.push(CAState {
                id: 2,
                name: vec![68u8, 121, 105, 110, 103],  // "Dying"
                color: Rgb { r: 255, g: 0, b: 0 },
                weight: 10,
            });
            rules.push(mk_rule(
                0,
                vec![
                    Condition {
                        neighbor_state_id: 1,
                        operator: RelationalOperator::Equals,
                        threshold: 2,
                    },
                ],
                Vec::new(),
                1,
                PROB_ONE,
            ));
            rules.push(mk_rule(1, Vec::new(), Vec::new(), 2, PROB_ONE));
            rules.push(mk_rule(2, Vec::new(), Vec::new(), 0, PROB_ONE));
        },
        ExampleModel::TuringPatterns => {
            states.push(CAState {
                id: 0,
                name: vec![69u8, 109, 112, 116, 121],  // "Empty"
                color: Rgb { r: 0, g: 0, b: 0 },
                weight: 10,
            });
            states.push(CAState {
                id: 1,
                name: vec![65u8, 99, 116, 105, 118, 97, 116, 111, 114],  // "Activator"
                color: Rgb { r: 0, g: 200, b: 255 },
                weight: 5,
            });
            states.push(CAState {
                id: 2,
                name: vec![73u8, 110, 104, 105, 98, 105, 116, 111, 114],  // "Inhibitor"
                color: Rgb { r: 255, g: 100, b: 0 },
                weight: 5,
            });
            let ge = RelationalOperator::GreaterOrEqual;
            rules.push(mk_rule(
                0,
                vec![Condition { neighbor_state_id: 1, operator: ge, threshold: 2 }],
                Vec::new(),
                1,
                PROB_ONE,
            ));
            rules.push(mk_rule(
                1,
                vec![Condition { neighbor_state_id: 1, operator: ge, threshold: 3 }],
                Vec::new(),
                2,
                PROB_ONE,
            ));
            rules.push(mk_rule(2, Vec::new(), Vec::new(), 0, PROB_ONE));
        },
        ExampleModel::ForestFire => {
            states.push(CAState {
                id: 0,
                name: vec![69u8, 109, 112, 116, 121],  // "Empty"
                color: Rgb { r: 0, g: 0, b: 0 },
                weight: 10,
            });
            states.push(CAState {
                id: 1,
                name: vec![84u8, 114, 101, 101],  // "Tree"
                color: Rgb { r: 0, g: 200, b: 0 },
                weight: 7,
            });
            states.push(CAState {
                id: 2,
                name: vec![66u8, 117, 114, 110, 105, 110, 103],  // "Burning"
                color: Rgb { r: 255, g: 0, b: 0 },
                weight: 3,
            });
            rules.push(mk_rule(2, Vec::new(), Vec::new(), 0, 800_000));
            rules.push(mk_rule(
                1,
                vec![
                    Condition {
                        neighbor_state_id: 2,
                        operator: RelationalOperator::GreaterOrEqual,
                        threshold: 1,
                    },
                ],
                Vec::new(),
                2,
                500_000,
            ));
            rules.push(mk_rule(0, Vec::new(), Vec::new(), 1, 300_000));
        },
    }
    proof {
        assert forall|i: int|
            0 <= i < ruleset_model(rules@).len() implies (#[trigger] ruleset_model(
            rules@,
        )[i]).wf() by {
            assert(ruleset_model(rules@)[i] == rules@[i]@);
        }
        assert(forall|i: int| 0 <= i < states@.len() ==> (#[trigger] states@[i]).id == i);
        assert forall|id: u8| (id as int) < states@.len() implies #[trigger] id_used(
            registry_model(states@),
            id,
        ) by {
            assert(registry_model(states@)[id as int].id == id);
        }
        assert forall|i: int|
            0 <= i < ruleset_model(rules@).len() implies {
            &&& id_used(registry_model(states@), (#[trigger] ruleset_model(rules@)[i]).current_state_id)
            &&& id_used(registry_model(states@), ruleset_model(rules@)[i].next_state_id)
            &&& forall|j: int|
                0 <= j < ruleset_model(rules@)[i].conditions.len() ==> id_used(
                    registry_model(states@),
                    (#[trigger] ruleset_model(rules@)[i].conditions[j]).neighbor_state_id,
                )
        } by {
            assert(ruleset_model(rules@)[i] == rules@[i]@);
            assert((rules@[i]@.current_state_id as int) < states@.len());
            assert((rules@[i]@.next_state_id as int) < states@.len());
            assert forall|j: int|
                0 <= j < rules@[i]@.conditions.len() implies id_used(
                registry_model(states@),
                (#[trigger] rules@[i]@.conditions[j]).neighbor_state_id,
            ) by {
                assert((rules@[i]@.conditions[j].neighbor_state_id as int) < states@.len());
            }
        }
    }
    (states, rules)
}

/// The weight a text field selects: a decimal (optional `+`, digits)
/// clamped into the `u8` range; an empty or unparseable input means 0.
pub open spec fn spec_weight_of_text(s: Seq<u8>) -> u8 {
    let t = spec_trim(s);
    let body = if t.len() > 0 && t[0] == 43 {
        t.drop_first()
    } else {
        t
    };
    if body.len() > 0 && all_digits(body) {
        if digits_val(body) > 255 {
            255u8
        } else {
            digits_val(body) as u8
        }
    } else {
        0u8
    }
}

/// The weight a text field selects, executably.
fn weight_of_text(text: &[u8]) -> (w: u8)
    ensures
        w == spec_weight_of_text(text@),
{
    let t = trim_vec(text);
    let n = t.len();
    let start: usize = if n > 0 && t[0] == 43 {
        1
    } else {
        0
    };
    let ghost body = if t@.len() > 0 && t@[0] == 43 {
        t@.drop_first()
    } else {
        t@
    };
    proof {
        assert(body =~= t@.subrange(start as int, n as int));
    }
    if n == start {
        return 0;
    }
    let mut value: u32 = 0;
    let mut i: usize = start;
    proof {
        assert(body.subrange(0, 0) =~= Seq::<u8>::empty());
    }
    while i < n
        invariant
            n == t@.len(),
            t@ == spec_trim(text@),
            start <= i <= n,
            body == t@.subrange(start as int, n as int),
            body == (if t@.len() > 0 && t@[0] == 43 {
                t@.drop_first()
            } else {
                t@
            }),
            all_digits(body.subrange(0, i - start)),
            value <= 256,
            value <= 255 ==> value == digits_val(body.subrange(0, i - start)),
            value == 256 ==> digits_val(body.subrange(0, i - start)) > 255,
        decreases n - i,
    {
        let b = t[i];
        if b < 48 || b > 57 {
            proof {
                assert(body[i - start] == b);
                assert(!is_digit(body[i - start]));
                assert(!all_digits(body));
            }
            return 0;
        }
        proof {
            assert(body.subrange(0, i + 1 - start).drop_last() =~= body.subrange(0, i - start));
            assert(body.subrange(0, i + 1 - start).last() == body[i - start]);
            assert(body[i - start] == b);
            assert forall|k: int| 0 <= k < i + 1 - start implies is_digit(
                #[trigger] body.subrange(0, i + 1 - start)[k],
            ) by {
                if k < i - start {
                    assert(body.subrange(0, i + 1 - start)[k] == body.subrange(0, i - start)[k]);
                } else {
                    assert(body.subrange(0, i + 1 - start)[k] == body[i - start]);
                }
            }
        }
        let d = (b - 48) as u32;
        if value >= 256 || value * 10 + d > 255 {
            proof {
                assert(digits_val(body.subrange(0, i + 1 - start)) > 255);
            }
            value = 256;
        } else {
            value = value * 10 + d;
        }
        i += 1;
    }
    proof {
        assert(body.subrange(0, n - start) =~= body);
    }
    if value > 255 {
        255
    } else {
        value as u8
    }
}

} // verus!
