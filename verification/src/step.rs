//! The simulation stepper: one synchronous generation over the whole grid.
//!
//! Each cell is computed independently from a frozen snapshot of the current
//! generation. For a cell, the rules are tried in declaration order among
//! those whose source state matches; each such rule draws a stochastic gate,
//! and the first gated rule whose conditions hold rewrites the cell. If none
//! fires, the cell keeps its state. Below a cell-count threshold the cells
//! are visited sequentially; at or above it they are partitioned across
//! worker threads, each computing into its own output slot.

use vstd::prelude::*;
use rayon::iter::{IntoParallelIterator, ParallelIterator};
use crate::grid::{CAGrid, cell_at, grid_cells, grid_wf, in_grid, lemma_cells_index,
    spec_count_neighbors};
use crate::random::random_below;
use crate::rules::{Condition, ConditionCombiner, PROB_ONE, RuleModel, TransitionRule,
    ruleset_model, ruleset_wf, spec_combine, spec_evaluate};

verus! {

/// Grids with at least this many cells are stepped in parallel.
pub const PAR_THRESHOLD: usize = 10_000;

/// Whether one condition holds of the cell at `(r, c)`: its operator applied
/// to the neighbor count of its state and its threshold.
pub open spec fn cond_holds(g: CAGrid, r: int, c: int, cond: Condition) -> bool {
    spec_evaluate(
        cond.operator,
        spec_count_neighbors(g, r, c, cond.neighbor_state_id) as u8,
        cond.threshold,
    )
}

/// The left-to-right fold of the first `n` conditions (`n >= 1`), combining
/// condition `i` into the running boolean with combiner `i - 1`; there is no
/// precedence and no short-circuiting.
pub open spec fn conds_prefix_holds(
    g: CAGrid,
    r: int,
    c: int,
    conds: Seq<Condition>,
    combs: Seq<ConditionCombiner>,
    n: int,
) -> bool
    decreases n,
{
    if n <= 1 {
        cond_holds(g, r, c, conds[0])
    } else {
        spec_combine(
            combs[n - 2],
            conds_prefix_holds(g, r, c, conds, combs, n - 1),
            cond_holds(g, r, c, conds[n - 1]),
        )
    }
}

/// Whether a rule's guard is satisfied at `(r, c)`: an empty condition list
/// is unconditionally satisfied, otherwise the full left-to-right fold.
pub open spec fn rule_fires(g: CAGrid, r: int, c: int, rule: RuleModel) -> bool {
    rule.conditions.len() == 0 || conds_prefix_holds(
        g,
        r,
        c,
        rule.conditions,
        rule.combiners,
        rule.conditions.len() as int,
    )
}

/// What any sequence of stochastic gate outcomes must satisfy: one outcome
/// per rule, certain rules always pass, impossible rules never do.
pub open spec fn gate_ok(rules: Seq<RuleModel>, gates: Seq<bool>) -> bool {
    &&& gates.len() == rules.len()
    &&& forall|i: int|
        0 <= i < rules.len() ==> (((#[trigger] rules[i]).probability == PROB_ONE ==> gates[i]) && (
        rules[i].probability == 0 ==> !gates[i]))
}

/// The next state of the cell at `(r, c)`, scanning rules from index `i` on:
/// the first rule whose source state matches, whose gate passed, and whose
/// conditions hold rewrites the cell; otherwise the cell keeps its state.
pub open spec fn cell_next_from(
    g: CAGrid,
    rules: Seq<RuleModel>,
    gates: Seq<bool>,
    i: int,
    r: int,
    c: int,
) -> u8
    decreases rules.len() - i,
{
    if i < 0 || i >= rules.len() {
        cell_at(g, r, c)
    } else if rules[i].current_state_id == cell_at(g, r, c) && gates[i] && rule_fires(
        g,
        r,
        c,
        rules[i],
    ) {
        rules[i].next_state_id
    } else {
        cell_next_from(g, rules, gates, i + 1, r, c)
    }
}

/// The next state of the cell at `(r, c)` under gate outcomes `gates`:
/// first-match-wins over the whole ruleset in declaration order.
pub open spec fn cell_next(g: CAGrid, rules: Seq<RuleModel>, gates: Seq<bool>, r: int, c: int) -> u8 {
    cell_next_from(g, rules, gates, 0, r, c)
}

/// No rule among the first `n` fired at `(r, c)`.
pub open spec fn none_fired_upto(
    g: CAGrid,
    rules: Seq<RuleModel>,
    gates: Seq<bool>,
    n: int,
    r: int,
    c: int,
) -> bool {
    forall|j: int|
        0 <= j < n ==> !((#[trigger] rules[j]).current_state_id == cell_at(g, r, c) && gates[j]
            && rule_fires(g, r, c, rules[j]))
}

/// What one stepped cell satisfies: for some admissible gate outcomes, the
/// new value is exactly the first-match-wins result.
pub open spec fn step_cell_post(g: CAGrid, rules: Seq<RuleModel>, r: int, c: int, id: u8) -> bool {
    exists|gates: Seq<bool>| #[trigger] gate_ok(rules, gates) && id == cell_next(g, rules, gates, r, c)
}

/// When no rule among the first `n` fired, the scan may start at `n`.
pub proof fn lemma_cell_next_skip(
    g: CAGrid,
    rules: Seq<RuleModel>,
    gates: Seq<bool>,
    n: int,
    r: int,
    c: int,
)
    requires
        0 <= n <= rules.len(),
        none_fired_upto(g, rules, gates, n, r, c),
    ensures
        cell_next(g, rules, gates, r, c) == cell_next_from(g, rules, gates, n, r, c),
    decreases n,
{
    if n > 0 {
        lemma_cell_next_skip(g, rules, gates, n - 1, r, c);
        assert(!(rules[n - 1].current_state_id == cell_at(g, r, c) && gates[n - 1] && rule_fires(
            g,
            r,
            c,
            rules[n - 1],
        )));
    }
}

/// Stepping with an empty ruleset leaves every cell unchanged: whatever a
/// stepped cell satisfies under no rules, it equals the old cell.
pub proof fn lemma_empty_ruleset_step_identity(
    g: CAGrid,
    rules: Seq<RuleModel>,
    r: int,
    c: int,
    id: u8,
)
    requires
        rules.len() == 0,
        step_cell_post(g, rules, r, c, id),
    ensures
        id == cell_at(g, r, c),
{
    let gates = choose|gates: Seq<bool>|
        gate_ok(rules, gates) && id == cell_next(g, rules, gates, r, c);
    assert(cell_next(g, rules, gates, r, c) == cell_at(g, r, c));
}

/// A cell whose state matches no rule's source state is unchanged by a step.
pub proof fn lemma_unmatched_cell_unchanged(
    g: CAGrid,
    rules: Seq<RuleModel>,
    r: int,
    c: int,
    id: u8,
)
    requires
        step_cell_post(g, rules, r, c, id),
        forall|j: int|
            0 <= j < rules.len() ==> (#[trigger] rules[j]).current_state_id != cell_at(g, r, c),
    ensures
        id == cell_at(g, r, c),
{
    let gates = choose|gates: Seq<bool>|
        gate_ok(rules, gates) && id == cell_next(g, rules, gates, r, c);
    lemma_cell_next_skip(g, rules, gates, rules.len() as int, r, c);
}

/// A rule with an empty condition list and probability one fires with
/// certainty: when it is the first rule whose source state matches a cell,
/// that cell transitions to its destination state.
pub proof fn lemma_certain_unconditional_rule_fires(
    g: CAGrid,
    rules: Seq<RuleModel>,
    r: int,
    c: int,
    id: u8,
    j: int,
)
    requires
        step_cell_post(g, rules, r, c, id),
        0 <= j < rules.len(),
        rules[j].current_state_id == cell_at(g, r, c),
        rules[j].conditions.len() == 0,
        rules[j].probability == PROB_ONE,
        forall|k: int| 0 <= k < j ==> (#[trigger] rules[k]).current_state_id != cell_at(g, r, c),
    ensures
        id == rules[j].next_state_id,
{
    let gates = choose|gates: Seq<bool>|
        gate_ok(rules, gates) && id == cell_next(g, rules, gates, r, c);
    lemma_cell_next_skip(g, rules, gates, j, r, c);
    assert(gates[j]);
    assert(rule_fires(g, r, c, rules[j]));
}

/// Evaluate a rule's conditions at `(r, c)`, left-to-right with the stored
/// combiners and no short-circuiting: every condition's neighbor count is
/// computed even when the running boolean is already decided.
fn rule_conditions_hold(grid: &CAGrid, r: usize, c: usize, rule: &TransitionRule) -> (res: bool)
    requires
        grid_wf(*grid),
        rule@.wf(),
    ensures
        res == rule_fires(*grid, r as int, c as int, rule@),
{
    let n = rule.conditions.len();
    if n == 0 {
        return true;
    }
    let c0 = rule.conditions[0];
    let cnt0 = grid.count_neighbors(r, c, c0.neighbor_state_id);
    let mut res = c0.operator.evaluate(cnt0, c0.threshold);
    proof {
        assert(cnt0 == spec_count_neighbors(*grid, r as int, c as int, c0.neighbor_state_id) as u8);
        assert(res == conds_prefix_holds(
            *grid,
            r as int,
            c as int,
            rule@.conditions,
            rule@.combiners,
            1,
        ));
    }
    let mut i: usize = 1;
    while i < n
        invariant
            grid_wf(*grid),
            rule@.wf(),
            n == rule.conditions@.len(),
            1 <= i <= n,
            res == conds_prefix_holds(
                *grid,
                r as int,
                c as int,
                rule@.conditions,
                rule@.combiners,
                i as int,
            ),
        decreases n - i,
    {
        let ci = rule.conditions[i];
        let cnt = grid.count_neighbors(r, c, ci.neighbor_state_id);
        proof {
            assert(cnt == spec_count_neighbors(*grid, r as int, c as int, ci.neighbor_state_id)
                as u8);
        }
        let cres = ci.operator.evaluate(cnt, ci.threshold);
        res = rule.combiners[i - 1].combine(res, cres);
        i += 1;
    }
    res
}

/// Compute the next state of the cell at `(r, c)` from the frozen grid:
/// scan the rules in declaration order, draw a stochastic gate for each rule
/// whose source state matches, and take the first gated rule whose
/// conditions hold; keep the cell's state when none fires.
pub fn step_cell(grid: &CAGrid, rules: &Vec<TransitionRule>, r: usize, c: usize) -> (id: u8)
    requires
        grid_wf(*grid),
        r < grid.height,
        c < grid.width,
        ruleset_wf(ruleset_model(rules@)),
    ensures
        step_cell_post(*grid, ruleset_model(rules@), r as int, c as int, id),
{
    let ghost models = ruleset_model(rules@);
    proof {
        lemma_cells_index(*grid, r as int);
    }
    let cur = grid.cells[r][c];
    let n = rules.len();
    let mut i: usize = 0;
    let ghost mut gates: Seq<bool> = Seq::empty();
    while i < n
        invariant
            grid_wf(*grid),
            r < grid.height,
            c < grid.width,
            n == rules@.len(),
            models == ruleset_model(rules@),
            ruleset_wf(models),
            cur == cell_at(*grid, r as int, c as int),
            i <= n,
            gates.len() == i,
            forall|j: int|
                0 <= j < i ==> (((#[trigger] models[j]).probability == PROB_ONE ==> gates[j]) && (
                models[j].probability == 0 ==> !gates[j])),
            none_fired_upto(*grid, models, gates, i as int, r as int, c as int),
        decreases n - i,
    {
        let rule = &rules[i];
        proof {
            assert(models[i as int] == rules@[i as int]@);
            assert(models[i as int].wf());
        }
        if rule.current_state_id != cur {
            proof {
                gates = gates.push(models[i as int].probability == PROB_ONE);
            }
        } else {
            let roll = random_below(PROB_ONE as u128);
            let gate = roll < rule.probability as u128;
            proof {
                gates = gates.push(gate);
            }
            if gate {
                let fires = rule_conditions_hold(grid, r, c, rule);
                if fires {
                    proof {
                        let pad = Seq::new(
                            (n - 1 - i) as nat,
                            |j: int| models[i + 1 + j].probability == PROB_ONE,
                        );
                        let full = gates + pad;
                        assert(full.len() == n);
                        assert(forall|j: int| 0 <= j < i + 1 ==> full[j] == gates[j]);
                        assert(forall|j: int|
                            i + 1 <= j < n ==> full[j] == (models[j].probability == PROB_ONE));
                        assert(gate_ok(models, full));
                        assert(none_fired_upto(*grid, models, full, i as int, r as int, c as int));
                        lemma_cell_next_skip(*grid, models, full, i as int, r as int, c as int);
                        assert(full[i as int]);
                        assert(cell_next_from(*grid, models, full, i as int, r as int, c as int)
                            == models[i as int].next_state_id);
                        assert(step_cell_post(
                            *grid,
                            models,
                            r as int,
                            c as int,
                            models[i as int].next_state_id,
                        ));
                    }
                    return rule.next_state_id;
                }
            }
        }
        i += 1;
    }
    proof {
        lemma_cell_next_skip(*grid, models, gates, n as int, r as int, c as int);
        assert(gate_ok(models, gates));
        assert(cell_next(*grid, models, gates, r as int, c as int) == cell_at(
            *grid,
            r as int,
            c as int,
        ));
        assert(step_cell_post(*grid, models, r as int, c as int, cur));
    }
    cur
}

/// What one whole-grid step satisfies: dimensions and neighborhood are kept,
/// and every cell of the new grid is a first-match-wins outcome computed from
/// the frozen old grid.
pub open spec fn grid_step_post(old_g: CAGrid, new_g: CAGrid, rules: Seq<RuleModel>) -> bool {
    &&& new_g.width == old_g.width
    &&& new_g.height == old_g.height
    &&& new_g.neighborhood == old_g.neighborhood
    &&& grid_wf(new_g)
    &&& forall|r: int, c: int|
        in_grid(old_g, r, c) ==> step_cell_post(old_g, rules, r, c, #[trigger] cell_at(new_g, r, c))
}

/// Relies on rayon's parallel iterator over `0..n` (`into_par_iter`, `map`,
/// `collect` into `Vec`): the collected vector has one entry per index, in
/// index order, each the closure's result for that index; the closure only
/// calls the verified per-cell step, whose contract gives each entry's value.
#[verifier::external_body]
fn par_step_cells(grid: &CAGrid, rules: &Vec<TransitionRule>, n: usize) -> (out: Vec<u8>)
    requires
        grid_wf(*grid),
        ruleset_wf(ruleset_model(rules@)),
        grid.width > 0,
        n == grid.width * grid.height,
    ensures
        out@.len() == n,
        forall|idx: int|
            0 <= idx < n ==> step_cell_post(
                *grid,
                ruleset_model(rules@),
                idx / (grid.width as int),
                idx % (grid.width as int),
                #[trigger] out@[idx],
            ),
{
    (0..n).into_par_iter().map(|idx| step_cell(grid, rules, idx / grid.width, idx % grid.width)).collect()
}

/// One whole-grid generation, sequentially: every cell is computed from the
/// frozen input grid into a fresh output grid.
fn step_grid_sequential(grid: &CAGrid, rules: &Vec<TransitionRule>) -> (next: CAGrid)
    requires
        grid_wf(*grid),
        ruleset_wf(ruleset_model(rules@)),
    ensures
        grid_step_post(*grid, next, ruleset_model(rules@)),
{
    let ghost models = ruleset_model(rules@);
    let width = grid.width;
    let height = grid.height;
    let mut cells: Vec<Vec<u8>> = Vec::new();
    let mut r: usize = 0;
    while r < height
        invariant
            grid_wf(*grid),
            models == ruleset_model(rules@),
            ruleset_wf(models),
            width == grid.width,
            height == grid.height,
            r <= height,
            cells.deep_view().len() == r,
            forall|rr: int| 0 <= rr < r ==> (#[trigger] cells.deep_view()[rr]).len() == width,
            forall|rr: int, cc: int|
                0 <= rr < r && 0 <= cc < width ==> step_cell_post(
                    *grid,
                    models,
                    rr,
                    cc,
                    #[trigger] cells.deep_view()[rr][cc],
                ),
        decreases height - r,
    {
        let mut row: Vec<u8> = Vec::new();
        let mut c: usize = 0;
        while c < width
            invariant
                grid_wf(*grid),
                models == ruleset_model(rules@),
                ruleset_wf(models),
                width == grid.width,
                height == grid.height,
                r < height,
                c <= width,
                row@.len() == c,
                forall|cc: int|
                    0 <= cc < c ==> step_cell_post(*grid, models, r as int, cc, #[trigger] row@[cc]),
            decreases width - c,
        {
            let id = step_cell(grid, rules, r, c);
            row.push(id);
            c += 1;
        }
        let ghost old_dv = cells.deep_view();
        let ghost rowv = row@;
        proof {
            assert(row.deep_view() =~= rowv);
        }
        cells.push(row);
        proof {
            assert(cells.deep_view() =~= old_dv.push(rowv));
            assert forall|rr: int, cc: int|
                0 <= rr < r + 1 && 0 <= cc < width implies step_cell_post(
                *grid,
                models,
                rr,
                cc,
                #[trigger] cells.deep_view()[rr][cc],
            ) by {
                if rr < r {
                    assert(cells.deep_view()[rr][cc] == old_dv[rr][cc]);
                    assert(step_cell_post(*grid, models, rr, cc, old_dv[rr][cc]));
                } else {
                    assert(cells.deep_view()[rr][cc] == rowv[cc]);
                    assert(step_cell_post(*grid, models, rr, cc, rowv[cc]));
                }
            }
        }
        r += 1;
    }
    let ghost dv = cells.deep_view();
    let next = CAGrid { width, height, cells, neighborhood: grid.neighborhood };
    proof {
        assert(grid_cells(next) == dv);
        assert forall|rr: int, cc: int| in_grid(*grid, rr, cc) implies step_cell_post(
            *grid,
            models,
            rr,
            cc,
            #[trigger] cell_at(next, rr, cc),
        ) by {
            assert(cell_at(next, rr, cc) == dv[rr][cc]);
            assert(step_cell_post(*grid, models, rr, cc, dv[rr][cc]));
        }
    }
    next
}

/// One whole-grid generation in parallel: the flattened cells are computed
/// across worker threads into disjoint output slots, then reassembled.
fn step_grid_parallel(grid: &CAGrid, rules: &Vec<TransitionRule>, n: usize) -> (next: CAGrid)
    requires
        grid_wf(*grid),
        ruleset_wf(ruleset_model(rules@)),
        grid.width > 0,
        n == grid.width * grid.height,
    ensures
        grid_step_post(*grid, next, ruleset_model(rules@)),
{
    let ghost models = ruleset_model(rules@);
    let flat = par_step_cells(grid, rules, n);
    let width = grid.width;
    let height = grid.height;
    let mut cells: Vec<Vec<u8>> = Vec::new();
    let mut r: usize = 0;
    while r < height
        invariant
            grid_wf(*grid),
            models == ruleset_model(rules@),
            width == grid.width,
            height == grid.height,
            n == width * height,
            flat@.len() == n,
            forall|idx: int|
                0 <= idx < n ==> step_cell_post(
                    *grid,
                    models,
                    idx / (width as int),
                    idx % (width as int),
                    #[trigger] flat@[idx],
                ),
            r <= height,
            cells.deep_view().len() == r,
            forall|rr: int| 0 <= rr < r ==> (#[trigger] cells.deep_view()[rr]).len() == width,
            forall|rr: int, cc: int|
                0 <= rr < r && 0 <= cc < width ==> step_cell_post(
                    *grid,
                    models,
                    rr,
                    cc,
                    #[trigger] cells.deep_view()[rr][cc],
                ),
        decreases height - r,
    {
        let mut row: Vec<u8> = Vec::new();
        let mut c: usize = 0;
        while c < width
            invariant
                grid_wf(*grid),
                models == ruleset_model(rules@),
                width == grid.width,
                height == grid.height,
                n == width * height,
                flat@.len() == n,
                forall|idx: int|
                    0 <= idx < n ==> step_cell_post(
                        *grid,
                        models,
                        idx / (width as int),
                        idx % (width as int),
                        #[trigger] flat@[idx],
                    ),
                r < height,
                c <= width,
                row@.len() == c,
                forall|cc: int|
                    0 <= cc < c ==> step_cell_post(*grid, models, r as int, cc, #[trigger] row@[cc]),
            decreases width - c,
        {
            proof {
                assert(r * width + c < n) by (nonlinear_arith)
                    requires
                        r < height,
                        c < width,
                        n == width * height,
                ;
            }
            let idx = r * width + c;
            let id = flat[idx];
            row.push(id);
            proof {
                assert((idx as int) / (width as int) == r as int && (idx as int) % (width as int)
                    == c as int) by (nonlinear_arith)
                    requires
                        idx == r * width + c,
                        0 < width,
                        c < width,
                ;
                assert(step_cell_post(*grid, models, r as int, c as int, flat@[idx as int]));
            }
            c += 1;
        }
        let ghost old_dv = cells.deep_view();
        let ghost rowv = row@;
        proof {
            assert(row.deep_view() =~= rowv);
        }
        cells.push(row);
        proof {
            assert(cells.deep_view() =~= old_dv.push(rowv));
            assert forall|rr: int, cc: int|
                0 <= rr < r + 1 && 0 <= cc < width implies step_cell_post(
                *grid,
                models,
                rr,
                cc,
                #[trigger] cells.deep_view()[rr][cc],
            ) by {
                if rr < r {
                    assert(cells.deep_view()[rr][cc] == old_dv[rr][cc]);
                    assert(step_cell_post(*grid, models, rr, cc, old_dv[rr][cc]));
                } else {
                    assert(cells.deep_view()[rr][cc] == rowv[cc]);
                    assert(step_cell_post(*grid, models, rr, cc, rowv[cc]));
                }
            }
        }
        r += 1;
    }
    let ghost dv = cells.deep_view();
    let next = CAGrid { width, height, cells, neighborhood: grid.neighborhood };
    proof {
        assert(grid_cells(next) == dv);
        assert forall|rr: int, cc: int| in_grid(*grid, rr, cc) implies step_cell_post(
            *grid,
            models,
            rr,
            cc,
            #[trigger] cell_at(next, rr, cc),
        ) by {
            assert(cell_at(next, rr, cc) == dv[rr][cc]);
            assert(step_cell_post(*grid, models, rr, cc, dv[rr][cc]));
        }
    }
    next
}

/// One whole-grid generation: sequential below the cell-count threshold,
/// data-parallel at or above it. The two paths satisfy the same contract.
pub fn step_grid(grid: &CAGrid, rules: &Vec<TransitionRule>) -> (next: CAGrid)
    requires
        grid_wf(*grid),
        ruleset_wf(ruleset_model(rules@)),
    ensures
        grid_step_post(*grid, next, ruleset_model(rules@)),
{
    match grid.width.checked_mul(grid.height) {
        Some(n) => {
            if n >= PAR_THRESHOLD && grid.width > 0 {
                step_grid_parallel(grid, rules, n)
            } else {
                step_grid_sequential(grid, rules)
            }
        },
        None => step_grid_sequential(grid, rules),
    }
}

} // verus!
