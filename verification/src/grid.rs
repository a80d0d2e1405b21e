//! The 2-D simulation grid: a dense array of state ids, a neighborhood
//! topology with clipped boundaries, weighted-random initialization, and
//! neighbor counting.

use vstd::prelude::*;
use crate::random::random_below;
use crate::registry::CAState;

verus! {

/// The fixed offset set used to count neighbors.
#[derive(Clone, Copy, PartialEq, Eq, Structural, Debug)]
pub enum Neighborhood {
    VonNeumann,
    Moore,
    ExtendedMoore,
}

/// The neighbor offsets of a neighborhood, as `(row, column)` deltas.
/// Boundaries are clipped: out-of-grid offsets contribute nothing.
pub open spec fn neighborhood_offsets(nb: Neighborhood) -> Seq<(int, int)> {
    match nb {
        Neighborhood::VonNeumann => seq![(-1int, 0int), (1int, 0int), (0int, -1int), (0int, 1int)],
        Neighborhood::Moore => seq![
            (-1int, -1int),
            (-1int, 0int),
            (-1int, 1int),
            (0int, -1int),
            (0int, 1int),
            (1int, -1int),
            (1int, 0int),
            (1int, 1int),
        ],
        Neighborhood::ExtendedMoore => seq![
            (-1int, -1int),
            (-1int, 0int),
            (-1int, 1int),
            (0int, -1int),
            (0int, 1int),
            (1int, -1int),
            (1int, 0int),
            (1int, 1int),
            (-2int, -2int),
            (-2int, -1int),
            (-2int, 0int),
            (-2int, 1int),
            (-2int, 2int),
            (-1int, -2int),
            (-1int, 2int),
            (0int, -2int),
            (0int, 2int),
            (1int, -2int),
            (1int, 2int),
            (2int, -2int),
            (2int, -1int),
            (2int, 0int),
            (2int, 1int),
            (2int, 2int),
        ],
    }
}

/// The 2-D grid: `height` rows of `width` state ids each, plus the
/// neighborhood used for counting.
#[derive(Clone, Debug, PartialEq)]
pub struct CAGrid {
    pub width: usize,
    pub height: usize,
    pub cells: Vec<Vec<u8>>,
    pub neighborhood: Neighborhood,
}

/// The grid's cell contents as a sequence of rows.
pub open spec fn grid_cells(g: CAGrid) -> Seq<Seq<u8>> {
    g.cells.deep_view()
}

/// Shape validity: exactly `height` rows, each exactly `width` wide.
pub open spec fn grid_wf(g: CAGrid) -> bool {
    &&& grid_cells(g).len() == g.height
    &&& forall|r: int| 0 <= r < g.height ==> (#[trigger] grid_cells(g)[r]).len() == g.width
}

/// Whether `(r, c)` lies on the grid.
pub open spec fn in_grid(g: CAGrid, r: int, c: int) -> bool {
    0 <= r < g.height && 0 <= c < g.width
}

/// The state id at `(r, c)`.
pub open spec fn cell_at(g: CAGrid, r: int, c: int) -> u8 {
    grid_cells(g)[r][c]
}

/// Bridge between the executable cell vectors and the grid's cell model.
pub proof fn lemma_cells_index(g: CAGrid, r: int)
    requires
        0 <= r < grid_cells(g).len(),
    ensures
        g.cells@.len() == grid_cells(g).len(),
        grid_cells(g)[r] == g.cells@[r]@,
{
    assert(g.cells.deep_view().len() == g.cells@.len());
    assert(grid_cells(g)[r] =~= g.cells@[r]@);
}

/// The number of offsets in `offs` that land in-grid on a cell equal to
/// `target`, around `(r, c)`.
pub open spec fn count_matching(g: CAGrid, r: int, c: int, target: u8, offs: Seq<(int, int)>) -> int
    decreases offs.len(),
{
    if offs.len() == 0 {
        0
    } else {
        count_matching(g, r, c, target, offs.drop_last()) + {
            let nr = r + offs.last().0;
            let nc = c + offs.last().1;
            if in_grid(g, nr, nc) && cell_at(g, nr, nc) == target {
                1int
            } else {
                0int
            }
        }
    }
}

/// The neighbor count of `target` around `(r, c)` under the grid's own
/// neighborhood, with clipped boundaries.
pub open spec fn spec_count_neighbors(g: CAGrid, r: int, c: int, target: u8) -> int {
    count_matching(g, r, c, target, neighborhood_offsets(g.neighborhood))
}

/// The id-and-weight pairs, in registry order, of the states in the first
/// `n` registry entries whose weight is positive.
pub open spec fn weighted_prefix(states: Seq<CAState>, n: int) -> Seq<(u8, u8)>
    decreases n,
{
    if n <= 0 {
        Seq::empty()
    } else {
        let rest = weighted_prefix(states, n - 1);
        if states[n - 1].weight > 0 {
            rest.push((states[n - 1].id, states[n - 1].weight))
        } else {
            rest
        }
    }
}

/// The id-and-weight pairs random initialization samples from: the states
/// with positive weight, or a synthetic weight-1 fallback with id 0 when
/// none qualifies.
pub open spec fn sampling_pairs(states: Seq<CAState>) -> Seq<(u8, u8)> {
    let w = weighted_prefix(states, states.len() as int);
    if w.len() == 0 {
        seq![(0u8, 1u8)]
    } else {
        w
    }
}

/// The sum of the weights of `pairs`.
pub open spec fn total_weight(pairs: Seq<(u8, u8)>) -> int
    decreases pairs.len(),
{
    if pairs.len() == 0 {
        0
    } else {
        pairs[0].1 + total_weight(pairs.drop_first())
    }
}

/// The sampling law: walk `pairs` in order, subtracting each weight from
/// `roll` until it goes below the weight; that pair's id is selected.
pub open spec fn weighted_pick(pairs: Seq<(u8, u8)>, roll: int) -> u8
    decreases pairs.len(),
{
    if pairs.len() == 0 {
        0u8
    } else if roll < pairs[0].1 {
        pairs[0].0
    } else {
        weighted_pick(pairs.drop_first(), roll - pairs[0].1)
    }
}

pub proof fn lemma_total_weight_le(pairs: Seq<(u8, u8)>)
    ensures
        0 <= total_weight(pairs) <= 255 * pairs.len(),
    decreases pairs.len(),
{
    if pairs.len() > 0 {
        lemma_total_weight_le(pairs.drop_first());
    }
}

/// Whether `v` is a possible outcome of one weighted draw over the sampling
/// pairs of `states`: some roll below the total weight selects it.
pub open spec fn sampled_from(states: Seq<CAState>, v: u8) -> bool {
    exists|roll: int|
        0 <= roll < total_weight(sampling_pairs(states)) && v == weighted_pick(
            sampling_pairs(states),
            roll,
        )
}

/// Walk the weighted pairs with a roll below the total weight, selecting the
/// pair within whose weight span the roll falls.
fn pick_weighted(pairs: &Vec<(u8, u8)>, roll: u128) -> (id: u8)
    requires
        roll < total_weight(pairs@),
    ensures
        id == weighted_pick(pairs@, roll as int),
{
    let n = pairs.len();
    let mut i: usize = 0;
    let mut rem: u128 = roll;
    proof {
        assert(pairs@.skip(0) =~= pairs@);
    }
    while i < n
        invariant
            n == pairs@.len(),
            i <= n,
            rem <= roll,
            rem < total_weight(pairs@.skip(i as int)),
            weighted_pick(pairs@, roll as int) == weighted_pick(
                pairs@.skip(i as int),
                rem as int,
            ),
        decreases n - i,
    {
        proof {
            assert(pairs@.skip(i as int)[0] == pairs@[i as int]);
            assert(pairs@.skip(i as int).drop_first() =~= pairs@.skip(i + 1));
        }
        let w = pairs[i].1;
        if rem < w as u128 {
            return pairs[i].0;
        }
        rem = rem - w as u128;
        i += 1;
    }
    proof {
        assert(pairs@.skip(n as int) =~= Seq::<(u8, u8)>::empty());
        assert(false);
    }
    0u8
}

impl CAGrid {
    /// Build a grid with every cell sampled independently by the weighted
    /// sampling law over the positive-weight states (frequencies are
    /// proportional to weight, not uniform over states).
    pub fn new(
        width: usize,
        height: usize,
        states: &Vec<CAState>,
        neighborhood: Neighborhood,
    ) -> (g: CAGrid)
        ensures
            g.width == width,
            g.height == height,
            g.neighborhood == neighborhood,
            grid_wf(g),
            forall|r: int, c: int|
                in_grid(g, r, c) ==> sampled_from(states@, #[trigger] cell_at(g, r, c)),
    {
        let mut pairs: Vec<(u8, u8)> = Vec::new();
        let nstates = states.len();
        let mut si: usize = 0;
        while si < nstates
            invariant
                nstates == states@.len(),
                si <= nstates,
                pairs@ == weighted_prefix(states@, si as int),
                forall|j: int| 0 <= j < pairs@.len() ==> (#[trigger] pairs@[j]).1 > 0,
            decreases nstates - si,
        {
            if states[si].weight > 0 {
                pairs.push((states[si].id, states[si].weight));
            }
            si += 1;
        }
        if pairs.len() == 0 {
            pairs.push((0u8, 1u8));
        }
        proof {
            assert(pairs@ =~= sampling_pairs(states@));
            assert(forall|j: int| 0 <= j < pairs@.len() ==> (#[trigger] pairs@[j]).1 > 0);
        }

        let npairs = pairs.len();
        let mut total: u128 = 0;
        let mut ti: usize = 0;
        proof {
            assert(pairs@.skip(0) =~= pairs@);
            lemma_total_weight_le(pairs@);
        }
        while ti < npairs
            invariant
                npairs == pairs@.len(),
                ti <= npairs,
                pairs@ == sampling_pairs(states@),
                forall|j: int| 0 <= j < pairs@.len() ==> (#[trigger] pairs@[j]).1 > 0,
                total_weight(pairs@) == total + total_weight(pairs@.skip(ti as int)),
                total <= 255 * ti,
            decreases npairs - ti,
        {
            proof {
                assert(pairs@.skip(ti as int)[0] == pairs@[ti as int]);
                assert(pairs@.skip(ti as int).drop_first() =~= pairs@.skip(ti + 1));
            }
            total = total + pairs[ti].1 as u128;
            ti += 1;
        }
        proof {
            assert(pairs@.skip(npairs as int) =~= Seq::<(u8, u8)>::empty());
            assert(total == total_weight(pairs@));
            assert(total >= 1) by {
                assert(pairs@.len() >= 1);
                assert(pairs@[0].1 > 0);
                lemma_total_weight_le(pairs@.drop_first());
                assert(total_weight(pairs@) == pairs@[0].1 + total_weight(pairs@.drop_first()));
            }
        }

        let mut cells: Vec<Vec<u8>> = Vec::new();
        let mut r: usize = 0;
        while r < height
            invariant
                r <= height,
                cells.deep_view().len() == r,
                1 <= total == total_weight(sampling_pairs(states@)),
                pairs@ == sampling_pairs(states@),
                forall|rr: int| 0 <= rr < r ==> (#[trigger] cells.deep_view()[rr]).len() == width,
                forall|rr: int, cc: int|
                    0 <= rr < r && 0 <= cc < width ==> sampled_from(
                        states@,
                        #[trigger] cells.deep_view()[rr][cc],
                    ),
            decreases height - r,
        {
            let mut row: Vec<u8> = Vec::new();
            let mut c: usize = 0;
            while c < width
                invariant
                    c <= width,
                    row@.len() == c,
                    1 <= total == total_weight(sampling_pairs(states@)),
                    pairs@ == sampling_pairs(states@),
                    forall|cc: int| 0 <= cc < c ==> sampled_from(states@, #[trigger] row@[cc]),
                decreases width - c,
            {
                let roll = random_below(total);
                let id = pick_weighted(&pairs, roll);
                row.push(id);
                proof {
                    let rollg = roll as int;
                    assert(0 <= rollg < total_weight(sampling_pairs(states@)) && id == weighted_pick(
                        sampling_pairs(states@),
                        rollg,
                    ));
                    assert(sampled_from(states@, id));
                    assert(row@[c as int] == id);
                }
                c += 1;
            }
            let ghost old_dv = cells.deep_view();
            let ghost rowv = row@;
            proof {
                assert(row.deep_view() =~= rowv);
            }
            cells.push(row);
            proof {
                assert(cells.deep_view() =~= old_dv.push(rowv));
                assert forall|rr: int, cc: int|
                    0 <= rr < r + 1 && 0 <= cc < width implies sampled_from(
                    states@,
                    #[trigger] cells.deep_view()[rr][cc],
                ) by {
                    if rr < r {
                        assert(cells.deep_view()[rr][cc] == old_dv[rr][cc]);
                        assert(sampled_from(states@, old_dv[rr][cc]));
                    } else {
                        assert(cells.deep_view()[rr][cc] == rowv[cc]);
                        assert(sampled_from(states@, rowv[cc]));
                    }
                }
            }
            r += 1;
        }
        let ghost dv = cells.deep_view();
        let g = CAGrid { width, height, cells, neighborhood };
        proof {
            assert(grid_cells(g) == dv);
            assert forall|rr: int, cc: int| in_grid(g, rr, cc) implies sampled_from(
                states@,
                #[trigger] cell_at(g, rr, cc),
            ) by {
                assert(cell_at(g, rr, cc) == dv[rr][cc]);
                assert(sampled_from(states@, dv[rr][cc]));
            }
        }
        g
    }

    /// Build a grid with every cell in the one given state.
    pub fn filled(
        width: usize,
        height: usize,
        state_id: u8,
        neighborhood: Neighborhood,
    ) -> (g: CAGrid)
        ensures
            g.width == width,
            g.height == height,
            g.neighborhood == neighborhood,
            grid_wf(g),
            forall|r: int, c: int| in_grid(g, r, c) ==> cell_at(g, r, c) == state_id,
    {
        let mut cells: Vec<Vec<u8>> = Vec::new();
        let mut r: usize = 0;
        while r < height
            invariant
                r <= height,
                cells.deep_view().len() == r,
                forall|rr: int| 0 <= rr < r ==> (#[trigger] cells.deep_view()[rr]).len() == width,
                forall|rr: int, cc: int|
                    0 <= rr < r && 0 <= cc < width ==> #[trigger] cells.deep_view()[rr][cc]
                        == state_id,
            decreases height - r,
        {
            let mut row: Vec<u8> = Vec::new();
            let mut c: usize = 0;
            while c < width
                invariant
                    c <= width,
                    row@.len() == c,
                    forall|cc: int| 0 <= cc < c ==> #[trigger] row@[cc] == state_id,
                decreases width - c,
            {
                row.push(state_id);
                c += 1;
            }
            let ghost old_dv = cells.deep_view();
            let ghost rowv = row.deep_view();
            proof {
                assert(rowv =~= row@);
            }
            cells.push(row);
            proof {
                assert(cells.deep_view() =~= old_dv.push(rowv));
            }
            r += 1;
        }
        CAGrid { width, height, cells, neighborhood }
    }

    /// Validate an arbitrary cell array against the given dimensions and
    /// build a grid from it; `None` when the shape does not match.
    pub fn from_cells(
        width: usize,
        height: usize,
        cells: Vec<Vec<u8>>,
        neighborhood: Neighborhood,
    ) -> (g: Option<CAGrid>)
        ensures
            match g {
                Some(gr) => {
                    &&& gr.width == width
                    &&& gr.height == height
                    &&& gr.neighborhood == neighborhood
                    &&& grid_wf(gr)
                    &&& grid_cells(gr) == cells.deep_view()
                },
                None => !(cells.deep_view().len() == height && forall|r: int|
                    0 <= r < height ==> (#[trigger] cells.deep_view()[r]).len() == width),
            },
    {
        if cells.len() != height {
            return None;
        }
        let mut r: usize = 0;
        while r < height
            invariant
                height == cells.deep_view().len(),
                r <= height,
                forall|rr: int| 0 <= rr < r ==> (#[trigger] cells.deep_view()[rr]).len() == width,
            decreases height - r,
        {
            if cells[r].len() != width {
                proof {
                    assert(cells.deep_view()[r as int].len() != width);
                }
                return None;
            }
            r += 1;
        }
        let g = CAGrid { width, height, cells, neighborhood };
        Some(g)
    }

    /// Count, over the grid's neighborhood offsets, the in-bounds neighbor
    /// cells of `(r, c)` equal to `target_state_id`; off-grid offsets are
    /// skipped (clipped boundary, no wraparound).
    pub fn count_neighbors(&self, r: usize, c: usize, target_state_id: u8) -> (count: u8)
        requires
            grid_wf(*self),
        ensures
            count as int == spec_count_neighbors(*self, r as int, c as int, target_state_id),
            count <= 24,
    {
        let offs = neighborhood_offsets_vec(self.neighborhood);
        let ghost soffs = neighborhood_offsets(self.neighborhood);
        let n = offs.len();
        let mut count: u8 = 0;
        let mut i: usize = 0;
        proof {
            assert(soffs.take(0) =~= Seq::<(int, int)>::empty());
        }
        while i < n
            invariant
                grid_wf(*self),
                n == offs@.len() == soffs.len(),
                n <= 24,
                forall|j: int|
                    0 <= j < n ==> (#[trigger] offs@[j]).0 as int == soffs[j].0 && offs@[j].1 as int
                        == soffs[j].1,
                i <= n,
                count as int == count_matching(
                    *self,
                    r as int,
                    c as int,
                    target_state_id,
                    soffs.take(i as int),
                ),
                count <= i,
            decreases n - i,
        {
            let (dr, dc) = offs[i];
            let nr: i128 = r as i128 + dr as i128;
            let nc: i128 = c as i128 + dc as i128;
            if 0 <= nr && nr < self.height as i128 && 0 <= nc && nc < self.width as i128 {
                let nru = nr as usize;
                let ncu = nc as usize;
                proof {
                    lemma_cells_index(*self, nru as int);
                }
                if self.cells[nru][ncu] == target_state_id {
                    count += 1;
                }
            }
            proof {
                assert(soffs.take(i + 1).drop_last() =~= soffs.take(i as int));
                assert(soffs.take(i + 1).last() == soffs[i as int]);
            }
            i += 1;
        }
        proof {
            assert(soffs.take(n as int) =~= soffs);
        }
        count
    }

    /// Rewrite every cell holding `from` to `to`.
    pub fn replace_all(&mut self, from: u8, to: u8)
        requires
            grid_wf(*old(self)),
        ensures
            grid_wf(*final(self)),
            final(self).width == old(self).width,
            final(self).height == old(self).height,
            final(self).neighborhood == old(self).neighborhood,
            forall|r: int, c: int|
                in_grid(*old(self), r, c) ==> #[trigger] cell_at(*final(self), r, c) == (if cell_at(
                    *old(self),
                    r,
                    c,
                ) == from {
                    to
                } else {
                    cell_at(*old(self), r, c)
                }),
    {
        let height = self.height;
        let width = self.width;
        let mut cells: Vec<Vec<u8>> = Vec::new();
        let mut r: usize = 0;
        while r < height
            invariant
                grid_wf(*self),
                width == self.width,
                height == self.height,
                r <= height,
                cells.deep_view().len() == r,
                forall|rr: int| 0 <= rr < r ==> (#[trigger] cells.deep_view()[rr]).len() == width,
                forall|rr: int, cc: int|
                    0 <= rr < r && 0 <= cc < width ==> #[trigger] cells.deep_view()[rr][cc] == (
                    if cell_at(*self, rr, cc) == from {
                        to
                    } else {
                        cell_at(*self, rr, cc)
                    }),
            decreases height - r,
        {
            let mut row: Vec<u8> = Vec::new();
            let mut c: usize = 0;
            while c < width
                invariant
                    grid_wf(*self),
                    width == self.width,
                    height == self.height,
                    r < height,
                    c <= width,
                    row@.len() == c,
                    forall|cc: int|
                        0 <= cc < c ==> #[trigger] row@[cc] == (if cell_at(*self, r as int, cc)
                            == from {
                            to
                        } else {
                            cell_at(*self, r as int, cc)
                        }),
                decreases width - c,
            {
                proof {
                    lemma_cells_index(*self, r as int);
                }
                let cur = self.cells[r][c];
                if cur == from {
                    row.push(to);
                } else {
                    row.push(cur);
                }
                c += 1;
            }
            let ghost old_dv = cells.deep_view();
            let ghost rowv = row@;
            proof {
                assert(row.deep_view() =~= rowv);
            }
            cells.push(row);
            proof {
                assert(cells.deep_view() =~= old_dv.push(rowv));
            }
            r += 1;
        }
        let ghost dv = cells.deep_view();
        self.cells = cells;
        proof {
            assert(grid_cells(*self) == dv);
        }
    }

    /// The state id at `(r, c)`, or `None` when out of bounds.
    pub fn get_state(&self, r: usize, c: usize) -> (res: Option<u8>)
        requires
            grid_wf(*self),
        ensures
            match res {
                Some(id) => in_grid(*self, r as int, c as int) && id == cell_at(
                    *self,
                    r as int,
                    c as int,
                ),
                None => !in_grid(*self, r as int, c as int),
            },
    {
        if r < self.height && c < self.width {
            proof {
                lemma_cells_index(*self, r as int);
            }
            Some(self.cells[r][c])
        } else {
            None
        }
    }

    /// Paint one cell in place; out-of-bounds writes are ignored.
    pub fn set_state(&mut self, r: usize, c: usize, state_id: u8)
        requires
            grid_wf(*old(self)),
        ensures
            grid_wf(*final(self)),
            final(self).width == old(self).width,
            final(self).height == old(self).height,
            final(self).neighborhood == old(self).neighborhood,
            in_grid(*old(self), r as int, c as int) ==> grid_cells(*final(self)) == grid_cells(
                *old(self),
            ).update(r as int, grid_cells(*old(self))[r as int].update(c as int, state_id)),
            !in_grid(*old(self), r as int, c as int) ==> grid_cells(*final(self)) == grid_cells(
                *old(self),
            ),
    {
        if r < self.height && c < self.width {
            proof {
                lemma_cells_index(*old(self), r as int);
            }
            let row = &mut self.cells[r];
            row.set(c, state_id);
            proof {
                assert(grid_cells(*self).len() == self.cells@.len());
                assert forall|rr: int| 0 <= rr < self.cells@.len() implies grid_cells(*self)[rr]
                    == self.cells@[rr]@ by {
                    lemma_cells_index(*self, rr);
                }
                assert(grid_cells(*self) =~= grid_cells(*old(self)).update(
                    r as int,
                    grid_cells(*old(self))[r as int].update(c as int, state_id),
                ));
            }
        }
    }
}

/// The neighbor offsets of a neighborhood, as executable deltas.
pub fn neighborhood_offsets_vec(nb: Neighborhood) -> (offs: Vec<(i8, i8)>)
    ensures
        offs@.len() == neighborhood_offsets(nb).len(),
        offs@.len() <= 24,
        forall|j: int|
            0 <= j < offs@.len() ==> (#[trigger] offs@[j]).0 as int == neighborhood_offsets(nb)[j].0
                && offs@[j].1 as int == neighborhood_offsets(nb)[j].1,
{
    match nb {
        Neighborhood::VonNeumann => {
            let offs: Vec<(i8, i8)> = vec![(-1, 0), (1, 0), (0, -1), (0, 1)];
            offs
        },
        Neighborhood::Moore => {
            let offs: Vec<(i8, i8)> = vec![
                (-1, -1),
                (-1, 0),
                (-1, 1),
                (0, -1),
                (0, 1),
                (1, -1),
                (1, 0),
                (1, 1),
            ];
            offs
        },
        Neighborhood::ExtendedMoore => {
            let offs: Vec<(i8, i8)> = vec![
                (-1, -1),
                (-1, 0),
                (-1, 1),
                (0, -1),
                (0, 1),
                (1, -1),
                (1, 0),
                (1, 1),
                (-2, -2),
                (-2, -1),
                (-2, 0),
                (-2, 1),
                (-2, 2),
                (-1, -2),
                (-1, 2),
                (0, -2),
                (0, 2),
                (1, -2),
                (1, 2),
                (2, -2),
                (2, -1),
                (2, 0),
                (2, 1),
                (2, 2),
            ];
            offs
        },
    }
}

} // verus!
