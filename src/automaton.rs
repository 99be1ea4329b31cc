//! The automaton: a grid, a rule table and a generation counter, stepped
//! synchronously one generation at a time.
use crate::coords::{
    flat, in_range, ints, lemma_flat_in_range, lemma_flat_injective, lemma_unflat_in_range,
    product, unflat, CoordinatesIterator,
};
use crate::grid::{
    cell_at, coord_error, neighborhood_len, neighborhood_of, Grid, GridError, GridModel,
};
use crate::rules::{first_match, Rules};
use vstd::prelude::*;

verus! {

/// The cells of the next generation: each cell takes the output of the first
/// rule matching its neighborhood in `g`, or keeps its value when none does.
pub open spec fn next_cells(g: GridModel, table: Seq<(Seq<u32>, u32)>) -> Seq<u32> {
    Seq::new(
        g.cells.len(),
        |j: int|
            match first_match(table, neighborhood_of(g, unflat(g.dims, j))) {
                Some(v) => v,
                None => g.cells[j],
            },
    )
}

/// The grid one generation later.
pub open spec fn step(g: GridModel, table: Seq<(Seq<u32>, u32)>) -> GridModel {
    GridModel { dims: g.dims, cells: next_cells(g, table) }
}

/// The grid `n` generations later.
pub open spec fn steps(g: GridModel, table: Seq<(Seq<u32>, u32)>, n: nat) -> GridModel
    decreases n,
{
    if n == 0 {
        g
    } else {
        step(steps(g, table, (n - 1) as nat), table)
    }
}

/// Running `m + n` generations is running `m`, then `n` more from there.
/// `advance` moves the grid by `step` and `advance_multi(n)` by `steps(.., n)`,
/// so one call of `advance_multi(n)` ends where `n` calls of `advance` do.
pub proof fn lemma_steps_split(g: GridModel, table: Seq<(Seq<u32>, u32)>, m: nat, n: nat)
    ensures
        steps(g, table, m + n) == steps(steps(g, table, m), table, n),
    decreases n,
{
    if n > 0 {
        lemma_steps_split(g, table, m, (n - 1) as nat);
        assert((m + n - 1) as nat == m + (n - 1) as nat);
    }
}

/// What an automaton holds: its grid, its rule table and its generation.
pub struct AutomatonModel {
    pub grid: GridModel,
    pub rules: Seq<(Seq<u32>, u32)>,
    pub generation: nat,
}

/// A grid evolving under a rule table, with a count of generations run.
pub struct Automaton {
    grid: Grid,
    rules: Rules,
    generation: u32,
}

impl View for Automaton {
    type V = AutomatonModel;

    closed spec fn view(&self) -> AutomatonModel {
        AutomatonModel {
            grid: self.grid@,
            rules: self.rules@,
            generation: self.generation as nat,
        }
    }
}

impl Automaton {
    /// The grid holds one value per coordinate.
    pub open spec fn wf(&self) -> bool {
        self@.grid.cells.len() == product(self@.grid.dims)
    }

    pub fn new(grid: Grid, rules: Rules) -> (r: Self)
        requires
            grid.wf(),
        ensures
            r.wf(),
            r@ == (AutomatonModel { grid: grid@, rules: rules@, generation: 0 }),
    {
        Automaton { grid, rules, generation: 0 }
    }

    /// The number of generations run so far.
    pub fn generation(&self) -> (r: u32)
        ensures
            r == self@.generation,
    {
        self.generation
    }

    /// The current grid.
    pub fn grid(&self) -> (r: &Grid)
        ensures
            r@ == self@.grid,
    {
        &self.grid
    }

    /// Runs one generation: every cell's neighborhood is read from the grid as
    /// it stood before the step, and the new values replace the grid at once.
    pub fn advance(&mut self) -> (r: Result<(), GridError>)
        requires
            old(self).wf(),
            neighborhood_len(old(self)@.grid.dims.len()) <= usize::MAX,
            old(self)@.generation < u32::MAX,
        ensures
            r is Ok,
            final(self).wf(),
            final(self)@ == (AutomatonModel {
                grid: step(old(self)@.grid, old(self)@.rules),
                rules: old(self)@.rules,
                generation: old(self)@.generation + 1,
            }),
    {
        let ghost g0 = self@.grid;
        let ghost table = self@.rules;
        let ghost target = next_cells(g0, table);
        let dims = self.grid.dims().clone();
        let seed = self.grid.snapshot();
        let total = seed.len();
        let mut next = match Grid::new(dims.clone(), seed) {
            Ok(g) => g,
            Err(e) => return Err(e),
        };
        let mut ci = CoordinatesIterator::new(&dims);
        loop
            invariant
                self@.grid == g0,
                self@.rules == table,
                self.wf(),
                neighborhood_len(g0.dims.len()) <= usize::MAX,
                dims@ == g0.dims,
                total as nat == product(dims@),
                total == g0.cells.len(),
                target == next_cells(g0, table),
                ci.wf(),
                ci.dims() == dims@,
                ci.position() <= total,
                next.wf(),
                next@.dims == dims@,
                forall|j: int| 0 <= j < ci.position() ==> #[trigger] next@.cells[j] == target[j],
                forall|j: int|
                    ci.position() <= j < total ==> #[trigger] next@.cells[j] == g0.cells[j],
            ensures
                ci.position() == total,
            decreases total - ci.position(),
        {
            let ghost pos = ci.position() as int;
            match ci.next() {
                None => break,
                Some(coord) => {
                    proof {
                        lemma_unflat_in_range(dims@, pos);
                    }
                    let nb = match self.grid.neighborhood(coord.as_slice()) {
                        Ok(nb) => nb,
                        Err(e) => return Err(e),
                    };
                    let ghost before = next@.cells;
                    match self.rules.apply(nb.as_slice()) {
                        Some(v) => {
                            match next.set_point(coord.as_slice(), v) {
                                Ok(()) => {},
                                Err(e) => return Err(e),
                            }
                            assert(next@.cells == before.update(pos, v));
                        },
                        None => {},
                    }
                    assert(next@.cells[pos] == target[pos]);
                    assert forall|j: int| 0 <= j < ci.position() implies #[trigger] next@.cells[j]
                        == target[j] by {
                        if j != pos {
                            assert(next@.cells[j] == before[j]);
                        }
                    }
                    assert forall|j: int| ci.position() <= j < total implies #[trigger] next@.cells[j]
                        == g0.cells[j] by {
                        assert(next@.cells[j] == before[j]);
                    }
                },
            }
        }
        assert(next@.cells =~= target);
        self.grid = next;
        self.generation = self.generation + 1;
        Ok(())
    }

    /// Runs `gens` generations one after another; with `gens == 0` nothing
    /// changes.
    pub fn advance_multi(&mut self, gens: u32) -> (r: Result<(), GridError>)
        requires
            old(self).wf(),
            neighborhood_len(old(self)@.grid.dims.len()) <= usize::MAX,
            old(self)@.generation + gens <= u32::MAX,
        ensures
            r is Ok,
            final(self).wf(),
            final(self)@ == (AutomatonModel {
                grid: steps(old(self)@.grid, old(self)@.rules, gens as nat),
                rules: old(self)@.rules,
                generation: old(self)@.generation + gens as nat,
            }),
            gens == 0 ==> final(self)@ == old(self)@,
    {
        let ghost start = self@;
        let mut k: u32 = 0;
        while k < gens
            invariant
                k <= gens,
                self.wf(),
                neighborhood_len(self@.grid.dims.len()) <= usize::MAX,
                self@ == (AutomatonModel {
                    grid: steps(start.grid, start.rules, k as nat),
                    rules: start.rules,
                    generation: start.generation + k as nat,
                }),
                start.generation + gens <= u32::MAX,
            decreases gens - k,
        {
            match self.advance() {
                Ok(()) => {},
                Err(e) => return Err(e),
            }
            k += 1;
        }
        Ok(())
    }

    /// Forces the cell at `point` to 1, bypassing the rules; the generation
    /// and every other cell stay as they were. A point that draws an error
    /// leaves the automaton unchanged.
    pub fn set_point(&mut self, point: &[usize]) -> (r: Result<(), GridError>)
        requires
            old(self).wf(),
        ensures
            final(self).wf(),
            final(self)@.rules == old(self)@.rules,
            final(self)@.generation == old(self)@.generation,
            final(self)@.grid.dims == old(self)@.grid.dims,
            match coord_error(old(self)@.grid.dims, point@) {
                Some(e) => r == Err::<(), GridError>(e) && final(self)@ == old(self)@,
                None => {
                    &&& r is Ok
                    &&& final(self)@.grid.cells == old(self)@.grid.cells.update(
                        flat(old(self)@.grid.dims, ints(point@)),
                        1,
                    )
                    &&& cell_at(final(self)@.grid, ints(point@)) == 1
                    &&& forall|q: Seq<int>|
                        in_range(old(self)@.grid.dims, q) && q != ints(point@) ==> #[trigger] cell_at(
                            final(self)@.grid,
                            q,
                        ) == cell_at(old(self)@.grid, q)
                },
            },
    {
        let ghost g0 = self@.grid;
        let r = self.grid.set_point(point, 1);
        proof {
            if coord_error(g0.dims, point@) is None {
                let c = ints(point@);
                lemma_flat_in_range(g0.dims, c);
                assert forall|q: Seq<int>| in_range(g0.dims, q) && q != c implies #[trigger] cell_at(
                    self@.grid,
                    q,
                ) == cell_at(g0, q) by {
                    if flat(g0.dims, q) == flat(g0.dims, c) {
                        lemma_flat_injective(g0.dims, q, c);
                    }
                    lemma_flat_in_range(g0.dims, q);
                }
            }
        }
        r
    }
}

} // verus!
