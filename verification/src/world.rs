//! The grid engine: two cell buffers, the visible generation and a scratch
//! buffer that exchange roles at each step.

use vstd::prelude::*;
use crate::rule::{
    alive, cell_index, dead_grid, in_grid, interior, lemma_coordinates_index,
    lemma_index_coordinates, lemma_next_generation_cell, live_neighbors, next_cell,
    next_generation, CELL_COUNT, WORLD_SIZE,
};

verus! {

/// A square grid of cells with the generation that readers see and the
/// scratch buffer in which the following generation is built.
pub struct World {
    current: Box<[bool; CELL_COUNT]>,
    next: Box<[bool; CELL_COUNT]>,
}

/// Whether the cell `(x, y)` has been written by a pass that walks the
/// interior column by column and stands at `(i, j)`.
spec fn evaluated(x: int, y: int, i: int, j: int) -> bool {
    x < i || (x == i && y < j)
}

impl World {
    /// The visible generation, row by row.
    pub closed spec fn view(&self) -> Seq<bool> {
        self.current@
    }

    /// State of the cell `(x, y)` in the visible generation.
    pub open spec fn cell(&self, x: int, y: int) -> bool {
        alive(self@, x, y)
    }

    /// The visible generation always has `CELL_COUNT` cells.
    pub proof fn lemma_view_len(&self)
        ensures
            self@.len() == CELL_COUNT,
    {
    }

    /// A grid in which every cell is dead.
    pub fn new() -> (w: World)
        ensures
            w@ == dead_grid(),
    {
        let w = World {
            current: Box::new([false; CELL_COUNT]),
            next: Box::new([false; CELL_COUNT]),
        };
        assert(w@ =~= dead_grid());
        w
    }

    /// Position of the cell `(x, y)` in a buffer.
    pub fn index(x: usize, y: usize) -> (k: usize)
        requires
            x < WORLD_SIZE,
            y < WORLD_SIZE,
        ensures
            k == cell_index(x as int, y as int),
            k < CELL_COUNT,
    {
        x + y * WORLD_SIZE
    }

    /// State of the cell `(x, y)`.
    pub fn get_cell(&self, x: usize, y: usize) -> (state: bool)
        requires
            x < WORLD_SIZE,
            y < WORLD_SIZE,
        ensures
            state == self.cell(x as int, y as int),
    {
        self.current[Self::index(x, y)]
    }

    /// Writes the state of the cell `(x, y)` and leaves every other cell as
    /// it was.
    pub fn set_cell(&mut self, x: usize, y: usize, alive: bool)
        requires
            x < WORLD_SIZE,
            y < WORLD_SIZE,
        ensures
            final(self)@ == old(self)@.update(cell_index(x as int, y as int), alive),
            final(self)@.len() == CELL_COUNT,
            forall|a: int, b: int|
                in_grid(a, b) ==> #[trigger] final(self).cell(a, b) == (if a == x && b == y {
                    alive
                } else {
                    old(self).cell(a, b)
                }),
    {
        proof {
            assert forall|a: int, b: int| in_grid(a, b) && !(a == x && b == y) implies cell_index(
                a,
                b,
            ) != cell_index(x as int, y as int) by {
                lemma_coordinates_index(a, b);
                lemma_coordinates_index(x as int, y as int);
            }
        }
        self.current[Self::index(x, y)] = alive;
    }

    /// Flips the state of the cell `(x, y)` and leaves every other cell as
    /// it was.
    pub fn toggle(&mut self, x: usize, y: usize)
        requires
            x < WORLD_SIZE,
            y < WORLD_SIZE,
        ensures
            final(self)@ == old(self)@.update(
                cell_index(x as int, y as int),
                !old(self).cell(x as int, y as int),
            ),
            final(self)@.len() == CELL_COUNT,
            forall|a: int, b: int|
                in_grid(a, b) ==> #[trigger] final(self).cell(a, b) == (if a == x && b == y {
                    !old(self).cell(a, b)
                } else {
                    old(self).cell(a, b)
                }),
    {
        let state = self.get_cell(x, y);
        self.set_cell(x, y, !state);
    }

    /// Replaces the grid by one in which every cell is dead.
    pub fn clear(&mut self)
        ensures
            final(self)@ == dead_grid(),
    {
        *self = World::new();
    }

    /// Number of live cells around the interior cell `(x, y)`.
    fn count_neighbors(&self, x: usize, y: usize) -> (count: i32)
        requires
            interior(x as int, y as int),
        ensures
            count == live_neighbors(self@, x as int, y as int),
    {
        let mut count: i32 = 0;
        if self.get_cell(x - 1, y - 1) {
            count += 1;
        }
        if self.get_cell(x - 1, y) {
            count += 1;
        }
        if self.get_cell(x - 1, y + 1) {
            count += 1;
        }
        if self.get_cell(x, y - 1) {
            count += 1;
        }
        if self.get_cell(x, y + 1) {
            count += 1;
        }
        if self.get_cell(x + 1, y - 1) {
            count += 1;
        }
        if self.get_cell(x + 1, y) {
            count += 1;
        }
        if self.get_cell(x + 1, y + 1) {
            count += 1;
        }
        count
    }

    /// Replaces the visible generation by the one that follows it: every
    /// interior cell is evaluated against the generation before the call,
    /// and every cell of the outer ring comes out dead.
    pub fn step(&mut self)
        ensures
            final(self)@ == next_generation(old(self)@),
            forall|x: int, y: int|
                in_grid(x, y) ==> #[trigger] final(self).cell(x, y) == next_cell(old(self)@, x, y),
    {
        let ghost before = self.current@;
        let mut k: usize = 0;
        while k < CELL_COUNT
            invariant
                k <= CELL_COUNT,
                self.current@ == before,
                forall|m: int| 0 <= m < k ==> !self.next@[m],
            decreases CELL_COUNT - k,
        {
            self.next[k] = false;
            k += 1;
        }
        proof {
            assert forall|x: int, y: int| in_grid(x, y) implies !#[trigger] alive(
                self.next@,
                x,
                y,
            ) by {
                lemma_coordinates_index(x, y);
            }
        }
        let mut i: usize = 1;
        while i < WORLD_SIZE - 1
            invariant
                1 <= i <= WORLD_SIZE - 1,
                self.current@ == before,
                forall|x: int, y: int|
                    in_grid(x, y) ==> #[trigger] alive(self.next@, x, y) == (evaluated(
                        x,
                        y,
                        i as int,
                        1,
                    ) && next_cell(before, x, y)),
            decreases WORLD_SIZE - i,
        {
            let mut j: usize = 1;
            while j < WORLD_SIZE - 1
                invariant
                    1 <= i < WORLD_SIZE - 1,
                    1 <= j <= WORLD_SIZE - 1,
                    self.current@ == before,
                    forall|x: int, y: int|
                        in_grid(x, y) ==> #[trigger] alive(self.next@, x, y) == (evaluated(
                            x,
                            y,
                            i as int,
                            j as int,
                        ) && next_cell(before, x, y)),
                decreases WORLD_SIZE - j,
            {
                let count = self.count_neighbors(i, j);
                let ghost scratch = self.next@;
                let k = Self::index(i, j);
                if count == 2 {
                    self.next[k] = self.get_cell(i, j);
                } else if count == 3 {
                    self.next[k] = true;
                }
                proof {
                    assert(alive(scratch, i as int, j as int) == false);
                    assert forall|x: int, y: int| in_grid(x, y) implies #[trigger] alive(
                        self.next@,
                        x,
                        y,
                    ) == (evaluated(x, y, i as int, j + 1) && next_cell(before, x, y)) by {
                        lemma_coordinates_index(x, y);
                        lemma_coordinates_index(i as int, j as int);
                        if x == i && y == j {
                        } else {
                            assert(cell_index(x, y) != cell_index(i as int, j as int));
                            assert(alive(self.next@, x, y) == alive(scratch, x, y));
                        }
                    }
                }
                j += 1;
            }
            i += 1;
        }
        proof {
            assert forall|m: int| 0 <= m < CELL_COUNT implies self.next@[m] == next_generation(
                before,
            )[m] by {
                lemma_index_coordinates(m);
                let x = m % (WORLD_SIZE as int);
                let y = m / (WORLD_SIZE as int);
                assert(alive(self.next@, x, y) == self.next@[m]);
            }
            assert(self.next@ =~= next_generation(before));
        }
        std::mem::swap(&mut self.current, &mut self.next);
        proof {
            assert forall|x: int, y: int| in_grid(x, y) implies #[trigger] self.cell(x, y)
                == next_cell(before, x, y) by {
                lemma_next_generation_cell(before, x, y);
            }
        }
    }
}

} // verus!
