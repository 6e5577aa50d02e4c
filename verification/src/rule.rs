//! The mathematical model of a generation and of the transition rule.
//!
//! A generation is a `Seq<bool>` of `CELL_COUNT` cells stored row by row: the
//! cell at column `x` and row `y` sits at position `x + y * WORLD_SIZE`.

use vstd::prelude::*;

verus! {

/// Side length of the grid.
pub const WORLD_SIZE: usize = 256;

/// Number of cells of the grid, `WORLD_SIZE * WORLD_SIZE`.
pub const CELL_COUNT: usize = 65536;

/// Whether `(x, y)` names a cell of the grid.
pub open spec fn in_grid(x: int, y: int) -> bool {
    0 <= x < WORLD_SIZE && 0 <= y < WORLD_SIZE
}

/// Whether `(x, y)` is a cell that the transition rule evaluates: any cell
/// that is not on the outermost ring.
pub open spec fn interior(x: int, y: int) -> bool {
    1 <= x <= WORLD_SIZE - 2 && 1 <= y <= WORLD_SIZE - 2
}

/// Whether `(x, y)` lies on the outermost ring of the grid.
pub open spec fn on_border(x: int, y: int) -> bool {
    in_grid(x, y) && !interior(x, y)
}

/// Position of the cell `(x, y)` in the row-by-row sequence.
pub open spec fn cell_index(x: int, y: int) -> int {
    x + y * WORLD_SIZE
}

/// State of the cell `(x, y)` in generation `g`.
pub open spec fn alive(g: Seq<bool>, x: int, y: int) -> bool {
    g[cell_index(x, y)]
}

/// The generation in which every cell is dead.
pub open spec fn dead_grid() -> Seq<bool> {
    Seq::new(CELL_COUNT as nat, |k: int| false)
}

/// One for a live cell, zero for a dead one.
pub open spec fn ones(b: bool) -> int {
    if b {
        1
    } else {
        0
    }
}

/// Number of live cells among the eight Moore neighbours of `(x, y)`.
pub open spec fn live_neighbors(g: Seq<bool>, x: int, y: int) -> int {
    ones(alive(g, x - 1, y - 1)) + ones(alive(g, x - 1, y)) + ones(alive(g, x - 1, y + 1))
        + ones(alive(g, x, y - 1)) + ones(alive(g, x, y + 1)) + ones(alive(g, x + 1, y - 1))
        + ones(alive(g, x + 1, y)) + ones(alive(g, x + 1, y + 1))
}

/// The transition rule for one evaluated cell: with three live neighbours
/// the cell is alive, with two it keeps its state, otherwise it is dead.
pub open spec fn rule(was_alive: bool, count: int) -> bool {
    count == 3 || (count == 2 && was_alive)
}

/// State of the cell `(x, y)` one generation after `g`. Cells on the outer
/// ring are not evaluated and come out dead.
pub open spec fn next_cell(g: Seq<bool>, x: int, y: int) -> bool {
    interior(x, y) && rule(alive(g, x, y), live_neighbors(g, x, y))
}

/// The generation that follows `g`.
pub open spec fn next_generation(g: Seq<bool>) -> Seq<bool> {
    Seq::new(
        CELL_COUNT as nat,
        |k: int| next_cell(g, k % (WORLD_SIZE as int), k / (WORLD_SIZE as int)),
    )
}

/// The generation reached from `g` after `n` transitions.
pub open spec fn generation_after(g: Seq<bool>, n: nat) -> Seq<bool>
    decreases n,
{
    if n == 0 {
        g
    } else {
        next_generation(generation_after(g, (n - 1) as nat))
    }
}

/// Every position of the sequence is the index of exactly one cell, whose
/// coordinates are the remainder and the quotient by the side length.
pub proof fn lemma_index_coordinates(k: int)
    requires
        0 <= k < CELL_COUNT,
    ensures
        in_grid(k % (WORLD_SIZE as int), k / (WORLD_SIZE as int)),
        cell_index(k % (WORLD_SIZE as int), k / (WORLD_SIZE as int)) == k,
{
}

/// The index of a cell of the grid is a position of the sequence, and gives
/// the coordinates back.
pub proof fn lemma_coordinates_index(x: int, y: int)
    requires
        in_grid(x, y),
    ensures
        0 <= cell_index(x, y) < CELL_COUNT,
        cell_index(x, y) % (WORLD_SIZE as int) == x,
        cell_index(x, y) / (WORLD_SIZE as int) == y,
{
}

/// Read by coordinates, the next generation is `next_cell` at every cell.
pub proof fn lemma_next_generation_cell(g: Seq<bool>, x: int, y: int)
    requires
        in_grid(x, y),
    ensures
        alive(next_generation(g), x, y) == next_cell(g, x, y),
{
    lemma_coordinates_index(x, y);
}

} // verus!
