//! Laws of the transition rule, proved over the model of a generation.

use vstd::prelude::*;
use crate::rule::{
    alive, dead_grid, generation_after, in_grid, interior, lemma_coordinates_index, lemma_index_coordinates,
    lemma_next_generation_cell, live_neighbors, next_cell, next_generation, on_border, CELL_COUNT,
    WORLD_SIZE,
};

verus! {

/// Every generation produced by a transition has `CELL_COUNT` cells.
pub proof fn lemma_generation_len(g: Seq<bool>, n: nat)
    requires
        g.len() == CELL_COUNT,
    ensures
        generation_after(g, n).len() == CELL_COUNT,
    decreases n,
{
    if n > 0 {
        lemma_generation_len(g, (n - 1) as nat);
    }
}

/// A transition never brings a cell of the outer ring to life: whatever the
/// generation before, each such cell is dead afterwards.
pub proof fn lemma_border_dead_after_step(g: Seq<bool>, x: int, y: int)
    requires
        on_border(x, y),
    ensures
        !alive(next_generation(g), x, y),
{
    lemma_next_generation_cell(g, x, y);
}

/// A dead cell of the outer ring keeps its state through any number of
/// transitions. (A live one is dead from the first transition on.)
pub proof fn lemma_border_kept(g: Seq<bool>, n: nat, x: int, y: int)
    requires
        on_border(x, y),
        n == 0 || !alive(g, x, y),
    ensures
        alive(generation_after(g, n), x, y) == alive(g, x, y),
{
    if n > 0 {
        lemma_border_dead_after_step(generation_after(g, (n - 1) as nat), x, y);
    }
}

/// A cell with no live neighbour is dead after one transition, whether or
/// not it was alive before.
pub proof fn lemma_isolated_cell_dies(g: Seq<bool>, x: int, y: int)
    requires
        in_grid(x, y),
        live_neighbors(g, x, y) == 0,
    ensures
        !alive(next_generation(g), x, y),
{
    lemma_next_generation_cell(g, x, y);
}

/// Whether `(a, b)` is one of the four cells of the square block whose
/// corner with the smallest coordinates is `(x, y)`.
pub open spec fn in_square(x: int, y: int, a: int, b: int) -> bool {
    x <= a <= x + 1 && y <= b <= y + 1
}

/// A two-by-two block of live cells surrounded by two rings of dead cells
/// is a still life: after one transition the block and the ring next to it
/// are as before, whatever the rest of the grid holds.
pub proof fn lemma_block_is_stable(g: Seq<bool>, x: int, y: int)
    requires
        in_grid(x - 2, y - 2),
        in_grid(x + 3, y + 3),
        forall|a: int, b: int|
            x - 2 <= a <= x + 3 && y - 2 <= b <= y + 3 ==> #[trigger] alive(g, a, b) == in_square(
                x,
                y,
                a,
                b,
            ),
    ensures
        forall|a: int, b: int|
            x - 1 <= a <= x + 2 && y - 1 <= b <= y + 2 ==> #[trigger] alive(
                next_generation(g),
                a,
                b,
            ) == alive(g, a, b),
{
    assert forall|a: int, b: int| x - 1 <= a <= x + 2 && y - 1 <= b <= y + 2 implies #[trigger] alive(
        next_generation(g),
        a,
        b,
    ) == alive(g, a, b) by {
        lemma_next_generation_cell(g, a, b);
    }
}

/// A grid whose only live cells are a two-by-two block away from the outer
/// ring is unchanged by a transition.
pub proof fn lemma_lone_block_is_fixed(g: Seq<bool>, x: int, y: int)
    requires
        g.len() == CELL_COUNT,
        interior(x, y),
        interior(x + 1, y + 1),
        forall|a: int, b: int| in_grid(a, b) ==> #[trigger] alive(g, a, b) == in_square(x, y, a, b),
    ensures
        next_generation(g) == g,
{
    assert forall|k: int| 0 <= k < CELL_COUNT implies next_generation(g)[k] == g[k] by {
        lemma_index_coordinates(k);
        let a = k % (WORLD_SIZE as int);
        let b = k / (WORLD_SIZE as int);
        assert(alive(g, a, b) == g[k]);
        assert(next_generation(g)[k] == next_cell(g, a, b));
    }
    assert(next_generation(g) =~= g);
}

/// Whether `(a, b)` is one of the three cells of the horizontal line
/// centred on `(x, y)`.
pub open spec fn in_row_of_three(x: int, y: int, a: int, b: int) -> bool {
    b == y && x - 1 <= a <= x + 1
}

/// Whether `(a, b)` is one of the three cells of the vertical line centred
/// on `(x, y)`.
pub open spec fn in_column_of_three(x: int, y: int, a: int, b: int) -> bool {
    a == x && y - 1 <= b <= y + 1
}

/// A grid whose only live cells are a horizontal line of three, with the
/// line and the vertical line through its centre away from the outer ring,
/// turns into that vertical line after one transition.
pub proof fn lemma_row_turns_into_column(g: Seq<bool>, x: int, y: int)
    requires
        interior(x - 1, y - 1),
        interior(x + 1, y + 1),
        forall|a: int, b: int|
            in_grid(a, b) ==> #[trigger] alive(g, a, b) == in_row_of_three(x, y, a, b),
    ensures
        forall|a: int, b: int|
            in_grid(a, b) ==> #[trigger] alive(next_generation(g), a, b) == in_column_of_three(
                x,
                y,
                a,
                b,
            ),
{
    assert forall|a: int, b: int| in_grid(a, b) implies #[trigger] alive(
        next_generation(g),
        a,
        b,
    ) == in_column_of_three(x, y, a, b) by {
        lemma_next_generation_cell(g, a, b);
    }
}

/// A grid whose only live cells are a vertical line of three, with the
/// line and the horizontal line through its centre away from the outer
/// ring, turns into that horizontal line after one transition.
pub proof fn lemma_column_turns_into_row(g: Seq<bool>, x: int, y: int)
    requires
        interior(x - 1, y - 1),
        interior(x + 1, y + 1),
        forall|a: int, b: int|
            in_grid(a, b) ==> #[trigger] alive(g, a, b) == in_column_of_three(x, y, a, b),
    ensures
        forall|a: int, b: int|
            in_grid(a, b) ==> #[trigger] alive(next_generation(g), a, b) == in_row_of_three(
                x,
                y,
                a,
                b,
            ),
{
    assert forall|a: int, b: int| in_grid(a, b) implies #[trigger] alive(
        next_generation(g),
        a,
        b,
    ) == in_row_of_three(x, y, a, b) by {
        lemma_next_generation_cell(g, a, b);
    }
}

/// A lone horizontal line of three oscillates with period two: the second
/// transition gives back the generation it started from.
pub proof fn lemma_blinker_period_two(g: Seq<bool>, x: int, y: int)
    requires
        g.len() == CELL_COUNT,
        interior(x - 1, y - 1),
        interior(x + 1, y + 1),
        forall|a: int, b: int|
            in_grid(a, b) ==> #[trigger] alive(g, a, b) == in_row_of_three(x, y, a, b),
    ensures
        generation_after(g, 2) == g,
{
    let g1 = next_generation(g);
    let g2 = next_generation(g1);
    lemma_row_turns_into_column(g, x, y);
    lemma_column_turns_into_row(g1, x, y);
    assert forall|k: int| 0 <= k < CELL_COUNT implies g2[k] == g[k] by {
        lemma_index_coordinates(k);
        let a = k % (WORLD_SIZE as int);
        let b = k / (WORLD_SIZE as int);
        assert(alive(g, a, b) == g[k]);
        assert(alive(g2, a, b) == g2[k]);
    }
    assert(g2 =~= g);
    assert(generation_after(g, 2) == g2) by {
        reveal_with_fuel(generation_after, 3);
    }
}

/// Whether `(a, b)` is a cell of the glider in the given phase of its cycle,
/// drawn in the four-by-four box whose corner with the smallest coordinates
/// is `(x, y)`. Phase 0 is the glider at rest in the upper left three-by-three
/// corner of the box; phases 1 to 3 are the shapes it takes on the way to the
/// same shape one cell further along both axes.
pub open spec fn in_glider(phase: int, x: int, y: int, a: int, b: int) -> bool {
    if phase == 0 {
        (a == x + 1 && b == y)
            || (a == x + 2 && b == y + 1)
            || (a == x && b == y + 2)
            || (a == x + 1 && b == y + 2)
            || (a == x + 2 && b == y + 2)
    } else if phase == 1 {
        (a == x && b == y + 1)
            || (a == x + 2 && b == y + 1)
            || (a == x + 1 && b == y + 2)
            || (a == x + 2 && b == y + 2)
            || (a == x + 1 && b == y + 3)
    } else if phase == 2 {
        (a == x + 2 && b == y + 1)
            || (a == x && b == y + 2)
            || (a == x + 2 && b == y + 2)
            || (a == x + 1 && b == y + 3)
            || (a == x + 2 && b == y + 3)
    } else {
        (a == x + 1 && b == y + 1)
            || (a == x + 2 && b == y + 2)
            || (a == x + 3 && b == y + 2)
            || (a == x + 1 && b == y + 3)
            || (a == x + 2 && b == y + 3)
    }
}

/// Whether the only live cells of `g` are those of the glider in the given
/// phase, in the box at `(x, y)`.
pub open spec fn is_lone_glider(g: Seq<bool>, phase: int, x: int, y: int) -> bool {
    forall|a: int, b: int| in_grid(a, b) ==> #[trigger] alive(g, a, b) == in_glider(phase, x, y, a, b)
}

/// One transition takes a lone glider, in a box away from the outer ring,
/// from each phase of its cycle to the next; from the last phase it arrives
/// at rest one cell further along both axes.
pub proof fn lemma_glider_phase(g: Seq<bool>, phase: int, x: int, y: int)
    requires
        0 <= phase <= 3,
        interior(x, y),
        interior(x + 3, y + 3),
        is_lone_glider(g, phase, x, y),
    ensures
        phase < 3 ==> is_lone_glider(next_generation(g), phase + 1, x, y),
        phase == 3 ==> is_lone_glider(next_generation(g), 0, x + 1, y + 1),
{
    assert forall|a: int, b: int| in_grid(a, b) implies #[trigger] alive(
        next_generation(g),
        a,
        b,
    ) == (if phase < 3 {
        in_glider(phase + 1, x, y, a, b)
    } else {
        in_glider(0, x + 1, y + 1, a, b)
    }) by {
        lemma_next_generation_cell(g, a, b);
    }
}

/// A lone glider, in a box away from the outer ring, has after four
/// transitions the shape it started with, moved by one cell along both axes.
pub proof fn lemma_glider_moves(g: Seq<bool>, x: int, y: int)
    requires
        interior(x, y),
        interior(x + 3, y + 3),
        is_lone_glider(g, 0, x, y),
    ensures
        is_lone_glider(generation_after(g, 4), 0, x + 1, y + 1),
{
    let g1 = next_generation(g);
    let g2 = next_generation(g1);
    let g3 = next_generation(g2);
    let g4 = next_generation(g3);
    lemma_glider_phase(g, 0, x, y);
    lemma_glider_phase(g1, 1, x, y);
    lemma_glider_phase(g2, 2, x, y);
    lemma_glider_phase(g3, 3, x, y);
    assert(generation_after(g, 4) == g4) by {
        reveal_with_fuel(generation_after, 5);
    }
}

/// Every cell of the dead grid is dead.
pub proof fn lemma_dead_grid_cell(x: int, y: int)
    requires
        in_grid(x, y),
    ensures
        !alive(dead_grid(), x, y),
{
    lemma_coordinates_index(x, y);
}

} // verus!
