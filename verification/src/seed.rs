//! Seeding a fresh grid with a random square block around its midpoint.

use vstd::prelude::*;
use crate::rule::{
    alive, cell_index, in_grid, lemma_coordinates_index, lemma_index_coordinates, CELL_COUNT,
    WORLD_SIZE,
};
use crate::world::World;

verus! {

/// `fastrand::Rng`, a pseudo-random generator whose state is not visible to
/// the verifier.
#[verifier::external_type_specification]
#[verifier::external_body]
pub struct ExRng(fastrand::Rng);

/// Calls `fastrand::Rng::bool`, which draws the next value of the generator
/// and returns `true` or `false`. Nothing is claimed about which of the two
/// comes back.
#[verifier::external_body]
fn coin(rng: &fastrand::Rng) -> (heads: bool) {
    rng.bool()
}

/// First column, and first row, of the centred block of side `m`: half of
/// what the block leaves of the side, rounded down.
pub open spec fn block_offset(m: int) -> int {
    (WORLD_SIZE - m) / 2
}

/// Whether `(x, y)` lies in the centred block of side `m`.
pub open spec fn in_block(m: int, x: int, y: int) -> bool {
    block_offset(m) <= x < block_offset(m) + m && block_offset(m) <= y < block_offset(m) + m
}

/// State of the cell `(x, y)` of the grid seeded with `bits`: the block is
/// filled row by row from `bits`, and every cell outside it is dead.
pub open spec fn seeded_cell(m: int, bits: Seq<bool>, x: int, y: int) -> bool {
    in_block(m, x, y) && bits[(x - block_offset(m)) + (y - block_offset(m)) * m]
}

/// The grid whose centred block of side `m` holds `bits`.
pub open spec fn seeded_grid(m: int, bits: Seq<bool>) -> Seq<bool> {
    Seq::new(
        CELL_COUNT as nat,
        |k: int| seeded_cell(m, bits, k % (WORLD_SIZE as int), k / (WORLD_SIZE as int)),
    )
}

/// Whether the block cell `(x, y)` has been written by a pass that fills
/// the block row by row and stands at `(i, j)` within the block.
spec fn filled(m: int, x: int, y: int, i: int, j: int) -> bool {
    y - block_offset(m) < j || (y - block_offset(m) == j && x - block_offset(m) < i)
}

/// Read by coordinates, a seeded grid is `seeded_cell` at every cell; in
/// particular no cell outside the block is alive.
pub proof fn lemma_seeded_grid_cell(m: int, bits: Seq<bool>, x: int, y: int)
    requires
        in_grid(x, y),
    ensures
        alive(seeded_grid(m, bits), x, y) == seeded_cell(m, bits, x, y),
        alive(seeded_grid(m, bits), x, y) ==> in_block(m, x, y),
{
    lemma_coordinates_index(x, y);
}

/// Positions of a block of side `m`, read row by row, stay below `m * m`.
proof fn lemma_block_position(m: int, i: int, j: int)
    requires
        0 <= i < m,
        0 <= j < m,
    ensures
        0 <= j * m,
        0 <= i + j * m < m * m,
        m <= 256 ==> m * m <= 65536,
{
    assert(0 <= j * m && i + j * m < m * m) by (nonlinear_arith)
        requires
            0 <= i < m,
            0 <= j < m,
    ;
    assert(m <= 256 ==> m * m <= 65536) by (nonlinear_arith)
        requires
            0 <= m,
    ;
}

/// First column, and first row, of the centred block of side `m`.
pub fn block_origin(m: usize) -> (offset: usize)
    requires
        m <= WORLD_SIZE,
    ensures
        offset == block_offset(m as int),
        offset + m <= WORLD_SIZE,
{
    (WORLD_SIZE - m) / 2
}

impl World {
    /// A fresh grid whose centred block of side `m` holds `bits`, row by
    /// row; every cell outside the block is dead.
    pub fn seeded(m: usize, bits: &Vec<bool>) -> (w: World)
        requires
            m <= WORLD_SIZE,
            bits.len() == m * m,
        ensures
            w@ == seeded_grid(m as int, bits@),
    {
        let mut w = World::new();
        let offset = block_origin(m);
        let mut j: usize = 0;
        while j < m
            invariant
                m <= WORLD_SIZE,
                bits.len() == m * m,
                offset == block_offset(m as int),
                j <= m,
                w@.len() == CELL_COUNT,
                forall|x: int, y: int|
                    in_grid(x, y) ==> #[trigger] alive(w@, x, y) == (filled(
                        m as int,
                        x,
                        y,
                        0,
                        j as int,
                    ) && seeded_cell(m as int, bits@, x, y)),
            decreases m - j,
        {
            let mut i: usize = 0;
            while i < m
                invariant
                    m <= WORLD_SIZE,
                    bits.len() == m * m,
                    offset == block_offset(m as int),
                    j < m,
                    i <= m,
                    w@.len() == CELL_COUNT,
                    forall|x: int, y: int|
                        in_grid(x, y) ==> #[trigger] alive(w@, x, y) == (filled(
                            m as int,
                            x,
                            y,
                            i as int,
                            j as int,
                        ) && seeded_cell(m as int, bits@, x, y)),
                decreases m - i,
            {
                proof {
                    lemma_block_position(m as int, i as int, j as int);
                }
                let ghost grid = w@;
                if bits[i + j * m] {
                    w.set_cell(i + offset, j + offset, true);
                }
                proof {
                    assert forall|x: int, y: int| in_grid(x, y) implies #[trigger] alive(
                        w@,
                        x,
                        y,
                    ) == (filled(m as int, x, y, i + 1, j as int) && seeded_cell(
                        m as int,
                        bits@,
                        x,
                        y,
                    )) by {
                        lemma_coordinates_index(x, y);
                        lemma_coordinates_index(i + offset, j + offset);
                        if x == i + offset && y == j + offset {
                        } else {
                            assert(cell_index(x, y) != cell_index(i + offset, j + offset));
                            assert(alive(w@, x, y) == alive(grid, x, y));
                        }
                    }
                }
                i += 1;
            }
            j += 1;
        }
        proof {
            assert forall|k: int| 0 <= k < CELL_COUNT implies w@[k] == seeded_grid(
                m as int,
                bits@,
            )[k] by {
                lemma_index_coordinates(k);
                let x = k % (WORLD_SIZE as int);
                let y = k / (WORLD_SIZE as int);
                assert(alive(w@, x, y) == w@[k]);
            }
            assert(w@ =~= seeded_grid(m as int, bits@));
        }
        w
    }

    /// A fresh grid whose centred block of side `m` is filled with values
    /// drawn from `rng`, one draw for each cell of the block, row by row.
    /// Whatever is drawn, every cell outside the block is dead.
    pub fn reseed(m: usize, rng: &fastrand::Rng) -> (w: World)
        requires
            m <= WORLD_SIZE,
        ensures
            exists|bits: Seq<bool>| bits.len() == m * m && w@ == seeded_grid(m as int, bits),
            forall|x: int, y: int| in_grid(x, y) && w.cell(x, y) ==> in_block(m as int, x, y),
    {
        proof {
            assert(m * m <= 65536) by (nonlinear_arith)
                requires
                    0 <= m <= 256,
            ;
        }
        let total = m * m;
        let mut bits: Vec<bool> = Vec::new();
        let mut n: usize = 0;
        while n < total
            invariant
                n <= total,
                bits.len() == n,
            decreases total - n,
        {
            bits.push(coin(rng));
            n += 1;
        }
        let w = World::seeded(m, &bits);
        proof {
            assert forall|x: int, y: int| in_grid(x, y) && w.cell(x, y) implies in_block(
                m as int,
                x,
                y,
            ) by {
                lemma_seeded_grid_cell(m as int, bits@, x, y);
            }
        }
        w
    }
}

} // verus!
