use game_of_life::input::{cell_under, SEED_BLOCK};
use game_of_life::seed::block_origin;
use game_of_life::{World, WORLD_SIZE};

fn cells_of(world: &World) -> Vec<bool> {
    let mut cells = Vec::new();
    for y in 0..WORLD_SIZE {
        for x in 0..WORLD_SIZE {
            cells.push(world.get_cell(x, y));
        }
    }
    cells
}

#[test]
fn seeded_block_of_two() {
    let world = World::seeded(2, &vec![true, false, false, true]);
    for y in 0..WORLD_SIZE {
        for x in 0..WORLD_SIZE {
            let expected = (x, y) == (127, 127) || (x, y) == (128, 128);
            assert_eq!(world.get_cell(x, y), expected);
        }
    }
}

#[test]
fn seeded_block_fills_row_by_row() {
    let world = World::seeded(3, &vec![false, true, true, false, false, false, true, false, false]);
    for y in 0..WORLD_SIZE {
        for x in 0..WORLD_SIZE {
            let expected = (x, y) == (127, 126) || (x, y) == (128, 126) || (x, y) == (126, 128);
            assert_eq!(world.get_cell(x, y), expected);
        }
    }
}

#[test]
fn seeded_block_of_sixteen_is_centred() {
    let world = World::seeded(16, &vec![true; 256]);
    for y in 0..WORLD_SIZE {
        for x in 0..WORLD_SIZE {
            let expected = (120..136).contains(&x) && (120..136).contains(&y);
            assert_eq!(world.get_cell(x, y), expected);
        }
    }
}

#[test]
fn seeded_empty_block_is_dead() {
    let world = World::seeded(0, &Vec::new());
    assert!(cells_of(&world).iter().all(|&c| !c));
}

#[test]
fn seeded_whole_grid() {
    let bits: Vec<bool> = (0..WORLD_SIZE * WORLD_SIZE).map(|k| k % 5 == 0).collect();
    let world = World::seeded(WORLD_SIZE, &bits);
    assert_eq!(cells_of(&world), bits);
}

#[test]
fn reseed_stays_inside_the_block() {
    let rng = fastrand::Rng::with_seed(7);
    let world = World::reseed(SEED_BLOCK, &rng);
    let mut alive = 0;
    for y in 0..WORLD_SIZE {
        for x in 0..WORLD_SIZE {
            if world.get_cell(x, y) {
                assert!((120..136).contains(&x) && (120..136).contains(&y));
                alive += 1;
            }
        }
    }
    assert!(alive > 0);
    assert!(alive < 256);
}

#[test]
fn reseed_is_reproducible_for_a_seed() {
    let first = World::reseed(SEED_BLOCK, &fastrand::Rng::with_seed(12345));
    let second = World::reseed(SEED_BLOCK, &fastrand::Rng::with_seed(12345));
    assert_eq!(cells_of(&first), cells_of(&second));
}

#[test]
fn reseed_draws_one_value_for_each_cell() {
    let rng = fastrand::Rng::with_seed(99);
    let world = World::reseed(5, &rng);
    let drawn = fastrand::Rng::with_seed(99);
    let bits: Vec<bool> = (0..25).map(|_| drawn.bool()).collect();
    assert_eq!(cells_of(&world), cells_of(&World::seeded(5, &bits)));
    // Both generators have been advanced by the same number of draws.
    assert_eq!(rng.u64(..), drawn.u64(..));
}

#[test]
fn reseed_of_empty_block_is_dead() {
    let world = World::reseed(0, &fastrand::Rng::with_seed(1));
    assert!(cells_of(&world).iter().all(|&c| !c));
}

#[test]
fn seed_block_is_sixteen() {
    assert_eq!(SEED_BLOCK, 16);
}

#[test]
fn cell_under_divides_by_cell_size() {
    assert_eq!(cell_under(0, 0, 4), Some((0, 0)));
    assert_eq!(cell_under(3, 4, 4), Some((0, 1)));
    assert_eq!(cell_under(1023, 1020, 4), Some((255, 255)));
    assert_eq!(cell_under(517, 42, 4), Some((129, 10)));
    assert_eq!(cell_under(255, 255, 1), Some((255, 255)));
}

#[test]
fn cell_under_discards_pixels_off_the_grid() {
    assert_eq!(cell_under(1024, 0, 4), None);
    assert_eq!(cell_under(0, 1024, 4), None);
    assert_eq!(cell_under(-1, 10, 4), None);
    assert_eq!(cell_under(10, -1, 4), None);
    assert_eq!(cell_under(i32::MAX, i32::MAX, 1), None);
    assert_eq!(cell_under(i32::MIN, 0, 4), None);
    assert_eq!(cell_under(256, 0, 1), None);
}

#[test]
fn block_origin_halves_the_remainder() {
    assert_eq!(block_origin(16), 120);
    assert_eq!(block_origin(0), 128);
    assert_eq!(block_origin(3), 126);
    assert_eq!(block_origin(255), 0);
    assert_eq!(block_origin(256), 0);
}
