use bf_jit::life::{Cell, Universe};

fn alive(universe: &Universe, z: u32, y: u32, x: u32) -> bool {
    universe.cells()[universe.get_index(z, y, x)] == Cell::Alive
}

#[test]
fn test_new_universe_is_seeded() {
    let universe = Universe::new();
    assert_eq!(universe.width(), 20);
    assert_eq!(universe.height(), 20);
    assert_eq!(universe.depth(), 20);
    assert_eq!(universe.cells().len(), 8000);
    for (i, cell) in universe.cells().iter().enumerate() {
        let expected = if i % 3 == 0 || i % 5 == 0 || i % 7 == 0 {
            Cell::Alive
        } else {
            Cell::Dead
        };
        assert_eq!(*cell, expected);
    }
}

#[test]
fn test_get_index_goes_layer_by_layer_row_by_row() {
    let universe = Universe::new();
    assert_eq!(universe.get_index(0, 0, 0), 0);
    assert_eq!(universe.get_index(0, 0, 19), 19);
    assert_eq!(universe.get_index(0, 1, 0), 20);
    assert_eq!(universe.get_index(1, 0, 0), 400);
    assert_eq!(universe.get_index(19, 19, 19), 7999);
}

/// The live neighbours of a cell, counted without the library.
fn neighbours(universe: &Universe, z: u32, y: u32, x: u32) -> u8 {
    let mut count = 0;
    for dz in [19, 0, 1] {
        for dy in [19, 0, 1] {
            for dx in [19, 0, 1] {
                if dz == 0 && dy == 0 && dx == 0 {
                    continue;
                }
                if alive(universe, (z + dz) % 20, (y + dy) % 20, (x + dx) % 20) {
                    count += 1;
                }
            }
        }
    }
    count
}

#[test]
fn test_live_neighbor_count_wraps_around() {
    let universe = Universe::new();
    for (z, y, x) in [(0, 0, 0), (19, 19, 19), (5, 0, 19), (10, 10, 10), (0, 19, 7)] {
        assert_eq!(
            universe.live_neighbor_count(z, y, x),
            neighbours(&universe, z, y, x)
        );
    }
    // index 1 is dead; among its 26 neighbours 14 are alive
    assert_eq!(universe.live_neighbor_count(0, 0, 1), neighbours(&universe, 0, 0, 1));
}

#[test]
fn test_tick_lets_a_cell_live_with_4_to_13_neighbours() {
    let mut universe = Universe::new();
    let before = Universe::new();
    universe.tick();
    assert_eq!(universe.cells().len(), 8000);
    let mut kept = 0;
    let mut died = 0;
    for z in 0..20 {
        for y in 0..20 {
            for x in 0..20 {
                let n = neighbours(&before, z, y, x);
                let expected = alive(&before, z, y, x) && (4..=13).contains(&n);
                assert_eq!(alive(&universe, z, y, x), expected);
                if alive(&before, z, y, x) {
                    if expected {
                        kept += 1;
                    } else {
                        died += 1;
                    }
                }
            }
        }
    }
    assert!(kept > 0 && died > 0);
}

#[test]
fn test_a_dead_cell_stays_dead() {
    let mut universe = Universe::new();
    for _ in 0..3 {
        let dead: Vec<usize> = universe
            .cells()
            .iter()
            .enumerate()
            .filter(|(_, cell)| **cell == Cell::Dead)
            .map(|(i, _)| i)
            .collect();
        universe.tick();
        for i in dead {
            assert_eq!(universe.cells()[i], Cell::Dead);
        }
    }
}
