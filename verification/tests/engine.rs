use life_grid::{Cell, CoordinateError, Universe};

fn alive_set(u: &Universe) -> Vec<(i32, i32)> {
    let mut out = Vec::new();
    for y in 0..u.height() {
        for x in 0..u.width() {
            if u.get_cell(x, y) == Cell::Alive {
                out.push((x, y));
            }
        }
    }
    out
}

#[test]
fn new_clamps_dimensions_to_one() {
    let u = Universe::new(0, 0);
    assert_eq!(u.width(), 1);
    assert_eq!(u.height(), 1);
    assert_eq!(u.get_cells().len(), 1);
    let v = Universe::new(4, 3);
    assert_eq!(v.width(), 4);
    assert_eq!(v.height(), 3);
    assert_eq!(v.get_cells().len(), 12);
    assert!(v.get_cells().iter().all(|&c| c == Cell::Dead));
}

#[test]
fn set_then_get_same_wrapped_coordinates() {
    let mut u = Universe::new(5, 4);
    u.set_cell(2, 3, Cell::Alive);
    assert_eq!(u.get_cell(2, 3), Cell::Alive);
    u.set_cell(-1, -1, Cell::Alive);
    assert_eq!(u.get_cell(-1, -1), Cell::Alive);
    assert_eq!(u.get_cell(4, 3), Cell::Alive);
    u.set_cell(7, 9, Cell::Alive);
    assert_eq!(u.get_cell(7, 9), Cell::Alive);
    assert_eq!(u.get_cell(2, 1), Cell::Alive);
}

#[test]
fn get_cell_is_periodic_in_both_axes() {
    let mut u = Universe::new(5, 4);
    u.set_cell(1, 2, Cell::Alive);
    for &(x, y) in &[(1, 2), (-3, 2), (6, 2), (1, 6), (1, -2), (11, 10)] {
        assert_eq!(u.get_cell(x, y), u.get_cell(x + 5, y));
        assert_eq!(u.get_cell(x, y), u.get_cell(x, y + 4));
    }
}

#[test]
fn tick_on_all_dead_grid_stays_all_dead() {
    let mut u = Universe::new(6, 5);
    u.tick();
    assert!(u.get_cells().iter().all(|&c| c == Cell::Dead));
}

#[test]
fn isolated_alive_cell_dies_after_one_tick() {
    let mut u = Universe::new(5, 5);
    u.set_cell(2, 2, Cell::Alive);
    u.tick();
    assert_eq!(u.get_cell(2, 2), Cell::Dead);
    assert!(u.get_cells().iter().all(|&c| c == Cell::Dead));
}

#[test]
fn block_is_still_life() {
    let mut u = Universe::new(5, 5);
    let pairs = vec![vec![1, 1], vec![2, 1], vec![1, 2], vec![2, 2]];
    u.set_cells(&pairs, Cell::Alive).unwrap();
    let before = alive_set(&u);
    u.tick();
    assert_eq!(alive_set(&u), before);
}

#[test]
fn blinker_oscillates() {
    let mut u = Universe::new(5, 5);
    let pairs = vec![vec![1, 2], vec![2, 2], vec![3, 2]];
    u.set_cells(&pairs, Cell::Alive).unwrap();
    u.tick();
    assert_eq!(alive_set(&u), vec![(2, 1), (2, 2), (2, 3)]);
    u.tick();
    assert_eq!(alive_set(&u), vec![(1, 2), (2, 2), (3, 2)]);
}

#[test]
fn glider_translates_by_one_one_after_four_ticks() {
    // The canonical glider, placed away from its own wake on a 10x10 grid.
    let mut u = Universe::new(10, 10);
    let glider = vec![vec![1, 0], vec![2, 1], vec![0, 2], vec![1, 2], vec![2, 2]];
    u.set_cells(&glider, Cell::Alive).unwrap();
    let before = alive_set(&u);
    for _ in 0..4 {
        u.tick();
    }
    let moved: Vec<(i32, i32)> = before.iter().map(|&(x, y)| (x + 1, y + 1)).collect();
    let mut after = alive_set(&u);
    after.sort();
    let mut expected = moved.clone();
    expected.sort();
    assert_eq!(after, expected);
}

#[test]
fn glider_wraps_around_the_edge() {
    // Near the far corner the translated pattern wraps toroidally.
    let mut u = Universe::new(6, 6);
    let glider = vec![vec![5, 4], vec![0, 5], vec![4, 0], vec![5, 0], vec![0, 0]];
    u.set_cells(&glider, Cell::Alive).unwrap();
    for _ in 0..4 {
        u.tick();
    }
    let mut after = alive_set(&u);
    after.sort();
    // Each cell of the starting pattern moved by (+1, +1) modulo the grid size.
    let mut expected: Vec<(i32, i32)> =
        vec![(0, 5), (1, 0), (5, 1), (0, 1), (1, 1)];
    expected.sort();
    assert_eq!(after, expected);
}

#[test]
fn set_width_preserves_overlap_when_growing() {
    let mut u = Universe::new(5, 5);
    u.set_cell(2, 2, Cell::Alive);
    u.set_width(8);
    assert_eq!(u.width(), 8);
    assert_eq!(u.height(), 5);
    assert_eq!(u.get_cell(2, 2), Cell::Alive);
    assert_eq!(alive_set(&u), vec![(2, 2)]);
}

#[test]
fn set_width_drops_cells_outside_when_shrinking() {
    let mut u = Universe::new(5, 5);
    u.set_cell(2, 2, Cell::Alive);
    u.set_cell(1, 1, Cell::Alive);
    u.set_width(2);
    assert_eq!(u.width(), 2);
    // (2,2) fell outside the kept rectangle; (1,1) survived untouched.
    assert_eq!(alive_set(&u), vec![(1, 1)]);
}

#[test]
fn set_height_preserves_overlap() {
    let mut u = Universe::new(5, 5);
    u.set_cell(2, 2, Cell::Alive);
    u.set_height(8);
    assert_eq!(u.height(), 8);
    assert_eq!(alive_set(&u), vec![(2, 2)]);
    u.set_height(2);
    assert_eq!(u.height(), 2);
    assert!(alive_set(&u).is_empty());
}

#[test]
fn set_dimensions_clamp_to_one() {
    let mut u = Universe::new(4, 4);
    u.set_width(-3);
    assert_eq!(u.width(), 1);
    u.set_height(0);
    assert_eq!(u.height(), 1);
}

#[test]
fn clear_resets_every_cell() {
    let mut u = Universe::new(4, 4);
    u.set_cell(0, 0, Cell::Alive);
    u.set_cell(3, 3, Cell::Alive);
    u.clear();
    assert!(u.get_cells().iter().all(|&c| c == Cell::Dead));
}

#[test]
fn randomize_follows_the_injected_bits() {
    let mut u = Universe::new(3, 2);
    let bits = vec![true, false, true, false, true, false];
    u.randomize(&bits);
    let cells = u.get_cells();
    for (i, &b) in bits.iter().enumerate() {
        assert_eq!(cells[i] == Cell::Alive, b);
    }
}

#[test]
fn translate_shifts_alive_cells_with_wrap() {
    let mut u = Universe::new(4, 4);
    u.set_cell(3, 3, Cell::Alive);
    u.translate(1, 1);
    assert_eq!(alive_set(&u), vec![(0, 0)]);
    u.translate(-2, 0);
    assert_eq!(alive_set(&u), vec![(2, 0)]);
}

#[test]
fn translate_replaces_rather_than_overlays() {
    let mut u = Universe::new(4, 1);
    u.set_cell(0, 0, Cell::Alive);
    u.set_cell(1, 0, Cell::Alive);
    u.translate(1, 0);
    assert_eq!(alive_set(&u), vec![(1, 0), (2, 0)]);
}

#[test]
fn toggle_cell_flips_state() {
    let mut u = Universe::new(3, 3);
    u.toggle_cell(1, 1);
    assert_eq!(u.get_cell(1, 1), Cell::Alive);
    u.toggle_cell(1, 1);
    assert_eq!(u.get_cell(1, 1), Cell::Dead);
    let mut c = Cell::Dead;
    c.toggle();
    assert_eq!(c, Cell::Alive);
}

#[test]
fn set_cells_rejects_malformed_pair_and_keeps_prefix() {
    let mut u = Universe::new(4, 4);
    let pairs = vec![vec![0, 0], vec![1], vec![2, 2]];
    let r = u.set_cells(&pairs, Cell::Alive);
    assert_eq!(r, Err(CoordinateError::InvalidCoordinate));
    // The valid prefix before the malformed pair was applied; the rest was not.
    assert_eq!(alive_set(&u), vec![(0, 0)]);
}

#[test]
fn toggle_cells_applies_in_order() {
    let mut u = Universe::new(4, 4);
    let pairs = vec![vec![1, 1], vec![1, 1], vec![2, 2]];
    u.toggle_cells(&pairs).unwrap();
    // (1,1) toggled twice is dead again; (2,2) toggled once is alive.
    assert_eq!(alive_set(&u), vec![(2, 2)]);
    let bad = vec![vec![3, 3], vec![1, 2, 3]];
    assert_eq!(u.toggle_cells(&bad), Err(CoordinateError::InvalidCoordinate));
    // The valid prefix was applied before the malformed pair aborted the batch.
    assert_eq!(alive_set(&u), vec![(2, 2), (3, 3)]);
}

#[test]
fn render_to_string_draws_rows() {
    let mut u = Universe::new(3, 2);
    u.set_cell(1, 0, Cell::Alive);
    u.set_cell(2, 1, Cell::Alive);
    assert_eq!(u.render_to_string(), "\u{25fb}\u{25fc}\u{25fb}\n\u{25fb}\u{25fb}\u{25fc}\n");
}
