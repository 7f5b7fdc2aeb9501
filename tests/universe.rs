use wasm_game_of_life::Universe;

fn grid(width: u32, height: u32, alive: &[(u32, u32)]) -> Universe {
    let mut cells = vec![false; (width * height) as usize];
    for &(r, c) in alive {
        cells[(width * r + c) as usize] = true;
    }
    Universe::with_size(width, height, &cells)
}

fn alive_cells(u: &Universe) -> Vec<(u32, u32)> {
    let mut out = Vec::new();
    for r in 0..u.height() {
        for c in 0..u.width() {
            if u.get_cells().contains((u.width() * r + c) as usize) {
                out.push((r, c));
            }
        }
    }
    out
}

#[test]
fn dead_grid_stays_dead() {
    let mut u = grid(6, 5, &[]);
    for _ in 0..3 {
        u.tick();
        assert!(alive_cells(&u).is_empty());
    }
}

#[test]
fn neighbor_counts_stay_within_eight() {
    let all = vec![true; 20];
    let u = Universe::with_size(5, 4, &all);
    for r in 0..4 {
        for c in 0..5 {
            assert_eq!(u.live_neighbor_count(r, c), 8);
        }
    }
}

#[test]
fn single_cell_grid_counts_itself_through_wrapping() {
    let u = Universe::with_size(1, 1, &vec![true]);
    assert_eq!(u.live_neighbor_count(0, 0), 5);
    let mut u = u;
    u.tick();
    assert_eq!(alive_cells(&u), vec![]);
    let dead = Universe::with_size(1, 1, &vec![false]);
    assert_eq!(dead.live_neighbor_count(0, 0), 0);
}

#[test]
fn one_row_grid_counts_within_eight() {
    let u = Universe::with_size(3, 1, &vec![true, true, true]);
    for c in 0..3 {
        assert_eq!(u.live_neighbor_count(0, c), 7);
    }
    let u = Universe::with_size(4, 1, &vec![true, false, false, false]);
    assert_eq!(u.live_neighbor_count(0, 0), 1);
    assert_eq!(u.live_neighbor_count(0, 1), 3);
    assert_eq!(u.live_neighbor_count(0, 2), 0);
    assert_eq!(u.live_neighbor_count(0, 3), 3);
}

#[test]
fn one_column_grid_counts_within_eight() {
    let u = Universe::with_size(1, 3, &vec![true, true, true]);
    for r in 0..3 {
        assert_eq!(u.live_neighbor_count(r, 0), 7);
    }
}

#[test]
fn isolated_cell_dies() {
    let mut u = grid(5, 5, &[(2, 2)]);
    assert_eq!(u.live_neighbor_count(2, 2), 0);
    u.tick();
    assert!(alive_cells(&u).is_empty());
}

#[test]
fn block_is_still_life_on_wrapped_grid() {
    let block = [(1, 1), (1, 2), (2, 1), (2, 2)];
    let mut u = grid(4, 4, &block);
    for &(r, c) in &block {
        assert_eq!(u.live_neighbor_count(r, c), 3);
    }
    assert_eq!(u.live_neighbor_count(0, 0), 1);
    assert_eq!(u.live_neighbor_count(0, 1), 2);
    assert_eq!(u.live_neighbor_count(1, 0), 2);
    assert_eq!(u.live_neighbor_count(3, 3), 1);
    for r in 0..4 {
        for c in 0..4 {
            if !block.contains(&(r, c)) {
                assert_ne!(u.live_neighbor_count(r, c), 3);
            }
        }
    }
    u.tick();
    assert_eq!(alive_cells(&u), block.to_vec());
}

#[test]
fn block_on_corner_wraps_around() {
    let corners = [(0, 0), (0, 3), (3, 0), (3, 3)];
    let mut u = grid(4, 4, &corners);
    for &(r, c) in &corners {
        assert_eq!(u.live_neighbor_count(r, c), 3);
    }
    u.tick();
    assert_eq!(alive_cells(&u), corners.to_vec());
}

#[test]
fn blinker_has_period_two() {
    let horizontal = vec![(2, 1), (2, 2), (2, 3)];
    let vertical = vec![(1, 2), (2, 2), (3, 2)];
    let mut u = grid(5, 5, &horizontal);
    u.tick();
    assert_eq!(alive_cells(&u), vertical);
    u.tick();
    assert_eq!(alive_cells(&u), horizontal);
}

#[test]
fn dead_cell_with_three_neighbours_comes_alive() {
    let mut u = grid(6, 6, &[(1, 1), (1, 3), (3, 2)]);
    assert_eq!(u.live_neighbor_count(2, 2), 3);
    u.tick();
    assert_eq!(alive_cells(&u), vec![(2, 2)]);
}

#[test]
fn crowded_cell_dies() {
    let mut u = grid(6, 6, &[(1, 1), (1, 2), (1, 3), (2, 2), (3, 2)]);
    assert_eq!(u.live_neighbor_count(2, 2), 4);
    u.tick();
    assert!(!alive_cells(&u).contains(&(2, 2)));
}

#[test]
fn toggle_twice_restores_cell() {
    let mut u = grid(4, 3, &[(1, 2)]);
    u.toggle_cell(0, 3);
    assert_eq!(alive_cells(&u), vec![(0, 3), (1, 2)]);
    u.toggle_cell(0, 3);
    assert_eq!(alive_cells(&u), vec![(1, 2)]);
    u.toggle_cell(1, 2);
    assert_eq!(alive_cells(&u), vec![]);
    u.toggle_cell(1, 2);
    assert_eq!(alive_cells(&u), vec![(1, 2)]);
}

#[test]
fn with_size_keeps_given_states() {
    let alive: Vec<bool> = (0..35).map(|i| i % 2 == 0 || i % 7 == 0).collect();
    let u = Universe::with_size(7, 5, &alive);
    assert_eq!(u.width(), 7);
    assert_eq!(u.height(), 5);
    assert_eq!(u.get_cells().len(), 35);
    for i in 0..35 {
        assert_eq!(u.get_cells().contains(i), alive[i]);
    }
}

#[test]
fn new_builds_default_square() {
    let alive: Vec<bool> = (0..4096).map(|i| i % 3 == 0).collect();
    let u = Universe::new(&alive);
    assert_eq!(u.width(), 64);
    assert_eq!(u.height(), 64);
    for i in 0..4096 {
        assert_eq!(u.get_cells().contains(i), alive[i]);
    }
}

#[test]
fn cells_buffer_packs_bits_and_keeps_length() {
    let mut u = grid(8, 5, &[(0, 0), (0, 3), (4, 7)]);
    assert_eq!(u.cells().len(), 2);
    assert_eq!(u.cells()[0], 0b1001);
    assert_eq!(u.cells()[1], 1 << 7);
    for _ in 0..3 {
        u.tick();
        u.toggle_cell(2, 2);
        assert_eq!(u.cells().len(), 2);
        assert_eq!(u.get_cells().len(), 40);
    }
    let big = Universe::new(&vec![true; 4096]);
    assert_eq!(big.cells().len(), 128);
    assert!(big.cells().iter().all(|&b| b == u32::MAX));
}

#[test]
fn render_shows_rows_of_glyphs() {
    let u = grid(3, 2, &[(0, 1), (1, 0), (1, 2)]);
    let text: String = u.render().into_iter().collect();
    assert_eq!(text, "\u{25FB}\u{25FC}\u{25FB}\n\u{25FC}\u{25FB}\u{25FC}\n");
}
