use conway::pattern::{get_acorn, get_glider, Pattern};
use conway::{GameState, GridError};
use std::cell::Cell;

fn seeded(rows: usize, columns: usize, pattern: &Pattern, row: usize, column: usize) -> GameState {
    let mut state = GameState::new(rows, columns).unwrap();
    state.add_pattern(pattern, row, column).unwrap();
    state
}

#[test]
fn new_rejects_empty_dimensions() {
    assert!(matches!(GameState::new(0, 5), Err(GridError::InvalidDimensions)));
    assert!(matches!(GameState::new(5, 0), Err(GridError::InvalidDimensions)));
    assert!(matches!(GameState::new(usize::MAX, 1), Err(GridError::InvalidDimensions)));
    assert!(matches!(GameState::new(usize::MAX / 2, usize::MAX / 2), Err(GridError::InvalidDimensions)));
}

#[test]
fn new_grid_is_dead() {
    let state = GameState::new(4, 6).unwrap();
    assert_eq!(state.rows(), 4);
    assert_eq!(state.columns(), 6);
    assert!(state.live_cells().is_empty());
    assert_eq!(state.read_top(), vec![0u8; 8]);
    assert_eq!(state.read_bottom(), vec![0u8; 8]);
}

#[test]
fn glider_moves_one_cell_diagonally_in_four_generations() {
    let mut state = seeded(10, 10, &get_glider(), 0, 0);
    assert_eq!(state.live_cells(), vec![(0, 1), (1, 2), (2, 0), (2, 1), (2, 2)]);
    state.progress(4);
    assert_eq!(state.live_cells(), vec![(1, 2), (2, 3), (3, 1), (3, 2), (3, 3)]);
}

#[test]
fn blinker_turns_each_generation() {
    let line = Pattern::from_pairs(&[(2, 1), (2, 2), (2, 3)]);
    let mut state = seeded(5, 5, &line, 2, 1);
    assert_eq!(state.live_cells(), vec![(2, 1), (2, 2), (2, 3)]);
    state.progress(1);
    assert_eq!(state.live_cells(), vec![(1, 2), (2, 2), (3, 2)]);
    state.progress(1);
    assert_eq!(state.live_cells(), vec![(2, 1), (2, 2), (2, 3)]);
}

#[test]
fn cells_at_the_edge_see_dead_space() {
    // A block in the corner is stable; a lone pair dies.
    let block = Pattern::from_pairs(&[(0, 0), (0, 1), (1, 0), (1, 1)]);
    let mut state = seeded(4, 4, &block, 0, 0);
    state.progress(3);
    assert_eq!(state.live_cells(), vec![(0, 0), (0, 1), (1, 0), (1, 1)]);
    let pair = Pattern::from_pairs(&[(0, 0), (0, 1)]);
    let mut state = seeded(4, 4, &pair, 3, 2);
    state.progress(1);
    assert!(state.live_cells().is_empty());
}

#[test]
fn zero_steps_change_nothing() {
    let mut state = seeded(12, 12, &get_acorn(), 4, 3);
    let before = state.live_cells();
    state.progress(0);
    assert_eq!(state.live_cells(), before);
}

#[test]
fn border_stays_dead_after_steps() {
    let mut state = seeded(6, 6, &get_glider(), 3, 3);
    state.progress(7);
    let top = state.read_top();
    let bottom = state.read_bottom();
    assert_eq!(top[0], 0);
    assert_eq!(top[7], 0);
    assert_eq!(bottom[0], 0);
    assert_eq!(bottom[7], 0);
}

#[test]
fn add_pattern_outside_is_refused() {
    let mut state = GameState::new(5, 5).unwrap();
    let glider = get_glider();
    assert!(matches!(state.add_pattern(&glider, 3, 0), Err(GridError::InvalidSeedPosition)));
    assert!(matches!(state.add_pattern(&glider, 0, 3), Err(GridError::InvalidSeedPosition)));
    assert!(matches!(state.add_pattern(&glider, usize::MAX, 0), Err(GridError::InvalidSeedPosition)));
    assert!(state.live_cells().is_empty());
    assert!(state.add_pattern(&glider, 2, 2).is_ok());
    assert_eq!(state.live_cells(), vec![(2, 3), (3, 4), (4, 2), (4, 3), (4, 4)]);
}

#[test]
fn read_rows_carry_dead_ends() {
    let line = Pattern::from_pairs(&[(0, 0), (0, 2)]);
    let mut state = seeded(3, 3, &line, 0, 0);
    state.add_pattern(&Pattern::from_pairs(&[(0, 1)]), 2, 1).unwrap();
    assert_eq!(state.read_top(), vec![0, 1, 0, 1, 0]);
    assert_eq!(state.read_bottom(), vec![0, 0, 1, 0, 0]);
}

#[test]
fn set_rows_check_their_length() {
    let mut state = GameState::new(3, 3).unwrap();
    assert!(matches!(state.set_top(&[1, 1, 1]), Err(GridError::InvalidRowLength)));
    assert!(matches!(state.set_bottom(&[1, 1, 1, 1, 1, 1]), Err(GridError::InvalidRowLength)));
    assert!(state.set_top(&[0, 1, 1, 1, 0]).is_ok());
    assert!(state.set_bottom(&[0, 0, 0, 0, 0]).is_ok());
    // The row above the grid counts as neighbours for the next generation:
    // three live cells above give birth to the middle cell of the first row.
    state.progress(1);
    assert_eq!(state.live_cells(), vec![(0, 1)]);
    // After the step the border is dead again.
    state.progress(1);
    assert!(state.live_cells().is_empty());
}

#[test]
fn set_row_ignores_its_end_cells() {
    let mut state = GameState::new(2, 2).unwrap();
    state.set_top(&[1, 0, 0, 1]).unwrap();
    state.progress(1);
    assert!(state.live_cells().is_empty());
    assert_eq!(state.read_top(), vec![0, 0, 0, 0]);
}

#[test]
fn print_visits_each_live_cell_in_order() {
    let state = seeded(8, 8, &get_glider(), 1, 1);
    let count = Cell::new(0usize);
    let last = Cell::new((0usize, 0usize));
    state.print(|row, column| {
        count.set(count.get() + 1);
        assert!((row, column) > last.get() || count.get() == 1);
        last.set((row, column));
    });
    assert_eq!(count.get(), 5);
    assert_eq!(last.get(), (3, 3));
}
