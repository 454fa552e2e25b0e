use conway::comm::DuplexChannel;
use conway::pattern::{get_acorn, get_glider};
use conway::worker::{advance_band, assemble, run_worker};
use conway::{GameState, GridError};

fn acorn_grid(rows: usize, columns: usize) -> GameState {
    let mut state = GameState::new(rows, columns).unwrap();
    state.add_pattern(&get_acorn(), rows / 2 - 1, columns / 2 - 3).unwrap();
    state
}

/// Runs `steps` generations of `state` cut into `pieces` bands, trading
/// boundary rows in memory before each generation.
fn banded_run(state: &GameState, pieces: usize, steps: usize) -> GameState {
    let mut bands = state.split(pieces).unwrap();
    for _ in 0..steps {
        let tops: Vec<Vec<u8>> = bands.iter().map(|b| b.read_top()).collect();
        let bottoms: Vec<Vec<u8>> = bands.iter().map(|b| b.read_bottom()).collect();
        for i in 0..bands.len() {
            let above = if i > 0 { Some(bottoms[i - 1].clone()) } else { None };
            let below = if i + 1 < bands.len() { Some(tops[i + 1].clone()) } else { None };
            advance_band(&mut bands[i], above, below).unwrap();
        }
    }
    GameState::from_parts(&bands).unwrap()
}

#[test]
fn split_sizes_differ_by_at_most_one() {
    let state = GameState::new(10, 4).unwrap();
    let parts = state.split(3).unwrap();
    let sizes: Vec<usize> = parts.iter().map(|p| p.rows()).collect();
    assert_eq!(sizes, vec![3, 3, 4]);
    let parts = state.split(4).unwrap();
    let sizes: Vec<usize> = parts.iter().map(|p| p.rows()).collect();
    assert_eq!(sizes, vec![2, 3, 2, 3]);
    assert_eq!(sizes.iter().sum::<usize>(), 10);
    let parts = state.split(10).unwrap();
    assert!(parts.iter().all(|p| p.rows() == 1 && p.columns() == 4));
}

#[test]
fn split_into_more_bands_than_rows_is_refused() {
    let state = GameState::new(3, 4).unwrap();
    assert!(matches!(state.split(4), Err(GridError::InsufficientRows)));
}

#[test]
fn split_then_merge_gives_the_grid_back() {
    let state = acorn_grid(9, 12);
    for pieces in 1..=9 {
        let parts = state.split(pieces).unwrap();
        let merged = GameState::from_parts(&parts).unwrap();
        assert_eq!(merged.rows(), 9);
        assert_eq!(merged.columns(), 12);
        assert_eq!(merged.live_cells(), state.live_cells());
    }
}

#[test]
fn bands_hold_their_rows() {
    let state = acorn_grid(9, 12);
    let parts = state.split(3).unwrap();
    // The acorn sits on rows 3 to 5, which is the middle band.
    assert!(parts[0].live_cells().is_empty());
    assert_eq!(parts[1].live_cells().len(), 7);
    assert!(parts[2].live_cells().is_empty());
}

#[test]
fn merge_refuses_bad_input() {
    assert!(matches!(GameState::from_parts(&Vec::new()), Err(GridError::EmptyPartList)));
    let parts = vec![GameState::new(2, 3).unwrap(), GameState::new(2, 4).unwrap()];
    assert!(matches!(GameState::from_parts(&parts), Err(GridError::ColumnMismatch)));
}

#[test]
fn banded_run_matches_serial_run() {
    let state = acorn_grid(16, 20);
    for pieces in [1usize, 2, 3, 5, 16] {
        let mut serial = acorn_grid(16, 20);
        serial.progress(12);
        let banded = banded_run(&state, pieces, 12);
        assert_eq!(banded.live_cells(), serial.live_cells());
    }
}

#[test]
fn banded_glider_crosses_band_edges() {
    let mut state = GameState::new(12, 12).unwrap();
    state.add_pattern(&get_glider(), 0, 0).unwrap();
    let mut serial = GameState::new(12, 12).unwrap();
    serial.add_pattern(&get_glider(), 0, 0).unwrap();
    serial.progress(20);
    let banded = banded_run(&state, 4, 20);
    assert_eq!(banded.live_cells(), serial.live_cells());
    assert_eq!(banded.live_cells(), vec![(5, 6), (6, 7), (7, 5), (7, 6), (7, 7)]);
}

#[test]
fn advance_band_checks_row_lengths() {
    let mut band = acorn_grid(6, 10);
    let before = band.live_cells();
    assert!(matches!(advance_band(&mut band, Some(vec![0u8; 3]), None), Err(GridError::InvalidRowLength)));
    assert!(matches!(advance_band(&mut band, None, Some(vec![0u8; 13])), Err(GridError::InvalidRowLength)));
    assert_eq!(band.live_cells(), before);
}

#[test]
fn chain_ends_have_no_outer_neighbour() {
    let empty: Vec<DuplexChannel<Vec<u8>>> = DuplexChannel::get_chain(0);
    assert!(empty.is_empty());
    let single: Vec<DuplexChannel<Vec<u8>>> = DuplexChannel::get_chain(1);
    assert_eq!(single.len(), 1);
    assert!(single[0].send_top(vec![1]).is_ok());
    assert!(single[0].send_bottom(vec![1]).is_ok());
    assert_eq!(single[0].receive_top(), Ok(None));
    assert_eq!(single[0].receive_bottom(), Ok(None));
}

#[test]
fn chain_links_neighbours_in_order() {
    let chain: Vec<DuplexChannel<u32>> = DuplexChannel::get_chain(3);
    assert_eq!(chain.len(), 3);
    chain[0].send_bottom(1).unwrap();
    chain[0].send_bottom(2).unwrap();
    chain[2].send_top(3).unwrap();
    chain[1].send_top(4).unwrap();
    assert_eq!(chain[1].receive_top(), Ok(Some(1)));
    assert_eq!(chain[1].receive_top(), Ok(Some(2)));
    assert_eq!(chain[1].receive_bottom(), Ok(Some(3)));
    assert_eq!(chain[0].receive_bottom(), Ok(Some(4)));
    assert_eq!(chain[0].receive_top(), Ok(None));
    assert_eq!(chain[2].receive_bottom(), Ok(None));
}

#[test]
fn lone_worker_equals_serial_stepping() {
    let chain: Vec<DuplexChannel<Vec<u8>>> = DuplexChannel::get_chain(1);
    let state = acorn_grid(10, 14);
    let result = run_worker(state, &chain[0], 9).unwrap();
    let mut serial = acorn_grid(10, 14);
    serial.progress(9);
    assert_eq!(result.live_cells(), serial.live_cells());
}

#[test]
fn worker_reports_a_vanished_neighbour() {
    let mut chain: Vec<DuplexChannel<Vec<u8>>> = DuplexChannel::get_chain(2);
    let lower = chain.pop().unwrap();
    drop(chain);
    let state = acorn_grid(6, 10);
    assert!(matches!(run_worker(state, &lower, 3), Err(GridError::WorkerFailure)));
}

#[test]
fn assemble_restores_index_order() {
    let state = acorn_grid(9, 12);
    let mut parts = state.split(3).unwrap();
    let third = parts.pop().unwrap();
    let second = parts.pop().unwrap();
    let first = parts.pop().unwrap();
    let results = vec![(2, third), (0, first), (1, second)];
    let merged = assemble(results).unwrap();
    assert_eq!(merged.live_cells(), state.live_cells());
}

#[test]
fn assemble_refuses_a_missing_index() {
    let results = vec![(0, GameState::new(2, 3).unwrap()), (2, GameState::new(2, 3).unwrap())];
    assert!(matches!(assemble(results), Err(GridError::WorkerFailure)));
    let results = vec![(1, GameState::new(2, 3).unwrap()), (1, GameState::new(2, 3).unwrap())];
    assert!(matches!(assemble(results), Err(GridError::WorkerFailure)));
    assert!(matches!(assemble(Vec::new()), Err(GridError::EmptyPartList)));
}
