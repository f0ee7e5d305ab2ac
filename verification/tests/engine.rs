use game_of_life::game::{Game, GameError};
use game_of_life::grid::Square;

/// Builds a grid with no live cells, so a test can seed it explicitly.
fn empty_grid(width: u32, height: u32) -> Game {
    Game::new(width, height, 0).unwrap()
}

/// Linear index of the cell at column `x`, row `y` on a grid of width `w`.
fn idx(x: u32, y: u32, w: u32) -> u32 {
    y * w + x
}

#[test]
fn new_rejects_zero_width() {
    assert!(matches!(Game::new(0, 5, 3), Err(GameError::ZeroDimension)));
}

#[test]
fn new_rejects_zero_height() {
    assert!(matches!(Game::new(5, 0, 3), Err(GameError::ZeroDimension)));
}

#[test]
fn new_reports_dimensions() {
    let g = Game::new(7, 3, 0).unwrap();
    assert_eq!(g.width(), 7);
    assert_eq!(g.height(), 3);
}

#[test]
fn new_seeds_requested_count_in_range_without_duplicates() {
    let g = Game::new(10, 10, 20).unwrap();
    let live = g.cells();
    assert_eq!(live.len(), 20);
    for &c in live.iter() {
        assert!(c < 100);
    }
    for w in live.windows(2) {
        assert!(w[0] < w[1]);
    }
}

#[test]
fn seed_count_is_clamped_to_cell_count() {
    let g = Game::new(3, 3, 100).unwrap();
    assert_eq!(g.cells().len(), 9);
}

#[test]
fn reseed_restores_requested_count() {
    let mut g = Game::new(6, 6, 7).unwrap();
    assert_eq!(g.cells().len(), 7);
    g.set_cells(&vec![]);
    assert_eq!(g.cells().len(), 0);
    g.generate_cells();
    let live = g.cells();
    assert_eq!(live.len(), 7);
    for &c in live.iter() {
        assert!(c < 36);
    }
}

#[test]
fn set_cells_ignores_out_of_range_indices() {
    let mut g = empty_grid(3, 3);
    g.set_cells(&vec![3, 99]);
    assert_eq!(g.cells(), vec![3]);
}

#[test]
fn neighbor_enumeration_is_bounded_distinct_and_excludes_self() {
    let mut g = empty_grid(5, 5);
    let all: Vec<u32> = (0..25).collect();
    g.set_cells(&all);
    let center = g.adjacent_cells(12);
    assert_eq!(center.len(), 8);
    for (a, &x) in center.iter().enumerate() {
        assert_ne!(x, 12);
        assert!(x < 25);
        for &y in center.iter().skip(a + 1) {
            assert_ne!(x, y);
        }
    }
}

#[test]
fn neighbor_enumeration_clamps_to_range_with_row_quirk() {
    let mut g = empty_grid(5, 5);
    let all: Vec<u32> = (0..25).collect();
    g.set_cells(&all);
    // the corner cell keeps only the in-range candidates; index 4 is the
    // numeric candidate `0 + width - 1`, kept although it sits at the end
    // of the same row (the engine's documented row-boundary quirk)
    let mut corner = g.adjacent_cells(0);
    corner.sort();
    assert_eq!(corner, vec![1, 4, 5, 6]);
}

#[test]
fn neighbor_enumeration_never_double_counts_on_narrow_grids() {
    let mut g = empty_grid(1, 5);
    let all: Vec<u32> = (0..5).collect();
    g.set_cells(&all);
    // on a width-1 grid several offsets collapse to the same index or to
    // the cell itself; the enumeration stays distinct and self-free
    let mut nbrs = g.adjacent_cells(2);
    nbrs.sort();
    assert_eq!(nbrs, vec![0, 1, 3, 4]);
}

#[test]
fn forecast_three_neighbors_gives_birth_and_survival() {
    let mut g = empty_grid(5, 5);
    g.set_cells(&vec![1, 2, 3]);
    // dead cell below the middle of the line has 3 alive neighbors
    assert!(g.forecast_cell(7));
    // the line's middle is alive with 2 alive neighbors: it survives
    assert!(g.forecast_cell(2));
    // a line end is alive with 1 alive neighbor: it dies
    assert!(!g.forecast_cell(1));
    // a far-away dead cell has 0 alive neighbors: it stays dead
    assert!(!g.forecast_cell(24));
}

#[test]
fn forecast_four_neighbors_kills_regardless_of_state() {
    let mut g = empty_grid(5, 5);
    // all four diagonal neighbors of the center, plus the center itself
    g.set_cells(&vec![6, 8, 12, 16, 18]);
    assert!(!g.forecast_cell(12));
    let mut h = empty_grid(5, 5);
    // the same four diagonals with a dead center
    h.set_cells(&vec![6, 8, 16, 18]);
    assert!(!h.forecast_cell(12));
}

#[test]
fn blinker_oscillates_with_period_two() {
    let mut g = empty_grid(5, 5);
    let horizontal = vec![idx(1, 2, 5), idx(2, 2, 5), idx(3, 2, 5)];
    g.set_cells(&horizontal);
    g.move_cells();
    let vertical = vec![idx(2, 1, 5), idx(2, 2, 5), idx(2, 3, 5)];
    assert_eq!(g.cells(), vertical);
    g.move_cells();
    assert_eq!(g.cells(), horizontal);
}

#[test]
fn isolated_cell_dies_after_one_step() {
    let mut g = empty_grid(5, 5);
    g.set_cells(&vec![12]);
    g.move_cells();
    assert_eq!(g.cells(), Vec::<u32>::new());
}

#[test]
fn dead_grid_remains_dead() {
    let mut g = empty_grid(4, 4);
    for _ in 0..5 {
        g.move_cells();
        assert_eq!(g.cells(), Vec::<u32>::new());
    }
}

#[test]
fn block_still_life_is_unchanged_by_steps() {
    let mut g = empty_grid(4, 4);
    let block = vec![idx(1, 1, 4), idx(2, 1, 4), idx(1, 2, 4), idx(2, 2, 4)];
    g.set_cells(&block);
    for _ in 0..3 {
        g.move_cells();
        let mut live = g.cells();
        live.sort();
        let mut expected = block.clone();
        expected.sort();
        assert_eq!(live, expected);
    }
}

#[test]
fn step_is_deterministic_for_equal_seeds() {
    let seed = vec![3, 7, 8, 9, 14];
    let mut a = empty_grid(5, 4);
    let mut b = empty_grid(5, 4);
    a.set_cells(&seed);
    b.set_cells(&seed);
    a.move_cells();
    b.move_cells();
    assert_eq!(a.cells(), b.cells());
}

#[test]
fn reading_live_cells_twice_returns_the_same_set() {
    let mut g = empty_grid(6, 5);
    g.set_cells(&vec![0, 7, 13, 29]);
    assert_eq!(g.cells(), g.cells());
    let first = g.squares();
    let second = g.squares();
    assert_eq!(first.len(), second.len());
    for sq in first.iter() {
        assert!(second.contains(sq));
    }
    for sq in second.iter() {
        assert!(first.contains(sq));
    }
}

#[test]
fn squares_carry_row_major_coordinates() {
    let mut g = empty_grid(5, 4);
    // column 3, row 1: distinguishes division by width from division by
    // height on a non-square grid
    g.set_cells(&vec![idx(3, 1, 5)]);
    let squares = g.squares();
    assert_eq!(squares.len(), 1);
    assert_eq!(squares[0], Square::new(3, 5, 1, 4));
}

#[test]
fn squares_match_live_cell_count() {
    let g = Game::new(8, 8, 10).unwrap();
    assert_eq!(g.squares().len(), g.cells().len());
}

#[test]
fn full_grid_has_width_times_height_live_cells() {
    let mut g = empty_grid(3, 4);
    let all: Vec<u32> = (0..12).collect();
    g.set_cells(&all);
    assert_eq!(g.cells().len(), 12);
    assert_eq!(g.squares().len(), 12);
}

#[test]
fn square_new_pairs_coordinates_with_totals() {
    let sq = Square::new(2, 9, 4, 7);
    assert_eq!(sq.col, (2, 9));
    assert_eq!(sq.row, (4, 7));
}
