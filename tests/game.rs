use rusty_gol::game::{count_live_neighbors, Board, Cell, GameOfLife, GridError, Point2D};
use rusty_gol::life::next_state;

fn board_from_live(width: usize, height: usize, live: &[(usize, usize)]) -> Board {
    let mut board = Board::new(width, height, false);
    for &(x, y) in live {
        board.set(x, y, true);
    }
    board
}

fn live_cells(board: &Board) -> Vec<(usize, usize)> {
    let mut out = Vec::new();
    for y in 0..board.get_height() {
        for x in 0..board.get_width() {
            if board.get(x, y).is_alive() {
                out.push((x, y));
            }
        }
    }
    out
}

fn same_cells(a: &Board, b: &Board) -> bool {
    a.get_width() == b.get_width()
        && a.get_height() == b.get_height()
        && live_cells(a) == live_cells(b)
}

#[test]
fn the_worst_test_code_ever() {
    println!("Point: {:?}", Point2D::new(0, 0));
    assert_eq!(Point2D::new(0, 0), Point2D::new(0, 0));
    assert_ne!(Point2D::new(10, 0), Point2D::new(230, 0));

    let center_alive = Cell::new_alive(Point2D::new(0, 0));

    println!("Cell: {:?}", center_alive);
    assert_eq!(center_alive, Cell::new_alive(Point2D::new(0, 0)));
    assert_ne!(center_alive, Cell::new_dead(Point2D::new(0, 0)));
    assert_ne!(center_alive, Cell::new_alive(Point2D::new(10, 0)));
}

#[test]
fn cell_constructors_and_state() {
    let mut c = Cell::new(Point2D::new(3, 4), false);
    assert!(!c.is_alive());
    assert_eq!(c, Cell::new_dead(Point2D::new(3, 4)));
    c.set_state(true);
    assert!(c.is_alive());
    assert_eq!(c, Cell::new_alive(Point2D::new(3, 4)));
}

#[test]
fn rule_truth_table() {
    for n in 0..=8u32 {
        assert_eq!(next_state(true, n), n == 2 || n == 3);
        assert_eq!(next_state(false, n), n == 3);
    }
    assert!(next_state(true, 2));
    assert!(!next_state(true, 1));
    assert!(next_state(false, 3));
    assert!(!next_state(false, 4));
}

#[test]
fn board_new_get_set() {
    let mut b = Board::new(4, 3, false);
    assert_eq!(b.get_width(), 4);
    assert_eq!(b.get_height(), 3);
    assert!(!b.get(3, 2).is_alive());
    b.set(3, 2, true);
    assert!(b.get(3, 2).is_alive());
    assert!(!b.get(2, 3 - 1).is_alive());
    assert_eq!(b.get(3, 2), Cell::new_alive(Point2D::new(3, 2)));
    let full = Board::new(2, 5, true);
    assert_eq!(live_cells(&full).len(), 10);
    let empty = Board::new(0, 0, true);
    assert_eq!(live_cells(&empty).len(), 0);
}

#[test]
fn single_cell_on_small_torus_touches_every_other_cell() {
    let b = board_from_live(3, 3, &[(0, 0)]);
    for y in 0..3 {
        for x in 0..3 {
            let n = count_live_neighbors(&b, x, y);
            if (x, y) == (0, 0) {
                assert_eq!(n, 0);
            } else {
                assert_eq!(n, 1);
            }
        }
    }
    let all = Board::new(3, 3, true);
    assert_eq!(count_live_neighbors(&all, 0, 0), 8);
}

#[test]
fn neighbours_wrap_at_edges_and_corners() {
    let b = board_from_live(6, 5, &[(0, 4)]);
    assert_eq!(count_live_neighbors(&b, 0, 0), 1);
    assert_eq!(count_live_neighbors(&b, 5, 0), 1);
    assert_eq!(count_live_neighbors(&b, 5, 3), 1);
    assert_eq!(count_live_neighbors(&b, 1, 3), 1);
    assert_eq!(count_live_neighbors(&b, 2, 0), 0);
    assert_eq!(count_live_neighbors(&b, 3, 2), 0);
    let corner = board_from_live(6, 5, &[(5, 4)]);
    assert_eq!(count_live_neighbors(&corner, 0, 0), 1);
}

#[test]
fn frontier_update_matches_full_scan() {
    for &(w, h, seed) in &[(20usize, 20usize, 7u64), (13, 9, 42), (1, 1, 3), (2, 7, 11)] {
        let start = Board::random_seeded(w, h, 1, 3, seed).unwrap();
        let mut reference = Board::random_seeded(w, h, 1, 3, seed).unwrap();
        let mut game = GameOfLife::new(start);
        for _ in 0..50 {
            game.update();
            reference = reference.next_generation();
            assert!(same_cells(game.get_board(), &reference));
        }
        assert_eq!(game.get_genereation(), 50);
    }
}

#[test]
fn block_is_still() {
    let block = [(2, 2), (3, 2), (2, 3), (3, 3)];
    let mut game = GameOfLife::new(board_from_live(6, 6, &block));
    for _ in 0..30 {
        game.update();
        assert_eq!(live_cells(game.get_board()), vec![(2, 2), (3, 2), (2, 3), (3, 3)]);
    }
    let mut edge = GameOfLife::new(board_from_live(5, 5, &[(4, 4), (0, 4), (4, 0), (0, 0)]));
    for _ in 0..10 {
        edge.update();
        assert_eq!(live_cells(edge.get_board()), vec![(0, 0), (4, 0), (0, 4), (4, 4)]);
    }
}

#[test]
fn blinker_has_period_two() {
    let horizontal = vec![(1, 2), (2, 2), (3, 2)];
    let vertical = vec![(2, 1), (2, 2), (2, 3)];
    let mut game = GameOfLife::new(board_from_live(5, 5, &horizontal));
    game.update();
    assert_eq!(live_cells(game.get_board()), vertical);
    game.update();
    assert_eq!(live_cells(game.get_board()), horizontal);
    assert_eq!(game.get_genereation(), 2);
}

#[test]
fn frontier_counts_live_cells_and_neighbours() {
    let game = GameOfLife::new(board_from_live(10, 10, &[(5, 5)]));
    assert_eq!(game.get_analyzed_cell_count(), 9);
    let corner = GameOfLife::new(board_from_live(3, 3, &[(0, 0)]));
    assert_eq!(corner.get_analyzed_cell_count(), 9);
    let empty = GameOfLife::new(Board::new(4, 4, false));
    assert_eq!(empty.get_analyzed_cell_count(), 0);
    let pair = GameOfLife::new(board_from_live(10, 10, &[(2, 2), (3, 2)]));
    assert_eq!(pair.get_analyzed_cell_count(), 12);
}

fn expected_frontier(board: &Board) -> usize {
    let mut n = 0;
    for y in 0..board.get_height() {
        for x in 0..board.get_width() {
            if board.get(x, y).is_alive() || count_live_neighbors(board, x, y) > 0 {
                n += 1;
            }
        }
    }
    n
}

#[test]
fn reset_starts_over() {
    let mut game = GameOfLife::new(board_from_live(12, 8, &[(1, 2), (2, 2), (3, 2)]));
    game.update();
    game.update();
    game.pause();
    game.reset();
    assert_eq!(game.get_genereation(), 0);
    assert_eq!(game.get_board().get_width(), 12);
    assert_eq!(game.get_board().get_height(), 8);
    assert!(game.is_paused());
    assert!(!game.is_finished());
    assert_eq!(game.get_analyzed_cell_count(), expected_frontier(game.get_board()));
    game.reset();
    assert_eq!(game.get_genereation(), 0);
    assert_eq!(game.get_analyzed_cell_count(), expected_frontier(game.get_board()));
}

#[test]
fn frontier_tracks_updates() {
    let mut game = GameOfLife::new(Board::random_seeded(15, 11, 1, 2, 99).unwrap());
    for _ in 0..20 {
        game.update();
        assert_eq!(game.get_analyzed_cell_count(), expected_frontier(game.get_board()));
    }
}

#[test]
fn pause_flags_and_finish() {
    let mut game = GameOfLife::new(board_from_live(5, 5, &[(1, 2), (2, 2), (3, 2)]));
    assert!(!game.is_paused());
    game.pause();
    assert!(game.is_paused());
    game.unpause();
    assert!(!game.is_paused());
    game.toggle_pause();
    assert!(game.is_paused());
    game.toggle_pause();
    assert!(!game.is_paused());
    assert!(!game.is_finished());
    game.finish();
    assert!(game.is_finished());
    game.update();
    assert_eq!(game.get_genereation(), 0);
    assert_eq!(live_cells(game.get_board()), vec![(1, 2), (2, 2), (3, 2)]);
}

#[test]
fn seeded_random_is_repeatable() {
    let a = Board::random_seeded(17, 9, 1, 2, 12345).unwrap();
    let b = Board::random_seeded(17, 9, 1, 2, 12345).unwrap();
    assert!(same_cells(&a, &b));
    let alive = live_cells(&a).len();
    assert!(alive > 0 && alive < 17 * 9);
}

#[test]
fn random_extreme_ratios() {
    let dead = Board::random(7, 4, 0, 5).unwrap();
    assert_eq!(live_cells(&dead).len(), 0);
    let alive = Board::random(7, 4, 5, 5).unwrap();
    assert_eq!(live_cells(&alive).len(), 28);
    assert_eq!(alive.get_width(), 7);
    assert_eq!(alive.get_height(), 4);
    assert_eq!(alive.get(6, 3), Cell::new_alive(Point2D::new(6, 3)));
    let seeded = Board::random_seeded(3, 3, 2, 2, 1).unwrap();
    assert_eq!(live_cells(&seeded).len(), 9);
}

#[test]
fn random_rejects_bad_ratio() {
    assert_eq!(Board::random(3, 3, 1, 0).err(), Some(GridError::InvalidProbability));
    assert_eq!(Board::random(3, 3, 4, 3).err(), Some(GridError::InvalidProbability));
    assert_eq!(Board::random_seeded(3, 3, 4, 3, 5).err(), Some(GridError::InvalidProbability));
}

#[test]
fn mask_builds_board() {
    let mask = vec![vec![true, false, false], vec![false, false, true]];
    let b = Board::from_mask(3, 2, &mask).unwrap();
    assert_eq!(live_cells(&b), vec![(0, 0), (2, 1)]);
    assert_eq!(b.get(2, 1), Cell::new_alive(Point2D::new(2, 1)));
}

#[test]
fn mask_errors() {
    let mask = vec![vec![true, false, false], vec![false, false, true]];
    assert_eq!(Board::from_mask(2, 2, &mask).err(), Some(GridError::DimensionMismatch));
    assert_eq!(Board::from_mask(3, 3, &mask).err(), Some(GridError::DimensionMismatch));
    let ragged = vec![vec![true, false, false], vec![false, true]];
    assert_eq!(Board::from_mask(3, 2, &ragged).err(), Some(GridError::DimensionMismatch));
    assert_eq!(Board::from_mask(0, 2, &mask).err(), Some(GridError::InvalidDimensions));
    assert_eq!(Board::from_mask(3, 0, &Vec::new()).err(), Some(GridError::InvalidDimensions));
}

#[test]
fn bitmap_black_pixels_are_alive() {
    let mut img = bmp::Image::new(3, 2);
    for y in 0..2 {
        for x in 0..3 {
            img.set_pixel(x, y, bmp::Pixel::new(255, 255, 255));
        }
    }
    img.set_pixel(1, 0, bmp::Pixel::new(0, 0, 0));
    img.set_pixel(2, 1, bmp::Pixel::new(0, 0, 0));
    img.set_pixel(0, 1, bmp::Pixel::new(0, 0, 1));
    let b = Board::from_bmp(&img).unwrap();
    assert_eq!(b.get_width(), 3);
    assert_eq!(b.get_height(), 2);
    assert_eq!(live_cells(&b), vec![(1, 0), (2, 1)]);
}

#[test]
fn empty_bitmap_is_rejected() {
    let img = bmp::Image::new(0, 4);
    assert_eq!(Board::from_bmp(&img).err(), Some(GridError::InvalidDimensions));
}

#[test]
fn cells_build_board_row_major() {
    let b = Board::from_cells(3, 2, vec![false, true, false, true, false, true]).unwrap();
    assert_eq!(b.get_width(), 3);
    assert_eq!(b.get_height(), 2);
    assert_eq!(live_cells(&b), vec![(1, 0), (0, 1), (2, 1)]);
    assert_eq!(b.get(0, 1), Cell::new_alive(Point2D::new(0, 1)));
    assert_eq!(b.get(1, 1), Cell::new_dead(Point2D::new(1, 1)));
}

#[test]
fn cells_of_wrong_length_are_rejected() {
    assert_eq!(Board::from_cells(3, 2, vec![true; 5]).err(), Some(GridError::DimensionMismatch));
    assert_eq!(Board::from_cells(2, 2, vec![true; 6]).err(), Some(GridError::DimensionMismatch));
    assert_eq!(Board::from_cells(usize::MAX, 2, Vec::new()).err(), Some(GridError::DimensionMismatch));
    assert_eq!(live_cells(&Board::from_cells(0, 4, Vec::new()).unwrap()).len(), 0);
}

#[test]
fn reset_with_given_cells() {
    let mut game = GameOfLife::new(board_from_live(4, 3, &[(0, 0), (1, 0), (2, 0)]));
    game.update();
    game.toggle_pause();
    let mut cells = vec![false; 12];
    cells[5] = true;
    cells[6] = true;
    game.reset_with(cells.clone());
    assert_eq!(game.get_genereation(), 0);
    assert!(game.is_paused());
    assert!(!game.is_finished());
    assert_eq!(live_cells(game.get_board()), vec![(1, 1), (2, 1)]);
    assert_eq!(game.get_analyzed_cell_count(), expected_frontier(game.get_board()));
    let mut again = GameOfLife::new(Board::new(4, 3, true));
    again.reset_with(cells);
    assert_eq!(live_cells(again.get_board()), live_cells(game.get_board()));
    assert_eq!(again.get_analyzed_cell_count(), game.get_analyzed_cell_count());
}

#[test]
fn different_seeds_usually_differ() {
    let a = Board::random_seeded(20, 20, 1, 2, 1).unwrap();
    let b = Board::random_seeded(20, 20, 1, 2, 2).unwrap();
    assert!(!same_cells(&a, &b));
}
