use rusty_gol::board::Board;
use rusty_gol::engine::Options;
use rusty_gol::game::GridError;

#[test]
fn plain_board_new_get_set() {
    let mut b = Board::new(5, 2, false);
    assert_eq!(b.get_width(), 5);
    assert_eq!(b.get_height(), 2);
    assert!(!b.get(4, 1));
    b.set(4, 1, true);
    assert!(b.get(4, 1));
    assert!(!b.get(1, 4 - 3));
    let all = Board::new(3, 3, true);
    assert!(all.get(2, 2) && all.get(0, 0));
}

#[test]
fn plain_board_random() {
    let dead = Board::random(4, 6, 0, 1).unwrap();
    let alive = Board::random(4, 6, 1, 1).unwrap();
    for y in 0..6 {
        for x in 0..4 {
            assert!(!dead.get(x, y));
            assert!(alive.get(x, y));
        }
    }
    assert_eq!(Board::random(4, 6, 2, 1).err(), Some(GridError::InvalidProbability));
    assert_eq!(Board::random(4, 6, 0, 0).err(), Some(GridError::InvalidProbability));
}

#[test]
fn plain_board_from_bitmap() {
    let mut img = bmp::Image::new(2, 3);
    for y in 0..3 {
        for x in 0..2 {
            img.set_pixel(x, y, bmp::Pixel::new(10, 20, 30));
        }
    }
    img.set_pixel(1, 2, bmp::Pixel::new(0, 0, 0));
    let b = Board::from_bmp(&img).unwrap();
    assert_eq!(b.get_width(), 2);
    assert_eq!(b.get_height(), 3);
    assert!(b.get(1, 2));
    assert!(!b.get(0, 0) && !b.get(1, 0) && !b.get(0, 2));
    assert_eq!(Board::from_bmp(&bmp::Image::new(3, 0)).err(), Some(GridError::InvalidDimensions));
}

#[test]
fn options_board_size() {
    let o = Options { window_width: 1000, window_height: 1000, window_title: "Life", cell_size: 5 };
    assert_eq!(o.board_size(), (200, 200));
    let p = Options { window_width: 103, window_height: 47, window_title: "Life", cell_size: 10 };
    assert_eq!(p.board_size(), (10, 4));
}

#[test]
fn plain_board_from_cells() {
    let b = Board::from_cells(2, 3, vec![true, false, false, false, false, true]).unwrap();
    assert!(b.get(0, 0) && b.get(1, 2));
    assert!(!b.get(1, 0) && !b.get(0, 1) && !b.get(1, 1) && !b.get(0, 2));
    assert_eq!(Board::from_cells(2, 3, vec![true; 7]).err(), Some(GridError::DimensionMismatch));
}
