use word_grid::board::Board;

fn board11() -> Board {
    Board::new(11, 11)
}

#[test]
fn all_tiles_connected_empty() {
    let board = board11();
    assert!(board.all_tiles_connected());
}

#[test]
fn all_tiles_connected_single() {
    let mut board = board11();
    board.place(4, 3, 'c').unwrap();
    assert!(board.all_tiles_connected());
}

#[test]
fn all_tiles_connected_multiple() {
    let mut board = board11();
    board.place(4, 3, 'c').unwrap();
    board.place(5, 3, 'c').unwrap();
    board.place(6, 3, 'c').unwrap();
    board.place(5, 4, 'c').unwrap();
    assert!(board.all_tiles_connected());
}

#[test]
fn all_tiles_connected_full() {
    let mut board = board11();
    for y in 0..11 {
        for x in 0..11 {
            board.place(x, y, 'c').unwrap();
        }
    }
    assert!(board.all_tiles_connected());
}

#[test]
fn all_tiles_connected_edge() {
    let mut board = board11();
    board.place(0, 0, 'c').unwrap();
    board.place(1, 0, 'c').unwrap();
    assert!(board.all_tiles_connected());
}

#[test]
fn all_tiles_connected_disconnect() {
    let mut board = board11();
    board.place(4, 3, 'c').unwrap();
    board.place(6, 3, 'c').unwrap();
    assert!(!board.all_tiles_connected());
}

#[test]
fn all_tiles_connected_disconnect_diag() {
    let mut board = board11();
    board.place(4, 3, 'c').unwrap();
    board.place(5, 4, 'c').unwrap();
    assert!(!board.all_tiles_connected());
}

#[test]
fn all_tiles_connected_disconnect_multiple() {
    let mut board = board11();
    board.place(4, 3, 'c').unwrap();
    board.place(5, 3, 'c').unwrap();
    board.place(1, 3, 'c').unwrap();
    board.place(2, 3, 'c').unwrap();
    assert!(!board.all_tiles_connected());
}

#[test]
fn extending_a_cluster_keeps_it_connected() {
    let mut board = board11();
    board.place(4, 3, 'c').unwrap();
    board.place(5, 3, 'c').unwrap();
    assert!(board.all_tiles_connected());
    board.place(5, 2, 'c').unwrap();
    assert!(board.all_tiles_connected());
    board.place(6, 3, 'c').unwrap();
    assert!(board.all_tiles_connected());
}

#[test]
fn adjacent_to_existing_tile_diagonal() {
    let mut board = board11();
    board.place(5, 5, 'q').unwrap();
    // all eight king-move neighbors touch the tile
    assert!(board.adjacent_to_existing_tile(4, 4));
    assert!(board.adjacent_to_existing_tile(5, 4));
    assert!(board.adjacent_to_existing_tile(6, 4));
    assert!(board.adjacent_to_existing_tile(4, 5));
    assert!(board.adjacent_to_existing_tile(6, 5));
    assert!(board.adjacent_to_existing_tile(4, 6));
    assert!(board.adjacent_to_existing_tile(5, 6));
    assert!(board.adjacent_to_existing_tile(6, 6));
}

#[test]
fn adjacent_to_existing_tile_two_cells_away() {
    let mut board = board11();
    board.place(5, 5, 'q').unwrap();
    // two cells away in every direction is not touching
    for &(x, y) in &[
        (3usize, 3usize),
        (4, 3),
        (5, 3),
        (6, 3),
        (7, 3),
        (3, 4),
        (7, 4),
        (3, 5),
        (7, 5),
        (3, 6),
        (7, 6),
        (3, 7),
        (4, 7),
        (5, 7),
        (6, 7),
        (7, 7),
    ] {
        assert!(!board.adjacent_to_existing_tile(x, y));
    }
}

#[test]
fn adjacent_to_existing_tile_on_empty_board() {
    let board = board11();
    assert!(!board.adjacent_to_existing_tile(5, 5));
}
