use game2048::board::{Board, Direction};

fn count(cells: &[[Option<u32>; 4]; 4]) -> usize {
    cells.iter().flatten().filter(|c| c.is_some()).count()
}

#[test]
fn new_board_has_one_tile_of_two() {
    let b = Board::new();
    let cells = b.cells();
    assert_eq!(count(&cells), 1);
    assert!(cells.iter().flatten().all(|c| *c == None || *c == Some(2)));
    assert_eq!(b.empty_positions().len(), 15);
}

#[test]
fn move_down_slides_each_column_to_high_row() {
    let mut b = Board::from_cells([
        [Some(2), None, Some(2), None],
        [None; 4],
        [Some(4), Some(8), None, None],
        [None; 4],
    ]);
    assert!(b.apply_move(Direction::Down));
    assert_eq!(
        b.cells(),
        [[None, None, None, Some(4)], [None; 4], [None, None, Some(4), Some(8)], [None; 4]]
    );
}

#[test]
fn move_up_slides_each_column_to_low_row() {
    let mut b = Board::from_cells([
        [None, Some(2), None, Some(2)],
        [None, None, Some(4), Some(8)],
        [None; 4],
        [None; 4],
    ]);
    assert!(b.apply_move(Direction::Up));
    assert_eq!(
        b.cells(),
        [[Some(4), None, None, None], [Some(4), Some(8), None, None], [None; 4], [None; 4]]
    );
}

#[test]
fn move_right_slides_each_row_to_high_column() {
    let mut b = Board::from_cells([
        [Some(2), None, None, None],
        [Some(2), None, None, None],
        [Some(2), Some(16), None, None],
        [None; 4],
    ]);
    assert!(b.apply_move(Direction::Right));
    assert_eq!(
        b.cells(),
        [[None; 4], [None; 4], [Some(2), None, None, None], [Some(4), Some(16), None, None]]
    );
}

#[test]
fn move_left_slides_each_row_to_low_column() {
    let mut b = Board::from_cells([
        [None; 4],
        [None, None, None, Some(2)],
        [Some(2), None, None, Some(2)],
        [Some(2), None, None, None],
    ]);
    assert!(b.apply_move(Direction::Left));
    assert_eq!(
        b.cells(),
        [[Some(4), None, None, Some(4)], [None; 4], [None; 4], [None; 4]]
    );
}

#[test]
fn move_that_changes_nothing_reports_no_change() {
    let cells = [[None, None, None, Some(2)], [None; 4], [None, None, Some(2), Some(4)], [None; 4]];
    let mut b = Board::from_cells(cells);
    assert!(!b.apply_move(Direction::Down));
    assert_eq!(b.cells(), cells);
    assert!(!b.update(Direction::Down));
    assert_eq!(b.cells(), cells);
}

#[test]
fn down_then_up_restores_top_aligned_distinct_tiles() {
    let cells = [
        [Some(2), Some(4), Some(8), None],
        [Some(16), None, None, None],
        [None; 4],
        [Some(2), Some(4), Some(2), Some(4)],
    ];
    let mut b = Board::from_cells(cells);
    b.apply_move(Direction::Down);
    b.apply_move(Direction::Up);
    assert_eq!(b.cells(), cells);
}

#[test]
fn spawn_fills_the_chosen_empty_cell_with_two() {
    let mut b = Board::from_cells([[Some(4), None, Some(4), None], [Some(8); 4], [Some(8); 4], [Some(8); 4]]);
    assert_eq!(b.empty_positions(), vec![1, 3]);
    b.spawn_at(1);
    assert_eq!(b.cells()[0], [Some(4), None, Some(4), Some(2)]);
}

#[test]
fn random_spawn_fills_an_empty_cell_with_two() {
    let before = [[Some(4), None, Some(4), None], [Some(8); 4], [Some(8); 4], [Some(8); 4]];
    let mut b = Board::from_cells(before);
    b.add_random_block();
    let col = b.cells()[0];
    assert!(col == [Some(4), Some(2), Some(4), None] || col == [Some(4), None, Some(4), Some(2)]);
    assert_eq!(b.cells()[1..], before[1..]);
}

#[test]
fn spawn_on_full_board_changes_nothing() {
    let cells = [[Some(2), Some(4), Some(2), Some(4)]; 4];
    let mut b = Board::from_cells(cells);
    b.add_random_block();
    assert_eq!(b.cells(), cells);
}

#[test]
fn turn_that_changes_the_board_adds_one_tile() {
    let mut b = Board::from_cells([[Some(2), Some(2), None, None], [None; 4], [None; 4], [None; 4]]);
    assert!(b.update(Direction::Down));
    let cells = b.cells();
    assert_eq!(count(&cells), 2);
    assert_eq!(cells[0][3], Some(4));
}
