use grid2048::{Board, Direction, TileAction, TileActionKind};

fn board_of_row(row: [u8; 4]) -> Board {
    let mut b = Board::empty(4);
    for (c, v) in row.iter().enumerate() {
        b.set(0, c, *v);
    }
    b
}

fn row_cells(board: &Board) -> [u8; 4] {
    let mut out = [0u8; 4];
    for (c, v) in out.iter_mut().enumerate() {
        *v = board.get(0, c);
    }
    out
}

fn nonzero_count(board: &Board) -> usize {
    board.iter_numbers().into_iter().filter(|n| *n != 0).count()
}

#[test]
fn single_move_action() {
    let mut board = board_of_row([0, 1, 2, 0]);
    let actions = board.shift(Direction::Left);
    assert_eq!(
        actions,
        vec![
            TileAction {
                kind: TileActionKind::Move,
                value: 1,
                from: (0, 1),
                to: (0, 0),
            },
            TileAction {
                kind: TileActionKind::Move,
                value: 2,
                from: (0, 2),
                to: (0, 1),
            },
        ]
    );
    assert_eq!(row_cells(&board), [1, 2, 0, 0]);
}

#[test]
fn gap_produces_one_move() {
    let mut board = board_of_row([1, 0, 2, 0]);
    let actions = board.shift(Direction::Left);
    assert_eq!(
        actions,
        vec![TileAction {
            kind: TileActionKind::Move,
            value: 2,
            from: (0, 2),
            to: (0, 1),
        }]
    );
    assert_eq!(row_cells(&board), [1, 2, 0, 0]);
}

#[test]
fn single_merge_action() {
    let mut board = board_of_row([1, 1, 0, 0]);
    let actions = board.shift(Direction::Left);
    assert_eq!(
        actions,
        vec![TileAction {
            kind: TileActionKind::Merge,
            value: 2,
            from: (0, 1),
            to: (0, 0),
        }]
    );
    assert_eq!(row_cells(&board), [2, 0, 0, 0]);
}

#[test]
fn compacted_row_is_noop() {
    let mut board = board_of_row([1, 2, 1, 2]);
    let actions = board.shift(Direction::Left);
    assert!(actions.is_empty());
    assert_eq!(row_cells(&board), [1, 2, 1, 2]);
}

#[test]
fn no_chained_merges() {
    let mut board = board_of_row([1, 1, 1, 1]);
    let actions = board.shift(Direction::Left);
    assert_eq!(row_cells(&board), [2, 2, 0, 0]);
    let merges: Vec<&TileAction> = actions
        .iter()
        .filter(|a| a.kind == TileActionKind::Merge)
        .collect();
    assert_eq!(merges.len(), 2);
    assert_ne!(merges[0].to, merges[1].to);
}

#[test]
fn merge_value_one_above_inputs() {
    let mut board = board_of_row([3, 3, 0, 0]);
    let actions = board.shift(Direction::Left);
    assert_eq!(actions.len(), 1);
    assert_eq!(actions[0].kind, TileActionKind::Merge);
    assert_eq!(actions[0].value, 4);
    assert_eq!(row_cells(&board), [4, 0, 0, 0]);
}

#[test]
fn merge_saturates_at_max_rank() {
    let mut board = board_of_row([255, 255, 0, 0]);
    let actions = board.shift(Direction::Left);
    assert_eq!(actions.len(), 1);
    assert_eq!(actions[0].kind, TileActionKind::Merge);
    assert_eq!(actions[0].value, 255);
    assert_eq!(row_cells(&board), [255, 0, 0, 0]);
}

#[test]
fn count_drops_by_one_per_merge() {
    let mut board = Board::empty(4);
    board.set(0, 0, 1);
    board.set(0, 3, 1);
    board.set(1, 1, 2);
    board.set(2, 2, 2);
    board.set(3, 0, 3);
    let before = nonzero_count(&board);
    let actions = board.shift(Direction::Left);
    let merges = actions
        .iter()
        .filter(|a| a.kind == TileActionKind::Merge)
        .count();
    assert_eq!(merges, 1);
    assert_eq!(nonzero_count(&board), before - merges);
}

#[test]
fn second_shift_same_direction_is_noop() {
    let mut board = board_of_row([0, 1, 2, 0]);
    board.set(2, 1, 3);
    let first = board.shift(Direction::Left);
    assert!(!first.is_empty());
    let settled = board.clone();
    let second = board.shift(Direction::Left);
    assert!(second.is_empty());
    assert_eq!(board, settled);
}

#[test]
fn spawn_fills_the_single_empty_cell() {
    let mut board = Board::empty(4);
    for r in 0..4 {
        for c in 0..4 {
            if (r, c) != (2, 3) {
                board.set(r, c, 1);
            }
        }
    }
    let spawned = board.spawn();
    let (num, coords) = spawned.expect("one cell is empty, so spawn must succeed");
    assert_eq!(coords, (2, 3));
    assert!(num == 1 || num == 2);
    assert_eq!(board.get(2, 3), num);
    assert!(board.spawn().is_none());
}

#[test]
fn full_grid_up_remaps_coordinates() {
    let mut board = Board::empty(4);
    let rows = [[1, 1, 1, 1], [0, 0, 0, 1], [0, 1, 2, 2], [2, 2, 2, 2]];
    for (r, row) in rows.iter().enumerate() {
        for (c, v) in row.iter().enumerate() {
            board.set(r, c, *v);
        }
    }
    board.shift(Direction::Up);
    let expected = [[1, 2, 1, 2], [2, 2, 3, 3], [0, 0, 0, 0], [0, 0, 0, 0]];
    for (r, row) in expected.iter().enumerate() {
        for (c, v) in row.iter().enumerate() {
            assert_eq!(board.get(r, c), *v, "cell ({r}, {c})");
        }
    }
}

#[test]
fn empty_board_is_shiftable_full_unequal_is_not() {
    assert!(Board::empty(4).is_shiftable());
    let mut board = Board::empty(2);
    board.set(0, 0, 1);
    board.set(0, 1, 2);
    board.set(1, 0, 2);
    board.set(1, 1, 1);
    assert!(!board.is_shiftable());
}
