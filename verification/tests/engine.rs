use grid2048::{Board, Direction, TileAction, TileActionKind};
use grid2048::Direction::{Down, Left, Right, Up};

fn board_from(rows: [[u8; 4]; 4]) -> Board {
    let mut b = Board::empty(4);
    for (r, row) in rows.iter().enumerate() {
        for (c, v) in row.iter().enumerate() {
            b.set(r, c, *v);
        }
    }
    b
}

fn cells(board: &Board) -> [[u8; 4]; 4] {
    let mut out = [[0u8; 4]; 4];
    for (r, row) in out.iter_mut().enumerate() {
        for (c, v) in row.iter_mut().enumerate() {
            *v = board.get(r, c);
        }
    }
    out
}

fn moved(value: u8, from: (usize, usize), to: (usize, usize)) -> TileAction {
    TileAction {
        kind: TileActionKind::Move,
        value,
        from,
        to,
    }
}

fn merged(value: u8, from: (usize, usize), to: (usize, usize)) -> TileAction {
    TileAction {
        kind: TileActionKind::Merge,
        value,
        from,
        to,
    }
}

#[test]
fn empty() {
    const SIZE: usize = 4;
    let board = Board::empty(SIZE);
    assert_eq!(cells(&board), [[0; SIZE]; SIZE]);
    assert_eq!(board.size(), SIZE);
}

#[test]
fn new() {
    const SIZE: usize = 4;
    let board = Board::new(SIZE);
    assert_eq!(board.iter_numbers().into_iter().filter(|n| *n != 0).count(), 2);
    assert_eq!(board.size(), SIZE);
}

#[test]
fn get_and_set_number() {
    let mut board = Board::empty(4);
    assert_eq!(board.get(1, 3), 0);
    board.set(1, 3, 255);
    assert_eq!(board.get(1, 3), 255);
}

#[test]
fn add_number() {
    let mut board = Board::empty(4);
    board.spawn();
    assert_eq!(board.iter_numbers().into_iter().filter(|n| *n != 0).count(), 1);
    for _ in 0..15 {
        assert!(board.spawn().is_some());
    }
    assert_eq!(board.iter_numbers().into_iter().filter(|n| *n == 0).count(), 0);
    assert!(board.spawn().is_none());
}

#[test]
fn is_shiftable() {
    for board in [
        Board::empty(4),
        board_from([
            [0, 2, 3, 4], //
            [5, 6, 7, 8],
            [9, 10, 11, 12],
            [13, 14, 15, 16],
        ]),
        board_from([
            [1, 2, 3, 4], //
            [5, 6, 0, 8],
            [9, 10, 11, 12],
            [13, 14, 15, 16],
        ]),
        board_from([
            [1, 2, 3, 4], //
            [5, 6, 7, 8],
            [9, 10, 11, 12],
            [13, 14, 15, 0],
        ]),
        board_from([
            [1, 1, 3, 4], //
            [5, 6, 7, 8],
            [9, 10, 11, 12],
            [13, 14, 15, 16],
        ]),
        board_from([
            [1, 2, 3, 4], //
            [1, 6, 7, 8],
            [9, 10, 11, 12],
            [13, 14, 15, 16],
        ]),
        board_from([
            [1, 2, 3, 4], //
            [5, 6, 7, 7],
            [9, 10, 11, 12],
            [13, 14, 15, 16],
        ]),
        board_from([
            [1, 2, 3, 4], //
            [5, 6, 7, 8],
            [9, 10, 7, 12],
            [13, 14, 15, 16],
        ]),
        board_from([
            [1, 2, 3, 4], //
            [5, 6, 7, 8],
            [9, 10, 11, 12],
            [13, 14, 15, 15],
        ]),
        board_from([
            [1, 2, 3, 4], //
            [5, 6, 7, 8],
            [9, 10, 11, 12],
            [13, 14, 15, 12],
        ]),
    ] {
        assert!(board.is_shiftable(), "{board:#?} should be shiftable");
    }
    let board = board_from([
        [1, 2, 3, 4], //
        [5, 6, 7, 8],
        [9, 10, 11, 12],
        [13, 14, 15, 16],
    ]);
    assert!(!board.is_shiftable());
}

#[test]
fn shift_row_left() {
    for (before, after) in [
        ([0, 0, 0, 0], [0, 0, 0, 0]),
        ([1, 0, 0, 0], [1, 0, 0, 0]),
        ([0, 1, 0, 0], [1, 0, 0, 0]),
        ([0, 0, 0, 1], [1, 0, 0, 0]),
        ([1, 2, 0, 0], [1, 2, 0, 0]),
        ([1, 0, 2, 0], [1, 2, 0, 0]),
        ([0, 1, 2, 0], [1, 2, 0, 0]),
        ([0, 1, 0, 2], [1, 2, 0, 0]),
        ([1, 1, 0, 0], [2, 0, 0, 0]),
        ([1, 0, 1, 0], [2, 0, 0, 0]),
        ([1, 0, 0, 1], [2, 0, 0, 0]),
        ([0, 1, 1, 0], [2, 0, 0, 0]),
        ([0, 1, 0, 1], [2, 0, 0, 0]),
        ([0, 0, 1, 1], [2, 0, 0, 0]),
        ([1, 1, 1, 0], [2, 1, 0, 0]),
        ([1, 0, 1, 1], [2, 1, 0, 0]),
        ([1, 1, 1, 1], [2, 2, 0, 0]),
        ([1, 2, 0, 2], [1, 3, 0, 0]),
        ([2, 1, 0, 2], [2, 1, 2, 0]),
        ([2, 0, 1, 2], [2, 1, 2, 0]),
        ([1, 1, 0, 2], [2, 2, 0, 0]),
        ([1, 0, 1, 2], [2, 2, 0, 0]),
        ([0, 1, 1, 2], [2, 2, 0, 0]),
        ([1, 2, 1, 2], [1, 2, 1, 2]),
    ] {
        let mut shifted = before.to_vec();
        Board::shift_nums_left(&mut shifted, 0);
        assert_eq!(
            after.to_vec(),
            shifted,
            "expected {after:?}, got {shifted:?} (originally {before:?})"
        );
    }
}

#[test]
fn shift_empty() {
    for dir in [Up, Down, Left, Right] {
        let left = Board::empty(4);
        let mut right = left.clone();
        let actions = right.shift(dir);
        assert_eq!(left, right);
        assert!(actions.is_empty());
    }
}

#[test]
fn shift() {
    for (before, dir, after, actions) in [
        (
            board_from([[1, 0, 0, 2], [1, 0, 1, 2], [1, 0, 2, 2], [1, 1, 2, 2]]),
            Left,
            board_from([
                [1, 2, 0, 0], //
                [2, 2, 0, 0],
                [1, 3, 0, 0],
                [2, 3, 0, 0],
            ]),
            vec![
                moved(2, (0, 3), (0, 1)),
                merged(2, (1, 2), (1, 0)),
                moved(2, (1, 3), (1, 1)),
                moved(2, (2, 2), (2, 1)),
                merged(3, (2, 3), (2, 1)),
                merged(2, (3, 1), (3, 0)),
                moved(2, (3, 2), (3, 1)),
                merged(3, (3, 3), (3, 1)),
            ],
        ),
        (
            board_from([
                [2, 0, 0, 1], //
                [2, 1, 0, 1],
                [2, 2, 0, 1],
                [2, 2, 1, 1],
            ]),
            Right,
            board_from([
                [0, 0, 2, 1], //
                [0, 0, 2, 2],
                [0, 0, 3, 1],
                [0, 0, 3, 2],
            ]),
            vec![
                moved(2, (0, 0), (0, 2)),
                merged(2, (1, 1), (1, 3)),
                moved(2, (1, 0), (1, 2)),
                moved(2, (2, 1), (2, 2)),
                merged(3, (2, 0), (2, 2)),
                merged(2, (3, 2), (3, 3)),
                moved(2, (3, 1), (3, 2)),
                merged(3, (3, 0), (3, 2)),
            ],
        ),
        (
            board_from([
                [1, 1, 1, 1], //
                [0, 0, 0, 1],
                [0, 1, 2, 2],
                [2, 2, 2, 2],
            ]),
            Up,
            board_from([
                [1, 2, 1, 2], //
                [2, 2, 3, 3],
                [0, 0, 0, 0],
                [0, 0, 0, 0],
            ]),
            vec![
                moved(2, (3, 0), (1, 0)),
                merged(2, (2, 1), (0, 1)),
                moved(2, (3, 1), (1, 1)),
                moved(2, (2, 2), (1, 2)),
                merged(3, (3, 2), (1, 2)),
                merged(2, (1, 3), (0, 3)),
                moved(2, (2, 3), (1, 3)),
                merged(3, (3, 3), (1, 3)),
            ],
        ),
        (
            board_from([
                [2, 2, 2, 2], //
                [0, 1, 2, 2],
                [0, 0, 0, 1],
                [1, 1, 1, 1],
            ]),
            Down,
            board_from([
                [0, 0, 0, 0], //
                [0, 0, 0, 0],
                [2, 2, 3, 3],
                [1, 2, 1, 2],
            ]),
            vec![
                moved(2, (0, 0), (2, 0)),
                merged(2, (1, 1), (3, 1)),
                moved(2, (0, 1), (2, 1)),
                moved(2, (1, 2), (2, 2)),
                merged(3, (0, 2), (2, 2)),
                merged(2, (2, 3), (3, 3)),
                moved(2, (1, 3), (2, 3)),
                merged(3, (0, 3), (2, 3)),
            ],
        ),
    ] {
        let mut shifted = before.clone();
        let taken_actions = shifted.shift(dir);
        assert_eq!(
            after, shifted,
            "expected {after:?}, got {shifted:?} (originally {before:?})"
        );
        assert_eq!(taken_actions, actions);
    }
}
