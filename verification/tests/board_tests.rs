use chess_skrolli_problem::{Board, Cell, Direction, Point, Status, BOARD_SIZE};

fn corner_board(size: i32) -> Board {
    let start = Point { x: 0, y: 0 };
    let win = Point { x: size - 1, y: size - 1 };
    let loose = Point { x: size - 1, y: 0 };
    Board::new(size, start, win, loose)
}

#[test]
fn test_board_population() {
    fn populate_board(size: i32) -> Vec<Point> {
        let mut v = vec![];
        for x in 0..size {
            for y in 0..size {
                v.push(Point { x, y });
            }
        }
        v
    }
    assert_eq!(BOARD_SIZE * BOARD_SIZE, populate_board(BOARD_SIZE).len() as i32);
}

#[test]
fn test_next_moves() {
    let start: Point = Point { x: 0, y: 0 };
    let win: Point = Point { x: 2, y: 2 };
    let loose: Point = Point { x: 2, y: 0 };
    let board = Board::new(3, start, win, loose);
    assert_eq!(
        board.get_valid_moves(),
        vec![Point { x: 1, y: 2 }, Point { x: 2, y: 1 }]
    );
}

#[test]
fn new_board_has_zero_counts_and_knight_on_start() {
    let b = corner_board(5);
    assert_eq!(b.size, 5);
    assert_eq!(b.current, Point { x: 0, y: 0 });
    assert_eq!(b.win, Point { x: 4, y: 4 });
    assert_eq!(b.loose, Point { x: 4, y: 0 });
    assert_eq!(b.visit_counts.len(), 5);
    for row in &b.visit_counts {
        assert_eq!(row, &vec![0u64; 5]);
    }
}

#[test]
fn empty_board_has_no_counts() {
    let b = corner_board(0);
    assert!(b.visit_counts.is_empty());
}

#[test]
fn all_eight_moves_in_direction_order() {
    let mut b = corner_board(8);
    b.current = Point { x: 3, y: 3 };
    assert_eq!(
        b.get_valid_moves(),
        vec![
            Point { x: 2, y: 5 },
            Point { x: 4, y: 5 },
            Point { x: 5, y: 2 },
            Point { x: 5, y: 4 },
            Point { x: 2, y: 1 },
            Point { x: 4, y: 1 },
            Point { x: 1, y: 4 },
            Point { x: 1, y: 2 },
        ]
    );
}

#[test]
fn centre_of_three_by_three_has_no_moves() {
    let mut b = corner_board(3);
    b.current = Point { x: 1, y: 1 };
    assert!(b.get_valid_moves().is_empty());
    assert!(!b.can_move());
}

#[test]
fn top_right_corner_moves() {
    let mut b = corner_board(8);
    b.current = Point { x: 7, y: 7 };
    assert_eq!(
        b.get_valid_moves(),
        vec![Point { x: 6, y: 5 }, Point { x: 5, y: 6 }]
    );
}

#[test]
fn off_board_knight_has_no_moves() {
    let mut b = corner_board(4);
    b.current = Point { x: -10, y: 20 };
    assert!(b.get_valid_moves().is_empty());
}

#[test]
fn valid_points() {
    let b = corner_board(4);
    assert!(b.is_valid_point(&Point { x: 0, y: 0 }));
    assert!(b.is_valid_point(&Point { x: 3, y: 3 }));
    assert!(!b.is_valid_point(&Point { x: 4, y: 0 }));
    assert!(!b.is_valid_point(&Point { x: 0, y: -1 }));
}

#[test]
fn reset_keeps_counts() {
    let mut b = corner_board(4);
    b.land_on(Point { x: 1, y: 2 });
    b.reset();
    assert_eq!(b.current, Point { x: 0, y: 0 });
    assert_eq!(b.visit_counts[1][2], 1);
}

#[test]
fn land_on_counts_one_visit() {
    let mut b = corner_board(4);
    b.land_on(Point { x: 2, y: 1 });
    b.land_on(Point { x: 2, y: 1 });
    b.land_on(Point { x: 0, y: 3 });
    assert_eq!(b.current, Point { x: 0, y: 3 });
    assert_eq!(b.visit_counts[2][1], 2);
    assert_eq!(b.visit_counts[0][3], 1);
    let total: u64 = b.visit_counts.iter().flatten().sum();
    assert_eq!(total, 3);
}

#[test]
fn next_move_lands_on_a_legal_move() {
    let mut b = corner_board(8);
    for _ in 0..200 {
        let legal = b.get_valid_moves();
        let before: u64 = b.visit_counts.iter().flatten().sum();
        b.next_move();
        assert!(legal.contains(&b.current));
        let after: u64 = b.visit_counts.iter().flatten().sum();
        assert_eq!(after, before + 1);
    }
}

#[test]
fn first_move_from_corner_of_three_by_three() {
    let mut b = corner_board(3);
    b.next_move();
    assert!(b.current == Point { x: 1, y: 2 } || b.current == Point { x: 2, y: 1 });
    assert_eq!(b.visit_counts[b.current.x as usize][b.current.y as usize], 1);
}

#[test]
fn can_move_is_false_at_the_count_limit() {
    let mut b = corner_board(3);
    assert!(b.can_move());
    b.visit_counts[1][2] = u64::MAX;
    assert!(!b.can_move());
}

#[test]
fn status_checks_win_first() {
    let mut b = corner_board(4);
    assert_eq!(b.status(), Status::Ongoing);
    b.current = Point { x: 3, y: 3 };
    assert_eq!(b.status(), Status::Won);
    b.current = Point { x: 3, y: 0 };
    assert_eq!(b.status(), Status::Lost);
    let p = Point { x: 2, y: 2 };
    let same = Board::new(3, p, p, p);
    assert_eq!(same.status(), Status::Won);
}

#[test]
fn play_game_ends_on_win_or_loss() {
    let mut b = corner_board(3);
    for _ in 0..50 {
        let before: u64 = b.visit_counts.iter().flatten().sum();
        let (won, n) = b.play_game().unwrap();
        assert!(n >= 1);
        if won {
            assert_eq!(b.current, Point { x: 2, y: 2 });
        } else {
            assert_eq!(b.current, Point { x: 2, y: 0 });
        }
        let after: u64 = b.visit_counts.iter().flatten().sum();
        assert_eq!(after, before + n);
    }
}

#[test]
fn max_visit_count_is_at_least_one() {
    let mut b = corner_board(4);
    assert_eq!(b.max_visit_count(), 1);
    b.land_on(Point { x: 1, y: 2 });
    assert_eq!(b.max_visit_count(), 1);
    b.land_on(Point { x: 1, y: 2 });
    b.land_on(Point { x: 3, y: 3 });
    assert_eq!(b.max_visit_count(), 2);
    b.visit_counts[0][1] = 7;
    assert_eq!(b.max_visit_count(), 7);
}

#[test]
fn cells_show_knight_first() {
    let mut b = corner_board(4);
    assert_eq!(b.cell_at(0, 0), Cell::Knight);
    assert_eq!(b.cell_at(3, 3), Cell::Win);
    assert_eq!(b.cell_at(3, 0), Cell::Lose);
    assert_eq!(b.cell_at(1, 1), Cell::Empty);
    b.current = Point { x: 3, y: 3 };
    assert_eq!(b.cell_at(3, 3), Cell::Knight);
    assert_eq!(b.cell_at(0, 0), Cell::Start);
}

#[test]
fn directions_are_distinct() {
    assert_ne!(Direction::NORTH, Direction::SOUTH);
    assert_eq!(Direction::EAST, Direction::EAST.clone());
    assert_eq!(format!("{:?}", Direction::WEST), "WEST");
}

fn is_knight_jump(p: Point, q: Point) -> bool {
    let dx = (q.x - p.x).abs();
    let dy = (q.y - p.y).abs();
    (dx == 1 && dy == 2) || (dx == 2 && dy == 1)
}

#[test]
fn valid_moves_are_exactly_the_on_board_knight_jumps() {
    for size in 0..7 {
        let mut b = corner_board(size);
        for x in -2..size + 2 {
            for y in -2..size + 2 {
                b.current = Point { x, y };
                let moves = b.get_valid_moves();
                for qx in -4..size + 4 {
                    for qy in -4..size + 4 {
                        let q = Point { x: qx, y: qy };
                        let expected = b.is_valid_point(&q) && is_knight_jump(b.current, q);
                        assert_eq!(moves.contains(&q), expected);
                    }
                }
            }
        }
    }
}

#[test]
fn knight_never_gets_stuck_on_boards_of_three_and_more() {
    for size in 3..9 {
        let mut b = corner_board(size);
        for x in 0..size {
            for y in 0..size {
                if size == 3 && x == 1 && y == 1 {
                    continue;
                }
                b.current = Point { x, y };
                let moves = b.get_valid_moves();
                assert!(!moves.is_empty());
                if size == 3 {
                    assert!(!moves.contains(&Point { x: 1, y: 1 }));
                }
            }
        }
    }
}

#[test]
fn two_by_two_board_has_no_moves() {
    let b = corner_board(2);
    assert!(b.get_valid_moves().is_empty());
    assert!(!b.can_move());
}
