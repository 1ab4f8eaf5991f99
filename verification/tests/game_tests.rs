use chess_skrolli_problem::{summarize_moves, Game, MoveSummary, Point, WasmGame};

fn total_visits(g: &Game) -> u64 {
    g.board.visit_counts.iter().flatten().sum()
}

#[test]
fn new_game_corners() {
    let g = Game::new(8);
    assert_eq!(g.board.size, 8);
    assert_eq!(g.board.start, Point { x: 0, y: 0 });
    assert_eq!(g.board.current, Point { x: 0, y: 0 });
    assert_eq!(g.board.win, Point { x: 7, y: 7 });
    assert_eq!(g.board.loose, Point { x: 7, y: 0 });
    assert_eq!(g.stats.wins, 0);
    assert_eq!(g.stats.looses, 0);
    assert!(g.moves.is_empty());
    assert_eq!(total_visits(&g), 0);
}

#[test]
fn run_plays_every_game() {
    let mut g = Game::new(3);
    assert!(g.run(1000));
    assert_eq!(g.stats.wins + g.stats.looses, 1000);
    assert_eq!(g.moves.len(), 1000);
    assert!(g.moves.iter().all(|&m| m >= 1));
    assert_eq!(total_visits(&g), g.moves.iter().sum::<u64>());
    assert!(g.board.current == g.board.win || g.board.current == g.board.loose);
}

#[test]
fn run_accumulates() {
    let mut g = Game::new(5);
    assert!(g.run(20));
    let first = g.moves.clone();
    assert!(g.run(30));
    assert_eq!(g.moves.len(), 50);
    assert_eq!(&g.moves[..20], &first[..]);
    assert_eq!(g.stats.wins + g.stats.looses, 50);
    assert_eq!(total_visits(&g), g.moves.iter().sum::<u64>());
}

#[test]
fn run_zero_iterations_changes_nothing() {
    let mut g = Game::new(4);
    assert!(g.run(0));
    assert!(g.moves.is_empty());
    assert_eq!(g.stats.wins + g.stats.looses, 0);
    assert_eq!(g.board.current, Point { x: 0, y: 0 });
}

#[test]
fn three_by_three_shortest_win_and_loss() {
    // From (0,0) the knight reaches (1,2) or (2,1); the losing corner (2,0)
    // is one jump from (1,2), the winning corner (2,2) is not reachable
    // from either in one jump, so every game lasts at least two moves.
    let mut g = Game::new(3);
    assert!(g.run(200));
    assert!(g.moves.iter().all(|&m| m >= 2));
}

#[test]
fn summary_of_odd_count() {
    let s = summarize_moves(&[3, 1, 2]).unwrap();
    assert_eq!(
        s,
        MoveSummary { count: 3, sum: 6, min: 1, max: 3, median_low: 2, median_high: 2 }
    );
}

#[test]
fn summary_of_even_count() {
    let s = summarize_moves(&[4, 1, 3, 2, 10, 7]).unwrap();
    assert_eq!(s.count, 6);
    assert_eq!(s.sum, 27);
    assert_eq!(s.min, 1);
    assert_eq!(s.max, 10);
    assert_eq!(s.median_low, 3);
    assert_eq!(s.median_high, 4);
}

#[test]
fn summary_of_nothing() {
    assert_eq!(summarize_moves(&[]), None);
}

#[test]
fn summary_of_one() {
    let s = summarize_moves(&[9]).unwrap();
    assert_eq!((s.min, s.max, s.median_low, s.median_high, s.sum), (9, 9, 9, 9, 9));
}

#[test]
fn wasm_game_steps_until_the_end() {
    let mut w = WasmGame::new(4);
    assert_eq!(w.board_size(), 4);
    assert_eq!((w.current_x(), w.current_y()), (0, 0));
    let mut steps: u32 = 0;
    loop {
        let r = w.step();
        steps += 1;
        assert_eq!(w.move_num(), steps);
        if r != 0 {
            if r == 1 {
                assert_eq!((w.current_x(), w.current_y()), (3, 3));
                assert_eq!((w.wins(), w.losses()), (1, 0));
            } else {
                assert_eq!(r, 2);
                assert_eq!((w.current_x(), w.current_y()), (3, 0));
                assert_eq!((w.wins(), w.losses()), (0, 1));
            }
            assert_eq!(w.game.moves, vec![steps as u64]);
            break;
        }
    }
    let counted: u64 = w.game.board.visit_counts.iter().flatten().sum();
    assert_eq!(counted, steps as u64);
    w.reset_board();
    assert_eq!((w.current_x(), w.current_y(), w.move_num()), (0, 0, 0));
    assert_eq!(w.wins() + w.losses(), 1);
    let counted_after: u64 = w.game.board.visit_counts.iter().flatten().sum();
    assert_eq!(counted_after, steps as u64);
}

#[test]
fn wasm_game_simulation_and_full_reset() {
    let mut w = WasmGame::new(6);
    assert!(w.run_simulation(25));
    assert_eq!(w.wins() + w.losses(), 25);
    assert_eq!(w.game.moves.len(), 25);
    assert_eq!(w.move_num(), 0);
    w.reset_game();
    assert_eq!((w.wins(), w.losses(), w.move_num()), (0, 0, 0));
    assert!(w.game.moves.is_empty());
    assert_eq!((w.current_x(), w.current_y()), (0, 0));
    assert!(w.game.board.visit_counts.iter().flatten().all(|&c| c == 0));
    assert_eq!(w.game.board.visit_counts.len(), 6);
}

#[test]
fn wasm_counters_are_cut_to_32_bits() {
    let mut w = WasmGame::new(4);
    w.game.stats.wins = (1u64 << 32) + 5;
    w.move_num = (1u64 << 33) + 7;
    assert_eq!(w.wins(), 5);
    assert_eq!(w.move_num(), 7);
}

#[test]
fn zero_iterations_leave_the_game_alone() {
    let mut g = Game::new(2);
    g.board.current = Point { x: 1, y: 0 };
    assert!(g.run(0));
    assert_eq!(g.board.current, Point { x: 1, y: 0 });
    assert!(g.moves.is_empty());
    assert_eq!(total_visits(&g), 0);
}

#[test]
fn corner_counts_equal_the_tally() {
    let mut g = Game::new(5);
    assert!(g.run(300));
    assert_eq!(g.board.visit_counts[4][4], g.stats.wins);
    assert_eq!(g.board.visit_counts[4][0], g.stats.looses);
    assert!(g.run(100));
    assert_eq!(g.board.visit_counts[4][4], g.stats.wins);
    assert_eq!(g.board.visit_counts[4][0], g.stats.looses);
    assert!(g.board.current == g.board.win || g.board.current == g.board.loose);
}

#[test]
fn steps_keep_corner_counts_equal_to_the_tally() {
    let mut w = WasmGame::new(4);
    for _ in 0..20 {
        while w.step() == 0 {}
        assert_eq!(w.game.board.visit_counts[3][3], w.game.stats.wins);
        assert_eq!(w.game.board.visit_counts[3][0], w.game.stats.looses);
        w.reset_board();
    }
    assert_eq!(w.wins() + w.losses(), 20);
}

#[test]
fn reset_game_gives_a_fresh_game() {
    let mut w = WasmGame::new(5);
    assert!(w.run_simulation(10));
    w.step();
    w.reset_game();
    let fresh = WasmGame::new(5);
    assert_eq!(w.board_size(), fresh.board_size());
    assert_eq!((w.current_x(), w.current_y()), (fresh.current_x(), fresh.current_y()));
    assert_eq!((w.move_num(), w.wins(), w.losses()), (0, 0, 0));
    assert_eq!(w.game.moves, fresh.game.moves);
    assert_eq!(w.game.board.visit_counts, fresh.game.board.visit_counts);
    assert_eq!(w.game.board.win, fresh.game.board.win);
    assert_eq!(w.game.board.loose, fresh.game.board.loose);
}

#[test]
fn zero_simulations_change_nothing() {
    let mut w = WasmGame::new(1);
    assert!(w.run_simulation(0));
    assert_eq!((w.wins(), w.losses(), w.move_num()), (0, 0, 0));
}

#[test]
fn summary_ignores_order() {
    let a = summarize_moves(&[5, 2, 9, 2, 7]).unwrap();
    let b = summarize_moves(&[2, 7, 2, 5, 9]).unwrap();
    assert_eq!(a, b);
    assert_eq!(a.sum, 25);
    assert_eq!((a.median_low, a.median_high), (5, 5));
}
