use tictactoe_engine::board::{score_terminal, Game, Outcome};

fn game_from(size: usize, cells: &[i8]) -> Game {
    let mut g = Game::new(size);
    for (i, &c) in cells.iter().enumerate() {
        if c != 0 {
            g.apply_move(i, c);
        }
    }
    g
}

#[test]
fn new_board_is_empty_and_ongoing() {
    let g = Game::new(3);
    let cells = g.get_board_state();
    assert_eq!(cells.len(), 9);
    assert!(cells.iter().all(|&c| c == 0));
    assert_eq!(g.winner(), Outcome::Ongoing);
}

#[test]
fn is_legal_and_apply_move() {
    let mut g = Game::new(3);
    assert!(g.is_legal(4));
    g.apply_move(4, 1);
    assert!(!g.is_legal(4));
    assert!(g.is_legal(0));
    assert_eq!(g.get_board_state()[4], 1);
}

#[test]
fn legal_moves_ascending_and_exact() {
    let g = game_from(3, &[1, 0, 2, 0, 1, 0, 0, 2, 0]);
    let moves = g.legal_moves();
    assert_eq!(moves, vec![1, 3, 5, 6, 8]);
}

#[test]
fn winner_row() {
    let g = game_from(3, &[1, 1, 1, 2, 2, 0, 0, 0, 0]);
    assert_eq!(g.winner(), Outcome::Win(1));
}

#[test]
fn winner_column() {
    let g = game_from(3, &[2, 1, 0, 2, 1, 0, 0, 1, 2]);
    assert_eq!(g.winner(), Outcome::Win(1));
}

#[test]
fn winner_diagonal() {
    let g = game_from(3, &[2, 1, 0, 1, 2, 0, 1, 0, 2]);
    assert_eq!(g.winner(), Outcome::Win(2));
}

#[test]
fn winner_anti_diagonal() {
    let g = game_from(3, &[1, 2, 1, 0, 1, 2, 1, 0, 2]);
    assert_eq!(g.winner(), Outcome::Win(1));
}

#[test]
fn full_board_without_line_is_draw() {
    // no row, column, or diagonal is uniform
    let g = game_from(3, &[1, 2, 1, 2, 1, 2, 2, 1, 2]);
    assert_eq!(g.winner(), Outcome::Draw);
}

#[test]
fn winner_prefers_earlier_row() {
    // two complete rows: the scan returns the first one
    let g = game_from(3, &[1, 1, 1, 2, 2, 2, 0, 0, 0]);
    assert_eq!(g.winner(), Outcome::Win(1));
    let h = game_from(3, &[2, 2, 2, 1, 1, 1, 0, 0, 0]);
    assert_eq!(h.winner(), Outcome::Win(2));
}

#[test]
fn winner_prefers_diagonal_over_anti_diagonal() {
    // on a 4x4 board the two diagonals do not intersect
    let mut g = Game::new(4);
    for d in 0..4 {
        g.apply_move(d * 4 + d, 1);
        g.apply_move(d * 4 + (3 - d), 2);
    }
    assert_eq!(g.winner(), Outcome::Win(1));
}

#[test]
fn score_terminal_values() {
    assert_eq!(score_terminal(Outcome::Draw, 1, true), 0);
    assert_eq!(score_terminal(Outcome::Draw, 2, false), 0);
    assert_eq!(score_terminal(Outcome::Win(1), 1, true), 1);
    assert_eq!(score_terminal(Outcome::Win(1), 1, false), -1);
    assert_eq!(score_terminal(Outcome::Win(2), 1, true), -1);
    assert_eq!(score_terminal(Outcome::Win(2), 1, false), 1);
}

#[test]
fn score_terminal_antisymmetric_in_maximizing() {
    for outcome in [Outcome::Draw, Outcome::Win(1), Outcome::Win(2)] {
        for acting in [1i8, 2] {
            let up = score_terminal(outcome, acting, true);
            let down = score_terminal(outcome, acting, false);
            assert_eq!(up, -down);
            if outcome == Outcome::Draw {
                assert_eq!(up, 0);
            }
        }
    }
}

#[test]
fn overwrite_is_a_known_hazard_not_a_phantom_win() {
    // 2 at cell 0, then 1 at cells 1 and 2: no line
    let mut g = Game::new(3);
    g.apply_move(0, 2);
    g.apply_move(1, 1);
    g.apply_move(2, 1);
    assert_eq!(g.winner(), Outcome::Ongoing);
    // overwriting the occupied cell 0 corrupts the state; the winner is then
    // whatever the overwritten board really shows, here a completed row
    g.apply_move(0, 1);
    assert_eq!(g.winner(), Outcome::Win(1));
    // an overwrite that completes nothing reports no win
    let mut h = Game::new(3);
    h.apply_move(0, 1);
    h.apply_move(4, 2);
    h.apply_move(0, 2);
    let fresh = game_from(3, &[2, 0, 0, 0, 2, 0, 0, 0, 0]);
    assert_eq!(h.winner(), fresh.winner());
    assert_eq!(h.winner(), Outcome::Ongoing);
}
