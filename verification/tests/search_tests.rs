use tictactoe_engine::board::{Game, Outcome};
use tictactoe_engine::cache::TransCache;

fn build(size: usize, cells: &[i8]) -> Game {
    let mut g = Game::new(size);
    for (i, &c) in cells.iter().enumerate() {
        if c != 0 {
            g.apply_move(i, c);
        }
    }
    g
}

fn other(p: i8) -> i8 {
    if p == 1 { 2 } else { 1 }
}

#[test]
fn cache_round_trip() {
    let mut cache = TransCache::new();
    let g = build(3, &[1, 0, 0, 0, 2, 0, 0, 0, 0]);
    let board = g.get_board_state();
    assert_eq!(cache.get(&board), None);
    cache.put(&board, 1);
    assert_eq!(cache.get(&board), Some(1));
    // a board never inserted stays absent
    let h = build(3, &[0, 1, 0, 0, 2, 0, 0, 0, 0]);
    assert_eq!(cache.get(&h.get_board_state()), None);
    // insert-or-overwrite: the last writer wins
    cache.put(&board, -1);
    assert_eq!(cache.get(&board), Some(-1));
}

#[test]
fn cache_distinguishes_board_lengths() {
    let mut cache = TransCache::new();
    let small = Game::new(1).get_board_state();
    let large = Game::new(2).get_board_state();
    cache.put(&small, 1);
    assert_eq!(cache.get(&large), None);
    assert_eq!(cache.get(&small), Some(1));
}

#[test]
fn search_equals_plain_minimax_from_midgame() {
    // alpha-beta with caching agrees with the unpruned walk
    let g = build(3, &[1, 2, 0, 0, 1, 0, 0, 0, 0]);
    for player in [1i8, 2] {
        for maximizing in [true, false] {
            let mut cache = TransCache::new();
            let pruned = g.search(player, maximizing, i8::MIN, i8::MAX, 9, &mut cache);
            let plain = g.minimax_plain(player, maximizing);
            assert_eq!(pruned, plain);
        }
    }
}

#[test]
fn score_all_moves_equals_plain_minimax_per_cell() {
    let g = build(3, &[1, 0, 0, 2, 1, 0, 0, 0, 2]);
    let player = 1i8;
    let scores = g.score_all_moves(player);
    assert_eq!(scores.len(), 9);
    let cells = g.get_board_state();
    for i in 0..9 {
        if cells[i] != 0 {
            assert_eq!(scores[i], i8::MIN);
        } else {
            let mut child = build(3, &cells);
            child.apply_move(i, player);
            let reference = child.minimax_plain(other(player), false);
            assert_eq!(scores[i], reference);
        }
    }
}

#[test]
fn score_all_moves_deterministic() {
    let g = build(3, &[0, 0, 0, 0, 1, 0, 0, 0, 2]);
    let first = g.score_all_moves(2);
    let second = g.score_all_moves(2);
    assert_eq!(first, second);
}

#[test]
fn winning_cell_ranks_strictly_highest() {
    // player 1 has two in a row with the third cell open
    let g = build(3, &[1, 1, 0, 2, 2, 0, 0, 0, 0]);
    let scores = g.score_all_moves(1);
    assert_eq!(scores[2], 1);
    let cells = g.get_board_state();
    for i in 0..9 {
        if i != 2 && cells[i] == 0 {
            assert!(scores[i] < scores[2]);
        }
    }
    let best = g.best_move(&scores);
    assert_eq!(best, 2);
}

#[test]
fn best_move_breaks_ties_by_lowest_index() {
    let g = build(3, &[2, 0, 0, 0, 1, 0, 0, 0, 0]);
    let scores = vec![i8::MIN, 0, 0, -1, i8::MIN, 0, -1, 0, 0];
    assert_eq!(g.best_move(&scores), 1);
}

#[test]
fn optimal_play_forces_a_draw_on_three_by_three() {
    let mut g = Game::new(3);
    let mut player = 1i8;
    while g.winner() == Outcome::Ongoing {
        let scores = g.score_all_moves(player);
        let mv = g.best_move(&scores);
        g.apply_move(mv, player);
        player = other(player);
    }
    assert_eq!(g.winner(), Outcome::Draw);
}

#[test]
fn single_cell_board_is_an_immediate_win() {
    let mut g = Game::new(1);
    assert_eq!(g.winner(), Outcome::Ongoing);
    let scores = g.score_all_moves(1);
    assert_eq!(scores, vec![1]);
    let mv = g.best_move(&scores);
    g.apply_move(mv, 1);
    assert_eq!(g.winner(), Outcome::Win(1));
}

#[test]
fn engine_blocks_an_open_threat() {
    // player 2 to move; player 1 threatens cell 0: every non-blocking reply
    // loses at once, so blocking ranks strictly highest among legal cells
    let g = build(3, &[0, 1, 1, 2, 0, 0, 0, 0, 0]);
    let scores = g.score_all_moves(2);
    let cells = g.get_board_state();
    for i in 0..9 {
        if i != 0 && cells[i] == 0 {
            assert!(scores[i] < scores[0]);
        }
    }
    assert_eq!(g.best_move(&scores), 0);
}

#[test]
fn two_by_two_every_opening_wins() {
    // on a 2x2 board any two marks of one player share a line, so the
    // first player wins whatever happens: every opening scores +1
    let g = Game::new(2);
    let scores = g.score_all_moves(1);
    assert_eq!(scores, vec![1, 1, 1, 1]);
}

#[test]
fn four_by_four_midgame_matches_plain_minimax() {
    let g = build(
        4,
        &[1, 2, 1, 2, 2, 1, 2, 1, 1, 2, 0, 0, 0, 0, 2, 1],
    );
    assert_eq!(g.winner(), Outcome::Ongoing);
    for player in [1i8, 2] {
        let scores = g.score_all_moves(player);
        let cells = g.get_board_state();
        for i in 0..16 {
            if cells[i] == 0 {
                let mut child = build(4, &cells);
                child.apply_move(i, player);
                assert_eq!(scores[i], child.minimax_plain(other(player), false));
            } else {
                assert_eq!(scores[i], i8::MIN);
            }
        }
    }
}
