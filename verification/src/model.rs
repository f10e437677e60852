//! The mathematical model of exhaustive minimax search: the exact game value
//! of a board, defined by recursion over the moves still available.

use vstd::prelude::*;
use crate::board::{is_player, opponent_of, spec_score_terminal, spec_winner, Outcome};

verus! {

/// How many cells of the board are empty.
pub open spec fn count_empty(s: Seq<i8>) -> nat
    decreases s.len(),
{
    if s.len() == 0 {
        0
    } else {
        count_empty(s.drop_last()) + if s.last() == 0 { 1nat } else { 0nat }
    }
}

/// Filling an empty cell with a mark lowers the empty count by one.
pub proof fn lemma_count_empty_update(s: Seq<i8>, i: int, v: i8)
    requires
        0 <= i < s.len(),
        s[i] == 0,
        v != 0,
    ensures
        count_empty(s.update(i, v)) + 1 == count_empty(s),
    decreases s.len(),
{
    let t = s.update(i, v);
    if i == s.len() - 1 {
        assert(t.drop_last() =~= s.drop_last());
    } else {
        assert(t.drop_last() =~= s.drop_last().update(i, v));
        lemma_count_empty_update(s.drop_last(), i, v);
    }
}

/// A board with an empty cell has a positive empty count.
pub proof fn lemma_count_empty_pos(s: Seq<i8>, i: int)
    requires
        0 <= i < s.len(),
        s[i] == 0,
    ensures
        count_empty(s) >= 1,
    decreases s.len(),
{
    if i == s.len() - 1 {
    } else {
        lemma_count_empty_pos(s.drop_last(), i);
    }
}

/// The empty count never exceeds the number of cells.
pub proof fn lemma_count_empty_le_len(s: Seq<i8>)
    ensures
        count_empty(s) <= s.len(),
    decreases s.len(),
{
    if s.len() > 0 {
        lemma_count_empty_le_len(s.drop_last());
    }
}

/// The exact depth-bounded minimax value of a board, for `player` to move
/// under the given perspective: a terminal board scores for the player who
/// just acted under the perspective they acted with; an exhausted depth
/// budget scores 0; otherwise the fold over all legal moves in ascending
/// cell order, maximizing or minimizing as the perspective says.
pub open spec fn value_d(s: Seq<i8>, n: int, player: i8, maximizing: bool, d: nat) -> int
    decreases d, 0int,
{
    if spec_winner(s, n) != Outcome::Ongoing {
        spec_score_terminal(spec_winner(s, n), opponent_of(player), !maximizing) as int
    } else if d == 0 {
        0
    } else {
        fold_moves(s, n, player, maximizing, (d - 1) as nat, 0,
            if maximizing { -1int } else { 1int })
    }
}

/// Folds the children of a board over the cells `i..n*n`: each empty cell is
/// a legal move whose child value (searched one ply deeper, for the opponent
/// under the flipped perspective) is combined into the accumulator by max or
/// min; occupied cells are skipped.
pub open spec fn fold_moves(
    s: Seq<i8>,
    n: int,
    player: i8,
    maximizing: bool,
    dm1: nat,
    i: int,
    acc: int,
) -> int
    decreases dm1, n * n - i + 1,
{
    if i < 0 || i >= n * n {
        acc
    } else {
        let acc2 = if s[i] == 0 {
            let child = value_d(s.update(i, player), n, opponent_of(player), !maximizing, dm1);
            if maximizing {
                if child > acc { child } else { acc }
            } else {
                if child < acc { child } else { acc }
            }
        } else {
            acc
        };
        fold_moves(s, n, player, maximizing, dm1, i + 1, acc2)
    }
}

/// The exact full-depth minimax value of a board: the depth budget equal to
/// the number of empty cells always reaches every terminal position.
pub open spec fn value(s: Seq<i8>, n: int, player: i8, maximizing: bool) -> int {
    value_d(s, n, player, maximizing, count_empty(s))
}

/// Minimax values stay in the score range -1..=1.
pub proof fn lemma_value_d_bounds(s: Seq<i8>, n: int, player: i8, maximizing: bool, d: nat)
    ensures
        -1 <= value_d(s, n, player, maximizing, d) <= 1,
    decreases d, 0int,
{
    if spec_winner(s, n) != Outcome::Ongoing {
    } else if d == 0 {
    } else {
        lemma_fold_moves_bounds(s, n, player, maximizing, (d - 1) as nat, 0,
            if maximizing { -1int } else { 1int });
    }
}

/// The move fold keeps the accumulator in the score range -1..=1.
pub proof fn lemma_fold_moves_bounds(
    s: Seq<i8>,
    n: int,
    player: i8,
    maximizing: bool,
    dm1: nat,
    i: int,
    acc: int,
)
    requires
        -1 <= acc <= 1,
    ensures
        -1 <= fold_moves(s, n, player, maximizing, dm1, i, acc) <= 1,
    decreases dm1, n * n - i + 1,
{
    if i < 0 || i >= n * n {
    } else {
        if s[i] == 0 {
            lemma_value_d_bounds(s.update(i, player), n, opponent_of(player), !maximizing, dm1);
        }
        let acc2 = if s[i] == 0 {
            let child = value_d(s.update(i, player), n, opponent_of(player), !maximizing, dm1);
            if maximizing {
                if child > acc { child } else { acc }
            } else {
                if child < acc { child } else { acc }
            }
        } else {
            acc
        };
        lemma_fold_moves_bounds(s, n, player, maximizing, dm1, i + 1, acc2);
    }
}

/// A maximizing fold never drops below its accumulator.
pub proof fn lemma_fold_max_ge_acc(s: Seq<i8>, n: int, player: i8, dm1: nat, i: int, acc: int)
    ensures
        fold_moves(s, n, player, true, dm1, i, acc) >= acc,
    decreases dm1, n * n - i + 1,
{
    if i < 0 || i >= n * n {
    } else {
        let acc2 = if s[i] == 0 {
            let child = value_d(s.update(i, player), n, opponent_of(player), false, dm1);
            if child > acc { child } else { acc }
        } else {
            acc
        };
        lemma_fold_max_ge_acc(s, n, player, dm1, i + 1, acc2);
    }
}

/// A minimizing fold never rises above its accumulator.
pub proof fn lemma_fold_min_le_acc(s: Seq<i8>, n: int, player: i8, dm1: nat, i: int, acc: int)
    ensures
        fold_moves(s, n, player, false, dm1, i, acc) <= acc,
    decreases dm1, n * n - i + 1,
{
    if i < 0 || i >= n * n {
    } else {
        let acc2 = if s[i] == 0 {
            let child = value_d(s.update(i, player), n, opponent_of(player), true, dm1);
            if child < acc { child } else { acc }
        } else {
            acc
        };
        lemma_fold_min_le_acc(s, n, player, dm1, i + 1, acc2);
    }
}

/// Writing a player's mark on a valid board keeps it valid.
pub proof fn lemma_update_valid(s: Seq<i8>, n: int, i: int, v: i8)
    requires
        crate::board::valid_board(s, n),
        0 <= i < s.len(),
        is_player(v),
    ensures
        crate::board::valid_board(s.update(i, v), n),
{
}

} // verus!
