//! The search engine: full-depth minimax, the alpha-beta pruned and
//! transposition-cached search, the parallel move scorer, and the move
//! selector.

use vstd::prelude::*;
use vstd::pervasive::VecAdditionalExecFns;
use rayon::iter::{IntoParallelIterator, ParallelIterator};
use crate::board::{
    board_full, is_player, lemma_grid_index, opponent, opponent_of, score_terminal, spec_winner,
    valid_board, Game, Outcome,
};
use crate::model::{
    count_empty, fold_moves, lemma_count_empty_le_len, lemma_count_empty_pos,
    lemma_count_empty_update, lemma_fold_max_ge_acc, lemma_fold_min_le_acc,
    lemma_update_valid, lemma_value_d_bounds, value, value_d,
};
use crate::cache::TransCache;

verus! {

/// Parity by recursion.
pub open spec fn even(k: nat) -> bool
    decreases k,
{
    if k == 0 {
        true
    } else {
        !even((k - 1) as nat)
    }
}

/// The mover a search tree assigns to a board, normalized to the parity of
/// its empty-cell count: all boards of one search tree agree on this anchor,
/// because mover and parity flip together on every ply.
pub open spec fn norm_player(s: Seq<i8>, player: i8) -> i8 {
    if even(count_empty(s)) {
        player
    } else {
        opponent_of(player)
    }
}

/// The maximizing flag, normalized like `norm_player`.
pub open spec fn norm_max(s: Seq<i8>, maximizing: bool) -> bool {
    if even(count_empty(s)) {
        maximizing
    } else {
        !maximizing
    }
}

/// Every cache entry is the exact full-depth minimax value of its board for
/// the mover and perspective the anchored search tree assigns to it. Only
/// exact values are ever stored, so a hit can be reused under any window.
pub open spec fn cache_ok(c: TransCache, n: int, pe: i8, me: bool) -> bool {
    forall|t: Seq<i8>|
        valid_board(t, n) && #[trigger] c.spec_contains(t) ==> c.spec_get(t) as int == value(
            t,
            n,
            if even(count_empty(t)) { pe } else { opponent_of(pe) },
            if even(count_empty(t)) { me } else { !me },
        )
}

impl Game {
    /// Plain full-depth minimax without pruning or caching: the reference
    /// walk the pruned search is measured against.
    pub fn minimax_plain(&self, player: i8, maximizing: bool) -> (r: i8)
        requires
            self.wf(),
            is_player(player),
        ensures
            r as int == value(self.board@, self.n(), player, maximizing),
            -1 <= r <= 1,
        decreases count_empty(self.board@),
    {
        let ghost s = self.board@;
        let ghost n = self.n();
        let out = self.winner();
        if out != Outcome::Ongoing {
            return score_terminal(out, opponent(player), !maximizing);
        }
        proof {
            assert(!board_full(s));
            let i0 = choose|i: int| 0 <= i < s.len() && s[i] == 0;
            lemma_count_empty_pos(s, i0);
            lemma_grid_index(n, 0, 0);
        }
        let ghost ce = count_empty(s);
        let ghost dm1 = (ce - 1) as nat;
        let ghost v_total = value(s, n, player, maximizing);
        let mut val: i8 = if maximizing { -1 } else { 1 };
        let n2 = self.size * self.size;
        let mut idx: usize = 0;
        while idx < n2
            invariant
                self.wf(),
                is_player(player),
                s == self.board@,
                n == self.n(),
                n2 == self.size * self.size,
                spec_winner(s, n) == Outcome::Ongoing,
                ce == count_empty(s),
                1 <= ce,
                dm1 == (ce - 1) as nat,
                idx <= n2,
                -1 <= val <= 1,
                v_total == value(s, n, player, maximizing),
                v_total == fold_moves(s, n, player, maximizing, dm1, idx as int, val as int),
            decreases n2 - idx,
        {
            proof {
                assert(s.len() == n * n);
            }
            let ghost val0 = val;
            if self.board[idx] == 0 {
                let mut child_board = self.get_board_state();
                child_board.set(idx, player);
                let child = Game { size: self.size, board: child_board };
                proof {
                    assert(child.board@ =~= s.update(idx as int, player));
                    lemma_update_valid(s, n, idx as int, player);
                    lemma_count_empty_update(s, idx as int, player);
                }
                let opp = opponent(player);
                let rj = child.minimax_plain(opp, !maximizing);
                if maximizing {
                    if rj > val {
                        val = rj;
                    }
                } else {
                    if rj < val {
                        val = rj;
                    }
                }
                proof {
                    assert(rj as int == value_d(s.update(idx as int, player), n,
                        opponent_of(player), !maximizing, dm1));
                    assert(fold_moves(s, n, player, maximizing, dm1, idx as int, val0 as int)
                        == fold_moves(s, n, player, maximizing, dm1, idx as int + 1,
                        val as int));
                }
            } else {
                proof {
                    assert(fold_moves(s, n, player, maximizing, dm1, idx as int, val0 as int)
                        == fold_moves(s, n, player, maximizing, dm1, idx as int + 1,
                        val as int));
                }
            }
            idx += 1;
        }
        proof {
            assert(fold_moves(s, n, player, maximizing, dm1, n2 as int, val as int)
                == val as int);
        }
        val
    }
}


impl Game {
    /// Minimax with alpha-beta pruning and a transposition cache.
    ///
    /// The result is fail-soft: it equals the exact game value whenever that
    /// value lies strictly inside the (alpha, beta) window, and otherwise
    /// lands on the same side of the window as the value, which is all a
    /// pruned search promises. The cache is consulted before every child
    /// recursion, and a child's result is stored only when the window proves
    /// it exact, so entries never depend on the window they were found under.
    /// The depth budget must cover the empty cells: the search always runs to
    /// terminal positions, which keeps every cached value context-free, and
    /// under that budget the depth cutoff below is provably never taken.
    #[verifier::rlimit(60)]
    pub fn search(
        &self,
        player: i8,
        maximizing: bool,
        alpha: i8,
        beta: i8,
        depth: usize,
        cache: &mut TransCache,
    ) -> (r: i8)
        requires
            self.wf(),
            is_player(player),
            alpha < beta,
            count_empty(self.board@) <= depth,
            cache_ok(*old(cache), self.n(), norm_player(self.board@, player),
                norm_max(self.board@, maximizing)),
        ensures
            -1 <= r <= 1,
            value(self.board@, self.n(), player, maximizing) <= alpha ==> r <= alpha,
            value(self.board@, self.n(), player, maximizing) >= beta ==> r >= beta,
            alpha < value(self.board@, self.n(), player, maximizing) < beta ==> r as int
                == value(self.board@, self.n(), player, maximizing),
            cache_ok(*final(cache), self.n(), norm_player(self.board@, player),
                norm_max(self.board@, maximizing)),
        decreases depth,
    {
        let ghost s = self.board@;
        let ghost n = self.n();
        let ghost pe = norm_player(s, player);
        let ghost me = norm_max(s, maximizing);
        let out = self.winner();
        if out != Outcome::Ongoing {
            return score_terminal(out, opponent(player), !maximizing);
        }
        proof {
            assert(!board_full(s));
            let i0 = choose|i: int| 0 <= i < s.len() && s[i] == 0;
            lemma_count_empty_pos(s, i0);
            lemma_grid_index(n, 0, 0);
        }
        let ghost ce = count_empty(s);
        let ghost dm1 = (ce - 1) as nat;
        let ghost v_total = value(s, n, player, maximizing);
        if depth == 0 {
            // never taken: a board that is still ongoing has an empty cell,
            // so the required depth budget is at least one
            proof {
                assert(false);
            }
            return 0;
        }
        let n2 = self.size * self.size;
        let opp = opponent(player);
        proof {
            assert(even(ce) == !even(dm1));
        }
        if maximizing {
            let mut val: i8 = -1;
            let mut a = alpha;
            let mut idx: usize = 0;
            let ghost mut pfx: int = -1;
            let ghost mut processed: bool = false;
            proof {
                assert(v_total == fold_moves(s, n, player, true, dm1, 0, -1));
            }
            while idx < n2
                invariant
                    self.wf(),
                    is_player(player),
                    maximizing,
                    opp == opponent_of(player),
                    s == self.board@,
                    n == self.n(),
                    n2 == self.size * self.size,
                    spec_winner(s, n) == Outcome::Ongoing,
                    ce == count_empty(s),
                    1 <= ce <= depth,
                    dm1 == (ce - 1) as nat,
                    pe == norm_player(s, player),
                    me == norm_max(s, maximizing),
                    alpha < beta,
                    idx <= n2,
                    -1 <= val <= 1,
                    -1 <= pfx <= 1,
                    alpha <= a,
                    a < beta,
                    a <= alpha || a <= val,
                    processed ==> val < beta,
                    processed ==> pfx < beta,
                    !processed ==> val == -1 && pfx == -1 && a == alpha,
                    !processed ==> forall|j: int| 0 <= j < idx ==> s[j] != 0,
                    val <= alpha || val <= pfx,
                    pfx <= alpha || pfx <= val,
                    v_total == value(s, n, player, true),
                    v_total == fold_moves(s, n, player, true, dm1, idx as int, pfx),
                    cache_ok(*cache, n, pe, me),
                decreases n2 - idx,
            {
                proof {
                    assert(s.len() == n * n);
                }
                if self.board[idx] == 0 {
                    let mut child_board = self.get_board_state();
                    child_board.set(idx, player);
                    let child = Game { size: self.size, board: child_board };
                    let ghost cs = child.board@;
                    proof {
                        lemma_grid_index(n, 0, 0);
                        assert(cs =~= s.update(idx as int, player));
                        lemma_update_valid(s, n, idx as int, player);
                        lemma_count_empty_update(s, idx as int, player);
                        assert(count_empty(cs) == dm1);
                        assert(norm_player(cs, opp) == pe);
                        assert(norm_max(cs, false) == me);
                        lemma_value_d_bounds(cs, n, opp, false, dm1);
                    }
                    let ghost vj = value_d(cs, n, opp, false, dm1);
                    proof {
                        assert(vj == value(cs, n, opp, false));
                        assert(if even(count_empty(cs)) { pe } else { opponent_of(pe) } == opp);
                        assert((if even(count_empty(cs)) { me } else { !me }) == false);
                    }
                    let rj: i8;
                    let cached = cache.get(&child.board);
                    match cached {
                        Some(v0) => {
                            rj = v0;
                            proof {
                                assert(cache.spec_contains(cs));
                                assert(rj as int == vj);
                            }
                        },
                        None => {
                            rj = child.search(opp, false, a, beta, depth - 1, cache);
                            if a < rj && rj < beta {
                                proof {
                                    assert(rj as int == vj);
                                }
                                let ghost pre = *cache;
                                cache.put(&child.board, rj);
                                proof {
                                    assert forall|t: Seq<i8>|
                                        valid_board(t, n) && #[trigger] cache.spec_contains(t)
                                        implies cache.spec_get(t) as int == value(t, n,
                                            if even(count_empty(t)) { pe } else {
                                                opponent_of(pe)
                                            },
                                            if even(count_empty(t)) { me } else { !me },
                                        ) by {
                                        lemma_grid_index(n, 0, 0);
                                        if t != cs {
                                            assert(pre.spec_contains(t));
                                        }
                                    }
                                }
                            }
                        },
                    }
                    let ghost val0 = val;
                    let ghost a0 = a as int;
                    proof {
                        // every way rj was produced satisfies the window facts
                        assert(-1 <= rj <= 1);
                        assert(vj <= a0 ==> rj <= a0);
                        assert(vj >= beta ==> rj >= beta);
                        assert(a0 < vj < beta ==> rj as int == vj);
                    }
                    if rj > val {
                        val = rj;
                    }
                    proof {
                        let pfx0 = pfx;
                        pfx = if vj > pfx { vj } else { pfx };
                        assert(fold_moves(s, n, player, true, dm1, idx as int, pfx0)
                            == fold_moves(s, n, player, true, dm1, idx as int + 1, pfx));
                    }
                    if val >= beta {
                        proof {
                            lemma_fold_max_ge_acc(s, n, player, dm1, idx as int + 1, pfx);
                            assert(v_total >= pfx);
                            if val0 < beta {
                                // the new child forced the cutoff
                                assert(rj >= beta);
                                assert(vj >= beta);
                                assert(pfx >= beta);
                            } else {
                                // only possible before any legal move was seen
                                assert(!processed && val0 == -1 && beta <= -1);
                                assert(pfx >= -1);
                            }
                            assert(v_total >= beta);
                        }
                        return val;
                    }
                    if val > a {
                        a = val;
                    }
                    proof {
                        processed = true;
                        assert(vj < beta);
                        assert(beta > -1int);
                    }
                } else {
                    proof {
                        assert(fold_moves(s, n, player, true, dm1, idx as int, pfx)
                            == fold_moves(s, n, player, true, dm1, idx as int + 1, pfx));
                    }
                }
                idx += 1;
            }
            proof {
                assert(fold_moves(s, n, player, true, dm1, n2 as int, pfx) == pfx);
                let i0 = choose|i: int| 0 <= i < s.len() && s[i] == 0;
                assert(processed);
                assert(v_total == pfx);
            }
            val
        } else {
            let mut val: i8 = 1;
            let mut b = beta;
            let mut idx: usize = 0;
            let ghost mut pfx: int = 1;
            let ghost mut processed: bool = false;
            proof {
                assert(v_total == fold_moves(s, n, player, false, dm1, 0, 1));
            }
            while idx < n2
                invariant
                    self.wf(),
                    is_player(player),
                    !maximizing,
                    opp == opponent_of(player),
                    s == self.board@,
                    n == self.n(),
                    n2 == self.size * self.size,
                    spec_winner(s, n) == Outcome::Ongoing,
                    ce == count_empty(s),
                    1 <= ce <= depth,
                    dm1 == (ce - 1) as nat,
                    pe == norm_player(s, player),
                    me == norm_max(s, maximizing),
                    alpha < beta,
                    idx <= n2,
                    -1 <= val <= 1,
                    -1 <= pfx <= 1,
                    b <= beta,
                    alpha < b,
                    b >= beta || b >= val,
                    processed ==> val > alpha,
                    processed ==> pfx > alpha,
                    !processed ==> val == 1 && pfx == 1 && b == beta,
                    !processed ==> forall|j: int| 0 <= j < idx ==> s[j] != 0,
                    val >= beta || val >= pfx,
                    pfx >= beta || pfx >= val,
                    v_total == value(s, n, player, false),
                    v_total == fold_moves(s, n, player, false, dm1, idx as int, pfx),
                    cache_ok(*cache, n, pe, me),
                decreases n2 - idx,
            {
                proof {
                    assert(s.len() == n * n);
                }
                if self.board[idx] == 0 {
                    let mut child_board = self.get_board_state();
                    child_board.set(idx, player);
                    let child = Game { size: self.size, board: child_board };
                    let ghost cs = child.board@;
                    proof {
                        lemma_grid_index(n, 0, 0);
                        assert(cs =~= s.update(idx as int, player));
                        lemma_update_valid(s, n, idx as int, player);
                        lemma_count_empty_update(s, idx as int, player);
                        assert(count_empty(cs) == dm1);
                        assert(norm_player(cs, opp) == pe);
                        assert(norm_max(cs, true) == me);
                        lemma_value_d_bounds(cs, n, opp, true, dm1);
                    }
                    let ghost vj = value_d(cs, n, opp, true, dm1);
                    proof {
                        assert(vj == value(cs, n, opp, true));
                        assert(if even(count_empty(cs)) { pe } else { opponent_of(pe) } == opp);
                        assert((if even(count_empty(cs)) { me } else { !me }) == true);
                    }
                    let rj: i8;
                    let cached = cache.get(&child.board);
                    match cached {
                        Some(v0) => {
                            rj = v0;
                            proof {
                                assert(cache.spec_contains(cs));
                                assert(rj as int == vj);
                            }
                        },
                        None => {
                            rj = child.search(opp, true, alpha, b, depth - 1, cache);
                            if alpha < rj && rj < b {
                                proof {
                                    assert(rj as int == vj);
                                }
                                let ghost pre = *cache;
                                cache.put(&child.board, rj);
                                proof {
                                    assert forall|t: Seq<i8>|
                                        valid_board(t, n) && #[trigger] cache.spec_contains(t)
                                        implies cache.spec_get(t) as int == value(t, n,
                                            if even(count_empty(t)) { pe } else {
                                                opponent_of(pe)
                                            },
                                            if even(count_empty(t)) { me } else { !me },
                                        ) by {
                                        lemma_grid_index(n, 0, 0);
                                        if t != cs {
                                            assert(pre.spec_contains(t));
                                        }
                                    }
                                }
                            }
                        },
                    }
                    let ghost val0 = val;
                    let ghost b0 = b as int;
                    proof {
                        assert(-1 <= rj <= 1);
                        assert(vj >= b0 ==> rj >= b0);
                        assert(vj <= alpha ==> rj <= alpha);
                        assert(alpha < vj < b0 ==> rj as int == vj);
                    }
                    if rj < val {
                        val = rj;
                    }
                    proof {
                        let pfx0 = pfx;
                        pfx = if vj < pfx { vj } else { pfx };
                        assert(fold_moves(s, n, player, false, dm1, idx as int, pfx0)
                            == fold_moves(s, n, player, false, dm1, idx as int + 1, pfx));
                    }
                    if val <= alpha {
                        proof {
                            lemma_fold_min_le_acc(s, n, player, dm1, idx as int + 1, pfx);
                            assert(v_total <= pfx);
                            if val0 > alpha {
                                assert(rj <= alpha);
                                assert(vj <= alpha);
                                assert(pfx <= alpha);
                            } else {
                                assert(!processed && val0 == 1 && alpha >= 1);
                                assert(pfx <= 1);
                            }
                            assert(v_total <= alpha);
                        }
                        return val;
                    }
                    if val < b {
                        b = val;
                    }
                    proof {
                        processed = true;
                        assert(vj > alpha);
                        assert(alpha < 1int);
                    }
                } else {
                    proof {
                        assert(fold_moves(s, n, player, false, dm1, idx as int, pfx)
                            == fold_moves(s, n, player, false, dm1, idx as int + 1, pfx));
                    }
                }
                idx += 1;
            }
            proof {
                assert(fold_moves(s, n, player, false, dm1, n2 as int, pfx) == pfx);
                let i0 = choose|i: int| 0 <= i < s.len() && s[i] == 0;
                assert(processed);
                assert(v_total == pfx);
            }
            val
        }
    }
}


/// The score assigned to a cell of the board for `player`: the exact game
/// value after playing there, searched from the opponent's reply under the
/// minimizing perspective, or the minimal sentinel for an occupied cell,
/// which guarantees it is never chosen.
pub open spec fn cell_score(s: Seq<i8>, n: int, player: i8, i: int) -> int {
    if s[i] != 0 {
        i8::MIN as int
    } else {
        value(s.update(i, player), n, opponent_of(player), false)
    }
}

impl Game {
    /// Scores one candidate cell: an independent clone of the board, the
    /// hypothetical move applied, then a full-depth pruned search with an
    /// open window and a fresh private transposition cache.
    pub fn score_move(&self, player: i8, pos: usize) -> (r: i8)
        requires
            self.wf(),
            is_player(player),
            pos < self.size * self.size,
        ensures
            r as int == cell_score(self.board@, self.n(), player, pos as int),
    {
        let ghost s = self.board@;
        let ghost n = self.n();
        proof {
            lemma_grid_index(n, 0, 0);
            assert(s.len() == n * n);
        }
        if self.board[pos] != 0 {
            return i8::MIN;
        }
        let mut child_board = self.get_board_state();
        child_board.set(pos, player);
        let child = Game { size: self.size, board: child_board };
        let opp = opponent(player);
        let ghost cs = child.board@;
        proof {
            assert(cs =~= s.update(pos as int, player));
            lemma_update_valid(s, n, pos as int, player);
            lemma_count_empty_le_len(cs);
            lemma_value_d_bounds(cs, n, opponent_of(player), false, count_empty(cs));
        }
        let mut cache = TransCache::new();
        let n2 = self.size * self.size;
        let r = child.search(opp, false, i8::MIN, i8::MAX, n2, &mut cache);
        r
    }
}

/// Relies on rayon's parallel iterators: a `map(...).collect()` over
/// `(0..k).into_par_iter()` is an indexed parallel iterator, which rayon
/// documents to collect into a vector of length k whose element at each
/// index is the closure's result for that index, in index order. The closure
/// only calls the verified `score_move`, whose contract pins each element.
#[verifier::external_body]
fn par_scores(g: &Game, player: i8) -> (r: Vec<i8>)
    requires
        g.wf(),
        is_player(player),
    ensures
        r@.len() == g.size * g.size,
        forall|i: int| 0 <= i < r@.len() ==> #[trigger] r@[i] as int == cell_score(
            g.board@, g.n(), player, i),
{
    (0..g.size * g.size).into_par_iter().map(|i| g.score_move(player, i)).collect()
}

impl Game {
    /// Scores every cell of the board for `player`, one evaluation per cell
    /// run concurrently: occupied cells get the minimal sentinel; each empty
    /// cell gets the exact game value after playing there. Every parallel
    /// branch owns a private board clone and a private transposition cache,
    /// so the scores do not depend on the thread schedule.
    pub fn score_all_moves(&self, player: i8) -> (r: Vec<i8>)
        requires
            self.wf(),
            is_player(player),
        ensures
            r@.len() == self.size * self.size,
            forall|i: int| 0 <= i < r@.len() ==> #[trigger] r@[i] as int == cell_score(
                self.board@, self.n(), player, i),
    {
        par_scores(self, player)
    }

    /// Picks the legal cell with the highest score; ties go to the lowest
    /// index. Asking for a move when no legal one exists is a programming
    /// error, excluded by precondition.
    pub fn best_move(&self, scores: &Vec<i8>) -> (r: usize)
        requires
            self.wf(),
            scores@.len() == self.size * self.size,
            exists|i: int| 0 <= i < self.board@.len() && self.board@[i] == 0,
        ensures
            r < self.size * self.size,
            self.board@[r as int] == 0,
            forall|j: int| 0 <= j < scores@.len() && self.board@[j] == 0 ==> scores@[j]
                <= scores@[r as int],
            forall|j: int| 0 <= j < r && self.board@[j] == 0 ==> scores@[j] < scores@[r as int],
    {
        proof {
            lemma_grid_index(self.n(), 0, 0);
        }
        let n2 = self.size * self.size;
        proof {
            assert(self.board@.len() == n2);
        }
        let mut best: usize = 0;
        let mut found = false;
        let mut i: usize = 0;
        while i < n2
            invariant
                self.wf(),
                n2 == self.size * self.size,
                self.board@.len() == n2,
                scores@.len() == n2,
                i <= n2,
                !found ==> forall|j: int| 0 <= j < i ==> self.board@[j] != 0,
                found ==> best < i && self.board@[best as int] == 0,
                found ==> forall|j: int| 0 <= j < i && self.board@[j] == 0 ==> scores@[j]
                    <= scores@[best as int],
                found ==> forall|j: int| 0 <= j < best && self.board@[j] == 0 ==> scores@[j]
                    < scores@[best as int],
            decreases n2 - i,
        {
            if self.board[i] == 0 {
                if !found || scores[i] > scores[best] {
                    best = i;
                    found = true;
                }
            }
            i += 1;
        }
        proof {
            let i0 = choose|j: int| 0 <= j < self.board@.len() && self.board@[j] == 0;
            assert(found);
        }
        best
    }
}

/// Determinism of the move scorer: its contract pins the whole score
/// sequence as a function of board and player alone, so two runs from the
/// same position agree, whatever the thread schedule did in each.
pub proof fn lemma_scores_deterministic(r1: Seq<i8>, r2: Seq<i8>, s: Seq<i8>, n: int, player: i8)
    requires
        r1.len() == n * n,
        r2.len() == n * n,
        forall|i: int| 0 <= i < r1.len() ==> #[trigger] r1[i] as int == cell_score(s, n, player, i),
        forall|i: int| 0 <= i < r2.len() ==> #[trigger] r2[i] as int == cell_score(s, n, player, i),
    ensures
        r1 == r2,
{
    assert forall|i: int| 0 <= i < r1.len() implies r1[i] == r2[i] by {
        assert(r1[i] as int == r2[i] as int);
    }
    assert(r1 =~= r2);
}

/// Alpha-beta equivalence: under a window the score range cannot escape, the
/// pruned search's fail-soft contract forces the exact minimax value, which
/// is what the plain unpruned walk returns.
pub proof fn lemma_alpha_beta_equivalence(
    s: Seq<i8>,
    n: int,
    player: i8,
    maximizing: bool,
    r_pruned: int,
    r_plain: int,
    alpha: int,
    beta: int,
)
    requires
        alpha < -1,
        beta > 1,
        value(s, n, player, maximizing) <= alpha ==> r_pruned <= alpha,
        value(s, n, player, maximizing) >= beta ==> r_pruned >= beta,
        alpha < value(s, n, player, maximizing) < beta ==> r_pruned == value(s, n, player,
            maximizing),
        r_plain == value(s, n, player, maximizing),
    ensures
        r_pruned == r_plain,
{
    lemma_value_d_bounds(s, n, player, maximizing, count_empty(s));
}

} // verus!
