//! Board state and terminal-state detection: an N x N grid of cell marks,
//! queries for move legality, and the winner/draw/ongoing classification.

use vstd::prelude::*;
use vstd::pervasive::VecAdditionalExecFns;

verus! {

/// A cell mark is 0 (empty) or one of the two player marks, 1 and 2.
pub open spec fn is_player(p: i8) -> bool {
    p == 1 || p == 2
}

/// The other player.
pub open spec fn opponent_of(p: i8) -> i8 {
    if p == 1 { 2i8 } else { 1i8 }
}

pub fn opponent(p: i8) -> (r: i8)
    requires
        is_player(p),
    ensures
        r == opponent_of(p),
        is_player(r),
{
    if p == 1 { 2 } else { 1 }
}

/// Every cell is empty or a player mark.
pub open spec fn valid_cells(s: Seq<i8>) -> bool {
    forall|i: int| 0 <= i < s.len() ==> s[i] == 0 || is_player(#[trigger] s[i])
}

/// A well-formed board of side length `n`: exactly n*n cells, each empty or a
/// player mark, addressed by the linear index `row * n + col`.
pub open spec fn valid_board(s: Seq<i8>, n: int) -> bool {
    &&& s.len() == n * n
    &&& valid_cells(s)
}

/// How a board stands: still being played, drawn, or won by a player.
#[derive(Clone, Copy, PartialEq, Eq, Structural, Debug)]
pub enum Outcome {
    Ongoing,
    Draw,
    Win(i8),
}

/// The mark at row `r`, column `c` of a board of side `n`.
pub open spec fn cell_at(s: Seq<i8>, n: int, r: int, c: int) -> i8 {
    s[r * n + c]
}

/// The mark at position `d` of the anti-diagonal (top-right to bottom-left).
pub open spec fn anti_cell(s: Seq<i8>, n: int, d: int) -> i8 {
    s[d * n + (n - 1) - d]
}

/// Row `r` is completely filled with one player's mark.
pub open spec fn row_won(s: Seq<i8>, n: int, r: int) -> bool {
    &&& cell_at(s, n, r, 0) != 0
    &&& forall|c: int| 0 <= c < n ==> #[trigger] cell_at(s, n, r, c) == cell_at(s, n, r, 0)
}

/// Column `c` is completely filled with one player's mark.
pub open spec fn col_won(s: Seq<i8>, n: int, c: int) -> bool {
    &&& cell_at(s, n, 0, c) != 0
    &&& forall|r: int| 0 <= r < n ==> #[trigger] cell_at(s, n, r, c) == cell_at(s, n, 0, c)
}

/// The main diagonal is completely filled with one player's mark.
pub open spec fn diag_won(s: Seq<i8>, n: int) -> bool {
    &&& cell_at(s, n, 0, 0) != 0
    &&& forall|d: int| 0 <= d < n ==> #[trigger] cell_at(s, n, d, d) == cell_at(s, n, 0, 0)
}

/// The anti-diagonal is completely filled with one player's mark.
pub open spec fn anti_diag_won(s: Seq<i8>, n: int) -> bool {
    &&& anti_cell(s, n, 0) != 0
    &&& forall|d: int| 0 <= d < n ==> #[trigger] anti_cell(s, n, d) == anti_cell(s, n, 0)
}

/// No cell is empty.
pub open spec fn board_full(s: Seq<i8>) -> bool {
    forall|i: int| 0 <= i < s.len() ==> s[i] != 0
}

/// The first winning row at index `r` or beyond, scanning upward.
pub open spec fn row_scan(s: Seq<i8>, n: int, r: int) -> Option<i8>
    decreases n - r,
{
    if r < 0 || r >= n {
        None
    } else if row_won(s, n, r) {
        Some(cell_at(s, n, r, 0))
    } else {
        row_scan(s, n, r + 1)
    }
}

/// The first winning column at index `c` or beyond, scanning upward.
pub open spec fn col_scan(s: Seq<i8>, n: int, c: int) -> Option<i8>
    decreases n - c,
{
    if c < 0 || c >= n {
        None
    } else if col_won(s, n, c) {
        Some(cell_at(s, n, 0, c))
    } else {
        col_scan(s, n, c + 1)
    }
}

/// The outcome of a board, checking rows, then columns, then the main
/// diagonal, then the anti-diagonal, then fullness; the first match decides.
pub open spec fn spec_winner(s: Seq<i8>, n: int) -> Outcome {
    match row_scan(s, n, 0) {
        Some(p) => Outcome::Win(p),
        None => match col_scan(s, n, 0) {
            Some(p) => Outcome::Win(p),
            None => if diag_won(s, n) {
                Outcome::Win(cell_at(s, n, 0, 0))
            } else if anti_diag_won(s, n) {
                Outcome::Win(anti_cell(s, n, 0))
            } else if board_full(s) {
                Outcome::Draw
            } else {
                Outcome::Ongoing
            },
        },
    }
}

/// Cell indices on a board of side `n` stay within the grid.
pub proof fn lemma_grid_index(n: int, r: int, c: int)
    requires
        0 <= r < n,
        0 <= c < n,
    ensures
        0 <= r * n + c < n * n,
        n <= 6 ==> n * n <= 36,
{
    assert(0 <= r * n + c < n * n) by (nonlinear_arith)
        requires
            0 <= r < n,
            0 <= c < n,
    ;
    assert(n <= 6 ==> n * n <= 36) by (nonlinear_arith)
        requires
            0 < n,
    ;
}

/// The score of a terminal outcome, relative to the player who just acted and
/// the maximizing flag in force when they acted: a draw is 0; a win for the
/// acting player is +1 from a maximizing perspective and -1 from a minimizing
/// one; a win for the other player is the opposite.
pub open spec fn spec_score_terminal(outcome: Outcome, acting_player: i8, maximizing: bool) -> i8 {
    match outcome {
        Outcome::Draw => 0i8,
        Outcome::Win(w) => if w == acting_player {
            if maximizing { 1i8 } else { -1i8 }
        } else {
            if maximizing { -1i8 } else { 1i8 }
        },
        Outcome::Ongoing => 0i8,
    }
}

/// Converts a terminal outcome into a signed score. Calling this with an
/// ongoing outcome is a programming error, so it is excluded by precondition.
pub fn score_terminal(outcome: Outcome, acting_player: i8, maximizing: bool) -> (r: i8)
    requires
        outcome != Outcome::Ongoing,
    ensures
        r == spec_score_terminal(outcome, acting_player, maximizing),
        -1 <= r <= 1,
{
    match outcome {
        Outcome::Draw => 0,
        Outcome::Win(w) => {
            if w == acting_player {
                if maximizing { 1 } else { -1 }
            } else {
                if maximizing { -1 } else { 1 }
            }
        },
        Outcome::Ongoing => 0,
    }
}

/// Flipping the maximizing perspective negates a terminal score; a draw stays 0.
pub proof fn lemma_score_terminal_antisymmetric(outcome: Outcome, acting_player: i8)
    requires
        outcome != Outcome::Ongoing,
    ensures
        spec_score_terminal(outcome, acting_player, true) as int
            == -(spec_score_terminal(outcome, acting_player, false) as int),
        outcome == Outcome::Draw ==> spec_score_terminal(outcome, acting_player, true) == 0,
{
}

/// The game engine's board: a flat grid of `size * size` cell marks.
pub struct Game {
    pub size: usize,
    pub board: Vec<i8>,
}

impl Game {
    /// The side length as a mathematical integer.
    pub open spec fn n(&self) -> int {
        self.size as int
    }

    /// Well-formed: a small side length and a valid grid. The bound of 6
    /// keeps every board encodable as a 64-bit transposition-cache key
    /// (one base-3 digit per cell).
    pub open spec fn wf(&self) -> bool {
        &&& 1 <= self.size <= 6
        &&& valid_board(self.board@, self.size as int)
    }

    /// An empty board of the given side length.
    pub fn new(size: usize) -> (g: Game)
        requires
            1 <= size <= 6,
        ensures
            g.wf(),
            g.size == size,
            g.board@.len() == size * size,
            forall|i: int| 0 <= i < g.board@.len() ==> g.board@[i] == 0,
    {
        proof {
            lemma_grid_index(size as int, 0, 0);
        }
        let n2 = size * size;
        let mut board: Vec<i8> = Vec::new();
        let mut i: usize = 0;
        while i < n2
            invariant
                i <= n2,
                board@.len() == i,
                forall|j: int| 0 <= j < i ==> board@[j] == 0,
            decreases n2 - i,
        {
            board.push(0);
            i += 1;
        }
        Game { size, board }
    }

    /// A copy of the cell marks.
    pub fn get_board_state(&self) -> (r: Vec<i8>)
        ensures
            r@ == self.board@,
    {
        let mut r: Vec<i8> = Vec::new();
        let mut i: usize = 0;
        while i < self.board.len()
            invariant
                i <= self.board@.len(),
                r@ == self.board@.take(i as int),
            decreases self.board@.len() - i,
        {
            r.push(self.board[i]);
            proof {
                assert(self.board@.take(i + 1) =~= self.board@.take(i as int).push(self.board@[i as int]));
            }
            i += 1;
        }
        proof {
            assert(self.board@.take(self.board@.len() as int) =~= self.board@);
        }
        r
    }

    /// True iff the cell at `pos` is empty.
    pub fn is_legal(&self, pos: usize) -> (r: bool)
        requires
            self.wf(),
            pos < self.size * self.size,
        ensures
            r == (self.board@[pos as int] == 0),
    {
        self.board[pos] == 0
    }

    /// Writes `player` at `pos`. Legality is the caller's responsibility:
    /// an occupied cell is silently overwritten, which corrupts the game
    /// state rather than reporting an error.
    pub fn apply_move(&mut self, pos: usize, player: i8)
        requires
            old(self).wf(),
            pos < old(self).size * old(self).size,
            is_player(player),
        ensures
            final(self).size == old(self).size,
            final(self).board@ == old(self).board@.update(pos as int, player),
            final(self).wf(),
    {
        self.board.set(pos, player);
    }

    /// The empty cell indices, in ascending order.
    pub fn legal_moves(&self) -> (r: Vec<usize>)
        requires
            self.wf(),
        ensures
            forall|k: int| 0 <= k < r@.len() ==>
                #[trigger] r@[k] < self.size * self.size && self.board@[r@[k] as int] == 0,
            forall|i: int| 0 <= i < self.size * self.size && self.board@[i] == 0 ==>
                exists|k: int| 0 <= k < r@.len() && #[trigger] r@[k] == i,
            forall|k1: int, k2: int| 0 <= k1 < k2 < r@.len() ==> r@[k1] < r@[k2],
    {
        proof {
            lemma_grid_index(self.n(), 0, 0);
        }
        let n2 = self.size * self.size;
        let mut r: Vec<usize> = Vec::new();
        let mut i: usize = 0;
        while i < n2
            invariant
                self.wf(),
                n2 == self.size * self.size,
                i <= n2,
                forall|k: int| 0 <= k < r@.len() ==>
                    #[trigger] r@[k] < i && self.board@[r@[k] as int] == 0,
                forall|j: int| 0 <= j < i && self.board@[j] == 0 ==>
                    exists|k: int| 0 <= k < r@.len() && #[trigger] r@[k] == j,
                forall|k1: int, k2: int| 0 <= k1 < k2 < r@.len() ==> r@[k1] < r@[k2],
            decreases n2 - i,
        {
            proof {
                assert(self.board@.len() == self.n() * self.n());
            }
            let ghost rpre = r@;
            if self.board[i] == 0 {
                r.push(i);
                proof {
                    assert(r@[r@.len() - 1] == i);
                    assert forall|j: int| 0 <= j < i + 1 && self.board@[j] == 0
                        implies exists|k: int| 0 <= k < r@.len() && #[trigger] r@[k] == j by {
                        if j == i {
                            assert(r@[r@.len() - 1] == j);
                        } else {
                            let k0 = choose|k: int| 0 <= k < rpre.len() && #[trigger] rpre[k] == j;
                            assert(r@[k0] == j);
                        }
                    }
                }
            }
            i += 1;
        }
        r
    }

    /// True iff row `r` is completely filled with one player's mark.
    fn row_is_won(&self, r: usize) -> (b: bool)
        requires
            self.wf(),
            r < self.size,
        ensures
            b == row_won(self.board@, self.n(), r as int),
    {
        let n = self.size;
        proof {
            lemma_grid_index(n as int, r as int, 0);
        }
        let player = self.board[r * n];
        let mut has_won = true;
        let mut c: usize = 0;
        while c < n
            invariant
                self.wf(),
                n == self.size,
                r < n,
                c <= n,
                player == cell_at(self.board@, n as int, r as int, 0),
                has_won == forall|k: int| 0 <= k < c ==>
                    #[trigger] cell_at(self.board@, n as int, r as int, k) == player,
            decreases n - c,
        {
            proof {
                lemma_grid_index(n as int, r as int, c as int);
            }
            let cur = self.board[r * n + c];
            proof {
                assert(cell_at(self.board@, n as int, r as int, c as int) == cur);
            }
            has_won = has_won && cur == player;
            c += 1;
        }
        player != 0 && has_won
    }

    /// True iff column `c` is completely filled with one player's mark.
    fn col_is_won(&self, c: usize) -> (b: bool)
        requires
            self.wf(),
            c < self.size,
        ensures
            b == col_won(self.board@, self.n(), c as int),
    {
        let n = self.size;
        proof {
            lemma_grid_index(n as int, 0, c as int);
        }
        let player = self.board[c];
        let mut has_won = true;
        let mut r: usize = 0;
        while r < n
            invariant
                self.wf(),
                n == self.size,
                c < n,
                r <= n,
                player == cell_at(self.board@, n as int, 0, c as int),
                has_won == forall|k: int| 0 <= k < r ==>
                    #[trigger] cell_at(self.board@, n as int, k, c as int) == player,
            decreases n - r,
        {
            proof {
                lemma_grid_index(n as int, r as int, c as int);
            }
            let cur = self.board[r * n + c];
            proof {
                assert(cell_at(self.board@, n as int, r as int, c as int) == cur);
            }
            has_won = has_won && cur == player;
            r += 1;
        }
        player != 0 && has_won
    }

    /// True iff the main diagonal is completely filled with one player's mark.
    fn diag_is_won(&self) -> (b: bool)
        requires
            self.wf(),
        ensures
            b == diag_won(self.board@, self.n()),
    {
        let n = self.size;
        proof {
            lemma_grid_index(n as int, 0, 0);
        }
        let player = self.board[0];
        let mut has_won = true;
        let mut d: usize = 0;
        while d < n
            invariant
                self.wf(),
                n == self.size,
                d <= n,
                player == cell_at(self.board@, n as int, 0, 0),
                has_won == forall|k: int| 0 <= k < d ==>
                    #[trigger] cell_at(self.board@, n as int, k, k) == player,
            decreases n - d,
        {
            proof {
                lemma_grid_index(n as int, d as int, d as int);
            }
            let cur = self.board[d * n + d];
            proof {
                assert(cell_at(self.board@, n as int, d as int, d as int) == cur);
            }
            has_won = has_won && cur == player;
            d += 1;
        }
        player != 0 && has_won
    }

    /// True iff the anti-diagonal is completely filled with one player's mark.
    fn anti_diag_is_won(&self) -> (b: bool)
        requires
            self.wf(),
        ensures
            b == anti_diag_won(self.board@, self.n()),
    {
        let n = self.size;
        proof {
            lemma_grid_index(n as int, 0, n as int - 1);
        }
        let player = self.board[n - 1];
        let mut has_won = true;
        let mut d: usize = 0;
        while d < n
            invariant
                self.wf(),
                n == self.size,
                d <= n,
                player == anti_cell(self.board@, n as int, 0),
                has_won == forall|k: int| 0 <= k < d ==>
                    #[trigger] anti_cell(self.board@, n as int, k) == player,
            decreases n - d,
        {
            proof {
                lemma_grid_index(n as int, d as int, (n - 1 - d) as int);
            }
            let cur = self.board[d * n + (n - 1) - d];
            proof {
                assert(anti_cell(self.board@, n as int, d as int) == cur);
            }
            has_won = has_won && cur == player;
            d += 1;
        }
        player != 0 && has_won
    }

    /// True iff no cell is empty.
    fn is_full(&self) -> (b: bool)
        requires
            self.wf(),
        ensures
            b == board_full(self.board@),
    {
        let mut full = true;
        let mut i: usize = 0;
        while i < self.board.len()
            invariant
                i <= self.board@.len(),
                full == forall|k: int| 0 <= k < i ==> self.board@[k] != 0,
            decreases self.board@.len() - i,
        {
            full = full && self.board[i] != 0;
            i += 1;
        }
        full
    }

    /// Classifies the board: the first completely marked row, column, main
    /// diagonal or anti-diagonal (in that scan order) wins; otherwise a full
    /// board is a draw and anything else is ongoing.
    pub fn winner(&self) -> (r: Outcome)
        requires
            self.wf(),
        ensures
            r == spec_winner(self.board@, self.n()),
    {
        let ghost s = self.board@;
        let ghost n = self.n();
        let size = self.size;

        let mut row: usize = 0;
        while row < size
            invariant
                self.wf(),
                size == self.size,
                s == self.board@,
                n == self.n(),
                row <= size,
                row_scan(s, n, 0) == row_scan(s, n, row as int),
            decreases size - row,
        {
            if self.row_is_won(row) {
                proof {
                    lemma_grid_index(n, row as int, 0);
                }
                return Outcome::Win(self.board[row * size]);
            }
            proof {
                assert(row_scan(s, n, row as int) == row_scan(s, n, row as int + 1));
            }
            row += 1;
        }
        proof {
            assert(row_scan(s, n, 0) is None);
        }

        let mut col: usize = 0;
        while col < size
            invariant
                self.wf(),
                size == self.size,
                s == self.board@,
                n == self.n(),
                col <= size,
                row_scan(s, n, 0) is None,
                col_scan(s, n, 0) == col_scan(s, n, col as int),
            decreases size - col,
        {
            if self.col_is_won(col) {
                proof {
                    lemma_grid_index(n, 0, col as int);
                }
                return Outcome::Win(self.board[col]);
            }
            proof {
                assert(col_scan(s, n, col as int) == col_scan(s, n, col as int + 1));
            }
            col += 1;
        }
        proof {
            assert(col_scan(s, n, 0) is None);
        }

        if self.diag_is_won() {
            proof {
                lemma_grid_index(n, 0, 0);
            }
            return Outcome::Win(self.board[0]);
        }
        if self.anti_diag_is_won() {
            proof {
                lemma_grid_index(n, 0, n - 1);
            }
            return Outcome::Win(self.board[size - 1]);
        }
        if self.is_full() {
            return Outcome::Draw;
        }
        Outcome::Ongoing
    }
}

/// Scan characterization: a scan from `r` finds a winning row at or past `r`
/// exactly when one exists, and reports that row's mark.
pub proof fn lemma_row_scan_char(s: Seq<i8>, n: int, r: int)
    requires
        0 <= r,
    ensures
        match row_scan(s, n, r) {
            Option::None => forall|k: int| r <= k < n ==> !row_won(s, n, k),
            Option::Some(q) => exists|k: int| r <= k < n && #[trigger] row_won(s, n, k)
                && q == cell_at(s, n, k, 0),
        },
    decreases n - r,
{
    if r >= n {
    } else if row_won(s, n, r) {
    } else {
        lemma_row_scan_char(s, n, r + 1);
    }
}

/// Scan characterization for columns, as for rows.
pub proof fn lemma_col_scan_char(s: Seq<i8>, n: int, c: int)
    requires
        0 <= c,
    ensures
        match col_scan(s, n, c) {
            Option::None => forall|k: int| c <= k < n ==> !col_won(s, n, k),
            Option::Some(q) => exists|k: int| c <= k < n && #[trigger] col_won(s, n, k)
                && q == cell_at(s, n, 0, k),
        },
    decreases n - c,
{
    if c >= n {
    } else if col_won(s, n, c) {
    } else {
        lemma_col_scan_char(s, n, c + 1);
    }
}

/// A completely filled board with no winning line is a draw.
pub proof fn lemma_full_without_line_is_draw(s: Seq<i8>, n: int)
    requires
        valid_board(s, n),
        1 <= n,
        board_full(s),
        forall|r: int| 0 <= r < n ==> !row_won(s, n, r),
        forall|c: int| 0 <= c < n ==> !col_won(s, n, c),
        !diag_won(s, n),
        !anti_diag_won(s, n),
    ensures
        spec_winner(s, n) == Outcome::Draw,
{
    lemma_row_scan_char(s, n, 0);
    lemma_col_scan_char(s, n, 0);
    if row_scan(s, n, 0) is Some {
        assert(false);
    }
    if col_scan(s, n, 0) is Some {
        assert(false);
    }
}

/// A board on which some line is completely marked is won, and when every
/// completely marked line belongs to the one player `p`, the winner is `p`.
pub proof fn lemma_uniform_line_wins(s: Seq<i8>, n: int, p: i8)
    requires
        valid_board(s, n),
        1 <= n,
        is_player(p),
        (exists|r: int| 0 <= r < n && #[trigger] row_won(s, n, r))
            || (exists|c: int| 0 <= c < n && #[trigger] col_won(s, n, c))
            || diag_won(s, n)
            || anti_diag_won(s, n),
        forall|r: int| 0 <= r < n && #[trigger] row_won(s, n, r) ==> cell_at(s, n, r, 0) == p,
        forall|c: int| 0 <= c < n && #[trigger] col_won(s, n, c) ==> cell_at(s, n, 0, c) == p,
        diag_won(s, n) ==> cell_at(s, n, 0, 0) == p,
        anti_diag_won(s, n) ==> anti_cell(s, n, 0) == p,
    ensures
        spec_winner(s, n) == Outcome::Win(p),
{
    lemma_row_scan_char(s, n, 0);
    lemma_col_scan_char(s, n, 0);
    match row_scan(s, n, 0) {
        Option::Some(q) => {
            assert(q == p);
        },
        Option::None => {
            match col_scan(s, n, 0) {
                Option::Some(q) => {
                    assert(q == p);
                },
                Option::None => {
                },
            }
        },
    }
}

} // verus!
