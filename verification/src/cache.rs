//! The transposition cache: a map from an exact board configuration to a
//! previously computed search score. Boards are packed injectively into
//! 64-bit keys, one base-3 digit per cell behind a leading sentinel digit.

use vstd::prelude::*;
use std::collections::HashMap;
use crate::board::valid_cells;

verus! {

broadcast use vstd::std_specs::hash::group_hash_axioms;

/// Powers of three.
pub open spec fn pow3(k: nat) -> nat
    decreases k,
{
    if k == 0 {
        1
    } else {
        3 * pow3((k - 1) as nat)
    }
}

/// The base-3 digit a cell mark contributes to a board key.
pub open spec fn digit_of(v: i8) -> nat {
    if v == 1 {
        1
    } else if v == 2 {
        2
    } else {
        0
    }
}

/// The key of a board: its cells as base-3 digits behind a leading 1, so
/// that boards of different lengths can never share a key.
pub open spec fn board_key(s: Seq<i8>) -> nat
    decreases s.len(),
{
    if s.len() == 0 {
        1
    } else {
        3 * board_key(s.drop_last()) + digit_of(s.last())
    }
}

/// Powers of three are positive.
pub proof fn lemma_pow3_pos(k: nat)
    ensures
        pow3(k) >= 1,
    decreases k,
{
    if k > 0 {
        lemma_pow3_pos((k - 1) as nat);
    }
}

/// Powers of three grow with the exponent.
pub proof fn lemma_pow3_mono(j: nat, k: nat)
    requires
        j <= k,
    ensures
        pow3(j) <= pow3(k),
    decreases k,
{
    if j < k {
        lemma_pow3_mono(j, (k - 1) as nat);
        lemma_pow3_pos((k - 1) as nat);
    }
}

/// A board key lies in the length-specific band [3^len, 2 * 3^len).
pub proof fn lemma_board_key_bounds(s: Seq<i8>)
    ensures
        pow3(s.len()) <= board_key(s) < 2 * pow3(s.len()),
    decreases s.len(),
{
    if s.len() > 0 {
        lemma_board_key_bounds(s.drop_last());
    }
}

/// 3^36 as a number: enough for any board of up to 36 cells to fit its key
/// in a u64.
pub proof fn lemma_pow3_36()
    ensures
        pow3(36) == 150094635296999121,
{
    assert(pow3(0) == 1);
    assert(pow3(1) == 3);
    assert(pow3(2) == 9);
    assert(pow3(3) == 27);
    assert(pow3(4) == 81);
    assert(pow3(5) == 243);
    assert(pow3(6) == 729);
    assert(pow3(7) == 2187);
    assert(pow3(8) == 6561);
    assert(pow3(9) == 19683);
    assert(pow3(10) == 59049);
    assert(pow3(11) == 177147);
    assert(pow3(12) == 531441);
    assert(pow3(13) == 1594323);
    assert(pow3(14) == 4782969);
    assert(pow3(15) == 14348907);
    assert(pow3(16) == 43046721);
    assert(pow3(17) == 129140163);
    assert(pow3(18) == 387420489);
    assert(pow3(19) == 1162261467);
    assert(pow3(20) == 3486784401);
    assert(pow3(21) == 10460353203);
    assert(pow3(22) == 31381059609);
    assert(pow3(23) == 94143178827);
    assert(pow3(24) == 282429536481);
    assert(pow3(25) == 847288609443);
    assert(pow3(26) == 2541865828329);
    assert(pow3(27) == 7625597484987);
    assert(pow3(28) == 22876792454961);
    assert(pow3(29) == 68630377364883);
    assert(pow3(30) == 205891132094649);
    assert(pow3(31) == 617673396283947);
    assert(pow3(32) == 1853020188851841);
    assert(pow3(33) == 5559060566555523);
    assert(pow3(34) == 16677181699666569);
    assert(pow3(35) == 50031545098999707);
    assert(pow3(36) == 150094635296999121);
}

/// Keys of boards with up to 36 cells fit in a u64.
pub proof fn lemma_board_key_fits(s: Seq<i8>)
    requires
        s.len() <= 36,
    ensures
        board_key(s) < 0x8000_0000_0000_0000,
{
    lemma_board_key_bounds(s);
    lemma_pow3_mono(s.len(), 36);
    lemma_pow3_36();
}

/// Distinct boards of valid cells have distinct keys.
pub proof fn lemma_board_key_injective(a: Seq<i8>, b: Seq<i8>)
    requires
        valid_cells(a),
        valid_cells(b),
        board_key(a) == board_key(b),
    ensures
        a == b,
    decreases a.len(),
{
    lemma_board_key_bounds(a);
    lemma_board_key_bounds(b);
    if a.len() < b.len() {
        lemma_pow3_mono(a.len() + 1, b.len());
        lemma_pow3_pos(a.len());
        assert(false);
    }
    if b.len() < a.len() {
        lemma_pow3_mono(b.len() + 1, a.len());
        lemma_pow3_pos(b.len());
        assert(false);
    }
    if a.len() == 0 {
        assert(a =~= b);
    } else {
        assert(a.last() == 0 || a.last() == 1 || a.last() == 2);
        assert(b.last() == 0 || b.last() == 1 || b.last() == 2);
        assert(digit_of(a.last()) == digit_of(b.last())
            && board_key(a.drop_last()) == board_key(b.drop_last()));
        assert(a.last() == b.last());
        assert(valid_cells(a.drop_last()));
        assert(valid_cells(b.drop_last()));
        lemma_board_key_injective(a.drop_last(), b.drop_last());
        assert forall|i: int| 0 <= i < a.len() implies a[i] == b[i] by {
            if i < a.len() - 1 {
                assert(a[i] == a.drop_last()[i]);
                assert(b[i] == b.drop_last()[i]);
            }
        }
        assert(a =~= b);
    }
}

/// Computes the key of a board.
fn encode_board(b: &Vec<i8>) -> (k: u64)
    requires
        valid_cells(b@),
        b@.len() <= 36,
    ensures
        k as nat == board_key(b@),
{
    proof {
        lemma_pow3_36();
    }
    let mut k: u64 = 1;
    let mut i: usize = 0;
    while i < b.len()
        invariant
            valid_cells(b@),
            b@.len() <= 36,
            i <= b@.len(),
            k as nat == board_key(b@.take(i as int)),
            pow3(36) == 150094635296999121,
        decreases b@.len() - i,
    {
        proof {
            assert(b@.take(i + 1).drop_last() =~= b@.take(i as int));
            assert(b@.take(i + 1).last() == b@[i as int]);
            lemma_board_key_bounds(b@.take(i as int));
            lemma_pow3_mono(i as nat, 36);
        }
        let c = b[i];
        let d: u64 = if c == 1 { 1 } else if c == 2 { 2 } else { 0 };
        proof {
            assert(d as nat == digit_of(b@[i as int]));
        }
        k = 3 * k + d;
        i += 1;
    }
    proof {
        assert(b@.take(b@.len() as int) =~= b@);
    }
    k
}

/// The transposition cache: board configuration to memoized search score.
/// It only grows; an insert for a board already present overwrites.
pub struct TransCache {
    pub table: HashMap<u64, i8>,
}

impl TransCache {
    /// The cache holds an entry for this board.
    pub open spec fn spec_contains(&self, s: Seq<i8>) -> bool {
        self.table@.contains_key(board_key(s) as u64)
    }

    /// The entry stored for this board.
    pub open spec fn spec_get(&self, s: Seq<i8>) -> i8 {
        self.table@[board_key(s) as u64]
    }

    /// An empty cache.
    pub fn new() -> (c: TransCache)
        ensures
            forall|s: Seq<i8>| !(#[trigger] c.spec_contains(s)),
    {
        TransCache { table: HashMap::new() }
    }

    /// Pure lookup: the stored score for exactly this board, if present.
    pub fn get(&self, b: &Vec<i8>) -> (r: Option<i8>)
        requires
            valid_cells(b@),
            b@.len() <= 36,
        ensures
            r == if self.spec_contains(b@) {
                Some(self.spec_get(b@))
            } else {
                None::<i8>
            },
    {
        let k = encode_board(b);
        match self.table.get(&k) {
            Some(v) => Some(*v),
            None => None,
        }
    }

    /// Insert-or-overwrite: records the score for exactly this board and
    /// leaves every other board's entry untouched.
    pub fn put(&mut self, b: &Vec<i8>, score: i8)
        requires
            valid_cells(b@),
            b@.len() <= 36,
        ensures
            final(self).spec_contains(b@),
            final(self).spec_get(b@) == score,
            forall|t: Seq<i8>|
                valid_cells(t) && t.len() <= 36 && t != b@ ==> {
                    &&& #[trigger] final(self).spec_contains(t) == old(self).spec_contains(t)
                    &&& (old(self).spec_contains(t) ==> final(self).spec_get(t) == old(
                        self,
                    ).spec_get(t))
                },
    {
        let k = encode_board(b);
        self.table.insert(k, score);
        proof {
            assert forall|t: Seq<i8>| valid_cells(t) && t.len() <= 36 && t != b@
                implies board_key(t) as u64 != board_key(b@) as u64 by {
                lemma_board_key_fits(t);
                lemma_board_key_fits(b@);
                if board_key(t) == board_key(b@) {
                    lemma_board_key_injective(t, b@);
                }
            }
        }
    }
}

} // verus!
