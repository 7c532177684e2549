//! Transitions seen in a sequence of winning squares, the training data of
//! the second-order Markov model.

use crate::seqs::SQUARES;
use vstd::prelude::*;

verus! {

/// The window of three consecutive entries starting at `i`.
pub open spec fn window3(seq: Seq<usize>, i: int) -> (usize, usize, usize) {
    (seq[i], seq[i + 1], seq[i + 2])
}

/// A window whose three entries are board squares.
pub open spec fn on_board(w: (usize, usize, usize)) -> bool {
    w.0 < SQUARES && w.1 < SQUARES && w.2 < SQUARES
}

/// The windows of three consecutive entries among the first `n + 2`
/// entries of `seq`, in order, keeping those made of board squares.
pub open spec fn board_windows(seq: Seq<usize>, n: int) -> Seq<(usize, usize, usize)>
    decreases n,
{
    if n <= 0 {
        Seq::empty()
    } else {
        let rest = board_windows(seq, n - 1);
        let w = window3(seq, n - 1);
        if on_board(w) {
            rest.push(w)
        } else {
            rest
        }
    }
}

/// The positions of the windows `board_windows(seq, n)` keeps, in order.
proof fn lemma_board_window_positions(seq: Seq<usize>, n: int) -> (idx: Seq<int>)
    requires
        0 <= n,
        n + 2 <= seq.len(),
    ensures
        idx.len() == board_windows(seq, n).len(),
        forall|k: int|
            0 <= k < idx.len() ==> 0 <= #[trigger] idx[k] < n && board_windows(seq, n)[k]
                == window3(seq, idx[k]) && on_board(window3(seq, idx[k])),
        forall|k: int, l: int| 0 <= k < l < idx.len() ==> idx[k] < idx[l],
        forall|i: int| 0 <= i < n && on_board(window3(seq, i)) ==> idx.contains(i),
    decreases n,
{
    if n == 0 {
        Seq::empty()
    } else {
        let prev = lemma_board_window_positions(seq, n - 1);
        if on_board(window3(seq, n - 1)) {
            let idx = prev.push(n - 1);
            assert forall|i: int| 0 <= i < n && on_board(window3(seq, i)) implies idx.contains(i) by {
                if i < n - 1 {
                    assert(prev.contains(i));
                    let q = choose|q: int| 0 <= q < prev.len() && prev[q] == i;
                    assert(idx[q] == i);
                } else {
                    assert(idx[prev.len() as int] == i);
                }
            }
            idx
        } else {
            assert forall|i: int| 0 <= i < n && on_board(window3(seq, i)) implies prev.contains(i) by {
                if i == n - 1 {
                } else {
                }
            }
            prev
        }
    }
}

/// The transitions of a sequence of at least three squares are exactly its
/// windows of three consecutive entries that lie on the board, one for each
/// such starting position, in the order of those positions: every window
/// `(seq[i], seq[i + 1], seq[i + 2])` with all three entries below 25 is
/// there, and nothing else.
pub proof fn law_context_transitions(seq: Seq<usize>)
    requires
        seq.len() >= 3,
    ensures
        exists|idx: Seq<int>|
            {
                let t = board_windows(seq, seq.len() - 2);
                &&& #[trigger] idx.len() == t.len()
                &&& forall|k: int|
                    0 <= k < idx.len() ==> 0 <= idx[k] && idx[k] + 2 < seq.len()
                        && t[k] == (seq[idx[k]], seq[idx[k] + 1], seq[idx[k] + 2])
                        && seq[idx[k]] < 25 && seq[idx[k] + 1] < 25 && seq[idx[k] + 2] < 25
                &&& forall|k: int, l: int| 0 <= k < l < idx.len() ==> idx[k] < idx[l]
                &&& forall|i: int|
                    0 <= i && i + 2 < seq.len() && seq[i] < 25 && seq[i + 1] < 25 && seq[i
                        + 2] < 25 ==> idx.contains(i)
            },
{
    let n = seq.len() - 2;
    let idx = lemma_board_window_positions(seq, n);
    let t = board_windows(seq, n);
    assert forall|i: int|
        0 <= i && i + 2 < seq.len() && seq[i] < 25 && seq[i + 1] < 25 && seq[i + 2] < 25
            implies idx.contains(i) by {
        assert(on_board(window3(seq, i)));
    }
    assert(idx.len() == t.len());
}

/// The transitions `(two back, one back, next)` of a sequence of winning
/// squares: every window of three consecutive entries made of board
/// squares, in order. A sequence shorter than three has none.
pub fn context_transitions(seq: &[usize]) -> (t: Vec<(usize, usize, usize)>)
    ensures
        t@ == if seq@.len() < 3 {
            Seq::empty()
        } else {
            board_windows(seq@, seq@.len() - 2)
        },
{
    let mut t: Vec<(usize, usize, usize)> = Vec::new();
    let n = seq.len();
    if n < 3 {
        return t;
    }
    let mut i: usize = 0;
    while i + 2 < n
        invariant
            n == seq@.len(),
            n >= 3,
            i + 2 <= n,
            t@ == board_windows(seq@, i as int),
        decreases n - i,
    {
        let a = seq[i];
        let b = seq[i + 1];
        let c = seq[i + 2];
        if a < SQUARES && b < SQUARES && c < SQUARES {
            t.push((a, b, c));
        }
        i += 1;
    }
    t
}

} // verus!
