//! Sequences of boards in which each board is one move from the one before it.

use crate::board::Board;
use vstd::prelude::*;

verus! {

/// Whether `p` is a sequence of moves: it is not empty, starts at a well-formed
/// board, and each further board arises from the one before it by one move.
pub open spec fn is_path(p: Seq<Board>) -> bool {
    &&& p.len() >= 1
    &&& p[0].is_wellformed()
    &&& forall|i: int, j: int|
        #![trigger p[i], p[j]]
        0 <= i && j == i + 1 && j < p.len() ==> p[i].is_move(p[j])
}

/// Whether `p` is a sequence of moves that leads from `from` to `to`. It
/// takes `p.len() - 1` moves.
pub open spec fn connects(p: Seq<Board>, from: Board, to: Board) -> bool {
    &&& is_path(p)
    &&& p.first() == from
    &&& p.last() == to
}

/// Every board on a path is well-formed.
pub proof fn lemma_path_wellformed(p: Seq<Board>, i: int)
    requires
        is_path(p),
        0 <= i < p.len(),
    ensures
        p[i].is_wellformed(),
    decreases i,
{
    if i > 0 {
        lemma_path_wellformed(p, i - 1);
        assert(p[i - 1].is_move(p[i]));
        p[i - 1].lemma_move_symmetric(p[i]);
    }
}

/// The first `n` boards of a path are a path.
pub proof fn lemma_path_prefix(p: Seq<Board>, n: int)
    requires
        is_path(p),
        1 <= n <= p.len(),
    ensures
        is_path(p.take(n)),
        connects(p.take(n), p[0], p[n - 1]),
{
    let q = p.take(n);
    assert forall|i: int, j: int|
        #![trigger q[i], q[j]]
        0 <= i && j == i + 1 && j < q.len() implies q[i].is_move(q[j]) by {
        assert(p[i].is_move(p[j]));
    }
}

/// What is left of a path after its first `n` boards is a path.
pub proof fn lemma_path_suffix(p: Seq<Board>, n: int)
    requires
        is_path(p),
        0 <= n < p.len(),
    ensures
        is_path(p.skip(n)),
        connects(p.skip(n), p[n], p.last()),
{
    let q = p.skip(n);
    lemma_path_wellformed(p, n);
    assert forall|i: int, j: int|
        #![trigger q[i], q[j]]
        0 <= i && j == i + 1 && j < q.len() implies q[i].is_move(q[j]) by {
        assert(p[i + n].is_move(p[j + n]));
    }
}

/// A path followed by one more move is a path.
pub proof fn lemma_path_push(p: Seq<Board>, next: Board)
    requires
        is_path(p),
        p.last().is_move(next),
    ensures
        is_path(p.push(next)),
        connects(p.push(next), p[0], next),
{
    let q = p.push(next);
    assert forall|i: int, j: int|
        #![trigger q[i], q[j]]
        0 <= i && j == i + 1 && j < q.len() implies q[i].is_move(q[j]) by {
        if j < p.len() {
            assert(p[i].is_move(p[j]));
        }
    }
}

/// A path walked backwards is a path.
pub proof fn lemma_path_reverse(p: Seq<Board>)
    requires
        is_path(p),
    ensures
        is_path(p.reverse()),
        connects(p.reverse(), p.last(), p.first()),
{
    let q = p.reverse();
    lemma_path_wellformed(p, p.len() - 1);
    assert forall|i: int, j: int|
        #![trigger q[i], q[j]]
        0 <= i && j == i + 1 && j < q.len() implies q[i].is_move(q[j]) by {
        let a = p.len() - 1 - j;
        let b = p.len() - 1 - i;
        assert(p[a].is_move(p[b]));
        lemma_path_wellformed(p, a);
        p[a].lemma_move_symmetric(p[b]);
    }
}

/// Along a path the distance to a well-formed board changes by at most 1
/// with each move: a path is at least as long as the distance it covers.
pub proof fn lemma_path_distance(p: Seq<Board>, target: Board)
    requires
        is_path(p),
        target.is_wellformed(),
    ensures
        p.first().manhattan(target) <= p.last().manhattan(target) + p.len() - 1,
        p.last().manhattan(target) <= p.first().manhattan(target) + p.len() - 1,
    decreases p.len(),
{
    if p.len() > 1 {
        let q = p.drop_last();
        assert(q =~= p.take(p.len() - 1));
        lemma_path_prefix(p, p.len() - 1);
        lemma_path_distance(q, target);
        lemma_path_wellformed(p, p.len() - 2);
        assert(p[p.len() - 2].is_move(p[p.len() - 1]));
        p[p.len() - 2].lemma_move_distance(p[p.len() - 1], target);
    }
}

} // verus!
