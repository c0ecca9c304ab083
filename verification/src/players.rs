//! The players: what a player is, and the moves a player may choose from.

use vstd::prelude::*;
use crate::board::{among, Board};
use crate::connectivity::{holds, pt};
use crate::game::Turn;
use crate::rules::legal;

pub mod monte_carlo_ai;
pub mod random_ai;

verus! {

/// Something that chooses moves. Given a board and the side to move it
/// answers with a point to play, or with `None` to pass. Nothing is promised
/// of the point: whoever asks must check it.
pub trait Player {
    /// What holds of the player between its moves. A player that keeps
    /// nothing in order between moves is always ready.
    open spec fn ready(&self) -> bool {
        true
    }

    /// The point that the player plays on `board` for the side `turn`, or
    /// `None` for a pass.
    fn put(&mut self, board: &Board, turn: &Turn) -> (r: Option<(usize, usize)>)
        requires
            old(self).ready(),
            board.wf(),
        ensures
            final(self).ready(),
    ;
}

/// `a` comes before `b` when the board is read row by row.
pub open spec fn before(a: (usize, usize), b: (usize, usize)) -> bool {
    a.0 < b.0 || (a.0 == b.0 && a.1 < b.1)
}

/// The points of `v` stand in the order in which the board is read.
pub open spec fn ascending(v: Seq<(usize, usize)>) -> bool {
    forall|i: int, j: int| 0 <= i < j < v.len() ==> before(#[trigger] v[i], #[trigger] v[j])
}

/// A list that holds `q` besides what `v` holds.
pub proof fn lemma_holds_push(v: Seq<(usize, usize)>, x: (usize, usize), q: (int, int))
    ensures
        holds(v.push(x), q) <==> holds(v, q) || pt(x) == q,
{
    let w = v.push(x);
    if holds(v, q) {
        let k = choose|k: int| 0 <= k < v.len() && pt(#[trigger] v[k]) == q;
        assert(w[k] == v[k]);
    }
    if pt(x) == q {
        assert(pt(w[v.len() as int]) == q);
    }
    if holds(w, q) {
        let k = choose|k: int| 0 <= k < w.len() && pt(#[trigger] w[k]) == q;
        if k < v.len() {
            assert(w[k] == v[k]);
        }
    }
}

/// The first `j + 1` points of a list are its first `j` points and the
/// point at `j`.
pub proof fn lemma_among_step(v: Seq<(usize, usize)>, j: int, q: (int, int))
    requires
        0 <= j < v.len(),
    ensures
        among(v, j + 1, q) <==> among(v, j, q) || pt(v[j]) == q,
{
    if among(v, j + 1, q) {
        let k = choose|k: int| 0 <= k < j + 1 && k < v.len() && pt(#[trigger] v[k]) == q;
        if k < j {
            assert(among(v, j, q));
        }
    }
    if among(v, j, q) {
        let k = choose|k: int| 0 <= k < j && k < v.len() && pt(#[trigger] v[k]) == q;
        assert(0 <= k < j + 1);
    }
    if pt(v[j]) == q {
        assert(0 <= j < j + 1);
    }
}

/// An ascending list stays ascending when a point that comes after all of
/// its points is added.
pub proof fn lemma_ascending_push(v: Seq<(usize, usize)>, x: (usize, usize))
    requires
        ascending(v),
        forall|k: int| 0 <= k < v.len() ==> before(#[trigger] v[k], x),
    ensures
        ascending(v.push(x)),
{
    let w = v.push(x);
    assert forall|i: int, j: int| 0 <= i < j < w.len() implies before(
        #[trigger] w[i],
        #[trigger] w[j],
    ) by {
        assert(w[i] == v[i]);
        if j < v.len() {
            assert(w[j] == v[j]);
        }
    }
}

/// The point `p` lies before the point in row `x`, column `y`.
pub open spec fn reached(p: (int, int), x: int, y: int) -> bool {
    p.0 < x || (p.0 == x && p.1 < y)
}

/// Every point at which the side to move may place a stone, in the order in
/// which the board is read: row by row, each row from its first column.
pub fn legal_points(board: &Board, turn: &Turn) -> (r: Vec<(usize, usize)>)
    requires
        board.wf(),
    ensures
        ascending(r@),
        forall|p: (int, int)|
            #![trigger holds(r@, p)]
            holds(r@, p) <==> legal(board.grid(), board.past(), p, turn.cell()),
{
    let size = board.size;
    let cell = turn.to_cell();
    let ghost g = board.grid();
    let ghost h = board.past();
    let mut puttables: Vec<(usize, usize)> = Vec::new();
    let mut x: usize = 0;
    while x < size
        invariant
            x <= size,
            size == board.size,
            board.wf(),
            g == board.grid(),
            h == board.past(),
            cell == turn.cell(),
            ascending(puttables@),
            forall|k: int| 0 <= k < puttables@.len() ==> (#[trigger] puttables@[k]).0 < x,
            forall|p: (int, int)|
                #![trigger holds(puttables@, p)]
                holds(puttables@, p) <==> legal(g, h, p, cell) && reached(p, x as int, 0),
        decreases size - x,
    {
        let mut y: usize = 0;
        while y < size
            invariant
                x < size,
                y <= size,
                size == board.size,
                board.wf(),
                g == board.grid(),
                h == board.past(),
                cell == turn.cell(),
                ascending(puttables@),
                forall|k: int|
                    0 <= k < puttables@.len() ==> reached(
                        pt(#[trigger] puttables@[k]),
                        x as int,
                        y as int,
                    ),
                forall|p: (int, int)|
                    #![trigger holds(puttables@, p)]
                    holds(puttables@, p) <==> legal(g, h, p, cell) && reached(
                        p,
                        x as int,
                        y as int,
                    ),
            decreases size - y,
        {
            let ghost list = puttables@;
            let ok = board.is_put(&x, &y, &cell);
            if ok {
                proof {
                    lemma_ascending_push(list, (x, y));
                }
                puttables.push((x, y));
            }
            proof {
                assert forall|p: (int, int)| #![trigger holds(puttables@, p)] holds(puttables@, p)
                    <==> legal(g, h, p, cell) && reached(p, x as int, y + 1) by {
                    assert(holds(list, p) <==> legal(g, h, p, cell) && reached(
                        p,
                        x as int,
                        y as int,
                    ));
                    if ok {
                        lemma_holds_push(list, (x, y), p);
                    }
                    assert(reached(p, x as int, y + 1) <==> reached(p, x as int, y as int) || p
                        == (x as int, y as int));
                }
                assert forall|k: int| 0 <= k < puttables@.len() implies reached(
                    pt(#[trigger] puttables@[k]),
                    x as int,
                    y + 1,
                ) by {
                    if k < list.len() {
                        assert(puttables@[k] == list[k]);
                    }
                }
            }
            y = y + 1;
        }
        proof {
            assert forall|p: (int, int)| #![trigger holds(puttables@, p)] holds(puttables@, p)
                <==> legal(g, h, p, cell) && reached(p, x + 1, 0) by {
                assert(holds(puttables@, p) <==> legal(g, h, p, cell) && reached(
                    p,
                    x as int,
                    size as int,
                ));
            }
        }
        x = x + 1;
    }
    proof {
        assert forall|p: (int, int)| #![trigger holds(puttables@, p)] holds(puttables@, p)
            <==> legal(g, h, p, cell) by {
            assert(holds(puttables@, p) <==> legal(g, h, p, cell) && reached(p, size as int, 0));
        }
    }
    puttables
}

} // verus!
