//! The rules of placement, stated over the model of a grid and its history.
//!
//! A stone placed at `p` takes every enemy group next to `p` that is left
//! without a liberty. The placement is legal when the point is empty, the
//! stone's own group has a liberty once the taken stones are gone, and the
//! move is not a ko: the retaking of the single stone that has just taken
//! a single stone on the very point.

use vstd::prelude::*;
use crate::board::Cell;
use crate::connectivity::{
    adjacent, cell_at, connected, has_liberty, holds, inside, is_liberty, lemma_connected_self,
    lemma_connected_step, pt, Grid,
};

verus! {

/// One entry of a game's record: a placement with its colour, or a pass.
pub type Record = Option<(usize, usize, Cell)>;

/// What a position keeps of the game that led to it.
pub struct Past {
    /// The record of the game.
    pub record: Seq<Record>,
    /// The stones that the last entry of the record took; none after a pass.
    pub taken: Seq<(usize, usize)>,
}

/// The grid with a stone of colour `c` standing at `p`, nothing taken yet.
pub open spec fn with_stone(g: Grid, p: (int, int), c: Cell) -> Grid {
    g.update(p.0, g[p.0].update(p.1, c))
}

/// `n` is an enemy stone next to `p` whose group has no liberty left once a
/// stone of colour `c` stands at `p`.
pub open spec fn starved(g: Grid, p: (int, int), c: Cell, n: (int, int)) -> bool {
    &&& adjacent(p, n)
    &&& inside(g, n)
    &&& cell_at(with_stone(g, p, c), n) == c.enemy()
    &&& !has_liberty(with_stone(g, p, c), n)
}

/// Placing a stone of colour `c` at `p` takes the stone at `q`.
pub open spec fn is_captured(g: Grid, p: (int, int), c: Cell, q: (int, int)) -> bool {
    exists|n: (int, int)| starved(g, p, c, n) && connected(with_stone(g, p, c), n, q)
}

/// Placing a stone of colour `c` at `p` takes at least one stone.
pub open spec fn captures_any(g: Grid, p: (int, int), c: Cell) -> bool {
    exists|q: (int, int)| is_captured(g, p, c, q)
}

/// The grid after a stone of colour `c` was placed at `p`: the stone stands,
/// the stones it takes are gone, every other point is as before.
pub open spec fn after_put(g: Grid, p: (int, int), c: Cell) -> Grid {
    Seq::new(
        g.len(),
        |i: int|
            Seq::new(
                g[i].len(),
                |j: int|
                    if (i, j) == p {
                        c
                    } else if is_captured(g, p, c, (i, j)) {
                        Cell::Empty
                    } else {
                        g[i][j]
                    },
            ),
    )
}

/// No neighbour of `p` holds a stone of colour `c`: a stone of that colour
/// placed at `p` is a group of one.
pub open spec fn lone(g: Grid, p: (int, int), c: Cell) -> bool {
    forall|n: (int, int)| #[trigger] adjacent(p, n) && inside(g, n) ==> cell_at(g, n) != c
}

/// `v` lists the stones that a stone of colour `c` placed at `p` takes,
/// each once.
pub open spec fn takes(v: Seq<(usize, usize)>, g: Grid, p: (int, int), c: Cell) -> bool {
    &&& v.no_duplicates()
    &&& forall|q: (int, int)| #![trigger holds(v, q)] holds(v, q) <==> is_captured(g, p, c, q)
}

/// The placement is a ko. The last entry of the record placed a stone that
/// took exactly one stone, the one that stood at `p`; the placement at `p`
/// takes exactly one stone in turn, the one placed last, which therefore
/// stood alone.
pub open spec fn is_ko(g: Grid, past: Past, p: (int, int), c: Cell) -> bool {
    &&& past.record.len() > 0
    &&& past.record.last() matches Some(m)
    &&& past.taken.len() == 1
    &&& pt(past.taken[0]) == p
    &&& is_captured(g, p, c, (m.0 as int, m.1 as int))
    &&& forall|q: (int, int)| is_captured(g, p, c, q) ==> q == (m.0 as int, m.1 as int)
}

/// A stone of colour `c` may be placed at `p`.
pub open spec fn legal(g: Grid, past: Past, p: (int, int), c: Cell) -> bool {
    &&& c.is_stone()
    &&& inside(g, p)
    &&& cell_at(g, p) == Cell::Empty
    &&& !is_ko(g, past, p, c)
    &&& has_liberty(after_put(g, p, c), p)
}

/// A placement that takes a stone leaves its own group a liberty: the point
/// that the taken neighbour stood on.
pub proof fn lemma_capture_frees(g: Grid, p: (int, int), c: Cell)
    requires
        inside(g, p),
        c.is_stone(),
        captures_any(g, p, c),
    ensures
        has_liberty(after_put(g, p, c), p),
{
    let q = choose|q: (int, int)| is_captured(g, p, c, q);
    let n = choose|n: (int, int)| starved(g, p, c, n) && connected(with_stone(g, p, c), n, q);
    let g1 = with_stone(g, p, c);
    let g2 = after_put(g, p, c);
    assert(inside(g1, n));
    lemma_connected_self(g1, n);
    assert(is_captured(g, p, c, n));
    assert(g2[n.0][n.1] == Cell::Empty);
    assert(inside(g2, p));
    lemma_connected_self(g2, p);
    assert(is_liberty(g2, p, n));
}

/// A placement that takes nothing changes the one point it is made on.
pub proof fn lemma_quiet_put(g: Grid, p: (int, int), c: Cell)
    requires
        inside(g, p),
        !captures_any(g, p, c),
    ensures
        after_put(g, p, c) == with_stone(g, p, c),
{
    let g1 = with_stone(g, p, c);
    let g2 = after_put(g, p, c);
    assert(g2.len() == g1.len());
    assert forall|i: int| 0 <= i < g1.len() implies g2[i] =~= g1[i] by {
        assert forall|j: int| 0 <= j < g1[i].len() implies g2[i][j] == g1[i][j] by {
            assert(!is_captured(g, p, c, (i, j)));
        }
    }
    assert(g2 =~= g1);
}

/// A placement changes no point but its own and those of the stones it takes;
/// the stone placed has the colour asked for, and the taken points are empty.
pub proof fn lemma_put_touches(g: Grid, p: (int, int), c: Cell, q: (int, int))
    requires
        inside(g, q),
    ensures
        q == p ==> cell_at(after_put(g, p, c), q) == c,
        q != p && is_captured(g, p, c, q) ==> cell_at(after_put(g, p, c), q) == Cell::Empty,
        q != p && !is_captured(g, p, c, q) ==> cell_at(after_put(g, p, c), q) == cell_at(g, q),
{
}

/// Suicide is never legal: a placement that takes no stone and leaves its own
/// group without a liberty is refused on every grid and after every record.
pub proof fn lemma_suicide_illegal(g: Grid, past: Past, p: (int, int), c: Cell)
    requires
        !captures_any(g, p, c),
        !has_liberty(with_stone(g, p, c), p),
    ensures
        !legal(g, past, p, c),
{
    if inside(g, p) {
        lemma_quiet_put(g, p, c);
    }
}

/// After a placement at `q` that took the stone at `p` and no other, no
/// neighbour of `p` holds a stone of the colour taken: a stone of that
/// colour placed at `p` would stand alone.
pub proof fn lemma_taken_point_is_lone(g: Grid, q: (int, int), p: (int, int), c: Cell)
    requires
        inside(g, q),
        c.is_stone(),
        is_captured(g, q, c, p),
        forall|r: (int, int)| is_captured(g, q, c, r) ==> r == p,
    ensures
        adjacent(q, p),
        inside(g, p),
        lone(after_put(g, q, c), p, c.enemy()),
{
    let g1 = with_stone(g, q, c);
    let g2 = after_put(g, q, c);
    let e = c.enemy();
    let n = choose|n: (int, int)| starved(g, q, c, n) && connected(g1, n, p);
    assert(inside(g1, n));
    lemma_connected_self(g1, n);
    assert(is_captured(g, q, c, n));
    assert(n == p);
    assert forall|m: (int, int)| #[trigger] adjacent(p, m) && inside(g2, m) implies cell_at(g2, m)
        != e by {
        if cell_at(g2, m) == e {
            assert(m != q);
            assert(!is_captured(g, q, c, m));
            assert(cell_at(g2, m) == cell_at(g, m));
            assert(cell_at(g1, m) == cell_at(g, m));
            assert(inside(g1, m));
            lemma_connected_step(g1, p, p, m);
            assert(is_captured(g, q, c, m));
        }
    }
}

/// A list of the stones taken, where exactly one stone was taken, holds
/// that stone and nothing else.
pub proof fn lemma_takes_one(v: Seq<(usize, usize)>, g: Grid, q: (int, int), c: Cell, p: (int, int))
    requires
        takes(v, g, q, c),
        is_captured(g, q, c, p),
        forall|r: (int, int)| is_captured(g, q, c, r) ==> r == p,
    ensures
        v.len() == 1,
        pt(v[0]) == p,
{
    assert(holds(v, p));
    if v.len() >= 2 {
        assert(holds(v, pt(v[0])));
        assert(holds(v, pt(v[1])));
        assert(v[0] != v[1]);
    }
    assert(holds(v, pt(v[0])));
}

/// Ko: right after a stone of colour `c` placed at `q` took the stone at `p`
/// and no other, the other side may not retake at `p` with a placement that
/// takes the stone at `q` and no other. The retaking stone stands alone.
pub proof fn lemma_ko_forbids_retaking(
    g: Grid,
    past: Past,
    q: (usize, usize),
    p: (int, int),
    c: Cell,
    taken: Seq<(usize, usize)>,
)
    requires
        legal(g, past, pt(q), c),
        is_captured(g, pt(q), c, p),
        forall|r: (int, int)| is_captured(g, pt(q), c, r) ==> r == p,
        takes(taken, g, pt(q), c),
        is_captured(after_put(g, pt(q), c), p, c.enemy(), pt(q)),
        forall|r: (int, int)| is_captured(after_put(g, pt(q), c), p, c.enemy(), r) ==> r == pt(q),
    ensures
        lone(after_put(g, pt(q), c), p, c.enemy()),
        is_ko(
            after_put(g, pt(q), c),
            Past { record: past.record.push(Some((q.0, q.1, c))), taken },
            p,
            c.enemy(),
        ),
        !legal(
            after_put(g, pt(q), c),
            Past { record: past.record.push(Some((q.0, q.1, c))), taken },
            p,
            c.enemy(),
        ),
{
    let h1 = past.record.push(Some((q.0, q.1, c)));
    assert(h1.last() == Some((q.0, q.1, c)));
    lemma_takes_one(taken, g, pt(q), c, p);
    lemma_taken_point_is_lone(g, pt(q), p, c);
}

/// No ko without a capture: where the stone placed last took nothing, or
/// took more than one stone, or took a stone elsewhere than at `p`, a
/// placement at `p` is no ko, whatever it takes.
pub proof fn lemma_no_ko_without_capture(g: Grid, past: Past, p: (int, int), c: Cell)
    requires
        past.taken.len() != 1 || pt(past.taken[0]) != p,
    ensures
        !is_ko(g, past, p, c),
        legal(g, past, p, c) == (c.is_stone() && inside(g, p) && cell_at(g, p) == Cell::Empty
            && has_liberty(after_put(g, p, c), p)),
{
}

/// Ko lapses: once the record ends in a pass, or in a placement on a point
/// that the move does not take, the move is judged by emptiness and liberties
/// alone.
pub proof fn lemma_ko_lapses(g: Grid, past: Past, p: (int, int), c: Cell)
    requires
        past.record.len() == 0 || past.record.last() is None || (past.record.last() matches Some(m)
            && !is_captured(g, p, c, (m.0 as int, m.1 as int))),
    ensures
        !is_ko(g, past, p, c),
        legal(g, past, p, c) == (c.is_stone() && inside(g, p) && cell_at(g, p) == Cell::Empty
            && has_liberty(after_put(g, p, c), p)),
{
}

/// After a pass no placement is a ko, whatever was played before.
pub proof fn lemma_pass_lifts_ko(g: Grid, record: Seq<Record>, p: (int, int), c: Cell)
    ensures
        !is_ko(g, Past { record: record.push(None), taken: Seq::empty() }, p, c),
{
    assert(record.push(None).last() is None);
}

} // verus!
