//! Area scoring by alternating flood fill.
//!
//! The count starts in the corner `(0, 0)` for the colour of the first stone
//! that is met when the board is read row by row: the stone in the corner,
//! or the nearest stone after it where the corner is empty. A sweep claims
//! for the current colour the point it starts from and every point it
//! reaches over points that are empty or of that colour, and remembers the
//! last stone of the other colour that it ran into. When the sweep has
//! nowhere left to go it starts again from that stone for the other colour.
//! Each claimed point counts one for the colour that claimed it. The larger
//! count wins; on a board without a stone nothing is claimed and the counts
//! are equal. This approximates area scoring: no dead stones are judged and
//! no komi is given.

use vstd::prelude::*;
use crate::board::Cell;
use crate::connectivity::{
    cell_at, extends, inside, lemma_mark, mark, new_mask, pt, rows, same_shape, square, unseen, Grid,
};
use crate::game::Winner;

verus! {

/// The state of the count.
#[verifier::ext_equal]
pub struct Sweep {
    /// The points claimed so far, and the points sweeps started from.
    pub seen: Seq<Seq<bool>>,
    /// The same points in the order they were reached.
    pub queue: Seq<(int, int)>,
    /// How many points of the queue have had their neighbours looked at.
    pub at: int,
    /// The last stone of the other colour that the sweep ran into.
    pub pending: Option<(int, int)>,
    /// The colour that the sweep claims for.
    pub color: Cell,
    /// The points claimed for black.
    pub black: nat,
    /// The points claimed for white.
    pub white: nat,
}

/// The count after it looked at `n`, a neighbour of the point it stands on.
/// A point off the grid or seen before changes nothing; an empty point or
/// one of the current colour is claimed; a stone of the other colour is
/// remembered.
pub open spec fn claim(g: Grid, s: Sweep, n: (int, int)) -> Sweep {
    if !inside(g, n) || s.seen[n.0][n.1] {
        s
    } else if cell_at(g, n) == s.color || cell_at(g, n) == Cell::Empty {
        Sweep {
            seen: mark(s.seen, n),
            queue: s.queue.push(n),
            black: if s.color == Cell::Black {
                s.black + 1
            } else {
                s.black
            },
            white: if s.color == Cell::Black {
                s.white
            } else {
                s.white + 1
            },
            ..s
        }
    } else {
        Sweep { pending: Some(n), ..s }
    }
}

/// The count after it looked at the four neighbours of the next point of the
/// queue: up, down, left, right.
pub open spec fn advance(g: Grid, s: Sweep) -> Sweep {
    let p = s.queue[s.at];
    let s1 = claim(g, s, (p.0 - 1, p.1));
    let s2 = claim(g, s1, (p.0 + 1, p.1));
    let s3 = claim(g, s2, (p.0, p.1 - 1));
    let s4 = claim(g, s3, (p.0, p.1 + 1));
    Sweep { at: s.at + 1, ..s4 }
}

/// The count as it starts a new sweep from the remembered stone, for the
/// other colour, which claims that stone.
pub open spec fn turn_over(s: Sweep) -> Sweep {
    Sweep {
        seen: mark(s.seen, s.pending->0),
        queue: s.queue.push(s.pending->0),
        pending: None,
        color: s.color.enemy(),
        black: if s.color.enemy() == Cell::Black {
            s.black + 1
        } else {
            s.black
        },
        white: if s.color.enemy() == Cell::Black {
            s.white
        } else {
            s.white + 1
        },
        ..s
    }
}

/// What holds of a count at every moment.
pub open spec fn sweep_inv(g: Grid, s: Sweep) -> bool {
    &&& square(g)
    &&& same_shape(g, s.seen)
    &&& 0 <= s.at <= s.queue.len()
    &&& forall|k: int| 0 <= k < s.queue.len() ==> inside(g, #[trigger] s.queue[k])
    &&& s.color.is_stone()
    &&& s.pending matches Some(n) ==> inside(g, n) && !s.seen[n.0][n.1] && cell_at(g, n)
        == s.color.enemy()
    &&& s.black + s.white == s.queue.len()
}

/// A bound on the steps that a count has left.
pub open spec fn measure(s: Sweep) -> int {
    2 * unseen(s.seen) + s.queue.len() - s.at
}

/// Looking at a neighbour keeps the count in order and gives it no more
/// steps to take.
pub proof fn lemma_claim(g: Grid, s: Sweep, n: (int, int))
    requires
        sweep_inv(g, s),
    ensures
        sweep_inv(g, claim(g, s, n)),
        measure(claim(g, s, n)) <= measure(s),
        claim(g, s, n).at == s.at,
        extends(s.queue, claim(g, s, n).queue),
{
    let t = claim(g, s, n);
    if inside(g, n) && !s.seen[n.0][n.1] {
        if cell_at(g, n) == s.color || cell_at(g, n) == Cell::Empty {
            lemma_mark(s.seen, n);
            assert forall|k: int| 0 <= k < t.queue.len() implies inside(g, #[trigger] t.queue[k]) by {
                if k < s.queue.len() {
                    assert(t.queue[k] == s.queue[k]);
                }
            }
        }
    }
}

/// Looking at all neighbours of a point keeps the count in order and leaves
/// it fewer steps to take.
pub proof fn lemma_advance(g: Grid, s: Sweep)
    requires
        sweep_inv(g, s),
        s.at < s.queue.len(),
    ensures
        sweep_inv(g, advance(g, s)),
        measure(advance(g, s)) < measure(s),
{
    let p = s.queue[s.at];
    let s1 = claim(g, s, (p.0 - 1, p.1));
    lemma_claim(g, s, (p.0 - 1, p.1));
    let s2 = claim(g, s1, (p.0 + 1, p.1));
    lemma_claim(g, s1, (p.0 + 1, p.1));
    let s3 = claim(g, s2, (p.0, p.1 - 1));
    lemma_claim(g, s2, (p.0, p.1 - 1));
    let s4 = claim(g, s3, (p.0, p.1 + 1));
    lemma_claim(g, s3, (p.0, p.1 + 1));
}

/// Starting a new sweep keeps the count in order and leaves it fewer steps
/// to take.
pub proof fn lemma_turn_over(g: Grid, s: Sweep)
    requires
        sweep_inv(g, s),
        s.at >= s.queue.len(),
        s.pending is Some,
    ensures
        sweep_inv(g, turn_over(s)),
        measure(turn_over(s)) < measure(s),
{
    let t = turn_over(s);
    let n = s.pending->0;
    lemma_mark(s.seen, n);
    assert forall|k: int| 0 <= k < t.queue.len() implies inside(g, #[trigger] t.queue[k]) by {
        if k < s.queue.len() {
            assert(t.queue[k] == s.queue[k]);
        }
    }
}

/// The count when it has come to rest: every point of the queue was looked
/// at and no stone of the other colour is remembered.
pub open spec fn sweep(g: Grid, s: Sweep) -> Sweep
    decreases measure(s),
    when sweep_inv(g, s)
    via sweep_decreases
{
    if s.at < s.queue.len() {
        sweep(g, advance(g, s))
    } else if s.pending is Some {
        sweep(g, turn_over(s))
    } else {
        s
    }
}

#[via_fn]
proof fn sweep_decreases(g: Grid, s: Sweep) {
    if s.at < s.queue.len() {
        lemma_advance(g, s);
    } else if s.pending is Some {
        lemma_turn_over(g, s);
    }
}

/// `a` comes before `b` when the board is read row by row.
pub open spec fn earlier(a: (int, int), b: (int, int)) -> bool {
    a.0 < b.0 || (a.0 == b.0 && a.1 < b.1)
}

/// The point `p` holds the first stone of the grid in reading order.
pub open spec fn is_first_stone(g: Grid, p: (int, int)) -> bool {
    &&& inside(g, p)
    &&& cell_at(g, p).is_stone()
    &&& forall|q: (int, int)| inside(g, q) && #[trigger] earlier(q, p) ==> cell_at(g, q) == Cell::Empty
}

/// The grid holds a stone.
pub open spec fn has_stone(g: Grid) -> bool {
    exists|p: (int, int)| is_first_stone(g, p)
}

/// The colour that the count starts for: that of the first stone in reading
/// order; none on a grid without a stone.
pub open spec fn start_colour(g: Grid) -> Cell {
    if has_stone(g) {
        cell_at(g, choose|p: (int, int)| is_first_stone(g, p))
    } else {
        Cell::Empty
    }
}

/// A grid has one first stone at most.
pub proof fn lemma_first_unique(g: Grid, p: (int, int), q: (int, int))
    requires
        is_first_stone(g, p),
        is_first_stone(g, q),
    ensures
        p == q,
{
    if p != q {
        if earlier(p, q) {
        } else {
            assert(earlier(q, p));
        }
    }
}

/// The count as it starts: in the corner, which is claimed for the colour
/// that the count starts for.
pub open spec fn opening(g: Grid) -> Sweep {
    Sweep {
        seen: mark(Seq::new(g.len(), |i: int| Seq::new(g[i].len(), |j: int| false)), (0, 0)),
        queue: seq![(0, 0)],
        at: 0,
        pending: None,
        color: start_colour(g),
        black: if start_colour(g) == Cell::Black {
            1
        } else {
            0
        },
        white: if start_colour(g) == Cell::Black {
            0
        } else {
            1
        },
    }
}

/// The points counted for black and for white on the grid `g`.
pub open spec fn tally(g: Grid) -> (nat, nat) {
    if has_stone(g) {
        let s = sweep(g, opening(g));
        (s.black, s.white)
    } else {
        (0, 0)
    }
}

/// The side with the larger count; a draw when the counts are equal.
pub open spec fn winner_of(black: nat, white: nat) -> Winner {
    if black == white {
        Winner::Draw
    } else if black > white {
        Winner::Black
    } else {
        Winner::White
    }
}

/// The winner on the grid `g`.
pub open spec fn score(g: Grid) -> Winner {
    winner_of(tally(g).0, tally(g).1)
}

/// The count is in order as it starts.
pub proof fn lemma_opening(g: Grid)
    requires
        square(g),
        has_stone(g),
    ensures
        sweep_inv(g, opening(g)),
{
    let s = opening(g);
    let p = choose|p: (int, int)| is_first_stone(g, p);
    assert(inside(g, p));
    assert(g[0].len() == g.len());
    assert(inside(g, (0, 0)));
    assert(inside(g, s.queue[0]));
}

/// The grid with every stone given the other colour.
pub open spec fn recolored(g: Grid) -> Grid {
    Seq::new(g.len(), |i: int| Seq::new(g[i].len(), |j: int| g[i][j].enemy()))
}

/// The count with the two colours exchanged.
pub open spec fn flipped(s: Sweep) -> Sweep {
    Sweep { color: s.color.enemy(), black: s.white, white: s.black, ..s }
}

proof fn lemma_claim_flipped(g: Grid, s: Sweep, n: (int, int))
    requires
        s.color.is_stone(),
    ensures
        claim(recolored(g), flipped(s), n) == flipped(claim(g, s, n)),
{
    let g2 = recolored(g);
    assert(inside(g2, n) == inside(g, n));
    if inside(g, n) {
        assert(cell_at(g2, n) == cell_at(g, n).enemy());
    }
}

proof fn lemma_advance_flipped(g: Grid, s: Sweep)
    requires
        sweep_inv(g, s),
    ensures
        advance(recolored(g), flipped(s)) == flipped(advance(g, s)),
{
    let p = s.queue[s.at];
    let s1 = claim(g, s, (p.0 - 1, p.1));
    lemma_claim(g, s, (p.0 - 1, p.1));
    lemma_claim_flipped(g, s, (p.0 - 1, p.1));
    let s2 = claim(g, s1, (p.0 + 1, p.1));
    lemma_claim(g, s1, (p.0 + 1, p.1));
    lemma_claim_flipped(g, s1, (p.0 + 1, p.1));
    let s3 = claim(g, s2, (p.0, p.1 - 1));
    lemma_claim(g, s2, (p.0, p.1 - 1));
    lemma_claim_flipped(g, s2, (p.0, p.1 - 1));
    lemma_claim(g, s3, (p.0, p.1 + 1));
    lemma_claim_flipped(g, s3, (p.0, p.1 + 1));
}

proof fn lemma_inv_flipped(g: Grid, s: Sweep)
    requires
        sweep_inv(g, s),
    ensures
        sweep_inv(recolored(g), flipped(s)),
{
    let g2 = recolored(g);
    assert forall|k: int| 0 <= k < s.queue.len() implies inside(g2, #[trigger] flipped(s).queue[k]) by {
        assert(inside(g, s.queue[k]));
    }
}

proof fn lemma_sweep_flipped(g: Grid, s: Sweep)
    requires
        sweep_inv(g, s),
    ensures
        sweep(recolored(g), flipped(s)) == flipped(sweep(g, s)),
    decreases measure(s),
{
    lemma_inv_flipped(g, s);
    if s.at < s.queue.len() {
        lemma_advance(g, s);
        lemma_advance_flipped(g, s);
        lemma_sweep_flipped(g, advance(g, s));
    } else if s.pending is Some {
        lemma_turn_over(g, s);
        assert(turn_over(flipped(s)) == flipped(turn_over(s)));
        lemma_sweep_flipped(g, turn_over(s));
    }
}

/// Giving every stone the other colour leaves the first stone where it is.
pub proof fn lemma_first_recolored(g: Grid, p: (int, int))
    ensures
        is_first_stone(recolored(g), p) == is_first_stone(g, p),
{
    let g2 = recolored(g);
    assert(inside(g2, p) == inside(g, p));
    if inside(g, p) {
        assert(cell_at(g2, p) == cell_at(g, p).enemy());
    }
    if is_first_stone(g, p) {
        assert forall|q: (int, int)| inside(g2, q) && #[trigger] earlier(q, p) implies cell_at(g2, q)
            == Cell::Empty by {
            assert(inside(g, q));
            assert(cell_at(g2, q) == cell_at(g, q).enemy());
        }
    }
    if is_first_stone(g2, p) {
        assert forall|q: (int, int)| inside(g, q) && #[trigger] earlier(q, p) implies cell_at(g, q)
            == Cell::Empty by {
            assert(inside(g2, q));
            assert(cell_at(g2, q) == cell_at(g, q).enemy());
        }
    }
}

/// Scoring is symmetric: on the grid with every stone given the other
/// colour, black counts what white counted, white what black counted, and
/// the winner is the other side. A draw is a draw on both.
pub proof fn lemma_score_symmetric(g: Grid)
    requires
        square(g),
    ensures
        square(recolored(g)),
        tally(recolored(g)) == (tally(g).1, tally(g).0),
        score(recolored(g)) == score(g).swapped(),
{
    let g2 = recolored(g);
    if has_stone(g) {
        let p = choose|p: (int, int)| is_first_stone(g, p);
        lemma_first_recolored(g, p);
        let p2 = choose|p2: (int, int)| is_first_stone(g2, p2);
        lemma_first_recolored(g, p2);
        lemma_first_unique(g, p, p2);
        assert(cell_at(g2, p) == cell_at(g, p).enemy());
        assert(start_colour(g2) == start_colour(g).enemy());
        lemma_opening(g);
        assert(opening(g2).seen =~= opening(g).seen);
        assert(opening(g2) == flipped(opening(g)));
        lemma_sweep_flipped(g, opening(g));
    } else {
        if has_stone(g2) {
            let p2 = choose|p2: (int, int)| is_first_stone(g2, p2);
            lemma_first_recolored(g, p2);
        }
    }
}

/// The game is drawn exactly when both sides count the same.
pub proof fn lemma_draw_iff_equal(g: Grid)
    ensures
        score(g) == Winner::Draw <==> tally(g).0 == tally(g).1,
        score(g) == Winner::Black <==> tally(g).0 > tally(g).1,
        score(g) == Winner::White <==> tally(g).0 < tally(g).1,
{
}

/// The count as the machine holds it.
struct Counter {
    seen: Vec<Vec<bool>>,
    queue: Vec<(usize, usize)>,
    at: usize,
    pending: Option<(usize, usize)>,
    color: Cell,
    black: usize,
    white: usize,
}

impl Counter {
    /// The count that the machine's values stand for.
    spec fn model(&self) -> Sweep {
        Sweep {
            seen: rows(self.seen@),
            queue: self.queue@.map_values(|p: (usize, usize)| pt(p)),
            at: self.at as int,
            pending: match self.pending {
                Some(p) => Some(pt(p)),
                None => None,
            },
            color: self.color,
            black: self.black as nat,
            white: self.white as nat,
        }
    }

    /// Looks at the point `(nx, ny)` of the grid.
    fn claim(&mut self, cells: &Vec<Vec<Cell>>, nx: usize, ny: usize)
        requires
            sweep_inv(rows(cells@), old(self).model()),
            inside(rows(cells@), (nx as int, ny as int)),
        ensures
            final(self).model() == claim(rows(cells@), old(self).model(), (nx as int, ny as int)),
            sweep_inv(rows(cells@), final(self).model()),
            final(self).at == old(self).at,
            final(self).queue@.len() >= old(self).queue@.len(),
    {
        let ghost g = rows(cells@);
        let ghost s = self.model();
        let ghost n = (nx as int, ny as int);
        proof {
            lemma_claim(g, s, n);
            assert(s.seen[nx as int] == self.seen@[nx as int]@);
            assert(g[nx as int] == cells@[nx as int]@);
        }
        if self.seen[nx][ny] {
            return ;
        }
        let cell = cells[nx][ny];
        if cell == self.color || cell == Cell::Empty {
            self.seen[nx][ny] = true;
            self.queue.push((nx, ny));
            let held = self.queue.len();
            assert(s.queue.len() + 1 == held);
            if self.color == Cell::Black {
                self.black = self.black + 1;
            } else {
                self.white = self.white + 1;
            }
            proof {
                assert(rows(self.seen@) =~= mark(s.seen, n));
                assert(self.model().queue =~= s.queue.push(n));
                assert(self.model() =~= claim(g, s, n));
            }
        } else {
            self.pending = Some((nx, ny));
            proof {
                assert(self.model() =~= claim(g, s, n));
            }
        }
    }
}

/// The colour that the count starts for on these cells.
pub fn first_colour(cells: &Vec<Vec<Cell>>) -> (c: Cell)
    requires
        square(rows(cells@)),
    ensures
        c == start_colour(rows(cells@)),
        c.is_stone() == has_stone(rows(cells@)),
{
    let n = cells.len();
    let ghost g = rows(cells@);
    let mut i: usize = 0;
    while i < n
        invariant
            i <= n,
            n == cells@.len(),
            g == rows(cells@),
            square(g),
            forall|q: (int, int)|
                inside(g, q) && #[trigger] earlier(q, (i as int, 0int)) ==> cell_at(g, q)
                    == Cell::Empty,
        decreases n - i,
    {
        let mut j: usize = 0;
        assert(g[i as int] == cells@[i as int]@);
        while j < n
            invariant
                i < n,
                j <= n,
                n == cells@.len(),
                g == rows(cells@),
                square(g),
                g[i as int] == cells@[i as int]@,
                forall|q: (int, int)|
                    inside(g, q) && #[trigger] earlier(q, (i as int, j as int)) ==> cell_at(g, q)
                        == Cell::Empty,
            decreases n - j,
        {
            let c = cells[i][j];
            if c != Cell::Empty {
                proof {
                    let here = (i as int, j as int);
                    assert(is_first_stone(g, here));
                    let p = choose|p: (int, int)| is_first_stone(g, p);
                    lemma_first_unique(g, p, here);
                }
                return c;
            }
            proof {
                assert forall|q: (int, int)| inside(g, q) && #[trigger] earlier(
                    q,
                    (i as int, j + 1),
                ) implies cell_at(g, q) == Cell::Empty by {
                    if q != (i as int, j as int) {
                        assert(earlier(q, (i as int, j as int)));
                    }
                }
            }
            j = j + 1;
        }
        proof {
            assert forall|q: (int, int)| inside(g, q) && #[trigger] earlier(q, (i + 1, 0int)) implies cell_at(
                g,
                q,
            ) == Cell::Empty by {
                assert(g[q.0].len() == g.len());
                assert(earlier(q, (i as int, n as int)));
            }
        }
        i = i + 1;
    }
    proof {
        if has_stone(g) {
            let p = choose|p: (int, int)| is_first_stone(g, p);
            assert(earlier(p, (n as int, 0int)));
        }
    }
    Cell::Empty
}

/// Counts the points of each colour: black first, white second.
pub fn count_area(cells: &Vec<Vec<Cell>>) -> (r: (usize, usize))
    requires
        square(rows(cells@)),
    ensures
        (r.0 as nat, r.1 as nat) == tally(rows(cells@)),
{
    let n = cells.len();
    let ghost g = rows(cells@);
    let color = first_colour(cells);
    if color == Cell::Empty {
        return (0, 0);
    }
    proof {
        lemma_opening(g);
    }
    let mut seen = new_mask(n);
    let ghost clear = rows(seen@);
    let ghost mask0 = seen@;
    assert(clear[0] == seen@[0]@);
    assert(inside(g, (0, 0)));
    seen[0][0] = true;
    let mut queue: Vec<(usize, usize)> = Vec::new();
    queue.push((0, 0));
    let mut c = Counter {
        seen,
        queue,
        at: 0,
        pending: None,
        color,
        black: if color == Cell::Black {
            1
        } else {
            0
        },
        white: if color == Cell::Black {
            0
        } else {
            1
        },
    };
    proof {
        let blank = Seq::new(g.len(), |i: int| Seq::new(g[i].len(), |j: int| false));
        assert(clear =~= blank) by {
            assert forall|i: int| 0 <= i < blank.len() implies #[trigger] clear[i] =~= blank[i] by {
                assert(clear[i] == mask0[i]@);
            }
        }
        assert(rows(c.seen@) =~= mark(clear, (0, 0)));
        assert(c.model().queue =~= seq![(0int, 0int)]);
        assert(c.model() =~= opening(g));
    }
    loop
        invariant
            g == rows(cells@),
            n == cells@.len(),
            sweep_inv(g, c.model()),
            sweep(g, opening(g)) == sweep(g, c.model()),
        ensures
            c.model() == sweep(g, opening(g)),
        decreases measure(c.model()),
    {
        let ghost s = c.model();
        if c.at < c.queue.len() {
            let (x, y) = c.queue[c.at];
            proof {
                lemma_advance(g, s);
                assert(s.queue[s.at] == pt(c.queue@[c.at as int]));
                assert(inside(g, s.queue[s.at]));
            }
            if x > 0 {
                c.claim(cells, x - 1, y);
            }
            if x + 1 < n {
                c.claim(cells, x + 1, y);
            }
            if y > 0 {
                c.claim(cells, x, y - 1);
            }
            if y + 1 < n {
                c.claim(cells, x, y + 1);
            }
            c.at = c.at + 1;
            proof {
                assert(c.model() =~= advance(g, s));
            }
        } else {
            match c.pending {
                None => {
                    break ;
                },
                Some(next) => {
                    proof {
                        lemma_turn_over(g, s);
                        assert(s.pending == Some(pt(next)));
                        assert(s.seen[next.0 as int] == c.seen@[next.0 as int]@);
                    }
                    c.seen[next.0][next.1] = true;
                    c.queue.push(next);
                    let held = c.queue.len();
                    assert(s.queue.len() + 1 == held);
                    c.pending = None;
                    c.color = c.color.to_enemy_cell();
                    if c.color == Cell::Black {
                        c.black = c.black + 1;
                    } else {
                        c.white = c.white + 1;
                    }
                    proof {
                        assert(rows(c.seen@) =~= mark(s.seen, pt(next)));
                        assert(c.model().queue =~= s.queue.push(pt(next)));
                        assert(c.model() =~= turn_over(s));
                    }
                },
            }
        }
    }
    (c.black, c.white)
}

} // verus!
