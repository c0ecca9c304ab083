//! A player that searches by Monte Carlo playouts.
//!
//! The player keeps a tree of board snapshots. A playout walks from a node
//! down to a node without moves, opening every node it passes, judges that
//! node, and credits every node of the walk. Which child a walk enters is
//! left to a [`Selector`]; the tree, the playouts and the choice of a move
//! are proved for every answer a selector may give.

use vstd::prelude::*;
use crate::board::{among, directions, Board, BoardDirectionIter, Cell};
use crate::connectivity::{adjacent, cell_at, connected, holds, inside, pt, square, Grid};
use crate::game::Turn;
use crate::players::{
    ascending, before, lemma_among_step, lemma_ascending_push, lemma_holds_push, legal_points, Player,
};
use crate::rules::{captures_any, is_captured, legal, starved, with_stone, Past};
use crate::search::{
    answers, continues, first_answer, kid_ok, lemma_continues_trans, moves_of, node_ok, passed,
    settle, unplayed, Node, SearchTree, Selector,
};

verus! {

/// Every point at which the side to move may place a stone, in the order in
/// which the board is read.
pub fn calc_puttables(board: &Board, turn: &Turn) -> (r: Vec<(usize, usize)>)
    requires
        board.wf(),
    ensures
        ascending(r@),
        forall|p: (int, int)|
            #![trigger holds(r@, p)]
            holds(r@, p) <==> legal(board.grid(), board.past(), p, turn.cell()),
{
    legal_points(board, turn)
}

/// The point `p` lies off the grid or holds a stone of colour `enemy`.
pub open spec fn blocked(g: Grid, p: (int, int), enemy: Cell) -> bool {
    !inside(g, p) || cell_at(g, p) == enemy
}

/// Every neighbour of `(x, y)` on the grid holds a stone of colour `c`.
pub open spec fn walled(g: Grid, x: usize, y: usize, c: Cell) -> bool {
    forall|k: int|
        0 <= k < directions(x, y, g.len() as usize).len() ==> cell_at(
            g,
            pt(#[trigger] directions(x, y, g.len() as usize)[k]),
        ) == c
}

/// The enemy holds, or the edge cuts off, the points around `p` that would
/// make the space at `p` a lasting eye: one diagonal with a second diagonal
/// next to it and the point two steps out between them.
pub open spec fn undermined(g: Grid, p: (int, int), e: Cell) -> bool {
    ||| blocked(g, (p.0 - 1, p.1 - 1), e) && ((blocked(g, (p.0 + 1, p.1 - 1), e) && blocked(
        g,
        (p.0, p.1 - 2),
        e,
    )) || (blocked(g, (p.0 - 1, p.1 + 1), e) && blocked(g, (p.0 - 2, p.1), e)))
    ||| blocked(g, (p.0 + 1, p.1 + 1), e) && ((blocked(g, (p.0 - 1, p.1 + 1), e) && blocked(
        g,
        (p.0, p.1 + 2),
        e,
    )) || (blocked(g, (p.0 + 1, p.1 - 1), e) && blocked(g, (p.0 + 2, p.1), e)))
}

/// A stone of colour `c` at `(x, y)` is worth a search: the point is not
/// walled in by stones of its own colour, or it is but the enemy undermines
/// it.
pub open spec fn worth_playing(g: Grid, x: usize, y: usize, c: Cell) -> bool {
    !walled(g, x, y, c) || undermined(g, (x as int, y as int), c.enemy())
}

/// Whether the point `dx` rows and `dy` columns from `(x, y)` lies off the
/// board or holds a stone of colour `enemy`.
fn off_or_enemy(board: &Board, x: usize, y: usize, dx: i8, dy: i8, enemy: Cell) -> (r: bool)
    requires
        board.wf(),
        x < board.size,
        y < board.size,
        -2 <= dx <= 2,
        -2 <= dy <= 2,
    ensures
        r == blocked(board.grid(), (x + dx, y + dy), enemy),
{
    let n = board.size;
    let nx = if dx < 0 {
        let d = (-dx) as usize;
        if x < d {
            return true;
        }
        x - d
    } else {
        let d = dx as usize;
        if n - x <= d {
            return true;
        }
        x + d
    };
    let ny = if dy < 0 {
        let d = (-dy) as usize;
        if y < d {
            return true;
        }
        y - d
    } else {
        let d = dy as usize;
        if n - y <= d {
            return true;
        }
        y + d
    };
    assert(board.grid()[nx as int] == board.cells@[nx as int]@);
    board.cells[nx][ny] == enemy
}

/// Whether a move at `(x, y)` is worth a search for the side to move. A
/// point walled in by the side's own stones is left alone unless the enemy
/// undermines it. The test narrows what the search looks at and says nothing
/// of what the rules allow.
pub fn is_live(board: &Board, x: &usize, y: &usize, turn: &Turn) -> (r: bool)
    requires
        board.wf(),
        *x < board.size,
        *y < board.size,
    ensures
        r == worth_playing(board.grid(), *x, *y, turn.cell()),
{
    let px = *x;
    let py = *y;
    let cell = turn.to_cell();
    let ghost g = board.grid();
    let mut it = BoardDirectionIter::new(px, py, board);
    let ghost all = it.remaining();
    let ghost done: int = 0;
    let mut is_surround = true;
    loop
        invariant
            board.wf(),
            g == board.grid(),
            px < board.size,
            py < board.size,
            all == directions(px, py, board.size),
            0 <= done <= all.len(),
            it.remaining() == all.subrange(done, all.len() as int),
            is_surround == forall|k: int| 0 <= k < done ==> cell_at(g, pt(#[trigger] all[k])) == cell,
        ensures
            is_surround == walled(g, px, py, cell),
        decreases all.len() - done,
    {
        match it.next() {
            None => {
                break ;
            },
            Some(n) => {
                proof {
                    assert(n == all[done]);
                    assert(all.subrange(done, all.len() as int).drop_first() =~= all.subrange(
                        done + 1,
                        all.len() as int,
                    ));
                    assert(n.0 < board.size && n.1 < board.size);
                    assert(g[n.0 as int] == board.cells@[n.0 as int]@);
                }
                if board.cells[n.0][n.1] != cell {
                    is_surround = false;
                }
                proof {
                    done = done + 1;
                }
            },
        }
    }
    if !is_surround {
        return true;
    }
    let enemy = turn.get_next_turn().to_cell();
    if off_or_enemy(board, px, py, -1, -1, enemy) {
        if off_or_enemy(board, px, py, 1, -1, enemy) && off_or_enemy(board, px, py, 0, -2, enemy) {
            return true;
        }
        if off_or_enemy(board, px, py, -1, 1, enemy) && off_or_enemy(board, px, py, -2, 0, enemy) {
            return true;
        }
    }
    if off_or_enemy(board, px, py, 1, 1, enemy) {
        if off_or_enemy(board, px, py, -1, 1, enemy) && off_or_enemy(board, px, py, 0, 2, enemy) {
            return true;
        }
        if off_or_enemy(board, px, py, 1, -1, enemy) && off_or_enemy(board, px, py, 2, 0, enemy) {
            return true;
        }
    }
    false
}

/// A move that the search looks at: legal, and worth playing.
pub open spec fn candidate(g: Grid, history: Past, turn: Turn, p: (int, int)) -> bool {
    &&& legal(g, history, p, turn.cell())
    &&& worth_playing(g, p.0 as usize, p.1 as usize, turn.cell())
}

/// `v` lists the moves that the search looks at, each once, in the order in
/// which the board is read.
pub open spec fn is_move_list(
    v: Seq<(usize, usize)>,
    g: Grid,
    history: Past,
    turn: Turn,
) -> bool {
    &&& ascending(v)
    &&& forall|p: (int, int)| #![trigger holds(v, p)] holds(v, p) <==> candidate(g, history, turn, p)
}

/// The moves that the search looks at for the side to move: the legal
/// points that are worth playing, in the order in which the board is read.
pub fn live_points(board: &Board, turn: &Turn) -> (r: Vec<(usize, usize)>)
    requires
        board.wf(),
    ensures
        is_move_list(r@, board.grid(), board.past(), *turn),
{
    let ghost g = board.grid();
    let ghost h = board.past();
    let all = calc_puttables(board, turn);
    let mut live: Vec<(usize, usize)> = Vec::new();
    let mut i: usize = 0;
    while i < all.len()
        invariant
            i <= all@.len(),
            board.wf(),
            g == board.grid(),
            h == board.past(),
            ascending(all@),
            ascending(live@),
            forall|p: (int, int)|
                #![trigger holds(all@, p)]
                holds(all@, p) <==> legal(g, h, p, turn.cell()),
            forall|k: int, j: int|
                0 <= k < live@.len() && i <= j < all@.len() ==> before(
                    #[trigger] live@[k],
                    #[trigger] all@[j],
                ),
            forall|p: (int, int)|
                #![trigger holds(live@, p)]
                holds(live@, p) <==> candidate(g, h, *turn, p) && among(all@, i as int, p),
        decreases all@.len() - i,
    {
        let m = all[i];
        let ghost list = live@;
        assert(holds(all@, pt(m)));
        assert(inside(g, pt(m)));
        let keep = is_live(board, &m.0, &m.1, turn);
        if keep {
            proof {
                lemma_ascending_push(list, m);
            }
            live.push(m);
        }
        proof {
            assert forall|k: int, j: int|
                0 <= k < live@.len() && i + 1 <= j < all@.len() implies before(
                #[trigger] live@[k],
                #[trigger] all@[j],
            ) by {
                if k < list.len() {
                    assert(live@[k] == list[k]);
                } else {
                    assert(live@[k] == all@[i as int]);
                }
            }
            assert forall|p: (int, int)| #![trigger holds(live@, p)] holds(live@, p) <==> candidate(
                g,
                h,
                *turn,
                p,
            ) && among(all@, i + 1, p) by {
                assert(holds(list, p) <==> candidate(g, h, *turn, p) && among(all@, i as int, p));
                if keep {
                    lemma_holds_push(list, m, p);
                }
                lemma_among_step(all@, i as int, p);
            }
        }
        i = i + 1;
    }
    proof {
        assert forall|p: (int, int)| #![trigger holds(live@, p)] holds(live@, p) <==> candidate(
            g,
            h,
            *turn,
            p,
        ) by {
            assert(holds(live@, p) <==> candidate(g, h, *turn, p) && among(all@, all@.len() as int, p));
            if candidate(g, h, *turn, p) {
                assert(holds(all@, p));
                let k = choose|k: int| 0 <= k < all@.len() && pt(#[trigger] all@[k]) == p;
                assert(among(all@, all@.len() as int, p));
            }
        }
    }
    live
}

/// The next move in the record is a pass and the tree stands on an opened
/// node: the player then passes too.
pub open spec fn passes_on(tree: SearchTree, board: &Board) -> bool {
    &&& tree.nodes@.len() > 0
    &&& tree.nodes@[tree.current as int].nodes is Some
    &&& board.points@.len() > 0
    &&& board.points@.last() is None
}

/// The node at `d` is the child of the node the tree stood on that answers
/// the last move of the record: the first child in which `turn` is to move
/// and whose board holds the stone of that move.
pub open spec fn replies(tree: SearchTree, board: &Board, turn: Turn, d: int) -> bool {
    &&& tree.nodes@.len() > 0
    &&& tree.nodes@[tree.current as int].nodes matches Some(kids)
    &&& board.points@.len() > 0
    &&& board.points@.last() matches Some(m)
    &&& exists|k: int| #[trigger] first_answer(tree.nodes@, kids@, m, turn, k) && kids@[k] == d
}

/// No child of the node the tree stood on answers the last move of the
/// record: the tree was empty or stood on a node never opened, the record
/// was empty, or no child holds the stone of the move.
pub open spec fn unanswered(tree: SearchTree, board: &Board, turn: Turn) -> bool {
    ||| tree.nodes@.len() == 0
    ||| tree.nodes@[tree.current as int].nodes is None
    ||| board.points@.len() == 0
    ||| (board.points@.last() matches Some(m) && forall|k: int|
        0 <= k < tree.nodes@[tree.current as int].nodes->0@.len() ==> !answers(
            tree.nodes@[#[trigger] tree.nodes@[tree.current as int].nodes->0@[k] as int],
            m,
            turn,
        ))
}

/// The node at `d` is where the search for a move on `board` takes its
/// seat: the child that answers the last move, or else a new node that
/// holds the board as it is, added at the end of the list.
pub open spec fn seated(
    before_tree: SearchTree,
    t: Seq<Node>,
    board: &Board,
    turn: Turn,
    d: int,
) -> bool {
    &&& 0 <= d < t.len()
    &&& t[d].turn == turn
    &&& if d < before_tree.nodes@.len() {
        replies(before_tree, board, turn, d)
    } else {
        &&& d == before_tree.nodes@.len()
        &&& unanswered(before_tree, board, turn)
        &&& t[d].board.grid() == board.grid()
        &&& t[d].board.points@ == board.points@
        &&& t[d].board.taken@ == board.taken@
    }
}

/// The move `r` was chosen at the node `d`: the node is opened; there is no
/// move exactly when it has no child, which is when the search looks at no
/// move in its position; and a move is the move of one of its children, on
/// which the tree then stands.
pub open spec fn decided(tree: SearchTree, d: int, turn: Turn, r: Option<(usize, usize)>) -> bool {
    let t = tree.nodes@;
    &&& t[d].nodes matches Some(kids)
    &&& r is None <==> kids@.len() == 0
    &&& r is None <==> forall|p: (int, int)|
        !candidate(t[d].board.grid(), t[d].board.past(), turn, p)
    &&& r matches Some(m) ==> {
        &&& candidate(t[d].board.grid(), t[d].board.past(), turn, pt(m))
        &&& kids@.contains(tree.current)
        &&& kid_ok(t, d, tree.current as int)
        &&& t[tree.current as int].point == Some(m)
    }
}

/// Where exactly one move is legal and that move takes a stone, the search
/// looks at that move and at no other.
pub proof fn lemma_only_move(g: Grid, history: Past, turn: Turn, m: (usize, usize))
    requires
        square(g),
        g.len() <= usize::MAX,
        legal(g, history, pt(m), turn.cell()),
        forall|p: (int, int)| legal(g, history, p, turn.cell()) ==> p == pt(m),
        captures_any(g, pt(m), turn.cell()),
    ensures
        candidate(g, history, turn, pt(m)),
        forall|p: (int, int)| candidate(g, history, turn, p) ==> p == pt(m),
{
    lemma_capture_not_walled(g, m, turn.cell());
}

/// Where exactly one move is legal in the position that the search sits on,
/// and that move takes a stone, the move chosen is that move, whatever the
/// selector answered and however many playouts were made.
pub proof fn lemma_only_move_chosen(
    tree: SearchTree,
    d: int,
    turn: Turn,
    r: Option<(usize, usize)>,
    m: (usize, usize),
)
    requires
        tree.wf(),
        0 <= d < tree.nodes@.len(),
        decided(tree, d, turn, r),
        legal(tree.nodes@[d].board.grid(), tree.nodes@[d].board.past(), pt(m), turn.cell()),
        forall|p: (int, int)|
            legal(tree.nodes@[d].board.grid(), tree.nodes@[d].board.past(), p, turn.cell()) ==> p
                == pt(m),
        captures_any(tree.nodes@[d].board.grid(), pt(m), turn.cell()),
    ensures
        r == Some(m),
{
    let g = tree.nodes@[d].board.grid();
    let h = tree.nodes@[d].board.past();
    assert(node_ok(tree.nodes@, d));
    lemma_only_move(g, h, turn, m);
    assert(r is Some);
    assert(candidate(g, h, turn, pt(r->0)));
    assert(pt(r->0) == pt(m));
}

/// A point at which a stone of colour `c` would take a stone is not walled
/// in by stones of that colour: the stone it takes first is a neighbour.
pub proof fn lemma_capture_not_walled(g: Grid, m: (usize, usize), c: Cell)
    requires
        square(g),
        g.len() <= usize::MAX,
        inside(g, pt(m)),
        c.is_stone(),
        captures_any(g, pt(m), c),
    ensures
        !walled(g, m.0, m.1, c),
{
    let p = pt(m);
    let q = choose|q: (int, int)| is_captured(g, p, c, q);
    let n = choose|n: (int, int)| starved(g, p, c, n) && connected(with_stone(g, p, c), n, q);
    assert(n != p);
    assert(inside(g, n));
    assert(cell_at(with_stone(g, p, c), n) == cell_at(g, n));
    assert(cell_at(g, n) != c);
    let size = g.len() as usize;
    lemma_directions_cover(m.0, m.1, size, n);
    let k = choose|k: int|
        0 <= k < directions(m.0, m.1, size).len() && pt(#[trigger] directions(m.0, m.1, size)[k])
            == n;
    assert(cell_at(g, pt(directions(m.0, m.1, size)[k])) != c);
}

/// Every neighbour of a point on the board is among the points that a walk
/// over its neighbours gives.
pub proof fn lemma_directions_cover(x: usize, y: usize, size: usize, n: (int, int))
    requires
        x < size,
        y < size,
        adjacent((x as int, y as int), n),
        0 <= n.0 < size,
        0 <= n.1 < size,
    ensures
        exists|k: int|
            0 <= k < directions(x, y, size).len() && pt(#[trigger] directions(x, y, size)[k]) == n,
{
    let a: Seq<(usize, usize)> = if x > 0 {
        seq![((x - 1) as usize, y)]
    } else {
        seq![]
    };
    let b: Seq<(usize, usize)> = if x + 1 < size {
        seq![((x + 1) as usize, y)]
    } else {
        seq![]
    };
    let c: Seq<(usize, usize)> = if y > 0 {
        seq![(x, (y - 1) as usize)]
    } else {
        seq![]
    };
    let d: Seq<(usize, usize)> = if y + 1 < size {
        seq![(x, (y + 1) as usize)]
    } else {
        seq![]
    };
    let all = directions(x, y, size);
    assert(all =~= a + b + c + d);
    if n == (x - 1, y as int) {
        assert(pt(all[0]) == n);
    } else if n == (x + 1, y as int) {
        assert(pt(all[a.len() as int]) == n);
    } else if n == (x as int, y - 1) {
        assert(pt(all[(a.len() + b.len()) as int]) == n);
    } else {
        assert(n == (x as int, y + 1));
        assert(pt(all[(a.len() + b.len() + c.len()) as int]) == n);
    }
}

/// The count `a`, held at the most that fits.
pub open spec fn capped(a: int) -> int {
    if a > i32::MAX {
        i32::MAX as int
    } else {
        a
    }
}

/// The playouts through the node at `d` of the list `t`; none where the
/// list has no such node.
pub open spec fn visits_at(t: Seq<Node>, d: int) -> int {
    if 0 <= d < t.len() {
        t[d].simulate_num as int
    } else {
        0
    }
}

/// A player that searches a tree of positions by playouts and plays the
/// move of the child that its selector names once the playouts are done.
pub struct MonteCarloAi<S: Selector> {
    selector: S,
    playout_count: i32,
    playout_num: i32,
    step_num: i64,
    tree: SearchTree,
}

impl<S: Selector> MonteCarloAi<S> {
    /// The player's search tree.
    pub closed spec fn search(&self) -> SearchTree {
        self.tree
    }

    /// The steps that the playouts for one move may take together before
    /// the search stops.
    pub closed spec fn budget(&self) -> i32 {
        self.playout_count
    }

    /// What the player asks which child to enter.
    pub closed spec fn chooser(&self) -> S {
        self.selector
    }

    /// The playouts made so far; the count stops when it is full.
    pub closed spec fn made(&self) -> i32 {
        self.playout_num
    }

    /// The steps that the playouts of the last search took together.
    pub closed spec fn steps(&self) -> i64 {
        self.step_num
    }

    /// The search that led from the player `before` to this one sat on the
    /// node at `d` and made `k` playouts: one at least, each through the
    /// seat, each of one step at least, and together of one step more than
    /// the budget allows. A playout stops at the step that uses the budget
    /// up, so the steps never exceed the budget by more.
    pub open spec fn searched(&self, before: &Self, d: int, k: int) -> bool {
        &&& k >= 1
        &&& self.budget() == before.budget()
        &&& self.made() == capped(before.made() + k)
        &&& visits_at(self.search().nodes@, d) == capped(visits_at(before.search().nodes@, d) + k)
        &&& k <= self.steps()
        &&& self.steps() == (if self.budget() > 0 {
            self.budget() as int
        } else {
            0
        }) + 1
    }

    /// The player `before` was asked for a move on `board` with `turn` to
    /// move and answered `r`: the search took its seat on the node at `d`,
    /// made `k` playouts, and chose there.
    pub open spec fn thought(
        &self,
        before: &Self,
        board: &Board,
        turn: Turn,
        r: Option<(usize, usize)>,
        d: int,
        k: int,
    ) -> bool {
        &&& seated(before.search(), self.search().nodes@, board, turn, d)
        &&& self.searched(before, d, k)
        &&& decided(self.search(), d, turn, r)
    }

    /// A player with an empty tree that lets `selector` choose among
    /// children and ends its search for a move with the playout that takes
    /// the step past `playout_count`.
    pub fn new(playout_count: i32, selector: S) -> (ai: Self)
        ensures
            ai.search().wf(),
            ai.search().nodes@.len() == 0,
            ai.search().current == 0,
            ai.chooser() == selector,
            ai.budget() == playout_count,
            ai.made() == 0,
            ai.steps() == 0,
    {
        MonteCarloAi {
            selector,
            playout_count,
            playout_num: 0,
            step_num: 0,
            tree: SearchTree::new(),
        }
    }

    /// The player's search tree.
    pub fn tree(&self) -> (t: &SearchTree)
        ensures
            *t == self.search(),
    {
        &self.tree
    }

    /// The playouts made so far.
    pub fn playouts(&self) -> (n: i32)
        ensures
            n == self.made(),
    {
        self.playout_num
    }

    /// The steps that the playouts of the last search took together.
    pub fn last_steps(&self) -> (n: i64)
        ensures
            n == self.steps(),
    {
        self.step_num
    }

    /// Finds where the search for a move on `board` sits: the child that
    /// answers the last move of the record, or a new node for the board as
    /// it is. Gives no seat where the player passes because the opponent
    /// did.
    fn take_seat(&mut self, board: &Board, turn: Turn) -> (seat: Option<usize>)
        requires
            old(self).search().wf(),
            board.wf(),
        ensures
            final(self).chooser() == old(self).chooser(),
            final(self).budget() == old(self).budget(),
            final(self).made() == old(self).made(),
            final(self).steps() == old(self).steps(),
            match seat {
                None => passes_on(old(self).search(), board) && final(self).search() == old(
                    self,
                ).search(),
                Some(d) => {
                    &&& !passes_on(old(self).search(), board)
                    &&& final(self).search().wf()
                    &&& final(self).search().current == d
                    &&& seated(old(self).search(), final(self).search().nodes@, board, turn, d as int)
                    &&& visits_at(final(self).search().nodes@, d as int) == visits_at(
                        old(self).search().nodes@,
                        d as int,
                    )
                },
            },
    {
        let ghost tree0 = self.tree;
        let mut found: Option<usize> = None;
        let mut last: Option<(usize, usize)> = None;
        if board.points.len() > 0 {
            match board.points[board.points.len() - 1] {
                Some(m) => {
                    last = Some((m.0, m.1));
                    if self.tree.nodes.len() > 0 && self.tree.fan_known(self.tree.current) {
                        found = self.tree.find_reply(m, turn);
                    }
                },
                None => {
                    if self.tree.nodes.len() > 0 && self.tree.fan_known(self.tree.current) {
                        return None;
                    }
                },
            }
        }
        let seat = match found {
            Some(c) => {
                self.tree.current = c;
                c
            },
            None => self.tree.plant(board, turn, last),
        };
        assert(seated(tree0, self.tree.nodes@, board, turn, seat as int));
        Some(seat)
    }

    /// Makes playouts from the seat until their steps exceed the budget.
    fn ponder(&mut self, seat: usize) -> (k: Ghost<int>)
        requires
            old(self).search().wf(),
            seat < old(self).search().nodes@.len(),
            old(self).search().current == seat,
        ensures
            final(self).search().wf(),
            final(self).search().current == seat,
            continues(old(self).search().nodes@, final(self).search().nodes@),
            final(self).search().nodes@[seat as int].nodes is Some,
            final(self).searched(old(self), seat as int, k@),
    {
        let ghost t1 = self.tree.nodes@;
        let ghost made0 = self.playout_num as int;
        let ghost visits0 = self.tree.nodes@[seat as int].simulate_num as int;
        let ghost k: int = 0;
        let budget: i64 = if self.playout_count > 0 {
            self.playout_count as i64
        } else {
            0
        };
        let mut used: i64 = 0;
        assert(continues(t1, t1));
        while used <= budget
            invariant
                self.playout_count == old(self).playout_count,
                budget == (if self.playout_count > 0 {
                    self.playout_count as int
                } else {
                    0
                }),
                0 <= used <= budget + 1,
                0 <= k <= used,
                used > 0 ==> k >= 1,
                self.playout_num == capped(made0 + k),
                seat < self.tree.nodes@.len(),
                self.tree.nodes@[seat as int].simulate_num == capped(visits0 + k),
                self.tree.wf(),
                self.tree.current == seat,
                continues(t1, self.tree.nodes@),
                used > 0 ==> self.tree.nodes@[seat as int].nodes is Some,
            decreases budget + 1 - used,
        {
            if self.playout_num < i32::MAX {
                self.playout_num = self.playout_num + 1;
            }
            let cap = (budget - used) as usize;
            let ghost t2 = self.tree.nodes@;
            let (_, path) = self.tree.playout(seat, cap, &mut self.selector);
            proof {
                lemma_continues_trans(t1, t2, self.tree.nodes@);
                assert(path@[0] == seat);
                assert(passed(path@, path@.len() as int, seat as int));
                assert(unplayed(t2, self.tree.nodes@, seat as int).simulate_num
                    == t2[seat as int].simulate_num);
                k = k + 1;
            }
            used = used + path.len() as i64;
        }
        self.step_num = used;
        Ghost(k)
    }

    /// Chooses among the children of the seat: lets the selector name one,
    /// moves the tree to it and gives its move; gives none where the seat
    /// has no child.
    fn decide(&mut self, seat: usize, turn: Turn) -> (r: Option<(usize, usize)>)
        requires
            old(self).search().wf(),
            seat < old(self).search().nodes@.len(),
            old(self).search().nodes@[seat as int].nodes is Some,
            old(self).search().nodes@[seat as int].turn == turn,
        ensures
            final(self).search().wf(),
            final(self).search().nodes == old(self).search().nodes,
            final(self).budget() == old(self).budget(),
            final(self).made() == old(self).made(),
            final(self).steps() == old(self).steps(),
            decided(final(self).search(), seat as int, turn, r),
    {
        let ghost t3 = self.tree.nodes@;
        assert(node_ok(t3, seat as int));
        let n = self.tree.fan(seat);
        let ghost kids = t3[seat as int].nodes->0@;
        let ghost g = t3[seat as int].board.grid();
        let ghost h = t3[seat as int].board.past();
        let ghost moves = moves_of(t3, kids);
        if n == 0 {
            proof {
                assert forall|p: (int, int)| !candidate(g, h, turn, p) by {
                    assert(holds(moves, p) <==> candidate(g, h, turn, p));
                }
            }
            return None;
        }
        let (wins, visits) = self.tree.tallies(seat);
        let choice = self.selector.select(&wins, &visits);
        let k = settle(choice, n);
        let child = self.tree.kid(seat, k);
        self.tree.current = child;
        let r = self.tree.nodes[child].point;
        proof {
            assert(kids[k as int] == child);
            assert(moves[k as int] == r->0);
            assert(holds(moves, pt(moves[k as int])));
            assert(holds(moves, pt(r->0)) <==> candidate(g, h, turn, pt(r->0)));
        }
        r
    }
}

impl<S: Selector> Player for MonteCarloAi<S> {
    /// The player's tree is in order.
    open spec fn ready(&self) -> bool {
        self.search().wf()
    }

    /// Chooses a move by search. If the opponent has just passed and the
    /// tree stands on an opened node, the player passes too. Otherwise the
    /// search takes its seat on the child that answers the opponent's move,
    /// or on a new node for the board as it is, makes playouts from there
    /// until their steps exceed the budget, and plays the move of the child
    /// that the selector names; it passes when the seat has no child.
    fn put(&mut self, board: &Board, turn: &Turn) -> (r: Option<(usize, usize)>)
        ensures
            final(self).budget() == old(self).budget(),
            passes_on(old(self).search(), board) ==> {
                &&& r is None
                &&& final(self).search() == old(self).search()
                &&& final(self).made() == old(self).made()
                &&& final(self).steps() == old(self).steps()
            },
            !passes_on(old(self).search(), board) ==> exists|d: int, k: int| #[trigger]
                final(self).thought(old(self), board, *turn, r, d, k),
            old(self).search().nodes@.len() == 0 ==> {
                &&& r is None <==> forall|p: (int, int)|
                    !candidate(board.grid(), board.past(), *turn, p)
                &&& r matches Some(m) ==> candidate(board.grid(), board.past(), *turn, pt(m))
            },
    {
        let seat = match self.take_seat(board, *turn) {
            None => {
                return None;
            },
            Some(seat) => seat,
        };
        let ghost sat = *self;
        let Ghost(k) = self.ponder(seat);
        let ghost pondered = *self;
        proof {
            assert(pondered.tree.nodes@[seat as int].board == sat.tree.nodes@[seat as int].board);
            assert(seated(old(self).search(), pondered.tree.nodes@, board, *turn, seat as int));
        }
        let r = self.decide(seat, *turn);
        proof {
            assert(self.searched(old(self), seat as int, k));
            assert(self.thought(old(self), board, *turn, r, seat as int, k));
            if old(self).search().nodes@.len() == 0 {
                let node = self.tree.nodes@[seat as int];
                assert(node.board == pondered.tree.nodes@[seat as int].board);
                assert(node.board.grid() == board.grid());
                assert(node.board.past() == board.past());
            }
        }
        r
    }
}

} // verus!
