//! The search tree: board snapshots with the statistics of the playouts that
//! passed through them.
//!
//! The nodes of the tree stand in one list and name their children by their
//! place in it. A node that was never opened has no list of children; once
//! opened it has one child for every move that the search looks at, in the
//! order in which the board is read. A child always stands after its parent.

use vstd::prelude::*;
use crate::board::{Board, Cell};
use crate::connectivity::{holds, inside, pt};
use crate::game::{Turn, Winner};
use crate::players::monte_carlo_ai::{candidate, is_move_list, live_points};
use crate::rules::{after_put, takes};
use crate::scoring::score;

verus! {

/// A node of the search tree.
pub struct Node {
    /// The position that the node stands for.
    pub board: Board,
    /// The side to move in that position.
    pub turn: Turn,
    /// The playouts through the node that the side to move won.
    pub win_count: i32,
    /// The playouts through the node.
    pub simulate_num: i32,
    /// The move that led to the position.
    pub point: Option<(usize, usize)>,
    /// The places of the node's children, once the node was opened.
    pub nodes: Option<Vec<usize>>,
}

/// The search tree.
pub struct SearchTree {
    /// The nodes, each child after its parent.
    pub nodes: Vec<Node>,
    /// The place of the node that the search stands on.
    pub current: usize,
}

/// The node at `c` is a child of the node at `i`: it stands later in the
/// list, the other side is to move in it, and its position is the parent's
/// after the parent's side placed a stone at the child's point.
pub open spec fn kid_ok(t: Seq<Node>, i: int, c: int) -> bool {
    &&& i < c < t.len()
    &&& t[c].turn == t[i].turn.other()
    &&& t[c].point matches Some(m)
    &&& t[c].board.grid() == after_put(t[i].board.grid(), pt(m), t[i].turn.cell())
    &&& t[c].board.points@ == t[i].board.points@.push(Some((m.0, m.1, t[i].turn.cell())))
    &&& takes(t[c].board.taken@, t[i].board.grid(), pt(m), t[i].turn.cell())
}

/// The moves that lead to the children at the places `kids`.
pub open spec fn moves_of(t: Seq<Node>, kids: Seq<usize>) -> Seq<(usize, usize)> {
    Seq::new(kids.len(), |k: int| t[kids[k] as int].point->0)
}

/// The node at `i` is in order: its board is well formed, it won no more
/// playouts than passed through it, and if it was opened its children stand
/// for exactly the moves that the search looks at in its position.
pub open spec fn node_ok(t: Seq<Node>, i: int) -> bool {
    &&& t[i].board.wf()
    &&& 0 <= t[i].win_count <= t[i].simulate_num
    &&& t[i].nodes matches Some(kids) ==> {
        &&& forall|k: int| 0 <= k < kids@.len() ==> kid_ok(t, i, #[trigger] kids@[k] as int)
        &&& is_move_list(moves_of(t, kids@), t[i].board.grid(), t[i].board.past(), t[i].turn)
    }
}

/// Every node of the list is in order.
pub open spec fn tree_ok(t: Seq<Node>) -> bool {
    forall|i: int| 0 <= i < t.len() ==> #[trigger] node_ok(t, i)
}

/// The list `b` continues the list `a`: the nodes of `a` are still there
/// with their positions, sides and moves, and those that were opened have
/// the children they had. Only the statistics may differ.
pub open spec fn continues(a: Seq<Node>, b: Seq<Node>) -> bool {
    &&& a.len() <= b.len()
    &&& forall|j: int|
        0 <= j < a.len() ==> {
            &&& (#[trigger] b[j]).board == a[j].board
            &&& b[j].turn == a[j].turn
            &&& b[j].point == a[j].point
            &&& a[j].nodes is Some ==> b[j].nodes == a[j].nodes
        }
}

/// A node in order stays in order in a list that continues its own, as long
/// as it keeps its children and its statistics stay in range.
pub proof fn lemma_node_kept(a: Seq<Node>, b: Seq<Node>, j: int)
    requires
        0 <= j < a.len(),
        node_ok(a, j),
        continues(a, b),
        b[j].nodes == a[j].nodes,
        0 <= b[j].win_count <= b[j].simulate_num,
    ensures
        node_ok(b, j),
{
    if let Some(kids) = a[j].nodes {
        assert forall|k: int| 0 <= k < kids@.len() implies kid_ok(b, j, #[trigger] kids@[k] as int) by {
            let c = kids@[k] as int;
            assert(kid_ok(a, j, c));
            assert(b[c].board == a[c].board);
        }
        assert(moves_of(b, kids@) =~= moves_of(a, kids@)) by {
            assert forall|k: int| 0 <= k < kids@.len() implies moves_of(b, kids@)[k] == moves_of(
                a,
                kids@,
            )[k] by {
                let c = kids@[k] as int;
                assert(kid_ok(a, j, c));
                assert(b[c].point == a[c].point);
            }
        }
    }
}

/// Something that decides which child a playout enters. It is shown, for
/// each child in order, the playouts that the child's side won and the
/// playouts that passed through the child, and names a child by its place.
/// Nothing is promised of the answer: the search checks it.
pub trait Selector {
    fn select(&mut self, wins: &Vec<i32>, visits: &Vec<i32>) -> usize;
}

/// The place that an answer of a selector stands for among `n` children:
/// the answer itself if it names a child, else the first child.
pub open spec fn settled_choice(choice: usize, n: usize) -> usize {
    if choice < n {
        choice
    } else {
        0
    }
}

/// The place that an answer of a selector stands for among `n` children.
pub fn settle(choice: usize, n: usize) -> (k: usize)
    ensures
        k == settled_choice(choice, n),
        n > 0 ==> k < n,
{
    if choice < n {
        choice
    } else {
        0
    }
}

/// How a node without moves is judged. A node that playouts passed through
/// before keeps what they found: a win for its side if it won any, else a
/// win for the other side. A node seen for the first time is scored by
/// area.
pub open spec fn verdict_of(n: Node) -> Winner {
    if n.simulate_num > 0 {
        if n.win_count > 0 {
            n.turn.winner()
        } else {
            n.turn.other().winner()
        }
    } else {
        score(n.board.grid())
    }
}

/// The node after a playout with the outcome `w` passed through it: one
/// more playout, and one more win if its side won. A node whose count is
/// full stays as it is.
pub open spec fn credited(n: Node, w: Winner) -> Node {
    if n.simulate_num < i32::MAX {
        Node {
            simulate_num: (n.simulate_num + 1) as i32,
            win_count: if w == n.turn.winner() {
                (n.win_count + 1) as i32
            } else {
                n.win_count
            },
            ..n
        }
    } else {
        n
    }
}

/// The places of a walk grow from step to step.
pub open spec fn rising(path: Seq<usize>) -> bool {
    forall|i: int, j: int| 0 <= i < j < path.len() ==> #[trigger] path[i] < #[trigger] path[j]
}

/// The place `j` is one of the first `k` steps of the walk.
pub open spec fn passed(path: Seq<usize>, k: int, j: int) -> bool {
    exists|i: int| 0 <= i < k && i < path.len() && #[trigger] path[i] == j
}

/// Each step of the walk leads from a node to one of its children.
pub open spec fn descends(t: Seq<Node>, path: Seq<usize>) -> bool {
    forall|i: int|
        0 <= i < path.len() - 1 ==> (#[trigger] t[path[i] as int]).nodes is Some && t[path[i] as int].nodes->0@.contains(
            path[i + 1],
        )
}

/// The child at `c` answers the move `m` for the side `turn`: that side is
/// to move in it, and its board holds the stone of the move.
pub open spec fn answers(n: Node, m: (usize, usize, Cell), turn: Turn) -> bool {
    &&& n.turn == turn
    &&& inside(n.board.grid(), (m.0 as int, m.1 as int))
    &&& n.board.grid()[m.0 as int][m.1 as int] == m.2
}

/// The node at `j` of the list `t` with the statistics it had in the list
/// `t0`, or none if `t0` did not hold it.
pub open spec fn unplayed(t0: Seq<Node>, t: Seq<Node>, j: int) -> Node {
    Node {
        win_count: if j < t0.len() {
            t0[j].win_count
        } else {
            0
        },
        simulate_num: if j < t0.len() {
            t0[j].simulate_num
        } else {
            0
        },
        ..t[j]
    }
}

/// A list that continues a list that continues `a` continues `a`.
pub proof fn lemma_continues_trans(a: Seq<Node>, b: Seq<Node>, c: Seq<Node>)
    requires
        continues(a, b),
        continues(b, c),
    ensures
        continues(a, c),
{
    assert forall|j: int| 0 <= j < a.len() implies {
        &&& (#[trigger] c[j]).board == a[j].board
        &&& c[j].turn == a[j].turn
        &&& c[j].point == a[j].point
        &&& a[j].nodes is Some ==> c[j].nodes == a[j].nodes
    } by {
        assert(b[j].board == a[j].board);
    }
}

/// A walk stays a walk in a list that continues the list it was made in.
pub proof fn lemma_descends_kept(a: Seq<Node>, b: Seq<Node>, path: Seq<usize>)
    requires
        descends(a, path),
        continues(a, b),
        forall|k: int| 0 <= k < path.len() ==> #[trigger] path[k] < a.len(),
    ensures
        descends(b, path),
{
    assert forall|i: int| 0 <= i < path.len() - 1 implies (#[trigger] b[path[i] as int]).nodes is Some
        && b[path[i] as int].nodes->0@.contains(path[i + 1]) by {
        assert(a[path[i] as int].nodes is Some);
        assert(b[path[i] as int].board == a[path[i] as int].board);
    }
}

/// The child at place `k` of `kids` is the first that answers the move `m`
/// for the side `turn`.
pub open spec fn first_answer(
    t: Seq<Node>,
    kids: Seq<usize>,
    m: (usize, usize, Cell),
    turn: Turn,
    k: int,
) -> bool {
    &&& 0 <= k < kids.len()
    &&& answers(t[kids[k] as int], m, turn)
    &&& forall|i: int| 0 <= i < k ==> !answers(t[#[trigger] kids[i] as int], m, turn)
}

impl SearchTree {
    /// The tree is in order, and stands on one of its nodes if it has any.
    pub open spec fn wf(&self) -> bool {
        &&& tree_ok(self.nodes@)
        &&& self.nodes@.len() == 0 || self.current < self.nodes@.len()
    }

    /// A tree without nodes.
    pub fn new() -> (t: SearchTree)
        ensures
            t.wf(),
            t.nodes@.len() == 0,
            t.current == 0,
    {
        SearchTree { nodes: Vec::new(), current: 0 }
    }

    /// Adds a node for the position `board` with `turn` to move, reached by
    /// the move `point`. The node has no statistics and is not opened. The
    /// tree then stands on it.
    pub fn plant(&mut self, board: &Board, turn: Turn, point: Option<(usize, usize)>) -> (idx: usize)
        requires
            old(self).wf(),
            board.wf(),
        ensures
            final(self).wf(),
            idx == old(self).nodes@.len(),
            final(self).current == idx,
            final(self).nodes@.len() == idx + 1,
            forall|j: int| 0 <= j < idx ==> #[trigger] final(self).nodes@[j] == old(self).nodes@[j],
            final(self).nodes@[idx as int].board.grid() == board.grid(),
            final(self).nodes@[idx as int].board.points@ == board.points@,
            final(self).nodes@[idx as int].board.taken@ == board.taken@,
            final(self).nodes@[idx as int].turn == turn,
            final(self).nodes@[idx as int].point == point,
            final(self).nodes@[idx as int].nodes is None,
            final(self).nodes@[idx as int].win_count == 0,
            final(self).nodes@[idx as int].simulate_num == 0,
    {
        let ghost before = self.nodes@;
        let idx = self.nodes.len();
        self.nodes.push(
            Node {
                board: board.clone(),
                turn,
                win_count: 0,
                simulate_num: 0,
                point,
                nodes: None,
            },
        );
        self.current = idx;
        proof {
            assert forall|i: int| 0 <= i < self.nodes@.len() implies #[trigger] node_ok(
                self.nodes@,
                i,
            ) by {
                if i < idx {
                    assert(self.nodes@[i] == before[i]);
                    assert(node_ok(before, i));
                    lemma_node_kept(before, self.nodes@, i);
                }
            }
        }
        idx
    }

    /// Opens the node at `idx`: adds to the end of the list one node for
    /// every move that the search looks at in its position, in order, each
    /// holding the position after the move, with the other side to move, no
    /// statistics and not opened, and makes the added nodes the children.
    pub fn expand(&mut self, idx: usize)
        requires
            old(self).wf(),
            idx < old(self).nodes@.len(),
            old(self).nodes@[idx as int].nodes is None,
        ensures
            final(self).wf(),
            final(self).current == old(self).current,
            continues(old(self).nodes@, final(self).nodes@),
            final(self).nodes@[idx as int].nodes matches Some(kids) && {
                &&& final(self).nodes@.len() == old(self).nodes@.len() + kids@.len()
                &&& forall|k: int|
                    0 <= k < kids@.len() ==> #[trigger] kids@[k] == old(self).nodes@.len() + k
            },
            final(self).nodes@[idx as int].win_count == old(self).nodes@[idx as int].win_count,
            final(self).nodes@[idx as int].simulate_num == old(self).nodes@[idx as int].simulate_num,
            forall|j: int|
                0 <= j < old(self).nodes@.len() && j != idx ==> #[trigger] final(self).nodes@[j]
                    == old(self).nodes@[j],
            forall|j: int|
                old(self).nodes@.len() <= j < final(self).nodes@.len() ==> {
                    &&& (#[trigger] final(self).nodes@[j]).nodes is None
                    &&& final(self).nodes@[j].win_count == 0
                    &&& final(self).nodes@[j].simulate_num == 0
                },
    {
        let ghost t0 = self.nodes@;
        let base = self.nodes.len();
        assert(node_ok(t0, idx as int));
        let parent = self.nodes[idx].board.clone();
        let turn = self.nodes[idx].turn;
        let cell = turn.to_cell();
        let next = turn.get_next_turn();
        let moves = live_points(&parent, &turn);
        let ghost g = parent.grid();
        let ghost h = parent.points@;
        let ghost past = parent.past();
        let mut kids: Vec<usize> = Vec::new();
        let mut i: usize = 0;
        while i < moves.len()
            invariant
                i <= moves@.len(),
                i == kids@.len(),
                idx < base,
                base == t0.len(),
                self.nodes@.len() == base + i,
                self.current == old(self).current,
                parent.wf(),
                g == parent.grid(),
                h == parent.points@,
                past == parent.past(),
                past == t0[idx as int].board.past(),
                g == t0[idx as int].board.grid(),
                h == t0[idx as int].board.points@,
                turn == t0[idx as int].turn,
                cell == turn.cell(),
                next == turn.other(),
                is_move_list(moves@, g, past, turn),
                forall|j: int| 0 <= j < base ==> #[trigger] self.nodes@[j] == t0[j],
                forall|k: int| 0 <= k < i ==> #[trigger] kids@[k] == base + k,
                forall|k: int|
                    0 <= k < i ==> {
                        let kid = #[trigger] self.nodes@[base + k];
                        &&& kid.board.wf()
                        &&& kid.turn == next
                        &&& kid.point == Some(moves@[k])
                        &&& kid.nodes is None
                        &&& kid.win_count == 0
                        &&& kid.simulate_num == 0
                        &&& kid.board.grid() == after_put(g, pt(moves@[k]), cell)
                        &&& kid.board.points@ == h.push(Some((moves@[k].0, moves@[k].1, cell)))
                        &&& takes(kid.board.taken@, g, pt(moves@[k]), cell)
                    },
            decreases moves@.len() - i,
        {
            let m = moves[i];
            let ghost list = self.nodes@;
            assert(holds(moves@, pt(m)));
            assert(candidate(g, past, turn, pt(m)));
            let mut board = parent.clone();
            let done = board.put(&m.0, &m.1, cell);
            assert(done);
            self.nodes.push(
                Node { board, turn: next, win_count: 0, simulate_num: 0, point: Some(m), nodes: None },
            );
            kids.push(self.nodes.len() - 1);
            proof {
                assert forall|j: int| 0 <= j < base implies #[trigger] self.nodes@[j] == t0[j] by {
                    assert(self.nodes@[j] == list[j]);
                }
                assert forall|k: int| 0 <= k < i + 1 implies ({
                    let kid = #[trigger] self.nodes@[base + k];
                    &&& kid.board.wf()
                    &&& kid.turn == next
                    &&& kid.point == Some(moves@[k])
                    &&& kid.nodes is None
                    &&& kid.win_count == 0
                    &&& kid.simulate_num == 0
                    &&& kid.board.grid() == after_put(g, pt(moves@[k]), cell)
                    &&& kid.board.points@ == h.push(Some((moves@[k].0, moves@[k].1, cell)))
                    &&& takes(kid.board.taken@, g, pt(moves@[k]), cell)
                }) by {
                    if k < i {
                        assert(self.nodes@[base + k] == list[base + k]);
                    }
                }
            }
            i = i + 1;
        }
        let ghost t1 = self.nodes@;
        self.nodes[idx].nodes = Some(kids);
        proof {
            let t2 = self.nodes@;
            assert(t2.len() == t1.len());
            assert forall|j: int| 0 <= j < t2.len() && j != idx implies #[trigger] t2[j] == t1[j] by {}
            assert(t2[idx as int].board == t1[idx as int].board);
            assert(t2[idx as int].nodes == Some(kids));
            assert(continues(t0, t2));
            assert(moves_of(t2, kids@) =~= moves@) by {
                assert forall|k: int| 0 <= k < kids@.len() implies moves_of(t2, kids@)[k]
                    == moves@[k] by {
                    assert(kids@[k] == base + k);
                    assert(t2[base + k] == t1[base + k]);
                }
            }
            assert forall|j: int| base <= j < t2.len() implies ({
                &&& (#[trigger] t2[j]).nodes is None
                &&& t2[j].win_count == 0
                &&& t2[j].simulate_num == 0
            }) by {
                assert(t2[j] == t1[base + (j - base)]);
            }
            assert forall|j: int| 0 <= j < t2.len() implies #[trigger] node_ok(t2, j) by {
                if j == idx {
                    assert forall|k: int| 0 <= k < kids@.len() implies kid_ok(
                        t2,
                        j,
                        #[trigger] kids@[k] as int,
                    ) by {
                        assert(kids@[k] == base + k);
                        assert(t2[base + k] == t1[base + k]);
                    }
                } else if j < base {
                    assert(node_ok(t0, j));
                    lemma_node_kept(t0, t2, j);
                } else {
                    assert(t2[j] == t1[base + (j - base)]);
                }
            }
        }
    }

    /// How the node at `idx` is judged at the end of a playout.
    pub fn verdict(&self, idx: usize) -> (w: Winner)
        requires
            self.wf(),
            idx < self.nodes@.len(),
        ensures
            w == verdict_of(self.nodes@[idx as int]),
    {
        assert(node_ok(self.nodes@, idx as int));
        let node = &self.nodes[idx];
        if node.simulate_num > 0 {
            if node.win_count > 0 {
                node.turn.to_winner()
            } else {
                node.turn.get_next_turn().to_winner()
            }
        } else {
            node.board.calc_winner()
        }
    }

    /// Credits a playout with the outcome `winner` to every node of the walk
    /// `path`: each counts one more playout, and one more win if the outcome
    /// is a win for the side to move in it. No other node changes.
    pub fn credit(&mut self, path: &Vec<usize>, winner: Winner)
        requires
            old(self).wf(),
            rising(path@),
            forall|k: int| 0 <= k < path@.len() ==> #[trigger] path@[k] < old(self).nodes@.len(),
        ensures
            final(self).wf(),
            final(self).current == old(self).current,
            final(self).nodes@.len() == old(self).nodes@.len(),
            continues(old(self).nodes@, final(self).nodes@),
            forall|j: int|
                0 <= j < old(self).nodes@.len() ==> #[trigger] final(self).nodes@[j] == (if passed(
                    path@,
                    path@.len() as int,
                    j,
                ) {
                    credited(old(self).nodes@[j], winner)
                } else {
                    old(self).nodes@[j]
                }),
    {
        let ghost t0 = self.nodes@;
        let mut k: usize = 0;
        while k < path.len()
            invariant
                k <= path@.len(),
                rising(path@),
                tree_ok(t0),
                self.current == old(self).current,
                self.nodes@.len() == t0.len(),
                forall|i: int| 0 <= i < path@.len() ==> #[trigger] path@[i] < t0.len(),
                forall|j: int|
                    0 <= j < t0.len() ==> #[trigger] self.nodes@[j] == (if passed(path@, k as int, j) {
                        credited(t0[j], winner)
                    } else {
                        t0[j]
                    }),
            decreases path@.len() - k,
        {
            let p = path[k];
            let ghost t1 = self.nodes@;
            proof {
                assert(node_ok(t0, p as int));
                if passed(path@, k as int, p as int) {
                    let i = choose|i: int| 0 <= i < k && i < path@.len() && #[trigger] path@[i] == p;
                    assert(path@[i] < path@[k as int]);
                }
                assert(t1[p as int] == t0[p as int]);
            }
            if self.nodes[p].simulate_num < i32::MAX {
                let won = winner == self.nodes[p].turn.to_winner();
                self.nodes[p].simulate_num = self.nodes[p].simulate_num + 1;
                if won {
                    self.nodes[p].win_count = self.nodes[p].win_count + 1;
                }
            }
            proof {
                let t2 = self.nodes@;
                assert(t2[p as int] == credited(t0[p as int], winner));
                assert forall|j: int| 0 <= j < t0.len() implies #[trigger] t2[j] == (if passed(
                    path@,
                    k + 1,
                    j,
                ) {
                    credited(t0[j], winner)
                } else {
                    t0[j]
                }) by {
                    if j == p {
                        assert(path@[k as int] == j);
                        assert(passed(path@, k + 1, j));
                    } else {
                        assert(t2[j] == t1[j]);
                        if passed(path@, k + 1, j) {
                            let i = choose|i: int|
                                0 <= i < k + 1 && i < path@.len() && #[trigger] path@[i] == j;
                            assert(i < k);
                            assert(passed(path@, k as int, j));
                        }
                        if passed(path@, k as int, j) {
                            let i = choose|i: int|
                                0 <= i < k && i < path@.len() && #[trigger] path@[i] == j;
                            assert(0 <= i < k + 1);
                        }
                    }
                }
            }
            k = k + 1;
        }
        proof {
            let t2 = self.nodes@;
            assert(continues(t0, t2));
            assert forall|j: int| 0 <= j < t2.len() implies #[trigger] node_ok(t2, j) by {
                assert(node_ok(t0, j));
                lemma_node_kept(t0, t2, j);
            }
        }
    }

    /// The statistics of the children of the node at `idx`, in order: the
    /// playouts each child's side won, and the playouts through each child.
    pub fn tallies(&self, idx: usize) -> (r: (Vec<i32>, Vec<i32>))
        requires
            self.wf(),
            idx < self.nodes@.len(),
            self.nodes@[idx as int].nodes is Some,
        ensures
            r.0@.len() == self.nodes@[idx as int].nodes->0@.len(),
            r.1@.len() == r.0@.len(),
            forall|k: int|
                0 <= k < r.0@.len() ==> {
                    let c = self.nodes@[idx as int].nodes->0@[k] as int;
                    #[trigger] r.0@[k] == self.nodes@[c].win_count && r.1@[k]
                        == self.nodes@[c].simulate_num
                },
    {
        let mut wins: Vec<i32> = Vec::new();
        let mut visits: Vec<i32> = Vec::new();
        assert(node_ok(self.nodes@, idx as int));
        match &self.nodes[idx].nodes {
            None => {},
            Some(kids) => {
                let mut k: usize = 0;
                while k < kids.len()
                    invariant
                        k <= kids@.len(),
                        idx < self.nodes@.len(),
                        self.nodes@[idx as int].nodes == Some(*kids),
                        node_ok(self.nodes@, idx as int),
                        wins@.len() == k,
                        visits@.len() == k,
                        forall|i: int|
                            0 <= i < k ==> {
                                let c = kids@[i] as int;
                                #[trigger] wins@[i] == self.nodes@[c].win_count && visits@[i]
                                    == self.nodes@[c].simulate_num
                            },
                    decreases kids@.len() - k,
                {
                    let c = kids[k];
                    assert(kid_ok(self.nodes@, idx as int, kids@[k as int] as int));
                    wins.push(self.nodes[c].win_count);
                    visits.push(self.nodes[c].simulate_num);
                    k = k + 1;
                }
            },
        }
        (wins, visits)
    }

    /// The number of children of the node at `idx`; none if it was never
    /// opened.
    pub fn fan(&self, idx: usize) -> (n: usize)
        requires
            idx < self.nodes@.len(),
        ensures
            n == (match self.nodes@[idx as int].nodes {
                Some(kids) => kids@.len(),
                None => 0,
            }),
    {
        match &self.nodes[idx].nodes {
            Some(kids) => kids.len(),
            None => 0,
        }
    }

    /// The place of the child that stands at `k` among the children of the
    /// node at `idx`.
    pub fn kid(&self, idx: usize, k: usize) -> (c: usize)
        requires
            self.wf(),
            idx < self.nodes@.len(),
            self.nodes@[idx as int].nodes is Some,
            k < self.nodes@[idx as int].nodes->0@.len(),
        ensures
            c == self.nodes@[idx as int].nodes->0@[k as int],
            kid_ok(self.nodes@, idx as int, c as int),
    {
        assert(node_ok(self.nodes@, idx as int));
        match &self.nodes[idx].nodes {
            Some(kids) => kids[k],
            None => 0,
        }
    }

    /// One playout from the node at `start`. The walk opens every node it
    /// comes to and enters the child that the selector names, until it
    /// stands on a node without moves or has made `cap` steps. That node is
    /// judged, and the outcome is credited to every node of the walk. The
    /// result is the outcome and the walk.
    pub fn playout<S: Selector>(&mut self, start: usize, cap: usize, selector: &mut S) -> (r: (
        Winner,
        Vec<usize>,
    ))
        requires
            old(self).wf(),
            start < old(self).nodes@.len(),
            cap < usize::MAX,
        ensures
            final(self).wf(),
            final(self).current == old(self).current,
            continues(old(self).nodes@, final(self).nodes@),
            final(self).nodes@[start as int].nodes is Some,
            1 <= r.1@.len() <= cap + 1,
            r.1@[0] == start,
            rising(r.1@),
            forall|k: int| 0 <= k < r.1@.len() ==> #[trigger] r.1@[k] < final(self).nodes@.len(),
            descends(final(self).nodes@, r.1@),
            final(self).nodes@[r.1@.last() as int].nodes matches Some(kids) && (kids@.len() == 0
                || r.1@.len() == cap + 1),
            r.0 == verdict_of(
                unplayed(old(self).nodes@, final(self).nodes@, r.1@.last() as int),
            ),
            forall|j: int|
                0 <= j < final(self).nodes@.len() ==> #[trigger] final(self).nodes@[j] == (
                if passed(r.1@, r.1@.len() as int, j) {
                    credited(unplayed(old(self).nodes@, final(self).nodes@, j), r.0)
                } else {
                    unplayed(old(self).nodes@, final(self).nodes@, j)
                }),
    {
        let ghost t0 = self.nodes@;
        let mut path: Vec<usize> = Vec::new();
        path.push(start);
        let mut cur = start;
        assert(continues(t0, t0));
        loop
            invariant
                self.wf(),
                self.current == old(self).current,
                continues(t0, self.nodes@),
                cap < usize::MAX,
                1 <= path@.len() <= cap + 1,
                path@[0] == start,
                path@.last() == cur,
                rising(path@),
                forall|k: int| 0 <= k < path@.len() ==> #[trigger] path@[k] < self.nodes@.len(),
                descends(self.nodes@, path@),
                forall|j: int|
                    0 <= j < self.nodes@.len() ==> #[trigger] self.nodes@[j] == unplayed(
                        t0,
                        self.nodes@,
                        j,
                    ),
            ensures
                self.nodes@[cur as int].nodes matches Some(kids) && (kids@.len() == 0 || path@.len()
                    == cap + 1),
            decreases cap + 1 - path@.len(),
        {
            let ghost t1 = self.nodes@;
            if self.nodes[cur].nodes.is_none() {
                self.expand(cur);
                proof {
                    let t2 = self.nodes@;
                    lemma_continues_trans(t0, t1, t2);
                    lemma_descends_kept(t1, t2, path@);
                    assert forall|j: int| 0 <= j < t2.len() implies #[trigger] t2[j] == unplayed(
                        t0,
                        t2,
                        j,
                    ) by {
                        if j < t1.len() {
                            assert(t1[j] == unplayed(t0, t1, j));
                            if j != cur {
                                assert(t2[j] == t1[j]);
                            }
                        }
                    }
                }
            }
            let n = self.fan(cur);
            if n == 0 || path.len() > cap {
                break ;
            }
            let (wins, visits) = self.tallies(cur);
            let choice = selector.select(&wins, &visits);
            let k = settle(choice, n);
            let child = self.kid(cur, k);
            let ghost walk = path@;
            path.push(child);
            proof {
                let t2 = self.nodes@;
                assert(t2[cur as int].nodes->0@[k as int] == child);
                assert forall|i: int, j: int| 0 <= i < j < path@.len() implies #[trigger] path@[i]
                    < #[trigger] path@[j] by {
                    if j < walk.len() {
                        assert(path@[i] == walk[i] && path@[j] == walk[j]);
                    } else {
                        assert(path@[i] == walk[i]);
                        if i < walk.len() - 1 {
                            assert(walk[i] < walk[walk.len() - 1]);
                        }
                    }
                }
                assert forall|i: int| 0 <= i < path@.len() - 1 implies (#[trigger] t2[path@[i] as int]).nodes is Some
                    && t2[path@[i] as int].nodes->0@.contains(path@[i + 1]) by {
                    assert(path@[i] == walk[i]);
                    if i < walk.len() - 1 {
                        assert(path@[i + 1] == walk[i + 1]);
                        assert(t2[walk[i] as int].nodes is Some);
                    }
                }
            }
            cur = child;
        }
        let ghost t1 = self.nodes@;
        let winner = self.verdict(cur);
        self.credit(&path, winner);
        proof {
            let t2 = self.nodes@;
            lemma_continues_trans(t0, t1, t2);
            lemma_descends_kept(t1, t2, path@);
            assert(t2[cur as int].board == t1[cur as int].board);
            assert(unplayed(t0, t2, cur as int) == t1[cur as int]);
            if path@.len() > 1 {
                assert(t1[path@[0] as int].nodes is Some);
            }
            assert(t1[start as int].nodes is Some);
            assert forall|j: int| 0 <= j < t2.len() implies #[trigger] t2[j] == (if passed(
                path@,
                path@.len() as int,
                j,
            ) {
                credited(unplayed(t0, t2, j), winner)
            } else {
                unplayed(t0, t2, j)
            }) by {
                assert(t1[j] == unplayed(t0, t1, j));
                assert(t2[j].board == t1[j].board);
                assert(unplayed(t0, t2, j) == t1[j]);
            }
        }
        (winner, path)
    }

    /// The first child of the node that the tree stands on that answers the
    /// move `m` for the side `turn`, if there is one.
    pub fn find_reply(&self, m: (usize, usize, Cell), turn: Turn) -> (r: Option<usize>)
        requires
            self.wf(),
            self.nodes@.len() > 0,
            self.nodes@[self.current as int].nodes is Some,
        ensures
            match r {
                Some(c) => kid_ok(self.nodes@, self.current as int, c as int) && exists|k: int|
                    #[trigger] first_answer(
                        self.nodes@,
                        self.nodes@[self.current as int].nodes->0@,
                        m,
                        turn,
                        k,
                    ) && self.nodes@[self.current as int].nodes->0@[k] == c,
                None => forall|k: int|
                    0 <= k < self.nodes@[self.current as int].nodes->0@.len() ==> !answers(
                        self.nodes@[#[trigger] self.nodes@[self.current as int].nodes->0@[k] as int],
                        m,
                        turn,
                    ),
            },
    {
        let n = self.fan(self.current);
        let ghost kids = self.nodes@[self.current as int].nodes->0@;
        let mut k: usize = 0;
        while k < n
            invariant
                k <= n,
                n == kids.len(),
                self.wf(),
                self.current < self.nodes@.len(),
                self.nodes@[self.current as int].nodes is Some,
                kids == self.nodes@[self.current as int].nodes->0@,
                forall|i: int| 0 <= i < k ==> !answers(self.nodes@[#[trigger] kids[i] as int], m, turn),
            decreases n - k,
        {
            let c = self.kid(self.current, k);
            assert(node_ok(self.nodes@, c as int));
            let node = &self.nodes[c];
            if node.turn == turn && m.0 < node.board.size && m.1 < node.board.size {
                assert(node.board.grid()[m.0 as int] == node.board.cells@[m.0 as int]@);
                if node.board.cells[m.0][m.1] == m.2 {
                    assert(kids[k as int] == c);
                    assert(first_answer(self.nodes@, kids, m, turn, k as int));
                    return Some(c);
                }
            }
            k = k + 1;
        }
        None
    }

    /// Whether the node at `idx` was opened.
    pub fn fan_known(&self, idx: usize) -> (r: bool)
        requires
            idx < self.nodes@.len(),
        ensures
            r == self.nodes@[idx as int].nodes is Some,
    {
        self.nodes[idx].nodes.is_some()
    }
}

} // verus!
