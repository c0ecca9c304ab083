//! A player that moves at random.

use vstd::prelude::*;
use rand::rngs::ThreadRng;
use rand::seq::IteratorRandom;
use crate::board::{Board, Cell};
use crate::connectivity::{flood, holds, inside, is_liberty, pt, Grid};
use crate::game::Turn;
use crate::players::{ascending, lemma_holds_push, legal_points, Player};
use crate::rules::{after_put, legal, with_stone, Past};

verus! {

/// `rand::rngs::ThreadRng`, the handle to a thread's random number
/// generator. The library carries it and looks at nothing inside it.
#[verifier::external_type_specification]
#[verifier::external_body]
pub struct ExThreadRng(ThreadRng);

/// `rand::thread_rng`: a handle to the calling thread's generator. Nothing
/// is claimed of the handle.
pub assume_specification[ rand::thread_rng ]() -> (r: ThreadRng);

/// `rand::seq::IteratorRandom::choose` over the points of a list: one of
/// the points of the list, and `None` exactly when the list is empty. Which
/// point comes back is left open.
#[verifier::external_body]
fn choose_point(rng: &mut ThreadRng, points: &Vec<(usize, usize)>) -> (r: Option<(usize, usize)>)
    ensures
        r is None <==> points@.len() == 0,
        r matches Some(p) ==> points@.contains(p),
{
    points.iter().choose(rng).map(|v| *v)
}

/// A player that chooses uniformly among the moves it holds playable.
pub struct RandomAI {
    rng: ThreadRng,
}

/// The grid on which a stone of colour `c` at `p` is judged: the grid after
/// the placement where that is legal, else the grid with the stone set and
/// nothing taken.
pub open spec fn tried(g: Grid, history: Past, p: (int, int), c: Cell) -> Grid {
    if legal(g, history, p, c) {
        after_put(g, p, c)
    } else {
        with_stone(g, p, c)
    }
}

/// The group of `p` has two liberties or more.
pub open spec fn two_liberties(g: Grid, p: (int, int)) -> bool {
    exists|a: (int, int), b: (int, int)| a != b && is_liberty(g, p, a) && is_liberty(g, p, b)
}

/// A move that the random player holds playable: legal, and leaving the
/// stone's group two liberties or more.
pub open spec fn playable(board: &Board, turn: Turn, p: (int, int)) -> bool {
    &&& legal(board.grid(), board.past(), p, turn.cell())
    &&& two_liberties(tried(board.grid(), board.past(), p, turn.cell()), p)
}

/// Every point at which the side to move may place a stone, in the order in
/// which the board is read.
pub fn calc_puttables(board: &Board, turn: &Turn) -> (r: Vec<(usize, usize)>)
    requires
        board.wf(),
    ensures
        ascending(r@),
        forall|p: (int, int)|
            #![trigger holds(r@, p)]
            holds(r@, p) <==> legal(board.grid(), board.past(), p, turn.cell()),
{
    legal_points(board, turn)
}

/// Whether a stone of the side to move, once placed at `(x, y)`, belongs to
/// a group with two liberties or more.
pub fn is_live(board: &Board, x: &usize, y: &usize, turn: &Turn) -> (r: bool)
    requires
        board.wf(),
        *x < board.size,
        *y < board.size,
    ensures
        r == two_liberties(
            tried(board.grid(), board.past(), (*x as int, *y as int), turn.cell()),
            (*x as int, *y as int),
        ),
{
    let px = *x;
    let py = *y;
    let cell = turn.to_cell();
    let ghost g = board.grid();
    let ghost p = (px as int, py as int);
    let mut trial = board.clone();
    let done = trial.put(x, y, cell);
    if !done {
        assert(trial.grid()[px as int] == trial.cells@[px as int]@);
        trial.cells[px][py] = cell;
        assert(trial.grid() =~= with_stone(g, p, cell));
    }
    let ghost g1 = trial.grid();
    assert(g1 == tried(g, board.past(), p, cell));
    assert(g1[px as int] == trial.cells@[px as int]@);
    let group = flood(&trial.cells, px, py);
    let libs = &group.liberties;
    proof {
        if libs@.len() >= 2 {
            assert(libs@[0] != libs@[1]);
            assert(holds(libs@, pt(libs@[0])));
            assert(holds(libs@, pt(libs@[1])));
            assert(pt(libs@[0]) != pt(libs@[1]));
        }
        if two_liberties(g1, p) {
            let (a, b) = choose|a: (int, int), b: (int, int)|
                a != b && is_liberty(g1, p, a) && is_liberty(g1, p, b);
            assert(holds(libs@, a));
            assert(holds(libs@, b));
        }
    }
    libs.len() >= 2
}

impl RandomAI {
    /// A player that draws from the calling thread's generator.
    pub fn new() -> RandomAI {
        RandomAI { rng: rand::thread_rng() }
    }
}

impl Player for RandomAI {
    /// One of the playable moves, or `None` when there is none.
    fn put(&mut self, board: &Board, turn: &Turn) -> (r: Option<(usize, usize)>)
        ensures
            r is None <==> forall|p: (int, int)| !playable(board, *turn, p),
            r matches Some(m) ==> playable(board, *turn, pt(m)),
    {
        let all = calc_puttables(board, turn);
        let mut live: Vec<(usize, usize)> = Vec::new();
        let mut i: usize = 0;
        while i < all.len()
            invariant
                i <= all@.len(),
                board.wf(),
                forall|p: (int, int)|
                    #![trigger holds(all@, p)]
                    holds(all@, p) <==> legal(board.grid(), board.past(), p, turn.cell()),
                forall|k: int| 0 <= k < live@.len() ==> playable(board, *turn, pt(#[trigger] live@[k])),
                forall|k: int|
                    0 <= k < i && playable(board, *turn, pt(#[trigger] all@[k])) ==> holds(
                        live@,
                        pt(all@[k]),
                    ),
            decreases all@.len() - i,
        {
            let m = all[i];
            let ghost before_push = live@;
            assert(holds(all@, pt(m)));
            assert(inside(board.grid(), pt(m)));
            if is_live(board, &m.0, &m.1, turn) {
                live.push(m);
                proof {
                    assert forall|k: int| 0 <= k < live@.len() implies playable(
                        board,
                        *turn,
                        pt(#[trigger] live@[k]),
                    ) by {
                        if k < before_push.len() {
                            assert(live@[k] == before_push[k]);
                        }
                    }
                    assert forall|k: int|
                        0 <= k < i + 1 && playable(board, *turn, pt(#[trigger] all@[k])) implies holds(
                        live@,
                        pt(all@[k]),
                    ) by {
                        lemma_holds_push(before_push, m, pt(all@[k]));
                    }
                }
            }
            i = i + 1;
        }
        let r = choose_point(&mut self.rng, &live);
        proof {
            match r {
                Some(m) => {
                    let k = choose|k: int| 0 <= k < live@.len() && live@[k] == m;
                    assert(playable(board, *turn, pt(live@[k])));
                },
                None => {
                    assert forall|p: (int, int)| !playable(board, *turn, p) by {
                        if playable(board, *turn, p) {
                            assert(holds(all@, p));
                            let k = choose|k: int| 0 <= k < all@.len() && pt(#[trigger] all@[k]) == p;
                            assert(holds(live@, pt(all@[k])));
                        }
                    }
                },
            }
        }
        r
    }
}

} // verus!
