//! Whose turn it is, who won, and the course of a game between two players.

use vstd::prelude::*;
use crate::board::{Board, Cell};
use crate::connectivity::{pt, Grid};
use crate::players::Player;
use crate::rules::{after_put, legal, takes, Past};
use crate::scoring::score;

verus! {

/// The side that is to move.
#[derive(PartialEq, Eq, Structural, Clone, Copy, Debug)]
pub enum Turn {
    Black,
    White,
}

/// The outcome of a game.
#[derive(PartialEq, Eq, Structural, Clone, Copy, Debug)]
pub enum Winner {
    Black,
    White,
    /// Neither side: both hold as much.
    Draw,
}

impl Turn {
    /// The side that moves after this one.
    pub open spec fn other(self) -> Turn {
        match self {
            Turn::Black => Turn::White,
            Turn::White => Turn::Black,
        }
    }

    /// The colour of the stones that this side places.
    pub open spec fn cell(self) -> Cell {
        match self {
            Turn::Black => Cell::Black,
            Turn::White => Cell::White,
        }
    }

    /// The outcome in which this side has won.
    pub open spec fn winner(self) -> Winner {
        match self {
            Turn::Black => Winner::Black,
            Turn::White => Winner::White,
        }
    }

    /// The side that moves after this one.
    pub fn get_next_turn(&self) -> (r: Turn)
        ensures
            r == self.other(),
    {
        match self {
            Turn::Black => Turn::White,
            Turn::White => Turn::Black,
        }
    }

    /// The colour of the stones that this side places.
    pub fn to_cell(&self) -> (r: Cell)
        ensures
            r == self.cell(),
            r.is_stone(),
    {
        match self {
            Turn::Black => Cell::Black,
            Turn::White => Cell::White,
        }
    }

    /// The outcome in which this side has won.
    pub fn to_winner(&self) -> (r: Winner)
        ensures
            r == self.winner(),
    {
        match self {
            Turn::Black => Winner::Black,
            Turn::White => Winner::White,
        }
    }
}

impl Winner {
    /// The name of the outcome.
    pub open spec fn name(self) -> Seq<char> {
        match self {
            Winner::Black => "Black"@,
            Winner::White => "White"@,
            Winner::Draw => "None"@,
        }
    }

    /// The outcome with the two sides exchanged.
    pub open spec fn swapped(self) -> Winner {
        match self {
            Winner::Black => Winner::White,
            Winner::White => Winner::Black,
            Winner::Draw => Winner::Draw,
        }
    }

    /// `"Black"`, `"White"`, or `"None"` for a draw.
    pub fn to_string(&self) -> (r: &'static str)
        ensures
            r@ == self.name(),
    {
        match self {
            Winner::Black => "Black",
            Winner::White => "White",
            Winner::Draw => "None",
        }
    }
}

/// The most moves and passes that a game may have.
pub const MAX_MOVES: usize = 120;

/// The illegal answers in a row, by one side in one turn, that end the game.
pub const MAX_FAILURES: usize = 3;

/// A game between two players on a board of nine rows.
pub struct Game<B: Player, W: Player> {
    /// The board that the game is played on.
    pub board: Board,
    /// The side to move.
    pub turn: Turn,
    /// The player of the black stones.
    pub black_player: B,
    /// The player of the white stones.
    pub white_player: W,
    /// The moves and passes made.
    pub moves: usize,
    /// The illegal answers that the side to move has given in this turn.
    pub failures: usize,
}

/// What the game does after an answer of a player.
#[derive(PartialEq, Eq, Structural, Clone, Copy, Debug)]
pub enum Step {
    /// The answer was played; the other side is to move.
    Continue,
    /// The answer was illegal; the same side is asked again.
    Retry,
    /// Both sides passed, one after the other: the game is over.
    Finished,
    /// The side to move gave its third illegal answer in a row.
    Aborted,
}

/// The game was ended because `turn` kept answering with illegal moves.
#[derive(PartialEq, Eq, Structural, Clone, Copy, Debug)]
pub struct PutFailed {
    pub turn: Turn,
}

/// The record ends in a pass.
pub open spec fn ends_in_pass(record: Seq<Option<(usize, usize, Cell)>>) -> bool {
    record.len() > 0 && record.last() is None
}

/// The record ends in two passes, one after the other.
pub open spec fn ends_in_two_passes(record: Seq<Option<(usize, usize, Cell)>>) -> bool {
    &&& record.len() >= 2
    &&& record[record.len() - 1] is None
    &&& record[record.len() - 2] is None
}

/// A game at one moment: what its board holds and keeps, whose turn it is,
/// and its counts of moves and of illegal answers.
pub struct Snapshot {
    pub grid: Grid,
    pub past: Past,
    pub turn: Turn,
    pub moves: int,
    pub failures: int,
}

/// What the game does after the answer `answer` to the game `a`.
pub open spec fn step_kind(a: Snapshot, answer: Option<(usize, usize)>) -> Step {
    match answer {
        Some(m) => if legal(a.grid, a.past, pt(m), a.turn.cell()) {
            Step::Continue
        } else if a.failures + 1 >= MAX_FAILURES {
            Step::Aborted
        } else {
            Step::Retry
        },
        None => if ends_in_pass(a.past.record) {
            Step::Finished
        } else {
            Step::Continue
        },
    }
}

/// The game `b` is the game `a` after the answer `answer` was taken. A
/// legal placement is made and recorded, and the other side is to move. An
/// illegal one changes nothing but the count of illegal answers. A pass is
/// recorded; the other side is to move unless the pass follows a pass.
pub open spec fn follows(a: Snapshot, answer: Option<(usize, usize)>, b: Snapshot) -> bool {
    match answer {
        Some(m) => if legal(a.grid, a.past, pt(m), a.turn.cell()) {
            &&& b.grid == after_put(a.grid, pt(m), a.turn.cell())
            &&& b.past.record == a.past.record.push(Some((m.0, m.1, a.turn.cell())))
            &&& takes(b.past.taken, a.grid, pt(m), a.turn.cell())
            &&& b.turn == a.turn.other()
            &&& b.moves == a.moves + 1
            &&& b.failures == 0
        } else {
            &&& b.grid == a.grid
            &&& b.past == a.past
            &&& b.turn == a.turn
            &&& b.moves == a.moves
            &&& b.failures == a.failures + 1
        },
        None => {
            &&& b.grid == a.grid
            &&& b.past.record == a.past.record.push(None)
            &&& b.past.taken.len() == 0
            &&& if ends_in_pass(a.past.record) {
                &&& b.turn == a.turn
                &&& b.moves == a.moves
                &&& b.failures == a.failures
            } else {
                &&& b.turn == a.turn.other()
                &&& b.moves == a.moves + 1
                &&& b.failures == 0
            }
        },
    }
}

/// After this step the game asks for the next answer.
pub open spec fn goes_on(k: Step) -> bool {
    k == Step::Continue || k == Step::Retry
}

/// The games `states` lead from `first` to `last` by the answers `answers`:
/// each answer was given to a game that could still take one, each game is
/// what the answer made of the game before, and after every answer but the
/// last the game went on.
pub open spec fn trail(
    first: Snapshot,
    last: Snapshot,
    states: Seq<Snapshot>,
    answers: Seq<Option<(usize, usize)>>,
) -> bool {
    &&& states.len() == answers.len() + 1
    &&& states[0] == first
    &&& states.last() == last
    &&& forall|i: int|
        0 <= i < answers.len() ==> {
            &&& (#[trigger] states[i]).moves < MAX_MOVES
            &&& states[i].failures < MAX_FAILURES
            &&& follows(states[i], answers[i], states[i + 1])
        }
    &&& forall|i: int|
        0 <= i < answers.len() - 1 ==> goes_on(step_kind(#[trigger] states[i], answers[i]))
}

/// What the last of the answers made of the game; the game goes on where no
/// answer was given.
pub open spec fn last_step(states: Seq<Snapshot>, answers: Seq<Option<(usize, usize)>>) -> Step {
    if answers.len() > 0 {
        step_kind(states[answers.len() - 1], answers.last())
    } else {
        Step::Continue
    }
}

/// A game played from `first` to its end `last` with the result `r`. The
/// answers were taken one after the other until one ended the game or the
/// most moves were made. The result is the side that gave the third illegal
/// answer in a row, if the last answer was that, and else the winner on the
/// grid at the end.
pub open spec fn course(
    first: Snapshot,
    last: Snapshot,
    states: Seq<Snapshot>,
    answers: Seq<Option<(usize, usize)>>,
    r: Result<Winner, PutFailed>,
) -> bool {
    &&& trail(first, last, states, answers)
    &&& !goes_on(last_step(states, answers)) || last.moves >= MAX_MOVES
    &&& r == (if last_step(states, answers) == Step::Aborted {
        Err::<Winner, PutFailed>(PutFailed { turn: last.turn })
    } else {
        Ok::<Winner, PutFailed>(score(last.grid))
    })
}

/// A trail that went on after its last answer is a trail still when the
/// next answer is taken.
pub proof fn lemma_trail_push(
    first: Snapshot,
    states: Seq<Snapshot>,
    answers: Seq<Option<(usize, usize)>>,
    answer: Option<(usize, usize)>,
    next: Snapshot,
)
    requires
        trail(first, states.last(), states, answers),
        goes_on(last_step(states, answers)),
        states.last().moves < MAX_MOVES,
        states.last().failures < MAX_FAILURES,
        follows(states.last(), answer, next),
    ensures
        trail(first, next, states.push(next), answers.push(answer)),
        last_step(states.push(next), answers.push(answer)) == step_kind(states.last(), answer),
{
    let states2 = states.push(next);
    let answers2 = answers.push(answer);
    let n = answers.len() as int;
    assert(states2[n] == states.last());
    assert(states2[n + 1] == next);
    assert(answers2[n] == answer);
    assert forall|i: int| 0 <= i < answers2.len() implies {
        &&& (#[trigger] states2[i]).moves < MAX_MOVES
        &&& states2[i].failures < MAX_FAILURES
        &&& follows(states2[i], answers2[i], states2[i + 1])
    } by {
        if i < n {
            assert(states2[i] == states[i]);
            assert(states2[i + 1] == states[i + 1]);
            assert(answers2[i] == answers[i]);
        }
    }
    assert forall|i: int| 0 <= i < answers2.len() - 1 implies goes_on(
        step_kind(#[trigger] states2[i], answers2[i]),
    ) by {
        assert(states2[i] == states[i]);
        assert(answers2[i] == answers[i]);
        if i == n - 1 {
            assert(answers.last() == answers[i]);
        }
    }
}

impl<B: Player, W: Player> Game<B, W> {
    /// The game as it stands.
    pub open spec fn snap(&self) -> Snapshot {
        Snapshot {
            grid: self.board.grid(),
            past: self.board.past(),
            turn: self.turn,
            moves: self.moves as int,
            failures: self.failures as int,
        }
    }

    /// The board is well formed, both players are ready, and the counts of
    /// moves and of illegal answers are within their bounds.
    pub open spec fn wf(&self) -> bool {
        &&& self.board.wf()
        &&& self.black_player.ready()
        &&& self.white_player.ready()
        &&& self.moves <= MAX_MOVES
        &&& self.failures <= MAX_FAILURES
    }

    /// A game on an empty board of nine rows, black to move.
    pub fn new(black_player: B, white_player: W) -> (game: Box<Game<B, W>>)
        requires
            black_player.ready(),
            white_player.ready(),
        ensures
            game.wf(),
            game.board.size == 9,
            game.board.points@.len() == 0,
            game.board.taken@.len() == 0,
            forall|i: int, j: int| 0 <= i < 9 && 0 <= j < 9 ==> #[trigger] game.board.grid()[i][j]
                == Cell::Empty,
            game.turn == Turn::Black,
            game.moves == 0,
            game.failures == 0,
            game.black_player == black_player,
            game.white_player == white_player,
    {
        Box::new(
            Game {
                board: Board::new(9),
                turn: Turn::Black,
                black_player,
                white_player,
                moves: 0,
                failures: 0,
            },
        )
    }

    /// Takes the answer of the side to move. A legal placement is made and a
    /// pass is recorded; after either the other side is to move, unless the
    /// pass follows a pass, which ends the game. An illegal placement leaves
    /// the board as it is and is counted; the third in a row ends the game.
    pub fn step(&mut self, answer: Option<(usize, usize)>) -> (s: Step)
        requires
            old(self).wf(),
            old(self).moves < MAX_MOVES,
            old(self).failures < MAX_FAILURES,
        ensures
            final(self).wf(),
            final(self).black_player == old(self).black_player,
            final(self).white_player == old(self).white_player,
            final(self).board.size == old(self).board.size,
            s == step_kind(old(self).snap(), answer),
            follows(old(self).snap(), answer, final(self).snap()),
            match answer {
                Some(m) => if legal(
                    old(self).board.grid(),
                    old(self).board.past(),
                    pt(m),
                    old(self).turn.cell(),
                ) {
                    &&& s == Step::Continue
                    &&& final(self).board.grid() == after_put(
                        old(self).board.grid(),
                        pt(m),
                        old(self).turn.cell(),
                    )
                    &&& final(self).board.points@ == old(self).board.points@.push(
                        Some((m.0, m.1, old(self).turn.cell())),
                    )
                    &&& takes(
                        final(self).board.taken@,
                        old(self).board.grid(),
                        pt(m),
                        old(self).turn.cell(),
                    )
                    &&& final(self).turn == old(self).turn.other()
                    &&& final(self).moves == old(self).moves + 1
                    &&& final(self).failures == 0
                } else {
                    &&& s == (if old(self).failures + 1 >= MAX_FAILURES {
                        Step::Aborted
                    } else {
                        Step::Retry
                    })
                    &&& final(self).board == old(self).board
                    &&& final(self).turn == old(self).turn
                    &&& final(self).moves == old(self).moves
                    &&& final(self).failures == old(self).failures + 1
                },
                None => {
                    &&& final(self).board.grid() == old(self).board.grid()
                    &&& final(self).board.points@ == old(self).board.points@.push(None)
                    &&& final(self).board.taken@.len() == 0
                    &&& if ends_in_pass(old(self).board.points@) {
                        &&& s == Step::Finished
                        &&& final(self).turn == old(self).turn
                        &&& final(self).moves == old(self).moves
                        &&& final(self).failures == old(self).failures
                    } else {
                        &&& s == Step::Continue
                        &&& final(self).turn == old(self).turn.other()
                        &&& final(self).moves == old(self).moves + 1
                        &&& final(self).failures == 0
                    }
                },
            },
    {
        match answer {
            Some((x, y)) => {
                if self.board.put(&x, &y, self.turn.to_cell()) {
                    self.failures = 0;
                    self.turn = self.turn.get_next_turn();
                    self.moves = self.moves + 1;
                    Step::Continue
                } else {
                    self.failures = self.failures + 1;
                    if self.failures >= MAX_FAILURES {
                        Step::Aborted
                    } else {
                        Step::Retry
                    }
                }
            },
            None => {
                let n = self.board.points.len();
                let passed = n > 0 && self.board.points[n - 1].is_none();
                self.board.pass();
                assert(self.board.grid() == old(self).board.grid());
                if passed {
                    Step::Finished
                } else {
                    self.failures = 0;
                    self.turn = self.turn.get_next_turn();
                    self.moves = self.moves + 1;
                    Step::Continue
                }
            },
        }
    }

    /// The winner on the board as it stands: the side with the larger area.
    pub fn winner(&self) -> (w: Winner)
        requires
            self.board.wf(),
        ensures
            w == score(self.board.grid()),
    {
        self.board.calc_winner()
    }

    /// Plays the game to its end: asks the side to move for its answer and
    /// takes it, until both sides have passed one after the other or the
    /// most moves were made. Gives the winner on the board at the end, or
    /// the side that gave three illegal answers in a row. A game that has
    /// had the most moves already asks nobody and is scored as it stands.
    ///
    /// Whatever the players answer, the game left is the game that came
    /// after the answers given, each taken as [`Game::step`] takes it: the
    /// record grows by the placements and passes made and by nothing else,
    /// and every stone placed was legal where it was placed.
    pub fn start(&mut self) -> (r: Result<Winner, PutFailed>)
        requires
            old(self).wf(),
            old(self).failures < MAX_FAILURES,
        ensures
            final(self).board.wf(),
            final(self).black_player.ready(),
            final(self).white_player.ready(),
            final(self).board.size == old(self).board.size,
            old(self).moves <= final(self).moves <= MAX_MOVES,
            old(self).board.points@.len() <= final(self).board.points@.len(),
            final(self).board.points@.subrange(0, old(self).board.points@.len() as int) == old(
                self,
            ).board.points@,
            final(self).board.points@.len() == old(self).board.points@.len() + (final(self).moves
                - old(self).moves) + (if r is Ok && final(self).moves < MAX_MOVES {
                1int
            } else {
                0int
            }),
            exists|states: Seq<Snapshot>, answers: Seq<Option<(usize, usize)>>| #[trigger]
                course(old(self).snap(), final(self).snap(), states, answers, r),
            old(self).moves >= MAX_MOVES ==> {
                &&& r == Ok::<Winner, PutFailed>(score(old(self).board.grid()))
                &&& final(self).board == old(self).board
                &&& final(self).turn == old(self).turn
                &&& final(self).moves == old(self).moves
                &&& final(self).failures == old(self).failures
                &&& final(self).black_player == old(self).black_player
                &&& final(self).white_player == old(self).white_player
            },
            match r {
                Ok(w) => {
                    &&& w == score(final(self).board.grid())
                    &&& final(self).failures < MAX_FAILURES
                    &&& final(self).moves == MAX_MOVES || ends_in_two_passes(
                        final(self).board.points@,
                    )
                },
                Err(e) => e.turn == final(self).turn && final(self).failures == MAX_FAILURES,
            },
    {
        let ghost first = self.snap();
        let ghost record0 = self.board.points@;
        let ghost states: Seq<Snapshot> = seq![first];
        let ghost answers: Seq<Option<(usize, usize)>> = Seq::empty();
        loop
            invariant_except_break
                self.failures < MAX_FAILURES,
                self.board.points@.len() == record0.len() + (self.moves - old(self).moves),
                goes_on(last_step(states, answers)),
            invariant
                self.wf(),
                self.board.size == old(self).board.size,
                old(self).moves <= self.moves,
                first == old(self).snap(),
                record0 == old(self).board.points@,
                record0.len() <= self.board.points@.len(),
                self.board.points@.subrange(0, record0.len() as int) == record0,
                old(self).moves >= MAX_MOVES ==> *self == *old(self) && answers.len() == 0,
                trail(first, self.snap(), states, answers),
            ensures
                self.failures < MAX_FAILURES,
                self.moves == MAX_MOVES || ends_in_two_passes(self.board.points@),
                self.moves == MAX_MOVES || last_step(states, answers) == Step::Finished,
                last_step(states, answers) != Step::Aborted,
                self.board.points@.len() == record0.len() + (self.moves - old(self).moves) + (
                if self.moves < MAX_MOVES {
                    1int
                } else {
                    0int
                }),
            decreases MAX_MOVES - self.moves, MAX_FAILURES - self.failures,
        {
            if self.moves >= MAX_MOVES {
                break ;
            }
            let answer = match self.turn {
                Turn::Black => self.black_player.put(&self.board, &self.turn),
                Turn::White => self.white_player.put(&self.board, &self.turn),
            };
            let ghost before = self.snap();
            let ghost record1 = self.board.points@;
            let s = self.step(answer);
            proof {
                lemma_trail_push(first, states, answers, answer, self.snap());
                states = states.push(self.snap());
                answers = answers.push(answer);
                assert(self.board.points@.subrange(0, record0.len() as int) =~= record0) by {
                    assert(record1.subrange(0, record0.len() as int) == record0);
                    assert forall|i: int| 0 <= i < record0.len() implies self.board.points@[i]
                        == record0[i] by {
                        assert(record1.subrange(0, record0.len() as int)[i] == record1[i]);
                    }
                }
            }
            match s {
                Step::Continue => {},
                Step::Retry => {},
                Step::Finished => {
                    break ;
                },
                Step::Aborted => {
                    let r = Err(PutFailed { turn: self.turn });
                    proof {
                        assert(course(first, self.snap(), states, answers, r));
                    }
                    return r;
                },
            }
        }
        let r = Ok(self.winner());
        proof {
            assert(course(first, self.snap(), states, answers, r));
        }
        r
    }
}

} // verus!
