//! The board: a square grid of cells with the record of the moves made on it.

use vstd::prelude::*;
use vstd::std_specs::cmp::PartialEqSpecImpl;
use vstd::string::StringExecFns;
use crate::connectivity::{
    adjacent, cell_at, connected, flood, holds, inside, lemma_connected_same, mark, new_mask, pt,
    rows, same_shape, square, Grid,
};
use crate::game::Winner;
use crate::scoring::{count_area, score, tally};
use crate::rules::{
    after_put, captures_any, is_captured, is_ko, legal, lemma_capture_frees, lemma_quiet_put,
    starved, takes, with_stone, Past, Record,
};

verus! {

/// What a point of the grid holds.
#[derive(PartialEq, Eq, Structural, Clone, Copy, Debug)]
pub enum Cell {
    Empty,
    Black,
    White,
}

impl Cell {
    /// Whether this is a stone rather than an empty point.
    pub open spec fn is_stone(self) -> bool {
        self != Cell::Empty
    }

    /// The colour that opposes a stone; an empty point opposes nothing.
    pub open spec fn enemy(self) -> Cell {
        match self {
            Cell::Black => Cell::White,
            Cell::White => Cell::Black,
            Cell::Empty => Cell::Empty,
        }
    }

    /// The text that stands for the cell when a board is written out.
    pub open spec fn glyph(self) -> Seq<char> {
        match self {
            Cell::Black => "B"@,
            Cell::White => "W"@,
            Cell::Empty => " "@,
        }
    }

    /// The opposing colour of a stone.
    pub fn to_enemy_cell(&self) -> (r: Cell)
        requires
            self.is_stone(),
        ensures
            r == self.enemy(),
            r.is_stone(),
            r != *self,
    {
        match self {
            Cell::Black => Cell::White,
            _ => Cell::Black,
        }
    }

    /// `"B"`, `"W"` or a blank, as a string slice.
    pub fn as_str(&self) -> (r: &'static str)
        ensures
            r@ == self.glyph(),
    {
        match self {
            Cell::Black => "B",
            Cell::White => "W",
            Cell::Empty => " ",
        }
    }

    /// `"B"`, `"W"` or a blank.
    pub fn to_string(&self) -> (r: String)
        ensures
            r@ == self.glyph(),
    {
        match self {
            Cell::Black => "B".to_string(),
            Cell::White => "W".to_string(),
            Cell::Empty => " ".to_string(),
        }
    }
}

/// A square grid of cells and the record of the moves made on it.
pub struct Board {
    /// The number of rows, and of cells in each row.
    pub size: usize,
    /// The rows of the grid.
    pub cells: Vec<Vec<Cell>>,
    /// The record of the game: each placement with its colour, each pass.
    pub points: Vec<Record>,
    /// The stones that the last entry of the record took, each once; none
    /// after a pass.
    pub taken: Vec<(usize, usize)>,
}

/// The text of the first `j` cells of a row.
pub open spec fn row_text(row: Seq<Cell>, j: int) -> Seq<char>
    decreases j,
{
    if j <= 0 {
        Seq::empty()
    } else {
        row_text(row, j - 1) + row[j - 1].glyph()
    }
}

/// The text of the first `i` rows of a grid: each row's cells, then the end
/// of the line.
pub open spec fn rows_text(g: Grid, i: int) -> Seq<char>
    decreases i,
{
    if i <= 0 {
        Seq::empty()
    } else {
        rows_text(g, i - 1) + row_text(g[i - 1], g[i - 1].len() as int) + "\n"@
    }
}

/// A copy of the rows of a grid.
pub fn clone_cells(cells: &Vec<Vec<Cell>>) -> (r: Vec<Vec<Cell>>)
    ensures
        rows(r@) == rows(cells@),
{
    let mut out: Vec<Vec<Cell>> = Vec::new();
    let mut i: usize = 0;
    while i < cells.len()
        invariant
            i <= cells.len(),
            out@.len() == i,
            forall|k: int| 0 <= k < i ==> (#[trigger] out@[k])@ == cells@[k]@,
        decreases cells.len() - i,
    {
        let mut row: Vec<Cell> = Vec::new();
        let mut j: usize = 0;
        while j < cells[i].len()
            invariant
                i < cells.len(),
                j <= cells[i as int].len(),
                row@.len() == j,
                forall|k: int| 0 <= k < j ==> row@[k] == cells@[i as int]@[k],
            decreases cells[i as int].len() - j,
        {
            row.push(cells[i][j]);
            j = j + 1;
        }
        assert(row@ =~= cells@[i as int]@);
        out.push(row);
        i = i + 1;
    }
    assert(rows(out@) =~= rows(cells@));
    out
}

/// The stones gathered so far are marked, and nothing else is; none was
/// gathered twice.
pub open spec fn gathered(g: Grid, taken: Seq<Seq<bool>>, out: Seq<(usize, usize)>) -> bool {
    &&& same_shape(g, taken)
    &&& out.no_duplicates()
    &&& forall|k: int| 0 <= k < out.len() ==> inside(g, pt(#[trigger] out[k]))
    &&& forall|a: int, b: int|
        inside(g, (a, b)) ==> (#[trigger] taken[a][b] <==> holds(out, (a, b)))
}

/// `q` is one of the first `j` points of `v`.
pub open spec fn among(v: Seq<(usize, usize)>, j: int, q: (int, int)) -> bool {
    exists|k: int| 0 <= k < j && k < v.len() && pt(#[trigger] v[k]) == q
}

/// Adds to `out` the group of the enemy stone at `(nx, ny)`, a neighbour of
/// the point played, if that group is left without a liberty.
fn absorb(
    cells1: &Vec<Vec<Cell>>,
    out: &mut Vec<(usize, usize)>,
    taken: &mut Vec<Vec<bool>>,
    nx: usize,
    ny: usize,
    enemy: Cell,
    Ghost(g): Ghost<Grid>,
    Ghost(p): Ghost<(int, int)>,
    Ghost(c): Ghost<Cell>,
)
    requires
        square(rows(cells1@)),
        rows(cells1@) == with_stone(g, p, c),
        inside(g, p),
        c.is_stone(),
        enemy == c.enemy(),
        inside(g, (nx as int, ny as int)),
        adjacent(p, (nx as int, ny as int)),
        gathered(rows(cells1@), rows(old(taken)@), old(out)@),
    ensures
        gathered(rows(cells1@), rows(final(taken)@), final(out)@),
        forall|q: (int, int)|
            #![trigger holds(final(out)@, q)]
            holds(final(out)@, q) <==> holds(old(out)@, q) || (starved(
                g,
                p,
                c,
                (nx as int, ny as int),
            ) && connected(rows(cells1@), (nx as int, ny as int), q)),
{
    let ghost g1 = rows(cells1@);
    let ghost n = (nx as int, ny as int);
    let ghost out0 = out@;
    assert(inside(g1, n));
    assert(g1[nx as int] == cells1@[nx as int]@);
    if cells1[nx][ny] != enemy {
        return ;
    }
    let grp = flood(cells1, nx, ny);
    if grp.liberties.len() > 0 {
        return ;
    }
    assert(starved(g, p, c, n));
    let ghost stones = grp.stones@;
    proof {
        assert forall|k: int| 0 <= k < stones.len() implies inside(g1, pt(#[trigger] stones[k])) by {
            assert(holds(stones, pt(stones[k])));
            lemma_connected_same(g1, n, pt(stones[k]));
        }
    }
    let mut j: usize = 0;
    while j < grp.stones.len()
        invariant
            j <= grp.stones@.len(),
            stones == grp.stones@,
            g1 == rows(cells1@),
            gathered(g1, rows(taken@), out@),
            forall|k: int| 0 <= k < stones.len() ==> inside(g1, pt(#[trigger] stones[k])),
            forall|q: (int, int)|
                #![trigger holds(out@, q)]
                holds(out@, q) <==> holds(out0, q) || among(stones, j as int, q),
        decreases grp.stones@.len() - j,
    {
        let (sx, sy) = grp.stones[j];
        let ghost s = (sx as int, sy as int);
        let ghost out1 = out@;
        let ghost taken1 = rows(taken@);
        assert(inside(g1, pt(stones[j as int])));
        assert(taken1[sx as int] == taken@[sx as int]@);
        if !taken[sx][sy] {
            taken[sx][sy] = true;
            out.push((sx, sy));
            proof {
                let taken2 = rows(taken@);
                assert(taken2 =~= mark(taken1, s));
                assert(!holds(out1, s));
                assert(pt(out@[out1.len() as int]) == s);
                assert forall|q: (int, int)| holds(out@, q) <==> holds(out1, q) || q == s by {
                    if holds(out1, q) {
                        let k = choose|k: int| 0 <= k < out1.len() && pt(#[trigger] out1[k]) == q;
                        assert(out@[k] == out1[k]);
                    }
                    if holds(out@, q) {
                        let k = choose|k: int| 0 <= k < out@.len() && pt(#[trigger] out@[k]) == q;
                        if k < out1.len() {
                            assert(out@[k] == out1[k]);
                        }
                    }
                }
                assert(out@.no_duplicates()) by {
                    assert forall|a: int, b: int|
                        0 <= a < out@.len() && 0 <= b < out@.len() && a != b implies out@[a]
                        != out@[b] by {
                        if a < out1.len() && b < out1.len() {
                        } else if a < out1.len() {
                            assert(pt(out1[a]) != s);
                        } else {
                            assert(pt(out1[b]) != s);
                        }
                    }
                }
                assert forall|k: int| 0 <= k < out@.len() implies inside(
                    g1,
                    pt(#[trigger] out@[k]),
                ) by {
                    if k < out1.len() {
                        assert(out@[k] == out1[k]);
                    }
                }
                assert forall|a: int, b: int| inside(g1, (a, b)) implies (#[trigger] taken2[a][b]
                    <==> holds(out@, (a, b))) by {
                    if (a, b) != s {
                        assert(taken2[a][b] == taken1[a][b]);
                    }
                }
            }
        }
        proof {
            assert(pt(stones[j as int]) == s);
            assert(holds(out1, s) ==> out@ == out1);
            assert forall|q: (int, int)| among(stones, j + 1, q) <==> among(stones, j as int, q)
                || q == s by {
                if among(stones, j + 1, q) {
                    let k = choose|k: int|
                        0 <= k < j + 1 && k < stones.len() && pt(#[trigger] stones[k]) == q;
                    if k < j {
                        assert(among(stones, j as int, q));
                    }
                }
                if among(stones, j as int, q) {
                    let k = choose|k: int|
                        0 <= k < j && k < stones.len() && pt(#[trigger] stones[k]) == q;
                    assert(0 <= k < j + 1);
                }
            }
            assert forall|q: (int, int)| #![trigger holds(out@, q)] holds(out@, q) <==> holds(out0, q) || among(
                stones,
                j + 1,
                q,
            ) by {
                assert(holds(out1, q) <==> holds(out0, q) || among(stones, j as int, q));
                assert(among(stones, j + 1, q) <==> among(stones, j as int, q) || q == s);
                assert(holds(out@, q) <==> holds(out1, q) || q == s);
            }
        }
        j = j + 1;
    }
    proof {
        assert forall|q: (int, int)| holds(out@, q) <==> holds(out0, q) || (starved(g, p, c, n)
            && connected(g1, n, q)) by {
            assert(holds(out@, q) <==> holds(out0, q) || among(stones, stones.len() as int, q));
            assert(holds(stones, q) <==> connected(g1, n, q));
            if holds(stones, q) {
                let k = choose|k: int| 0 <= k < stones.len() && pt(#[trigger] stones[k]) == q;
                assert(among(stones, stones.len() as int, q));
            }
        }
    }
}

impl Board {
    /// The model of the board's contents.
    pub open spec fn grid(&self) -> Grid {
        rows(self.cells@)
    }

    /// What the board keeps of the game so far: the record, and the stones
    /// that its last entry took.
    pub open spec fn past(&self) -> Past {
        Past { record: self.points@, taken: self.taken@ }
    }

    /// The board is a square of `size` rows.
    pub open spec fn wf(&self) -> bool {
        &&& self.cells@.len() == self.size
        &&& square(self.grid())
    }

    /// An empty board of `size` rows with an empty record.
    pub fn new(size: usize) -> (b: Board)
        ensures
            b.wf(),
            b.size == size,
            b.points@.len() == 0,
            b.taken@.len() == 0,
            forall|i: int, j: int|
                0 <= i < size && 0 <= j < size ==> #[trigger] b.grid()[i][j] == Cell::Empty,
    {
        let mut cells: Vec<Vec<Cell>> = Vec::new();
        let mut i: usize = 0;
        while i < size
            invariant
                i <= size,
                cells@.len() == i,
                forall|k: int| 0 <= k < i ==> (#[trigger] cells@[k])@.len() == size,
                forall|k: int, j: int|
                    0 <= k < i && 0 <= j < size ==> #[trigger] cells@[k]@[j] == Cell::Empty,
            decreases size - i,
        {
            let mut row: Vec<Cell> = Vec::new();
            let mut j: usize = 0;
            while j < size
                invariant
                    j <= size,
                    row@.len() == j,
                    forall|k: int| 0 <= k < j ==> #[trigger] row@[k] == Cell::Empty,
                decreases size - j,
            {
                row.push(Cell::Empty);
                j = j + 1;
            }
            cells.push(row);
            i = i + 1;
        }
        let b = Board { size, cells, points: Vec::new(), taken: Vec::new() };
        assert forall|i: int, j: int| 0 <= i < size && 0 <= j < size implies #[trigger] b.grid()[i][j]
            == Cell::Empty by {
            assert(b.grid()[i] == b.cells@[i]@);
        }
        b
    }

    /// The stones that a stone of colour `color` placed at `(put_x, put_y)`
    /// takes: the groups of enemy stones next to that point that are left
    /// without a liberty. Each stone is listed once.
    pub fn calc_removeable_points(&self, put_x: &usize, put_y: &usize, color: &Cell) -> (r: Vec<
        (usize, usize),
    >)
        requires
            self.wf(),
            *put_x < self.size,
            *put_y < self.size,
            color.is_stone(),
        ensures
            r@.no_duplicates(),
            forall|k: int| 0 <= k < r@.len() ==> (#[trigger] r@[k]).0 < self.size && r@[k].1 < self.size,
            forall|q: (int, int)|
                holds(r@, q) <==> is_captured(
                    self.grid(),
                    (*put_x as int, *put_y as int),
                    *color,
                    q,
                ),
            (r@.len() > 0) == captures_any(self.grid(), (*put_x as int, *put_y as int), *color),
    {
        let x = *put_x;
        let y = *put_y;
        let n = self.cells.len();
        let ghost g = self.grid();
        let ghost p = (x as int, y as int);
        let ghost c = *color;
        let enemy = color.to_enemy_cell();
        let mut cells1 = clone_cells(&self.cells);
        assert(rows(cells1@)[x as int] == cells1@[x as int]@);
        cells1[x][y] = *color;
        let ghost g1 = rows(cells1@);
        assert(g1 =~= with_stone(g, p, c));
        let mut out: Vec<(usize, usize)> = Vec::new();
        let mut taken = new_mask(n);
        assert(gathered(g1, rows(taken@), out@)) by {
            assert forall|a: int, b: int| inside(g1, (a, b)) implies (#[trigger] rows(taken@)[a][b]
                <==> holds(out@, (a, b))) by {
                assert(rows(taken@)[a] == taken@[a]@);
            }
        }
        let ghost out0 = out@;
        if x > 0 {
            absorb(&cells1, &mut out, &mut taken, x - 1, y, enemy, Ghost(g), Ghost(p), Ghost(c));
        }
        if x + 1 < n {
            absorb(&cells1, &mut out, &mut taken, x + 1, y, enemy, Ghost(g), Ghost(p), Ghost(c));
        }
        if y > 0 {
            absorb(&cells1, &mut out, &mut taken, x, y - 1, enemy, Ghost(g), Ghost(p), Ghost(c));
        }
        if y + 1 < n {
            absorb(&cells1, &mut out, &mut taken, x, y + 1, enemy, Ghost(g), Ghost(p), Ghost(c));
        }
        proof {
            assert forall|q: (int, int)| holds(out@, q) <==> is_captured(g, p, c, q) by {
                if is_captured(g, p, c, q) {
                    let m = choose|m: (int, int)| starved(g, p, c, m) && connected(g1, m, q);
                    assert(m == (p.0 - 1, p.1) || m == (p.0 + 1, p.1) || m == (p.0, p.1 - 1) || m
                        == (p.0, p.1 + 1));
                    assert(holds(out@, q));
                }
                if holds(out@, q) {
                    assert(!holds(out0, q));
                    assert(is_captured(g, p, c, q));
                }
            }
            if out@.len() > 0 {
                assert(holds(out@, pt(out@[0])));
            }
            if captures_any(g, p, c) {
                let q = choose|q: (int, int)| is_captured(g, p, c, q);
                assert(holds(out@, q));
            }
        }
        out
    }

    /// Judges a placement on an empty point of the board: whether it is
    /// legal, and the stones it takes.
    fn weigh(&self, px: usize, py: usize, c: Cell) -> (r: (bool, Vec<(usize, usize)>))
        requires
            self.wf(),
            c.is_stone(),
            px < self.size,
            py < self.size,
            cell_at(self.grid(), (px as int, py as int)) == Cell::Empty,
        ensures
            r.0 == legal(self.grid(), self.past(), (px as int, py as int), c),
            r.1@.no_duplicates(),
            forall|k: int|
                0 <= k < r.1@.len() ==> (#[trigger] r.1@[k]).0 < self.size && r.1@[k].1 < self.size,
            forall|q: (int, int)|
                #![trigger holds(r.1@, q)]
                holds(r.1@, q) <==> is_captured(self.grid(), (px as int, py as int), c, q),
    {
        let ghost g = self.grid();
        let ghost p = (px as int, py as int);
        let caps = self.calc_removeable_points(&px, &py, &c);
        let mut ko = false;
        if caps.len() == 1 && self.points.len() > 0 {
            if let Some(m) = self.points[self.points.len() - 1] {
                if m.0 == caps[0].0 && m.1 == caps[0].1 && self.taken.len() == 1
                    && self.taken[0].0 == px && self.taken[0].1 == py {
                    ko = true;
                }
            }
        }
        proof {
            if ko {
                let m = self.points@.last()->0;
                assert(holds(caps@, pt(caps@[0])));
                assert forall|q: (int, int)| is_captured(g, p, c, q) implies q == (
                    m.0 as int,
                    m.1 as int,
                ) by {
                    assert(holds(caps@, q));
                }
                assert(is_ko(g, self.past(), p, c));
            }
            if is_ko(g, self.past(), p, c) {
                let m = self.points@.last()->0;
                let mp = (m.0 as int, m.1 as int);
                assert(holds(caps@, mp));
                if caps@.len() >= 2 {
                    assert(holds(caps@, pt(caps@[0])));
                    assert(holds(caps@, pt(caps@[1])));
                    assert(caps@[0] != caps@[1]);
                }
                assert(ko);
            }
        }
        if ko {
            return (false, caps);
        }
        if caps.len() > 0 {
            proof {
                lemma_capture_frees(g, p, c);
            }
            return (true, caps);
        }
        let mut cells1 = clone_cells(&self.cells);
        assert(rows(cells1@)[px as int] == cells1@[px as int]@);
        cells1[px][py] = c;
        proof {
            assert(rows(cells1@) =~= with_stone(g, p, c));
            lemma_quiet_put(g, p, c);
        }
        let own = flood(&cells1, px, py);
        (own.liberties.len() > 0, caps)
    }

    /// Whether a stone of colour `color` may be placed at `(x, y)`: the point
    /// is on the board and empty, the colour is that of a stone, the move is
    /// not a ko, and the stone's group has a liberty once the stones it takes
    /// are gone. The board is left as it is.
    pub fn is_put(&self, x: &usize, y: &usize, color: &Cell) -> (r: bool)
        requires
            self.wf(),
        ensures
            r == legal(self.grid(), self.past(), (*x as int, *y as int), *color),
    {
        let px = *x;
        let py = *y;
        if *color == Cell::Empty {
            return false;
        }
        if self.size <= px || self.size <= py {
            return false;
        }
        assert(self.grid()[px as int] == self.cells@[px as int]@);
        if self.cells[px][py] != Cell::Empty {
            return false;
        }
        self.weigh(px, py, *color).0
    }

    /// Places a stone of colour `color` at `(x, y)` if that is legal, and says
    /// whether it did. A legal placement removes the stones it takes, sets
    /// the stone and adds the move to the record; every other point keeps
    /// what it held. An illegal one changes nothing.
    pub fn put(&mut self, x: &usize, y: &usize, color: Cell) -> (r: bool)
        requires
            old(self).wf(),
        ensures
            final(self).wf(),
            final(self).size == old(self).size,
            r == legal(old(self).grid(), old(self).past(), (*x as int, *y as int), color),
            r ==> final(self).grid() == after_put(
                old(self).grid(),
                (*x as int, *y as int),
                color,
            ),
            r ==> final(self).points@ == old(self).points@.push(Some((*x, *y, color))),
            r ==> takes(final(self).taken@, old(self).grid(), (*x as int, *y as int), color),
            r ==> final(self).grid()[*x as int][*y as int] == color,
            r ==> forall|i: int, j: int|
                0 <= i < old(self).size && 0 <= j < old(self).size && (i, j) != (
                    *x as int,
                    *y as int,
                ) ==> #[trigger] final(self).grid()[i][j] == (if is_captured(
                    old(self).grid(),
                    (*x as int, *y as int),
                    color,
                    (i, j),
                ) {
                    Cell::Empty
                } else {
                    old(self).grid()[i][j]
                }),
            !r ==> *final(self) == *old(self),
    {
        let px = *x;
        let py = *y;
        let ghost g = self.grid();
        let ghost p = (px as int, py as int);
        let ghost record = self.points@;
        if color == Cell::Empty {
            return false;
        }
        if self.size <= px || self.size <= py {
            return false;
        }
        assert(g[px as int] == self.cells@[px as int]@);
        if self.cells[px][py] != Cell::Empty {
            return false;
        }
        let (ok, caps) = self.weigh(px, py, color);
        if !ok {
            return false;
        }
        let mut t: usize = 0;
        while t < caps.len()
            invariant
                t <= caps@.len(),
                self.wf(),
                self.size == old(self).size,
                self.points@ == record,
                same_shape(g, self.grid()),
                square(g),
                px < self.size,
                py < self.size,
                forall|k: int|
                    0 <= k < caps@.len() ==> (#[trigger] caps@[k]).0 < self.size && caps@[k].1
                        < self.size,
                forall|i: int, j: int|
                    inside(g, (i, j)) ==> #[trigger] self.grid()[i][j] == (if among(
                        caps@,
                        t as int,
                        (i, j),
                    ) {
                        Cell::Empty
                    } else {
                        g[i][j]
                    }),
            decreases caps@.len() - t,
        {
            let (qx, qy) = caps[t];
            let ghost before = self.grid();
            assert(before[qx as int] == self.cells@[qx as int]@);
            self.cells[qx][qy] = Cell::Empty;
            proof {
                let q = (qx as int, qy as int);
                assert(self.grid() =~= with_stone(before, q, Cell::Empty));
                assert forall|i: int, j: int| inside(g, (i, j)) implies #[trigger] self.grid()[i][j]
                    == (if among(caps@, t + 1, (i, j)) {
                    Cell::Empty
                } else {
                    g[i][j]
                }) by {
                    assert(pt(caps@[t as int]) == q);
                    if among(caps@, t + 1, (i, j)) {
                        let k = choose|k: int|
                            0 <= k < t + 1 && k < caps@.len() && pt(#[trigger] caps@[k]) == (i, j);
                        if k < t {
                            assert(among(caps@, t as int, (i, j)));
                        }
                    }
                    if among(caps@, t as int, (i, j)) {
                        let k = choose|k: int|
                            0 <= k < t && k < caps@.len() && pt(#[trigger] caps@[k]) == (i, j);
                        assert(0 <= k < t + 1);
                    }
                }
            }
            t = t + 1;
        }
        let ghost cleared = self.grid();
        assert(cleared[px as int] == self.cells@[px as int]@);
        self.cells[px][py] = color;
        self.points.push(Some((px, py, color)));
        self.taken = caps;
        let ghost caps = self.taken;
        proof {
            assert(self.grid() =~= with_stone(cleared, p, color));
            let done = after_put(g, p, color);
            assert(self.grid().len() == done.len());
            assert forall|i: int| 0 <= i < done.len() implies self.grid()[i] =~= done[i] by {
                assert forall|j: int| 0 <= j < done[i].len() implies self.grid()[i][j]
                    == done[i][j] by {
                    assert(inside(g, (i, j)));
                    if (i, j) != p {
                        assert(self.grid()[i][j] == cleared[i][j]);
                        if is_captured(g, p, color, (i, j)) {
                            assert(holds(caps@, (i, j)));
                            let k = choose|k: int|
                                0 <= k < caps@.len() && pt(#[trigger] caps@[k]) == (i, j);
                            assert(among(caps@, caps@.len() as int, (i, j)));
                        }
                        if among(caps@, caps@.len() as int, (i, j)) {
                            assert(holds(caps@, (i, j)));
                        }
                    }
                }
            }
            assert(self.grid() =~= done);
        }
        true
    }

    /// The board as text: one line for each row, a `B` for a black stone, a
    /// `W` for a white one and a blank for an empty point.
    pub fn to_string(&self) -> (r: String)
        ensures
            r@ == rows_text(self.grid(), self.grid().len() as int),
    {
        let ghost g = self.grid();
        let mut text = String::new();
        let mut i: usize = 0;
        while i < self.cells.len()
            invariant
                i <= self.cells@.len(),
                g == self.grid(),
                text@ == rows_text(g, i as int),
            decreases self.cells@.len() - i,
        {
            let row = &self.cells[i];
            assert(g[i as int] == row@);
            let ghost head = text@;
            let mut j: usize = 0;
            while j < row.len()
                invariant
                    j <= row@.len(),
                    text@ == head + row_text(row@, j as int),
                decreases row@.len() - j,
            {
                text.append(row[j].as_str());
                assert(text@ =~= head + row_text(row@, j + 1));
                j = j + 1;
            }
            text.append("\n");
            assert(text@ =~= rows_text(g, i + 1));
            i = i + 1;
        }
        text
    }

    /// Adds a pass to the record. The grid stays as it is; what the move
    /// before took is forgotten.
    pub fn pass(&mut self)
        ensures
            final(self).size == old(self).size,
            final(self).cells == old(self).cells,
            final(self).points@ == old(self).points@.push(None),
            final(self).taken@.len() == 0,
    {
        self.points.push(None);
        self.taken = Vec::new();
    }

    /// The side that holds more of the board by area counting: each side is
    /// given the points that sweeps of its colour claim, and the larger
    /// count wins. Equal counts are a draw.
    pub fn calc_winner(&self) -> (w: Winner)
        requires
            self.wf(),
        ensures
            w == score(self.grid()),
            w == Winner::Draw <==> tally(self.grid()).0 == tally(self.grid()).1,
    {
        let (black_count, white_count) = count_area(&self.cells);
        if black_count == white_count {
            Winner::Draw
        } else if black_count > white_count {
            Winner::Black
        } else {
            Winner::White
        }
    }

    /// Loads the grid from text: one line for each row, each of `size`
    /// characters followed by one more that ends the line and is skipped.
    /// `B` is a black stone, `W` a white one, anything else an empty point.
    /// Points that the text does not reach keep what they held.
    pub fn set_from_str(&mut self, s: String)
        requires
            old(self).wf(),
            s@.len() <= old(self).size * (old(self).size + 1),
        ensures
            final(self).wf(),
            final(self).size == old(self).size,
            final(self).points == old(self).points,
            final(self).taken == old(self).taken,
            forall|r: int, c: int|
                0 <= r < old(self).size && 0 <= c < old(self).size ==> #[trigger] final(self).grid()[r][c] == loaded(old(self).grid(), s@, r, c),
    {
        let n = self.size;
        let ghost g = self.grid();
        let ghost m = n + 1;
        let mut x: usize = 0;
        let mut y: usize = 0;
        for ch in it: s.as_str().chars()
            invariant
                it.seq() == s@,
                m == n + 1,
                s@.len() <= n * m,
                self.wf(),
                self.size == n,
                self.points == old(self).points,
                self.taken == old(self).taken,
                g == old(self).grid(),
                square(g),
                g.len() == n,
                x <= n,
                y * m + x == it.index(),
                forall|r: int, c: int|
                    0 <= r < n && 0 <= c < n ==> #[trigger] self.grid()[r][c] == (if r * m + c
                        < it.index() {
                        decode(s@[r * m + c])
                    } else {
                        g[r][c]
                    }),
        {
            let ghost i = it.index();
            assert(y < n) by (nonlinear_arith)
                requires
                    y * m + x == i,
                    i < n * m,
                    0 <= x,
                    m > 0,
            ;
            if x == n {
                proof {
                    assert((y + 1) * m + 0 == i + 1) by (nonlinear_arith)
                        requires
                            y * m + x == i,
                            x == n,
                            m == n + 1,
                    ;
                    assert forall|r: int, c: int| 0 <= r < n && 0 <= c < n implies #[trigger] self.grid()[r][c]
                        == (if r * m + c < i + 1 {
                        decode(s@[r * m + c])
                    } else {
                        g[r][c]
                    }) by {
                        if r * m + c == i {
                            lemma_cell_index(m as int, r, c, y as int, x as int);
                        }
                    }
                }
                x = 0;
                y = y + 1;
            } else {
                let ghost before = self.grid();
                assert(before[y as int] == self.cells@[y as int]@);
                self.cells[y][x] = decode_char(ch);
                proof {
                    assert(self.grid() =~= with_stone(before, (y as int, x as int), decode(ch)));
                    assert(ch == s@[i]);
                    assert(y * m + (x + 1) == i + 1) by (nonlinear_arith)
                        requires
                            y * m + x == i,
                    ;
                    assert forall|r: int, c: int| 0 <= r < n && 0 <= c < n implies #[trigger] self.grid()[r][c]
                        == (if r * m + c < i + 1 {
                        decode(s@[r * m + c])
                    } else {
                        g[r][c]
                    }) by {
                        if r * m + c == i {
                            lemma_cell_index(m as int, r, c, y as int, x as int);
                        } else {
                            assert((r, c) != (y as int, x as int));
                            assert(self.grid()[r][c] == before[r][c]);
                        }
                    }
                }
                x = x + 1;
            }
        }
        proof {
            assert forall|r: int, c: int| 0 <= r < n && 0 <= c < n implies #[trigger] self.grid()[r][c]
                == loaded(g, s@, r, c) by {}
        }
    }
}

/// The cell that a character of a board's text stands for.
pub open spec fn decode(ch: char) -> Cell {
    if ch == 'B' {
        Cell::Black
    } else if ch == 'W' {
        Cell::White
    } else {
        Cell::Empty
    }
}

/// What the point in row `r`, column `c` holds after the text `s` was loaded
/// over the grid `g`: the text gives each row `g.len()` characters and one
/// more that ends the line.
pub open spec fn loaded(g: Grid, s: Seq<char>, r: int, c: int) -> Cell {
    if r * (g.len() + 1) + c < s.len() {
        decode(s[r * (g.len() + 1) + c])
    } else {
        g[r][c]
    }
}

/// The cell that a character of a board's text stands for.
pub fn decode_char(ch: char) -> (r: Cell)
    ensures
        r == decode(ch),
{
    if ch == 'B' {
        Cell::Black
    } else if ch == 'W' {
        Cell::White
    } else {
        Cell::Empty
    }
}

/// A row and a column below the row length determine the index `r * m + c`,
/// and no other pair gives it.
pub proof fn lemma_cell_index(m: int, r: int, c: int, y: int, x: int)
    requires
        0 <= c < m,
        0 <= x < m,
        r * m + c == y * m + x,
    ensures
        r == y,
        c == x,
{
    if r < y {
        assert(r * m + m <= y * m) by (nonlinear_arith)
            requires
                r + 1 <= y,
                m > 0,
        ;
    } else if r > y {
        assert(y * m + m <= r * m) by (nonlinear_arith)
            requires
                y + 1 <= r,
                m > 0,
        ;
    }
}

impl Clone for Board {
    /// A board with the same size, grid and record, that remembers the same
    /// stones taken.
    fn clone(&self) -> (r: Self)
        ensures
            r.size == self.size,
            r.grid() == self.grid(),
            r.points@ == self.points@,
            r.taken@ == self.taken@,
            r.past() == self.past(),
            self.wf() ==> r.wf(),
    {
        let cells = clone_cells(&self.cells);
        let mut points: Vec<Record> = Vec::new();
        let mut i: usize = 0;
        while i < self.points.len()
            invariant
                i <= self.points@.len(),
                points@ == self.points@.subrange(0, i as int),
            decreases self.points@.len() - i,
        {
            points.push(self.points[i]);
            assert(points@ =~= self.points@.subrange(0, i + 1));
            i = i + 1;
        }
        assert(points@ =~= self.points@);
        let mut taken: Vec<(usize, usize)> = Vec::new();
        let mut k: usize = 0;
        while k < self.taken.len()
            invariant
                k <= self.taken@.len(),
                taken@ == self.taken@.subrange(0, k as int),
            decreases self.taken@.len() - k,
        {
            taken.push(self.taken[k]);
            assert(taken@ =~= self.taken@.subrange(0, k + 1));
            k = k + 1;
        }
        assert(taken@ =~= self.taken@);
        assert(rows(cells@).len() == cells@.len());
        assert(rows(self.cells@).len() == self.cells@.len());
        Board { size: self.size, cells, points, taken }
    }
}

impl PartialEq for Board {
    /// Two boards are equal when they have the same size and hold the same
    /// cells. The record is not compared.
    fn eq(&self, other: &Self) -> (r: bool) {
        if self.size != other.size {
            return false;
        }
        if self.cells.len() != other.cells.len() {
            assert(self.grid().len() != other.grid().len());
            return false;
        }
        let mut i: usize = 0;
        while i < self.cells.len()
            invariant
                i <= self.cells.len(),
                self.cells.len() == other.cells.len(),
                forall|k: int| 0 <= k < i ==> (#[trigger] self.cells@[k])@ == other.cells@[k]@,
            decreases self.cells.len() - i,
        {
            if self.cells[i].len() != other.cells[i].len() {
                assert(self.grid()[i as int].len() != other.grid()[i as int].len());
                return false;
            }
            let mut j: usize = 0;
            while j < self.cells[i].len()
                invariant
                    i < self.cells.len(),
                    self.cells.len() == other.cells.len(),
                    self.cells[i as int].len() == other.cells[i as int].len(),
                    j <= self.cells[i as int].len(),
                    forall|k: int|
                        0 <= k < j ==> self.cells@[i as int]@[k] == other.cells@[i as int]@[k],
                decreases self.cells[i as int].len() - j,
            {
                if self.cells[i][j] != other.cells[i][j] {
                    assert(self.grid()[i as int][j as int] != other.grid()[i as int][j as int]);
                    return false;
                }
                j = j + 1;
            }
            assert(self.cells@[i as int]@ =~= other.cells@[i as int]@);
            i = i + 1;
        }
        assert(self.grid() =~= other.grid());
        true
    }
}

impl PartialEqSpecImpl for Board {
    open spec fn obeys_eq_spec() -> bool {
        true
    }

    open spec fn eq_spec(&self, other: &Self) -> bool {
        self.size == other.size && self.grid() == other.grid()
    }
}

/// The neighbours of the point `(x, y)` on a board of `size` rows, in the
/// order up, down, left, right.
pub open spec fn directions(x: usize, y: usize, size: usize) -> Seq<(usize, usize)> {
    (if x > 0 {
        seq![((x - 1) as usize, y)]
    } else {
        seq![]
    }) + (if x + 1 < size {
        seq![((x + 1) as usize, y)]
    } else {
        seq![]
    }) + (if y > 0 {
        seq![(x, (y - 1) as usize)]
    } else {
        seq![]
    }) + (if y + 1 < size {
        seq![(x, (y + 1) as usize)]
    } else {
        seq![]
    })
}

/// Walks over the neighbours of a point.
pub struct BoardDirectionIter {
    direction_iter: Vec<(usize, usize)>,
    i: usize,
}

impl BoardDirectionIter {
    #[verifier::type_invariant]
    spec fn in_range(self) -> bool {
        self.i <= self.direction_iter@.len()
    }

    /// The neighbours still to come, in order.
    pub closed spec fn remaining(&self) -> Seq<(usize, usize)> {
        self.direction_iter@.subrange(self.i as int, self.direction_iter@.len() as int)
    }

    /// A walk over the neighbours of `(x, y)` on `board`.
    pub fn new(x: usize, y: usize, board: &Board) -> (it: BoardDirectionIter)
        ensures
            it.remaining() == directions(x, y, board.size),
    {
        let mut direction_iter: Vec<(usize, usize)> = Vec::new();
        if x > 0 {
            direction_iter.push((x - 1, y));
        }
        if board.size > 0 && x < board.size - 1 {
            direction_iter.push((x + 1, y));
        }
        if y > 0 {
            direction_iter.push((x, y - 1));
        }
        if board.size > 0 && y < board.size - 1 {
            direction_iter.push((x, y + 1));
        }
        let it = BoardDirectionIter { direction_iter, i: 0 };
        assert(it.remaining() =~= directions(x, y, board.size));
        it
    }

    /// The next neighbour, or `None` when all were given.
    pub fn next(&mut self) -> (r: Option<(usize, usize)>)
        ensures
            old(self).remaining().len() == 0 ==> r is None && final(self).remaining() == old(self).remaining(),
            old(self).remaining().len() > 0 ==> r == Some(old(self).remaining()[0]) && final(self).remaining() == old(self).remaining().drop_first(),
    {
        proof {
            use_type_invariant(&*self);
        }
        if self.direction_iter.len() > self.i {
            let r = Some(self.direction_iter[self.i]);
            self.i += 1;
            assert(self.remaining() =~= old(self).remaining().drop_first());
            r
        } else {
            None
        }
    }
}

} // verus!
