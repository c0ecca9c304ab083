//! Groups of stones and their liberties.
//!
//! A grid is modelled as a sequence of rows. Two points are connected when a
//! walk over orthogonally adjacent points of one colour joins them; a group is
//! everything connected to a stone, and a liberty of the group is an empty
//! point next to one of its stones. [`flood`] computes both by breadth-first
//! traversal and is proved to return exactly the group and exactly its
//! liberties.

use vstd::prelude::*;
use crate::board::Cell;

verus! {

/// The mathematical model of a board's contents: rows of cells.
pub type Grid = Seq<Seq<Cell>>;

/// The rows of a vector of vectors, as sequences.
pub open spec fn rows<T>(v: Seq<Vec<T>>) -> Seq<Seq<T>> {
    Seq::new(v.len(), |i: int| v[i]@)
}

/// Every row of `m` has as many entries as `m` has rows.
pub open spec fn square<T>(m: Seq<Seq<T>>) -> bool {
    forall|i: int| 0 <= i < m.len() ==> (#[trigger] m[i]).len() == m.len()
}

/// A point given by machine integers, as a point of the model.
pub open spec fn pt(p: (usize, usize)) -> (int, int) {
    (p.0 as int, p.1 as int)
}

/// `p` lies on the grid.
pub open spec fn inside<T>(g: Seq<Seq<T>>, p: (int, int)) -> bool {
    0 <= p.0 < g.len() && 0 <= p.1 < g[p.0].len()
}

/// What the grid holds at `p`.
pub open spec fn cell_at(g: Grid, p: (int, int)) -> Cell {
    g[p.0][p.1]
}

/// `p` and `q` are orthogonal neighbours.
pub open spec fn adjacent(p: (int, int), q: (int, int)) -> bool {
    ||| p.0 == q.0 && (p.1 == q.1 + 1 || q.1 == p.1 + 1)
    ||| p.1 == q.1 && (p.0 == q.0 + 1 || q.0 == p.0 + 1)
}

/// A walk over neighbouring points of the grid that all hold what its first
/// point holds.
pub open spec fn is_chain(g: Grid, path: Seq<(int, int)>) -> bool {
    &&& path.len() > 0
    &&& forall|i: int|
        0 <= i < path.len() ==> inside(g, #[trigger] path[i]) && cell_at(g, path[i]) == cell_at(
            g,
            path[0],
        )
    &&& forall|i: int| 0 <= i < path.len() - 1 ==> adjacent(#[trigger] path[i], path[i + 1])
}

/// `q` belongs to the group of `p`.
pub open spec fn connected(g: Grid, p: (int, int), q: (int, int)) -> bool {
    exists|path: Seq<(int, int)>| is_chain(g, path) && path[0] == p && path.last() == q
}

/// `r` is an empty point next to a member of the group of `p`.
pub open spec fn is_liberty(g: Grid, p: (int, int), r: (int, int)) -> bool {
    &&& inside(g, r)
    &&& cell_at(g, r) == Cell::Empty
    &&& exists|q: (int, int)| connected(g, p, q) && adjacent(q, r)
}

/// The group of `p` has at least one liberty.
pub open spec fn has_liberty(g: Grid, p: (int, int)) -> bool {
    exists|r: (int, int)| is_liberty(g, p, r)
}

/// `q` occurs in the list of points `v`.
pub open spec fn holds(v: Seq<(usize, usize)>, q: (int, int)) -> bool {
    exists|k: int| 0 <= k < v.len() && pt(#[trigger] v[k]) == q
}

/// `new` continues `old`.
pub open spec fn extends<T>(old_seq: Seq<T>, new_seq: Seq<T>) -> bool {
    &&& old_seq.len() <= new_seq.len()
    &&& forall|k: int| 0 <= k < old_seq.len() ==> #[trigger] new_seq[k] == old_seq[k]
}

/// The number of `false` entries of a row.
pub open spec fn count_clear(row: Seq<bool>) -> nat
    decreases row.len(),
{
    if row.len() == 0 {
        0
    } else {
        count_clear(row.drop_last()) + if row.last() {
            0nat
        } else {
            1nat
        }
    }
}

/// The number of `false` entries of a mask.
pub open spec fn unseen(m: Seq<Seq<bool>>) -> nat
    decreases m.len(),
{
    if m.len() == 0 {
        0
    } else {
        unseen(m.drop_last()) + count_clear(m.last())
    }
}

/// The mask `m` with the entry at `p` set.
pub open spec fn mark(m: Seq<Seq<bool>>, p: (int, int)) -> Seq<Seq<bool>> {
    m.update(p.0, m[p.0].update(p.1, true))
}

/// `m` has the shape of `g`.
pub open spec fn same_shape<T, U>(g: Seq<Seq<T>>, m: Seq<Seq<U>>) -> bool {
    &&& m.len() == g.len()
    &&& forall|i: int| 0 <= i < g.len() ==> (#[trigger] m[i]).len() == g[i].len()
}

pub proof fn lemma_mark_row(row: Seq<bool>, j: int)
    requires
        0 <= j < row.len(),
        !row[j],
    ensures
        count_clear(row.update(j, true)) + 1 == count_clear(row),
    decreases row.len(),
{
    let marked = row.update(j, true);
    if j == row.len() - 1 {
        assert(marked.drop_last() =~= row.drop_last());
    } else {
        assert(marked.drop_last() =~= row.drop_last().update(j, true));
        lemma_mark_row(row.drop_last(), j);
    }
}

/// Setting a clear entry of a mask leaves one clear entry fewer.
pub proof fn lemma_mark(m: Seq<Seq<bool>>, p: (int, int))
    requires
        inside(m, p),
        !m[p.0][p.1],
    ensures
        unseen(mark(m, p)) + 1 == unseen(m),
    decreases m.len(),
{
    let marked = mark(m, p);
    if p.0 == m.len() - 1 {
        assert(marked.drop_last() =~= m.drop_last());
        lemma_mark_row(m[p.0], p.1);
    } else {
        assert(marked.drop_last() =~= mark(m.drop_last(), p));
        lemma_mark(m.drop_last(), p);
    }
}

/// A point is connected to itself.
pub proof fn lemma_connected_self(g: Grid, p: (int, int))
    requires
        inside(g, p),
    ensures
        connected(g, p, p),
{
    let path = seq![p];
    assert(is_chain(g, path));
    assert(path[0] == p && path.last() == p);
}

/// A group grows along a neighbour of the same colour.
pub proof fn lemma_connected_step(g: Grid, p: (int, int), q: (int, int), n: (int, int))
    requires
        connected(g, p, q),
        adjacent(q, n),
        inside(g, n),
        cell_at(g, n) == cell_at(g, p),
    ensures
        connected(g, p, n),
{
    let path = choose|path: Seq<(int, int)>| is_chain(g, path) && path[0] == p && path.last() == q;
    let longer = path.push(n);
    assert forall|i: int| 0 <= i < longer.len() implies inside(g, #[trigger] longer[i]) && cell_at(
        g,
        longer[i],
    ) == cell_at(g, longer[0]) by {
        if i < path.len() {
            assert(longer[i] == path[i]);
        }
    }
    assert forall|i: int| 0 <= i < longer.len() - 1 implies adjacent(
        #[trigger] longer[i],
        longer[i + 1],
    ) by {
        if i < path.len() - 1 {
            assert(longer[i] == path[i]);
            assert(longer[i + 1] == path[i + 1]);
        }
    }
    assert(is_chain(g, longer));
    assert(longer[0] == p && longer.last() == n);
}

/// Members of a group lie on the grid and share the colour of its seed.
pub proof fn lemma_connected_same(g: Grid, p: (int, int), q: (int, int))
    requires
        connected(g, p, q),
    ensures
        inside(g, p),
        inside(g, q),
        cell_at(g, q) == cell_at(g, p),
{
    let path = choose|path: Seq<(int, int)>| is_chain(g, path) && path[0] == p && path.last() == q;
    assert(inside(g, path[0]));
    assert(inside(g, path[path.len() - 1]));
}

/// The neighbours of `s` on the grid are accounted for: those of the group's
/// colour are among `stones`, the empty ones among `libs`.
pub open spec fn settled(
    g: Grid,
    p: (int, int),
    stones: Seq<(usize, usize)>,
    libs: Seq<(usize, usize)>,
    s: (int, int),
) -> bool {
    forall|q: (int, int)| #[trigger]
        adjacent(s, q) && inside(g, q) ==> handled(g, p, stones, libs, q)
}

/// The point `q` is accounted for.
pub open spec fn handled(
    g: Grid,
    p: (int, int),
    stones: Seq<(usize, usize)>,
    libs: Seq<(usize, usize)>,
    q: (int, int),
) -> bool {
    &&& cell_at(g, q) == cell_at(g, p) ==> holds(stones, q)
    &&& cell_at(g, q) == Cell::Empty ==> holds(libs, q)
}

/// What holds of a traversal from `p` at every moment: the stones found so far
/// belong to the group, the liberties found are liberties of it, nothing was
/// found twice, and exactly what was found is marked.
pub open spec fn flood_ok(
    g: Grid,
    p: (int, int),
    seen: Seq<Seq<bool>>,
    stones: Seq<(usize, usize)>,
    libs: Seq<(usize, usize)>,
) -> bool {
    &&& same_shape(g, seen)
    &&& cell_at(g, p).is_stone()
    &&& stones.len() > 0
    &&& pt(stones[0]) == p
    &&& forall|k: int|
        0 <= k < stones.len() ==> {
            let q = pt(#[trigger] stones[k]);
            inside(g, q) && cell_at(g, q) == cell_at(g, p) && connected(g, p, q) && seen[q.0][q.1]
        }
    &&& forall|k: int|
        0 <= k < libs.len() ==> {
            let r = pt(#[trigger] libs[k]);
            is_liberty(g, p, r) && seen[r.0][r.1]
        }
    &&& stones.no_duplicates()
    &&& libs.no_duplicates()
    &&& forall|a: int, b: int|
        inside(g, (a, b)) && #[trigger] seen[a][b] ==> holds(stones, (a, b)) || holds(libs, (a, b))
}

pub proof fn lemma_holds_extends(old_seq: Seq<(usize, usize)>, new_seq: Seq<(usize, usize)>, q: (int, int))
    requires
        extends(old_seq, new_seq),
        holds(old_seq, q),
    ensures
        holds(new_seq, q),
{
    let k = choose|k: int| 0 <= k < old_seq.len() && pt(#[trigger] old_seq[k]) == q;
    assert(new_seq[k] == old_seq[k]);
}

pub proof fn lemma_handled_extends(
    g: Grid,
    p: (int, int),
    stones: Seq<(usize, usize)>,
    libs: Seq<(usize, usize)>,
    stones2: Seq<(usize, usize)>,
    libs2: Seq<(usize, usize)>,
    q: (int, int),
)
    requires
        handled(g, p, stones, libs, q),
        extends(stones, stones2),
        extends(libs, libs2),
    ensures
        handled(g, p, stones2, libs2, q),
{
    if cell_at(g, q) == cell_at(g, p) {
        lemma_holds_extends(stones, stones2, q);
    }
    if cell_at(g, q) == Cell::Empty {
        lemma_holds_extends(libs, libs2, q);
    }
}

pub proof fn lemma_settled_extends(
    g: Grid,
    p: (int, int),
    stones: Seq<(usize, usize)>,
    libs: Seq<(usize, usize)>,
    stones2: Seq<(usize, usize)>,
    libs2: Seq<(usize, usize)>,
    s: (int, int),
)
    requires
        settled(g, p, stones, libs, s),
        extends(stones, stones2),
        extends(libs, libs2),
    ensures
        settled(g, p, stones2, libs2, s),
{
    assert forall|q: (int, int)| #[trigger] adjacent(s, q) && inside(g, q) implies handled(
        g,
        p,
        stones2,
        libs2,
        q,
    ) by {
        lemma_handled_extends(g, p, stones, libs, stones2, libs2, q);
    }
}

/// A list of stones that holds the seed and every same-coloured neighbour of
/// each of its members holds every point of every walk from the seed.
pub proof fn lemma_chain_held(
    g: Grid,
    p: (int, int),
    stones: Seq<(usize, usize)>,
    libs: Seq<(usize, usize)>,
    path: Seq<(int, int)>,
    k: int,
)
    requires
        is_chain(g, path),
        path[0] == p,
        0 <= k < path.len(),
        holds(stones, p),
        forall|j: int| 0 <= j < stones.len() ==> settled(g, p, stones, libs, pt(#[trigger] stones[j])),
    ensures
        holds(stones, path[k]),
    decreases k,
{
    if k > 0 {
        lemma_chain_held(g, p, stones, libs, path, k - 1);
        let j = choose|j: int| 0 <= j < stones.len() && pt(#[trigger] stones[j]) == path[k - 1];
        assert(settled(g, p, stones, libs, pt(stones[j])));
        assert(adjacent(path[k - 1], path[k - 1 + 1]));
        assert(inside(g, path[k]));
        assert(handled(g, p, stones, libs, path[k]));
    }
}

/// A mask of `n` rows of `n` entries, all clear.
pub fn new_mask(n: usize) -> (m: Vec<Vec<bool>>)
    ensures
        m@.len() == n,
        forall|i: int| 0 <= i < n ==> (#[trigger] m@[i])@.len() == n,
        forall|i: int, j: int| 0 <= i < n && 0 <= j < n ==> !(#[trigger] m@[i]@[j]),
{
    let mut m: Vec<Vec<bool>> = Vec::new();
    let mut i: usize = 0;
    while i < n
        invariant
            i <= n,
            m@.len() == i,
            forall|k: int| 0 <= k < i ==> (#[trigger] m@[k])@.len() == n,
            forall|k: int, j: int| 0 <= k < i && 0 <= j < n ==> !(#[trigger] m@[k]@[j]),
        decreases n - i,
    {
        let mut row: Vec<bool> = Vec::new();
        let mut j: usize = 0;
        while j < n
            invariant
                j <= n,
                row@.len() == j,
                forall|k: int| 0 <= k < j ==> !(#[trigger] row@[k]),
            decreases n - j,
        {
            row.push(false);
            j = j + 1;
        }
        m.push(row);
        i = i + 1;
    }
    m
}

/// A group of stones with the empty points that border it.
pub struct Group {
    /// The stones of the group, each once, the seed first.
    pub stones: Vec<(usize, usize)>,
    /// The liberties of the group, each once.
    pub liberties: Vec<(usize, usize)>,
}

/// Looks at the neighbour `(nx, ny)` of the stone `stones[from]` and records
/// it if it is new: as a stone if it has the group's colour, as a liberty if
/// it is empty.
fn visit(
    cells: &Vec<Vec<Cell>>,
    seen: &mut Vec<Vec<bool>>,
    stones: &mut Vec<(usize, usize)>,
    libs: &mut Vec<(usize, usize)>,
    from: usize,
    nx: usize,
    ny: usize,
)
    requires
        flood_ok(rows(cells@), pt(old(stones)@[0]), rows(old(seen)@), old(stones)@, old(libs)@),
        from < old(stones)@.len(),
        inside(rows(cells@), (nx as int, ny as int)),
        adjacent(pt(old(stones)@[from as int]), (nx as int, ny as int)),
    ensures
        flood_ok(rows(cells@), pt(old(stones)@[0]), rows(final(seen)@), final(stones)@, final(libs)@),
        extends(old(stones)@, final(stones)@),
        extends(old(libs)@, final(libs)@),
        handled(
            rows(cells@),
            pt(old(stones)@[0]),
            final(stones)@,
            final(libs)@,
            (nx as int, ny as int),
        ),
        unseen(rows(final(seen)@)) + final(stones)@.len() <= unseen(rows(old(seen)@)) + old(
            stones,
        )@.len(),
{
    let ghost g = rows(cells@);
    let ghost p = pt(stones@[0]);
    let ghost n = (nx as int, ny as int);
    let ghost seen0 = rows(seen@);
    let ghost stones0 = stones@;
    let ghost libs0 = libs@;
    let origin = stones[0];
    let color = cells[origin.0][origin.1];
    let here = cells[nx][ny];
    proof {
        assert(inside(g, pt(stones0[0])));
        assert(g[nx as int] == cells@[nx as int]@);
        assert(g[p.0] == cells@[p.0]@);
        assert(seen0[nx as int] == seen@[nx as int]@);
    }
    if seen[nx][ny] {
        return ;
    }
    if here == color {
        seen[nx][ny] = true;
        stones.push((nx, ny));
        proof {
            let seen1 = rows(seen@);
            assert(seen1 =~= mark(seen0, n));
            lemma_mark(seen0, n);
            assert(connected(g, p, pt(stones0[from as int])));
            lemma_connected_step(g, p, pt(stones0[from as int]), n);
            assert(!holds(stones0, n));
            assert(stones@.no_duplicates()) by {
                assert forall|i: int, j: int|
                    0 <= i < stones@.len() && 0 <= j < stones@.len() && i != j implies stones@[i]
                    != stones@[j] by {
                    if i < stones0.len() && j < stones0.len() {
                    } else if i < stones0.len() {
                        assert(pt(stones0[i]) != n);
                    } else {
                        assert(pt(stones0[j]) != n);
                    }
                }
            }
            assert(pt(stones@[stones0.len() as int]) == n);
            assert(holds(stones@, n));
            assert forall|a: int, b: int| inside(g, (a, b)) && #[trigger] seen1[a][b] implies holds(
                stones@,
                (a, b),
            ) || holds(libs@, (a, b)) by {
                if (a, b) != n {
                    assert(seen0[a][b]);
                    if holds(stones0, (a, b)) {
                        lemma_holds_extends(stones0, stones@, (a, b));
                    }
                }
            }
            assert forall|k: int| 0 <= k < stones@.len() implies ({
                let q = pt(#[trigger] stones@[k]);
                inside(g, q) && cell_at(g, q) == cell_at(g, p) && connected(g, p, q)
                    && seen1[q.0][q.1]
            }) by {
                if k < stones0.len() {
                    assert(stones@[k] == stones0[k]);
                }
            }
            assert forall|k: int| 0 <= k < libs@.len() implies ({
                let r = pt(#[trigger] libs@[k]);
                is_liberty(g, p, r) && seen1[r.0][r.1]
            }) by {
                assert(libs@[k] == libs0[k]);
            }
        }
    } else if here == Cell::Empty {
        seen[nx][ny] = true;
        libs.push((nx, ny));
        proof {
            let seen1 = rows(seen@);
            assert(seen1 =~= mark(seen0, n));
            lemma_mark(seen0, n);
            assert(connected(g, p, pt(stones0[from as int])));
            assert(is_liberty(g, p, n));
            assert(!holds(libs0, n));
            assert(libs@.no_duplicates()) by {
                assert forall|i: int, j: int|
                    0 <= i < libs@.len() && 0 <= j < libs@.len() && i != j implies libs@[i]
                    != libs@[j] by {
                    if i < libs0.len() && j < libs0.len() {
                    } else if i < libs0.len() {
                        assert(pt(libs0[i]) != n);
                    } else {
                        assert(pt(libs0[j]) != n);
                    }
                }
            }
            assert(pt(libs@[libs0.len() as int]) == n);
            assert(holds(libs@, n));
            assert forall|a: int, b: int| inside(g, (a, b)) && #[trigger] seen1[a][b] implies holds(
                stones@,
                (a, b),
            ) || holds(libs@, (a, b)) by {
                if (a, b) != n {
                    assert(seen0[a][b]);
                    if holds(libs0, (a, b)) {
                        lemma_holds_extends(libs0, libs@, (a, b));
                    }
                }
            }
            assert forall|k: int| 0 <= k < stones@.len() implies ({
                let q = pt(#[trigger] stones@[k]);
                inside(g, q) && cell_at(g, q) == cell_at(g, p) && connected(g, p, q)
                    && seen1[q.0][q.1]
            }) by {
                assert(stones@[k] == stones0[k]);
            }
            assert forall|k: int| 0 <= k < libs@.len() implies ({
                let r = pt(#[trigger] libs@[k]);
                is_liberty(g, p, r) && seen1[r.0][r.1]
            }) by {
                if k < libs0.len() {
                    assert(libs@[k] == libs0[k]);
                }
            }
        }
    }
}

/// The group of the stone at `(x, y)` and the liberties of that group, found
/// by breadth-first traversal over neighbouring stones of the same colour.
pub fn flood(cells: &Vec<Vec<Cell>>, x: usize, y: usize) -> (r: Group)
    requires
        square(rows(cells@)),
        inside(rows(cells@), (x as int, y as int)),
        cell_at(rows(cells@), (x as int, y as int)).is_stone(),
    ensures
        r.stones@.no_duplicates(),
        r.liberties@.no_duplicates(),
        r.stones@.len() > 0,
        r.stones@[0] == (x, y),
        forall|q: (int, int)|
            holds(r.stones@, q) <==> connected(rows(cells@), (x as int, y as int), q),
        forall|q: (int, int)|
            holds(r.liberties@, q) <==> is_liberty(rows(cells@), (x as int, y as int), q),
        (r.liberties@.len() > 0) == has_liberty(rows(cells@), (x as int, y as int)),
{
    let n = cells.len();
    let ghost g = rows(cells@);
    let ghost p = (x as int, y as int);
    let mut seen = new_mask(n);
    let mut stones: Vec<(usize, usize)> = Vec::new();
    let mut libs: Vec<(usize, usize)> = Vec::new();
    let ghost seen0 = rows(seen@);
    seen[x][y] = true;
    stones.push((x, y));
    proof {
        lemma_connected_self(g, p);
        assert(rows(seen@) =~= mark(seen0, p));
        assert(pt(stones@[0]) == p);
        assert forall|a: int, b: int|
            inside(g, (a, b)) && #[trigger] rows(seen@)[a][b] implies holds(stones@, (a, b))
            || holds(libs@, (a, b)) by {
            assert((a, b) == p);
        }
    }
    let mut i: usize = 0;
    while i < stones.len()
        invariant
            g == rows(cells@),
            n == cells@.len(),
            square(g),
            p == pt(stones@[0]),
            flood_ok(g, p, rows(seen@), stones@, libs@),
            i <= stones@.len(),
            forall|k: int| 0 <= k < i ==> settled(g, p, stones@, libs@, pt(#[trigger] stones@[k])),
        decreases unseen(rows(seen@)) + stones@.len() - i,
    {
        let (cx, cy) = stones[i];
        let ghost s = pt(stones@[i as int]);
        let ghost stones_a = stones@;
        let ghost libs_a = libs@;
        assert(inside(g, s));
        if cx > 0 {
            visit(cells, &mut seen, &mut stones, &mut libs, i, cx - 1, cy);
        }
        let ghost stones_b = stones@;
        let ghost libs_b = libs@;
        if cx + 1 < n {
            visit(cells, &mut seen, &mut stones, &mut libs, i, cx + 1, cy);
        }
        let ghost stones_c = stones@;
        let ghost libs_c = libs@;
        if cy > 0 {
            visit(cells, &mut seen, &mut stones, &mut libs, i, cx, cy - 1);
        }
        let ghost stones_d = stones@;
        let ghost libs_d = libs@;
        if cy + 1 < n {
            visit(cells, &mut seen, &mut stones, &mut libs, i, cx, cy + 1);
        }
        proof {
            assert(extends(stones_a, stones@));
            assert(extends(libs_a, libs@));
            assert(extends(stones_b, stones@));
            assert(extends(libs_b, libs@));
            assert(extends(stones_c, stones@));
            assert(extends(libs_c, libs@));
            assert forall|q: (int, int)| #[trigger] adjacent(s, q) && inside(g, q) implies handled(
                g,
                p,
                stones@,
                libs@,
                q,
            ) by {
                if q == (s.0 - 1, s.1) {
                    lemma_handled_extends(g, p, stones_b, libs_b, stones@, libs@, q);
                } else if q == (s.0 + 1, s.1) {
                    lemma_handled_extends(g, p, stones_c, libs_c, stones@, libs@, q);
                } else if q == (s.0, s.1 - 1) {
                    lemma_handled_extends(g, p, stones_d, libs_d, stones@, libs@, q);
                } else {
                    assert(q == (s.0, s.1 + 1));
                }
            }
            assert forall|k: int| 0 <= k < i + 1 implies settled(
                g,
                p,
                stones@,
                libs@,
                pt(#[trigger] stones@[k]),
            ) by {
                assert(stones@[k] == stones_a[k]);
                if k < i {
                    lemma_settled_extends(g, p, stones_a, libs_a, stones@, libs@, pt(stones_a[k]));
                }
            }
        }
        i = i + 1;
    }
    proof {
        assert(holds(stones@, p));
        assert forall|q: (int, int)| connected(g, p, q) implies holds(stones@, q) by {
            let path = choose|path: Seq<(int, int)>|
                is_chain(g, path) && path[0] == p && path.last() == q;
            lemma_chain_held(g, p, stones@, libs@, path, path.len() - 1);
        }
        assert forall|r: (int, int)| is_liberty(g, p, r) implies holds(libs@, r) by {
            let q = choose|q: (int, int)| connected(g, p, q) && adjacent(q, r);
            assert(holds(stones@, q));
            let j = choose|j: int| 0 <= j < stones@.len() && pt(#[trigger] stones@[j]) == q;
            assert(settled(g, p, stones@, libs@, pt(stones@[j])));
            assert(adjacent(q, r) && inside(g, r));
            assert(handled(g, p, stones@, libs@, r));
        }
        if libs@.len() > 0 {
            assert(is_liberty(g, p, pt(libs@[0])));
        }
        if has_liberty(g, p) {
            let r = choose|r: (int, int)| is_liberty(g, p, r);
            assert(holds(libs@, r));
        }
    }
    Group { stones, liberties: libs }
}

} // verus!
