use crate::pattern::{
    centered, chars_of, fits, lemma_max_bounds, max_col, max_row, nat_pairs, parse_chars,
    parse_coords, pattern_cells, pattern_fits, pattern_format, PatternError, PatternFormat,
};
use rand::Rng;
use std::collections::BTreeSet;
use vstd::prelude::*;
use vstd::std_specs::iter::IteratorSpec;
use vstd::string::StringExecFns;

verus! {

broadcast use vstd::std_specs::btree::group_btree_axioms;

/// A position on the board: row `r`, column `c`.
#[derive(PartialEq, Eq, Structural, Clone, Copy, Debug, Hash)]
pub struct Cell {
    pub r: usize,
    pub c: usize,
}

/// A game of life on a `rows` by `cols` torus. Only the live cells are stored.
pub struct GameOfLife {
    rows: usize,
    cols: usize,
    live: BTreeSet<(usize, usize)>,
}

/// The index before `i` on an axis of length `n`, wrapping from `0` to `n - 1`.
pub open spec fn prev_index(i: usize, n: usize) -> usize {
    if i == 0 {
        (n - 1) as usize
    } else {
        (i - 1) as usize
    }
}

/// The index after `i` on an axis of length `n`, wrapping from `n - 1` to `0`.
pub open spec fn next_index(i: usize, n: usize) -> usize {
    if i == n - 1 {
        0
    } else {
        (i + 1) as usize
    }
}

/// The previous, same and next index of `i` on an axis of length `n`.
pub open spec fn wrap3(i: usize, n: usize) -> Seq<usize> {
    seq![prev_index(i, n), i, next_index(i, n)]
}

/// The `k`-th of the nine combinations of wrapped row and column indices
/// around `p` (`k` in `0..9`, row-major; the fifth is `p` itself).
pub open spec fn around(rows: usize, cols: usize, p: (usize, usize), k: int) -> (usize, usize) {
    (wrap3(p.0, rows)[k / 3], wrap3(p.1, cols)[k % 3])
}

/// Whether `q` is a neighbour of `p` on the torus: its row and column are
/// each a wrapped index around those of `p`, and it is not `p` itself.
pub open spec fn is_neighbor(rows: usize, cols: usize, p: (usize, usize), q: (usize, usize)) -> bool {
    &&& wrap3(p.0, rows).contains(q.0)
    &&& wrap3(p.1, cols).contains(q.1)
    &&& q != p
}

/// `q` is a dead neighbour of `p`.
pub open spec fn dead_neighbor(
    live: Set<(usize, usize)>,
    rows: usize,
    cols: usize,
    p: (usize, usize),
    q: (usize, usize),
) -> bool {
    is_neighbor(rows, cols, p, q) && !live.contains(q)
}

/// How many of the first `k` combinations around `p` are live and differ from `p`.
pub open spec fn live_around(
    live: Set<(usize, usize)>,
    rows: usize,
    cols: usize,
    p: (usize, usize),
    k: nat,
) -> nat
    decreases k,
{
    if k == 0 {
        0
    } else {
        let q = around(rows, cols, p, k - 1);
        live_around(live, rows, cols, p, (k - 1) as nat) + if q != p && live.contains(q) {
            1nat
        } else {
            0nat
        }
    }
}

/// The live-neighbour count of `p`: the combinations around it, other than
/// `p`, that are live, counted with multiplicity on small boards.
pub open spec fn live_neighbors(
    live: Set<(usize, usize)>,
    rows: usize,
    cols: usize,
    p: (usize, usize),
) -> nat {
    live_around(live, rows, cols, p, 9)
}

/// Conway's rule: whether `p` is live in the generation after `live`.
pub open spec fn alive_next(
    live: Set<(usize, usize)>,
    rows: usize,
    cols: usize,
    p: (usize, usize),
) -> bool {
    let n = live_neighbors(live, rows, cols, p);
    if live.contains(p) {
        n == 2 || n == 3
    } else {
        n == 3
    }
}

/// The generation after `live` on a `rows` by `cols` torus.
pub open spec fn next_generation(live: Set<(usize, usize)>, rows: usize, cols: usize) -> Set<
    (usize, usize),
> {
    Set::new(|p: (usize, usize)| p.0 < rows && p.1 < cols && alive_next(live, rows, cols, p))
}

/// Every cell of `live` lies on a `rows` by `cols` board.
pub open spec fn within(live: Set<(usize, usize)>, rows: usize, cols: usize) -> bool {
    forall|p: (usize, usize)| #[trigger] live.contains(p) ==> p.0 < rows && p.1 < cols
}

/// `q` is among the first `k` combinations around `p`.
pub open spec fn among_first(rows: usize, cols: usize, p: (usize, usize), q: (usize, usize), k: int) -> bool {
    exists|j: int| 0 <= j < k && #[trigger] around(rows, cols, p, j) == q
}

/// On an axis of length `n`, `x` is a wrapped index around `i` exactly when
/// `i` is one around `x`.
proof fn lemma_wrap_symmetric(i: usize, x: usize, n: usize)
    requires
        i < n,
        wrap3(i, n).contains(x),
    ensures
        x < n,
        wrap3(x, n).contains(i),
{
    let w = wrap3(i, n);
    let v = wrap3(x, n);
    if x == w[0] {
        assert(v[2] == i);
    } else if x == w[1] {
        assert(v[1] == i);
    } else {
        assert(x == w[2]);
        assert(v[0] == i);
    }
}

/// The combinations around `p` other than `p` are exactly its neighbours.
proof fn lemma_around_is_neighbor(rows: usize, cols: usize, p: (usize, usize), q: (usize, usize))
    ensures
        is_neighbor(rows, cols, p, q) <==> (among_first(rows, cols, p, q, 9) && q != p),
{
    let wr = wrap3(p.0, rows);
    let wc = wrap3(p.1, cols);
    if is_neighbor(rows, cols, p, q) {
        let a = choose|a: int| 0 <= a < 3 && wr[a] == q.0;
        let b = choose|b: int| 0 <= b < 3 && wc[b] == q.1;
        assert((3 * a + b) / 3 == a && (3 * a + b) % 3 == b);
        assert(around(rows, cols, p, 3 * a + b) == q);
    }
    if among_first(rows, cols, p, q, 9) && q != p {
        let j = choose|j: int| 0 <= j < 9 && #[trigger] around(rows, cols, p, j) == q;
        assert(wr[j / 3] == q.0);
        assert(wc[j % 3] == q.1);
    }
}

/// A cell with a live neighbour is itself a neighbour of some live cell.
proof fn lemma_counted_has_live_neighbor(
    live: Set<(usize, usize)>,
    rows: usize,
    cols: usize,
    q: (usize, usize),
    k: nat,
)
    requires
        q.0 < rows,
        q.1 < cols,
        k <= 9,
        live_around(live, rows, cols, q, k) > 0,
    ensures
        exists|l: (usize, usize)| live.contains(l) && #[trigger] is_neighbor(rows, cols, l, q),
    decreases k,
{
    let l = around(rows, cols, q, k - 1);
    if l != q && live.contains(l) {
        let j = k - 1;
        assert(0 <= j / 3 < 3 && 0 <= j % 3 < 3);
        assert(wrap3(q.0, rows).contains(l.0)) by {
            assert(wrap3(q.0, rows)[j / 3] == l.0);
        }
        assert(wrap3(q.1, cols).contains(l.1)) by {
            assert(wrap3(q.1, cols)[j % 3] == l.1);
        }
        lemma_wrap_symmetric(q.0, l.0, rows);
        lemma_wrap_symmetric(q.1, l.1, cols);
        assert(is_neighbor(rows, cols, l, q));
    } else {
        lemma_counted_has_live_neighbor(live, rows, cols, q, (k - 1) as nat);
    }
}

/// The draw that makes a cell of a random board live; draws range over `0..10`.
pub const ALIVE_DRAW: u32 = 0;

/// The cells of a `rows` by `cols` board whose draw equals `ALIVE_DRAW`,
/// `draws[r][c]` being the draw for row `r` and column `c`.
pub open spec fn drawn_live(draws: Seq<Vec<u32>>, rows: usize, cols: usize) -> Set<(usize, usize)> {
    Set::new(
        |p: (usize, usize)|
            p.0 < rows && p.1 < cols && draws[p.0 as int]@[p.1 as int] == ALIVE_DRAW,
    )
}

/// The (row, column) pairs of a sequence of cells.
pub open spec fn cell_pairs(v: Seq<Cell>) -> Seq<(usize, usize)> {
    v.map_values(|cell: Cell| (cell.r, cell.c))
}

/// Relies on `Rng::gen_range` on `rand::thread_rng()`, which draws uniformly
/// from the half-open range `0..10` and panics only on an empty range.
#[verifier::external_body]
fn draw_tenth() -> (d: u32)
    ensures
        d < 10,
{
    rand::thread_rng().gen_range(0..10)
}

/// Row `r` of the board drawn as text: a full block for a live cell, a
/// space for a dead one.
pub open spec fn row_text(live: Set<(usize, usize)>, r: usize, cols: usize) -> Seq<char> {
    Seq::new(cols as nat, |c: int| if live.contains((r, c as usize)) { '█' } else { ' ' })
}

/// The first `k` rows of the board drawn as text, one line per row.
pub open spec fn board_text(live: Set<(usize, usize)>, cols: usize, k: nat) -> Seq<char>
    decreases k,
{
    if k == 0 {
        seq![]
    } else if k == 1 {
        row_text(live, 0, cols)
    } else {
        board_text(live, cols, (k - 1) as nat) + seq!['\n'] + row_text(live, (k - 1) as usize, cols)
    }
}

/// A cell with any live neighbour is a neighbour of some live cell, so
/// looking only around the live cells finds every cell that can be born.
pub proof fn lemma_births_are_near_live_cells(
    live: Set<(usize, usize)>,
    rows: usize,
    cols: usize,
    q: (usize, usize),
)
    requires
        q.0 < rows,
        q.1 < cols,
        live_neighbors(live, rows, cols, q) > 0,
    ensures
        exists|l: (usize, usize)| live.contains(l) && #[trigger] is_neighbor(rows, cols, l, q),
{
    lemma_counted_has_live_neighbor(live, rows, cols, q, 9);
}

/// The 2 by 2 block whose top-left cell is `p`, wrapping across the edges.
pub open spec fn block_at(rows: usize, cols: usize, p: (usize, usize)) -> Set<(usize, usize)> {
    let r2 = next_index(p.0, rows);
    let c2 = next_index(p.1, cols);
    set![(p.0, p.1), (p.0, c2), (r2, p.1), (r2, c2)]
}

/// Around a cell of a 2 by 2 block exactly three block cells are live, and
/// around any other cell of the board the count is not three.
proof fn lemma_block_counts(rows: usize, cols: usize, p: (usize, usize), q: (usize, usize))
    requires
        rows >= 3,
        cols >= 3,
        p.0 < rows,
        p.1 < cols,
        q.0 < rows,
        q.1 < cols,
    ensures
        block_at(rows, cols, p).contains(q) ==> live_neighbors(block_at(rows, cols, p), rows, cols, q) == 3,
        !block_at(rows, cols, p).contains(q) ==> live_neighbors(block_at(rows, cols, p), rows, cols, q) != 3,
{
    reveal_with_fuel(live_around, 10);
    let b = block_at(rows, cols, p);
    let w = wrap3(q.0, rows);
    let v = wrap3(q.1, cols);
    let r2 = next_index(p.0, rows);
    let c2 = next_index(p.1, cols);
    assert(w[0] != w[1] && w[1] != w[2] && w[0] != w[2]);
    assert(v[0] != v[1] && v[1] != v[2] && v[0] != v[2]);
    assert(p.0 != r2 && p.1 != c2);
    assert(q.0 == r2 ==> w[0] == p.0);
    assert(q.1 == c2 ==> v[0] == p.1);
    assert forall|x: (usize, usize)| #[trigger] b.contains(x) <==> (x.0 == p.0 || x.0 == r2) && (x.1 == p.1 || x.1 == c2) by {
    }
    let k0 = around(rows, cols, q, 0);
    assert(k0 == (w[0], v[0]));
    assert(around(rows, cols, q, 1) == (w[0], v[1]));
    assert(around(rows, cols, q, 2) == (w[0], v[2]));
    assert(around(rows, cols, q, 3) == (w[1], v[0]));
    assert(around(rows, cols, q, 4) == (w[1], v[1]));
    assert(around(rows, cols, q, 5) == (w[1], v[2]));
    assert(around(rows, cols, q, 6) == (w[2], v[0]));
    assert(around(rows, cols, q, 7) == (w[2], v[1]));
    assert(around(rows, cols, q, 8) == (w[2], v[2]));
}

/// A 2 by 2 block anywhere on a board of at least 3 by 3, also one that lies
/// across an edge, is a still life: a step leaves it as it is.
pub proof fn lemma_block_is_still(rows: usize, cols: usize, p: (usize, usize))
    requires
        rows >= 3,
        cols >= 3,
        p.0 < rows,
        p.1 < cols,
    ensures
        next_generation(block_at(rows, cols, p), rows, cols) == block_at(rows, cols, p),
{
    let b = block_at(rows, cols, p);
    assert forall|q: (usize, usize)| next_generation(b, rows, cols).contains(q) <==> b.contains(q) by {
        if q.0 < rows && q.1 < cols {
            lemma_block_counts(rows, cols, p, q);
        }
    }
    assert(next_generation(b, rows, cols) =~= b);
}

/// Three cells in a row centred on `p`, wrapping across the edges.
pub open spec fn row_of_three(rows: usize, cols: usize, p: (usize, usize)) -> Set<(usize, usize)> {
    set![(p.0, prev_index(p.1, cols)), p, (p.0, next_index(p.1, cols))]
}

/// Three cells in a column centred on `p`, wrapping across the edges.
pub open spec fn column_of_three(rows: usize, cols: usize, p: (usize, usize)) -> Set<(usize, usize)> {
    set![(prev_index(p.0, rows), p.1), p, (next_index(p.0, rows), p.1)]
}

proof fn lemma_around_cells(rows: usize, cols: usize, q: (usize, usize))
    ensures
        forall|k: int|
            0 <= k < 9 ==> #[trigger] around(rows, cols, q, k) == (
                wrap3(q.0, rows)[k / 3],
                wrap3(q.1, cols)[k % 3],
            ),
        around(rows, cols, q, 0) == (wrap3(q.0, rows)[0], wrap3(q.1, cols)[0]),
        around(rows, cols, q, 1) == (wrap3(q.0, rows)[0], wrap3(q.1, cols)[1]),
        around(rows, cols, q, 2) == (wrap3(q.0, rows)[0], wrap3(q.1, cols)[2]),
        around(rows, cols, q, 3) == (wrap3(q.0, rows)[1], wrap3(q.1, cols)[0]),
        around(rows, cols, q, 4) == (wrap3(q.0, rows)[1], wrap3(q.1, cols)[1]),
        around(rows, cols, q, 5) == (wrap3(q.0, rows)[1], wrap3(q.1, cols)[2]),
        around(rows, cols, q, 6) == (wrap3(q.0, rows)[2], wrap3(q.1, cols)[0]),
        around(rows, cols, q, 7) == (wrap3(q.0, rows)[2], wrap3(q.1, cols)[1]),
        around(rows, cols, q, 8) == (wrap3(q.0, rows)[2], wrap3(q.1, cols)[2]),
{
}

/// A row of three becomes the column of three through its middle cell.
proof fn lemma_row_turns(rows: usize, cols: usize, p: (usize, usize), q: (usize, usize))
    requires
        rows >= 4,
        cols >= 4,
        p.0 < rows,
        p.1 < cols,
        q.0 < rows,
        q.1 < cols,
    ensures
        next_generation(row_of_three(rows, cols, p), rows, cols).contains(q)
            <==> column_of_three(rows, cols, p).contains(q),
{
    reveal_with_fuel(live_around, 10);
    let b = row_of_three(rows, cols, p);
    let w = wrap3(q.0, rows);
    let v = wrap3(q.1, cols);
    let c0 = prev_index(p.1, cols);
    let c2 = next_index(p.1, cols);
    assert(w[0] != w[1] && w[1] != w[2] && w[0] != w[2]);
    assert(v[0] != v[1] && v[1] != v[2] && v[0] != v[2]);
    assert(c0 != p.1 && c2 != p.1 && c0 != c2);
    assert(prev_index(p.0, rows) != p.0 && next_index(p.0, rows) != p.0);
    assert(q.1 == c0 ==> v[2] == p.1);
    assert(q.1 == c2 ==> v[0] == p.1);
    assert(q.1 == p.1 ==> v[0] == c0 && v[2] == c2);
    assert(q.0 == prev_index(p.0, rows) ==> w[2] == p.0);
    assert(q.0 == next_index(p.0, rows) ==> w[0] == p.0);
    assert(q.1 != p.1 ==> !(v.contains(c0) && v.contains(p.1) && v.contains(c2)));
    assert forall|x: (usize, usize)| #[trigger]
        b.contains(x) <==> x.0 == p.0 && (x.1 == c0 || x.1 == p.1 || x.1 == c2) by {}
    lemma_around_cells(rows, cols, q);
}

/// A column of three becomes the row of three through its middle cell.
proof fn lemma_column_turns(rows: usize, cols: usize, p: (usize, usize), q: (usize, usize))
    requires
        rows >= 4,
        cols >= 4,
        p.0 < rows,
        p.1 < cols,
        q.0 < rows,
        q.1 < cols,
    ensures
        next_generation(column_of_three(rows, cols, p), rows, cols).contains(q)
            <==> row_of_three(rows, cols, p).contains(q),
{
    reveal_with_fuel(live_around, 10);
    let b = column_of_three(rows, cols, p);
    let w = wrap3(q.0, rows);
    let v = wrap3(q.1, cols);
    let r0 = prev_index(p.0, rows);
    let r2 = next_index(p.0, rows);
    assert(w[0] != w[1] && w[1] != w[2] && w[0] != w[2]);
    assert(v[0] != v[1] && v[1] != v[2] && v[0] != v[2]);
    assert(r0 != p.0 && r2 != p.0 && r0 != r2);
    assert(prev_index(p.1, cols) != p.1 && next_index(p.1, cols) != p.1);
    assert(q.0 == r0 ==> w[2] == p.0);
    assert(q.0 == r2 ==> w[0] == p.0);
    assert(q.0 == p.0 ==> w[0] == r0 && w[2] == r2);
    assert(q.1 == prev_index(p.1, cols) ==> v[2] == p.1);
    assert(q.1 == next_index(p.1, cols) ==> v[0] == p.1);
    assert(q.0 != p.0 ==> !(w.contains(r0) && w.contains(p.0) && w.contains(r2)));
    assert forall|x: (usize, usize)| #[trigger]
        b.contains(x) <==> x.1 == p.1 && (x.0 == r0 || x.0 == p.0 || x.0 == r2) by {}
    lemma_around_cells(rows, cols, q);
}

/// A blinker on a board of at least 4 by 4, anywhere and also across an
/// edge: a row of three becomes the column of three through its middle cell,
/// and that column becomes the row again.
pub proof fn lemma_blinker_oscillates(rows: usize, cols: usize, p: (usize, usize))
    requires
        rows >= 4,
        cols >= 4,
        p.0 < rows,
        p.1 < cols,
    ensures
        next_generation(row_of_three(rows, cols, p), rows, cols) == column_of_three(rows, cols, p),
        next_generation(column_of_three(rows, cols, p), rows, cols) == row_of_three(rows, cols, p),
{
    let h = row_of_three(rows, cols, p);
    let v = column_of_three(rows, cols, p);
    assert forall|q: (usize, usize)| next_generation(h, rows, cols).contains(q) <==> v.contains(q) by {
        if q.0 < rows && q.1 < cols {
            lemma_row_turns(rows, cols, p, q);
        }
    }
    assert forall|q: (usize, usize)| next_generation(v, rows, cols).contains(q) <==> h.contains(q) by {
        if q.0 < rows && q.1 < cols {
            lemma_column_turns(rows, cols, p, q);
        }
    }
    assert(next_generation(h, rows, cols) =~= v);
    assert(next_generation(v, rows, cols) =~= h);
}

/// No cell is live in the generation after an empty one.
pub proof fn lemma_empty_stays_empty(rows: usize, cols: usize)
    ensures
        next_generation(Set::empty(), rows, cols) == Set::<(usize, usize)>::empty(),
{
    assert forall|p: (usize, usize)| !next_generation(Set::empty(), rows, cols).contains(p) by {
        lemma_no_live_neighbors(rows, cols, p, 9);
    }
    assert(next_generation(Set::empty(), rows, cols) =~= Set::<(usize, usize)>::empty());
}

proof fn lemma_no_live_neighbors(rows: usize, cols: usize, p: (usize, usize), k: nat)
    ensures
        live_around(Set::empty(), rows, cols, p, k) == 0,
    decreases k,
{
    if k > 0 {
        lemma_no_live_neighbors(rows, cols, p, (k - 1) as nat);
    }
}

/// The neighbours of a cell on the board lie on the board too: at the edges
/// the row and column indices wrap around to the other side.
pub proof fn lemma_neighbors_on_board(rows: usize, cols: usize, p: (usize, usize), q: (usize, usize))
    requires
        p.0 < rows,
        p.1 < cols,
        is_neighbor(rows, cols, p, q),
    ensures
        q.0 < rows,
        q.1 < cols,
        p.0 == 0 ==> wrap3(p.0, rows)[0] == rows - 1,
        p.0 == rows - 1 ==> wrap3(p.0, rows)[2] == 0,
        p.1 == 0 ==> wrap3(p.1, cols)[0] == cols - 1,
        p.1 == cols - 1 ==> wrap3(p.1, cols)[2] == 0,
{
    lemma_wrap_symmetric(p.0, q.0, rows);
    lemma_wrap_symmetric(p.1, q.1, cols);
}

/// The live cells after `n` generations from `live`.
pub open spec fn generations(live: Set<(usize, usize)>, rows: usize, cols: usize, n: nat) -> Set<
    (usize, usize),
>
    decreases n,
{
    if n == 0 {
        live
    } else {
        next_generation(generations(live, rows, cols, (n - 1) as nat), rows, cols)
    }
}

/// The wrapped indices of `i` on an axis of length `n`.
fn wrap_index(i: usize, n: usize) -> (w: [usize; 3])
    requires
        i < n,
    ensures
        w@ == wrap3(i, n),
        forall|k: int| 0 <= k < 3 ==> #[trigger] w@[k] < n,
{
    let last = n - 1;
    if i == 0 {
        [last, 0, if last == 0 { 0 } else { 1 }]
    } else if i == last {
        [i - 1, i, 0]
    } else {
        [i - 1, i, i + 1]
    }
}

impl GameOfLife {
    /// The number of rows of the board.
    pub closed spec fn num_rows(&self) -> usize {
        self.rows
    }

    /// The number of columns of the board.
    pub closed spec fn num_cols(&self) -> usize {
        self.cols
    }

    /// The set of live cells, as (row, column) pairs.
    pub closed spec fn live_set(&self) -> Set<(usize, usize)> {
        self.live@
    }

    /// All live cells lie on the board.
    pub open spec fn wf(&self) -> bool {
        within(self.live_set(), self.num_rows(), self.num_cols())
    }

    /// The wrapped row indices around `r` and column indices around `c`.
    pub fn range_wrap(&self, r: usize, c: usize) -> (w: ([usize; 3], [usize; 3]))
        requires
            r < self.num_rows(),
            c < self.num_cols(),
        ensures
            w.0@ == wrap3(r, self.num_rows()),
            w.1@ == wrap3(c, self.num_cols()),
            forall|k: int| 0 <= k < 3 ==> #[trigger] w.0@[k] < self.num_rows(),
            forall|k: int| 0 <= k < 3 ==> #[trigger] w.1@[k] < self.num_cols(),
    {
        (wrap_index(r, self.rows), wrap_index(c, self.cols))
    }

    /// A game in which each cell of a `rows` by `cols` board is live with
    /// probability one in ten, independently of the others.
    pub fn random(rows: usize, cols: usize) -> (g: GameOfLife)
        ensures
            g.wf(),
            within(g.live_set(), rows, cols),
            g.num_rows() == rows,
            g.num_cols() == cols,
    {
        let mut draws: Vec<Vec<u32>> = Vec::new();
        for r in 0..rows
            invariant
                draws.len() == r,
                forall|i: int| 0 <= i < r ==> #[trigger] draws@[i].len() == cols,
        {
            let mut row: Vec<u32> = Vec::new();
            for c in 0..cols
                invariant
                    row.len() == c,
            {
                row.push(draw_tenth());
            }
            draws.push(row);
        }
        Self::from_draws(rows, cols, &draws)
    }

    /// A game whose live cells are those whose draw, `draws[r][c]` for the
    /// cell at row `r` and column `c`, equals `ALIVE_DRAW`.
    pub fn from_draws(rows: usize, cols: usize, draws: &Vec<Vec<u32>>) -> (g: GameOfLife)
        requires
            draws.len() == rows,
            forall|i: int| 0 <= i < rows ==> #[trigger] draws@[i].len() == cols,
        ensures
            g.wf(),
            within(g.live_set(), rows, cols),
            g.num_rows() == rows,
            g.num_cols() == cols,
            g.live_set() == drawn_live(draws@, rows, cols),
    {
        let mut live: BTreeSet<(usize, usize)> = BTreeSet::new();
        for r in 0..rows
            invariant
                draws.len() == rows,
                forall|i: int| 0 <= i < rows ==> #[trigger] draws@[i].len() == cols,
                forall|p: (usize, usize)| #[trigger]
                    live@.contains(p) <==> p.0 < r && p.1 < cols && draws@[p.0 as int]@[p.1 as int]
                        == ALIVE_DRAW,
        {
            for c in 0..cols
                invariant
                    r < rows,
                    draws.len() == rows,
                    forall|i: int| 0 <= i < rows ==> #[trigger] draws@[i].len() == cols,
                    forall|p: (usize, usize)| #[trigger]
                        live@.contains(p) <==> (p.0 < r || (p.0 == r && p.1 < c)) && p.1 < cols
                            && draws@[p.0 as int]@[p.1 as int] == ALIVE_DRAW,
            {
                assert(draws@[r as int].len() == cols);
                if draws[r][c] == ALIVE_DRAW {
                    live.insert((r, c));
                }
            }
        }
        proof {
            assert(live@ =~= drawn_live(draws@, rows, cols));
        }
        GameOfLife { rows, cols, live }
    }

    /// A game on a `rows` by `cols` board from a pattern text, centred on the
    /// board. The text starts with `chars` or `coords` to name its format.
    pub fn from_pattern(text: &str, rows: usize, cols: usize) -> (r: Result<
        GameOfLife,
        PatternError,
    >)
        ensures
            match r {
                Ok(g) => {
                    &&& pattern_cells(text@) is Ok
                    &&& fits(pattern_cells(text@)->Ok_0, rows as nat, cols as nat)
                    &&& g.wf()
                    &&& g.num_rows() == rows
                    &&& g.num_cols() == cols
                    &&& g.live_set() == centered(pattern_cells(text@)->Ok_0, rows as nat, cols as nat)
                },
                Err(e) => match pattern_cells(text@) {
                    Err(e2) => e == e2,
                    Ok(p) => e == PatternError::TooLarge && !fits(p, rows as nat, cols as nat),
                },
            },
    {
        let s = chars_of(text);
        let cells = match pattern_format(&s) {
            None => return Err(PatternError::UnknownFormat),
            Some(PatternFormat::Chars) => match parse_chars(&s) {
                None => return Err(PatternError::MissingGlyphs),
                Some(v) => {
                    if !pattern_fits(&v, rows, cols) {
                        return Err(PatternError::TooLarge);
                    }
                    v
                },
            },
            Some(PatternFormat::Coords) => match parse_coords(&s, rows, cols) {
                Err(e) => return Err(e),
                Ok(v) => v,
            },
        };
        let live = Self::center_pattern(&cells, rows, cols);
        Ok(GameOfLife { rows, cols, live })
    }

    /// The pattern moved towards the middle of a `rows` by `cols` board, by
    /// half the room that its largest row and column leave (rounded down).
    pub fn center_pattern(pattern: &Vec<(usize, usize)>, rows: usize, cols: usize) -> (r: BTreeSet<
        (usize, usize),
    >)
        requires
            fits(nat_pairs(pattern@), rows as nat, cols as nat),
        ensures
            r@ == centered(nat_pairs(pattern@), rows as nat, cols as nat),
            within(r@, rows, cols),
    {
        let ghost p = nat_pairs(pattern@);
        let mut max_r: usize = 0;
        let mut max_c: usize = 0;
        for i in 0..pattern.len()
            invariant
                p == nat_pairs(pattern@),
                max_r == max_row(p.take(i as int)),
                max_c == max_col(p.take(i as int)),
        {
            proof {
                assert(p.take(i + 1).drop_last() =~= p.take(i as int));
                assert(p.take(i + 1).last() == p[i as int]);
            }
            if pattern[i].0 > max_r {
                max_r = pattern[i].0;
            }
            if pattern[i].1 > max_c {
                max_c = pattern[i].1;
            }
        }
        proof {
            assert(p.take(pattern.len() as int) =~= p);
            lemma_max_bounds(p, rows as nat, cols as nat);
        }
        let r_shift = (rows - max_r) / 2;
        let c_shift = (cols - max_c) / 2;
        let mut out: BTreeSet<(usize, usize)> = BTreeSet::new();
        for i in 0..pattern.len()
            invariant
                p == nat_pairs(pattern@),
                fits(p, rows as nat, cols as nat),
                max_r == max_row(p),
                max_c == max_col(p),
                p.len() > 0 ==> max_r < rows && max_c < cols,
                r_shift == (rows - max_r) / 2,
                c_shift == (cols - max_c) / 2,
                forall|j: int| 0 <= j < p.len() ==> #[trigger] p[j].0 <= max_r && p[j].1 <= max_c,
                forall|q: (usize, usize)| #[trigger]
                    out@.contains(q) <==> exists|j: int|
                        0 <= j < i && q.0 == #[trigger] p[j].0 + r_shift && q.1 == p[j].1 + c_shift,
                within(out@, rows, cols),
        {
            let ghost cell = p[i as int];
            assert(cell.0 <= max_r && cell.1 <= max_c);
            let r = pattern[i].0 + r_shift;
            let c = pattern[i].1 + c_shift;
            out.insert((r, c));
        }
        proof {
            assert(out@ =~= centered(p, rows as nat, cols as nat));
        }
        out
    }

    /// The live cells, each once, in no particular order.
    pub fn live_cells(&self) -> (v: Vec<Cell>)
        ensures
            cell_pairs(v@).to_set() == self.live_set(),
            cell_pairs(v@).no_duplicates(),
    {
        let mut v: Vec<Cell> = Vec::new();
        let cells = self.live.iter();
        let ghost order = cells.remaining().unref();
        let ghost mut done: int = 0;
        for cell in it: cells
            invariant
                it.seq().unref() == order,
                done == it.index(),
                cell_pairs(v@) == order.take(done),
        {
            proof {
                assert(it.seq().unref()[done] == *it.seq()[done]);
            }
            let ghost before = v@;
            assert(*cell == order[done]);
            v.push(Cell { r: cell.0, c: cell.1 });
            proof {
                assert(v@ == before.push(Cell { r: cell.0, c: cell.1 }));
                assert(cell_pairs(v@) =~= cell_pairs(before).push(*cell));
                assert(cell_pairs(v@) =~= order.take(done + 1));
                done = done + 1;
            }
        }
        proof {
            assert(order.take(done) =~= order);
        }
        v
    }

    /// The number of rows and of columns of the board.
    pub fn dimensions(&self) -> (d: (usize, usize))
        ensures
            d == (self.num_rows(), self.num_cols()),
    {
        (self.rows, self.cols)
    }

    /// The board drawn as text: one line per row, a full block for each live
    /// cell and a space for each dead one.
    pub fn to_string(&self) -> (t: String)
        ensures
            t@ == board_text(self.live_set(), self.num_cols(), self.num_rows() as nat),
    {
        let mut out = String::new();
        for r in 0..self.rows
            invariant
                out@ == board_text(self.live_set(), self.cols, r as nat),
        {
            let ghost before = out@;
            if r > 0 {
                proof {
                    reveal_strlit("\n");
                }
                out.append("\n");
            }
            let ghost lead = out@;
            for c in 0..self.cols
                invariant
                    r < self.rows,
                    out@ == lead + row_text(self.live_set(), r, self.cols).take(c as int),
            {
                proof {
                    reveal_strlit("█");
                    reveal_strlit(" ");
                }
                if self.is_live(&Cell { r, c }) {
                    out.append("█");
                } else {
                    out.append(" ");
                }
                proof {
                    assert(out@ =~= lead + row_text(self.live_set(), r, self.cols).take(c + 1));
                }
            }
            proof {
                assert(row_text(self.live_set(), r, self.cols).take(self.cols as int) =~= row_text(
                    self.live_set(),
                    r,
                    self.cols,
                ));
                if r == 0 {
                    assert(out@ =~= board_text(self.live_set(), self.cols, 1));
                } else {
                    assert(lead == before + seq!['\n']);
                    assert(out@ =~= board_text(self.live_set(), self.cols, (r + 1) as nat));
                }
            }
        }
        out
    }

    /// Advances the game by one generation: every cell on the board becomes
    /// live or dead by Conway's rule.
    pub fn step(&mut self)
        requires
            old(self).wf(),
        ensures
            final(self).wf(),
            final(self).num_rows() == old(self).num_rows(),
            final(self).num_cols() == old(self).num_cols(),
            final(self).live_set() == next_generation(
                old(self).live_set(),
                old(self).num_rows(),
                old(self).num_cols(),
            ),
    {
        let ghost live = self.live_set();
        let ghost rows = self.rows;
        let ghost cols = self.cols;
        let mut next_live: BTreeSet<(usize, usize)> = BTreeSet::new();
        let mut dead_memo: BTreeSet<(usize, usize)> = BTreeSet::new();
        let cells = self.live.iter();
        let ghost order = cells.remaining().unref();
        let ghost mut done: int = 0;
        proof {
            assert(order.to_set() == live);
        }
        for cell in it: cells
            invariant
                it.seq().unref() == order,
                done == it.index(),
                order.to_set() == live,
                self.rows == rows && self.cols == cols && self.live_set() == live,
                self.wf(),
                forall|q: (usize, usize)| #[trigger]
                    dead_memo@.contains(q) ==> q.0 < rows && q.1 < cols && !live.contains(q),
                forall|j: int, q: (usize, usize)|
                    0 <= j < done && #[trigger] is_neighbor(rows, cols, order[j], q)
                        && !live.contains(q) ==> dead_memo@.contains(q),
                forall|q: (usize, usize)| #[trigger]
                    next_live@.contains(q) <==> ((exists|j: int|
                        0 <= j < done && order[j] == q) && alive_next(live, rows, cols, q))
                        || (dead_memo@.contains(q) && live_neighbors(live, rows, cols, q) == 3),
        {
            let ghost idx = it.index();
            proof {
                assert(it.seq().unref()[idx] == *it.seq()[idx]);
                assert(it.seq().unref().to_set().contains(*it.seq()[idx]));
            }
            let cell = Cell { r: cell.0, c: cell.1 };
            let ghost p = (cell.r, cell.c);
            assert forall|q: (usize, usize)| #[trigger]
                is_neighbor(rows, cols, p, q) implies q.0 < rows && q.1 < cols by {
                lemma_wrap_symmetric(p.0, q.0, rows);
                lemma_wrap_symmetric(p.1, q.1, cols);
            }
            self.scan_live(&cell, &mut next_live, &mut dead_memo);
            proof {
                done = done + 1;
            }
        }
        assert(done == order.len());
        proof {
            assert forall|q: (usize, usize)|
                next_live@.contains(q) <==> next_generation(live, rows, cols).contains(q) by {
                if q.0 < rows && q.1 < cols && alive_next(live, rows, cols, q) {
                    if live.contains(q) {
                        assert(order.to_set().contains(q));
                        let j = choose|j: int| 0 <= j < order.len() && order[j] == q;
                        assert(order[j] == q);
                    } else {
                        lemma_counted_has_live_neighbor(live, rows, cols, q, 9);
                        let l = choose|l: (usize, usize)|
                            live.contains(l) && #[trigger] is_neighbor(rows, cols, l, q);
                        assert(order.to_set().contains(l));
                        let j = choose|j: int| 0 <= j < order.len() && order[j] == l;
                        assert(order[j] == l);
                        assert(is_neighbor(rows, cols, order[j], q));
                    }
                }
            }
            assert(next_live@ =~= next_generation(live, rows, cols));
        }
        self.live = next_live;
    }

    /// Advances the game by `n` generations.
    pub fn advance(&mut self, n: usize)
        requires
            old(self).wf(),
        ensures
            final(self).wf(),
            final(self).num_rows() == old(self).num_rows(),
            final(self).num_cols() == old(self).num_cols(),
            final(self).live_set() == generations(
                old(self).live_set(),
                old(self).num_rows(),
                old(self).num_cols(),
                n as nat,
            ),
    {
        let ghost start = self.live_set();
        for i in 0..n
            invariant
                self.wf(),
                self.rows == old(self).rows,
                self.cols == old(self).cols,
                start == old(self).live_set(),
                self.live_set() == generations(start, self.rows, self.cols, i as nat),
        {
            self.step();
        }
    }

    /// Decides the fate of the dead cell `cell`: it is added to `next_live`
    /// when exactly three of its neighbours are live.
    pub fn scan_dead(&self, cell: &Cell, next_live: &mut BTreeSet<(usize, usize)>)
        requires
            cell.r < self.num_rows(),
            cell.c < self.num_cols(),
        ensures
            final(next_live)@ == if live_neighbors(
                self.live_set(),
                self.num_rows(),
                self.num_cols(),
                (cell.r, cell.c),
            ) == 3 {
                old(next_live)@.insert((cell.r, cell.c))
            } else {
                old(next_live)@
            },
    {
        let ghost p = (cell.r, cell.c);
        let (rows_around, cols_around) = self.range_wrap(cell.r, cell.c);
        let mut count: usize = 0;
        for k in 0..9usize
            invariant
                p == (cell.r, cell.c),
                rows_around@ == wrap3(cell.r, self.rows),
                cols_around@ == wrap3(cell.c, self.cols),
                count == live_around(self.live_set(), self.rows, self.cols, p, k as nat),
                count <= k,
        {
            let neighbor = Cell { r: rows_around[k / 3], c: cols_around[k % 3] };
            if neighbor != *cell && self.is_live(&neighbor) {
                count = count + 1;
            }
        }
        if count == 3 {
            next_live.insert((cell.r, cell.c));
        }
    }

    /// Counts the live neighbours of the live cell `cell`, keeps it in
    /// `next_live` when two or three are live, and decides each dead neighbour
    /// that `dead_memo` does not hold yet, recording it there.
    pub fn scan_live(
        &self,
        cell: &Cell,
        next_live: &mut BTreeSet<(usize, usize)>,
        dead_memo: &mut BTreeSet<(usize, usize)>,
    )
        requires
            self.live_set().contains((cell.r, cell.c)),
            cell.r < self.num_rows(),
            cell.c < self.num_cols(),
        ensures
            forall|q: (usize, usize)| #[trigger]
                final(dead_memo)@.contains(q) <==> {
                    ||| old(dead_memo)@.contains(q)
                    ||| dead_neighbor(self.live_set(), self.num_rows(), self.num_cols(), (cell.r, cell.c), q)
                },
            forall|q: (usize, usize)| #[trigger]
                final(next_live)@.contains(q) <==> {
                    ||| old(next_live)@.contains(q)
                    ||| q == (cell.r, cell.c) && alive_next(self.live_set(), self.num_rows(), self.num_cols(), q)
                    ||| !old(dead_memo)@.contains(q) && dead_neighbor(
                        self.live_set(),
                        self.num_rows(),
                        self.num_cols(),
                        (cell.r, cell.c),
                        q,
                    ) && alive_next(self.live_set(), self.num_rows(), self.num_cols(), q)
                },
    {
        let ghost p = (cell.r, cell.c);
        let ghost live = self.live_set();
        let ghost memo0 = dead_memo@;
        let ghost next0 = next_live@;
        let (rows_around, cols_around) = self.range_wrap(cell.r, cell.c);
        let mut count: usize = 0;
        for k in 0..9usize
            invariant
                p == (cell.r, cell.c),
                rows_around@ == wrap3(cell.r, self.rows),
                cols_around@ == wrap3(cell.c, self.cols),
                live == self.live_set(),
                forall|j: int| 0 <= j < 3 ==> #[trigger] rows_around@[j] < self.rows,
                forall|j: int| 0 <= j < 3 ==> #[trigger] cols_around@[j] < self.cols,
                count == live_around(live, self.rows, self.cols, p, k as nat),
                count <= k,
                forall|q: (usize, usize)| #[trigger]
                    dead_memo@.contains(q) <==> memo0.contains(q) || (among_first(
                        self.rows,
                        self.cols,
                        p,
                        q,
                        k as int,
                    ) && q != p && !live.contains(q)),
                forall|q: (usize, usize)| #[trigger]
                    next_live@.contains(q) <==> next0.contains(q) || (!memo0.contains(q)
                        && among_first(self.rows, self.cols, p, q, k as int) && q != p
                        && !live.contains(q) && live_neighbors(live, self.rows, self.cols, q) == 3),
        {
            let neighbor = Cell { r: rows_around[k / 3], c: cols_around[k % 3] };
            let ghost q = (neighbor.r, neighbor.c);
            assert(around(self.rows, self.cols, p, k as int) == q);
            if neighbor != *cell {
                if self.is_live(&neighbor) {
                    count = count + 1;
                } else if !dead_memo.contains(&(neighbor.r, neighbor.c)) {
                    self.scan_dead(&neighbor, next_live);
                    dead_memo.insert((neighbor.r, neighbor.c));
                }
            }
            assert forall|x: (usize, usize)|
                among_first(self.rows, self.cols, p, x, k + 1) <==> among_first(
                    self.rows,
                    self.cols,
                    p,
                    x,
                    k as int,
                ) || x == q by {
                if among_first(self.rows, self.cols, p, x, k + 1) && x != q {
                    let j = choose|j: int|
                        0 <= j < k + 1 && #[trigger] around(self.rows, self.cols, p, j) == x;
                    assert(j < k);
                }
            }
        }
        assert forall|q: (usize, usize)|
            is_neighbor(self.rows, self.cols, p, q) <==> (among_first(self.rows, self.cols, p, q, 9)
                && q != p) by {
            lemma_around_is_neighbor(self.rows, self.cols, p, q);
        }
        if count == 2 || count == 3 {
            next_live.insert((cell.r, cell.c));
        }
    }

    /// Whether `cell` is live.
    pub fn is_live(&self, cell: &Cell) -> (b: bool)
        ensures
            b == self.live_set().contains((cell.r, cell.c)),
    {
        self.live.contains(&(cell.r, cell.c))
    }
}

} // verus!
