//! The mathematical model of the automaton: the board as a grid of booleans,
//! toroidal neighbourhoods, the birth/survival rule, one generation, and the
//! frontier of cells that may change.
use vstd::arithmetic::div_mod::{
    lemma_fundamental_div_mod_converse, lemma_mod_self_0, lemma_small_mod,
};
use vstd::prelude::*;

verus! {

/// A board as a value: its dimensions and its cells in row-major order.
pub struct Grid {
    pub width: nat,
    pub height: nat,
    pub cells: Seq<bool>,
}

impl Grid {
    /// Exactly one cell per coordinate.
    pub open spec fn wf(self) -> bool {
        self.cells.len() == self.width * self.height
    }

    pub open spec fn size(self) -> int {
        (self.width * self.height) as int
    }

    pub open spec fn index(self, x: int, y: int) -> int {
        y * self.width + x
    }

    pub open spec fn alive(self, x: int, y: int) -> bool {
        self.cells[self.index(x, y)]
    }
}

/// Horizontal offset of the `k`-th of the eight Moore directions.
pub open spec fn dir_x(k: int) -> int {
    if k <= 2 {
        -1
    } else if k <= 4 {
        0
    } else {
        1
    }
}

/// Vertical offset of the `k`-th of the eight Moore directions.
pub open spec fn dir_y(k: int) -> int {
    if k == 0 || k == 3 || k == 5 {
        -1
    } else if k == 1 || k == 6 {
        0
    } else {
        1
    }
}

/// The direction opposite to the `k`-th one.
pub open spec fn opposite(k: int) -> int {
    7 - k
}

/// Toroidal wrap of a coordinate into `[0, d)`.
pub open spec fn wrap(v: int, d: nat) -> int {
    v % (d as int)
}

/// Index of the `k`-th neighbour of the cell at index `c` on a `w` by `h` torus.
pub open spec fn neighbor_index(w: nat, h: nat, c: int, k: int) -> int {
    wrap(c / (w as int) + dir_y(k), h) * w + wrap(c % (w as int) + dir_x(k), w)
}

/// Cell `i` lies in the Moore neighbourhood of cell `c`, `c` itself included.
pub open spec fn covers(w: nat, h: nat, c: int, i: int) -> bool {
    i == c || exists|k: int| 0 <= k < 8 && i == #[trigger] neighbor_index(w, h, c, k)
}

/// Live cells among the neighbours `k..8` of `(x, y)`.
pub open spec fn count_from(g: Grid, x: int, y: int, k: int) -> int
    decreases 8 - k,
{
    if k >= 8 {
        0
    } else {
        (if g.alive(wrap(x + dir_x(k), g.width), wrap(y + dir_y(k), g.height)) {
            1int
        } else {
            0int
        }) + count_from(g, x, y, k + 1)
    }
}

/// Live cells among the eight toroidal neighbours of `(x, y)`.
pub open spec fn live_neighbors(g: Grid, x: int, y: int) -> int {
    count_from(g, x, y, 0)
}

/// The birth/survival rule: born with three live neighbours, survives with two or three.
pub open spec fn rule(alive: bool, n: int) -> bool {
    if alive {
        n == 2 || n == 3
    } else {
        n == 3
    }
}

/// The next state of the cell at index `i`.
pub open spec fn next_cell(g: Grid, i: int) -> bool {
    rule(g.cells[i], live_neighbors(g, i % (g.width as int), i / (g.width as int)))
}

/// One generation computed over every cell.
pub open spec fn step(g: Grid) -> Grid {
    Grid { width: g.width, height: g.height, cells: Seq::new(g.cells.len(), |i: int| next_cell(g, i)) }
}

/// One generation computed over the cells of `f` only; every other cell is dead.
pub open spec fn step_within(g: Grid, f: Set<int>) -> Grid {
    Grid {
        width: g.width,
        height: g.height,
        cells: Seq::new(g.cells.len(), |i: int| f.contains(i) && next_cell(g, i)),
    }
}

/// Every live cell together with its eight neighbours.
pub open spec fn frontier_of(g: Grid) -> Set<int> {
    Set::new(
        |i: int|
            0 <= i < g.size() && exists|c: int|
                0 <= c < g.size() && #[trigger] g.cells[c] && covers(g.width, g.height, c, i),
    )
}

/// Row-major coordinates of an index.
pub proof fn lemma_index_coords(w: nat, h: nat, x: int, y: int)
    requires
        0 <= x < w,
        0 <= y < h,
    ensures
        0 <= y * w + x < w * h,
        (y * w + x) % (w as int) == x,
        (y * w + x) / (w as int) == y,
{
    lemma_fundamental_div_mod_converse(y * w + x, w as int, y, x);
    assert(y * w + x < w * h) by (nonlinear_arith)
        requires
            0 <= x < w,
            0 <= y < h,
    ;
    assert(0 <= y * w) by (nonlinear_arith)
        requires
            0 <= y,
    ;
}

/// An index in range splits into coordinates in range.
pub proof fn lemma_coords_of_index(w: nat, h: nat, i: int)
    requires
        0 <= i < w * h,
    ensures
        0 <= i % (w as int) < w,
        0 <= i / (w as int) < h,
        (i / (w as int)) * w + i % (w as int) == i,
{
    assert(w > 0) by (nonlinear_arith)
        requires
            0 <= i < w * h,
    ;
    vstd::arithmetic::div_mod::lemma_fundamental_div_mod(i, w as int);
    assert(i / (w as int) < h) by (nonlinear_arith)
        requires
            0 <= i < w * h,
            w > 0,
            i == (w as int) * (i / (w as int)) + i % (w as int),
            0 <= i % (w as int),
    ;
    assert(0 <= i / (w as int)) by (nonlinear_arith)
        requires
            0 <= i,
            w > 0,
    ;
    vstd::arithmetic::mul::lemma_mul_is_commutative(w as int, i / (w as int));
}

/// Stepping one cell in a direction on a torus of size `d`, written by cases.
pub proof fn lemma_wrap_step(v: int, s: int, d: nat)
    requires
        0 <= v < d,
        -1 <= s <= 1,
    ensures
        wrap(v + s, d) == (if s == -1 {
            if v == 0 {
                d - 1
            } else {
                v - 1
            }
        } else if s == 1 {
            if v + 1 == d {
                0
            } else {
                v + 1
            }
        } else {
            v
        }),
        0 <= wrap(v + s, d) < d,
{
    let di = d as int;
    if s == -1 && v == 0 {
        lemma_fundamental_div_mod_converse(-1, di, -1, di - 1);
    } else if s == 1 && v + 1 == d {
        lemma_mod_self_0(di);
    } else {
        lemma_small_mod((v + s) as nat, d);
    }
}

/// Stepping in a direction and back returns to the start.
pub proof fn lemma_wrap_back(v: int, s: int, d: nat)
    requires
        0 <= v < d,
        -1 <= s <= 1,
    ensures
        wrap(wrap(v + s, d) - s, d) == v,
{
    lemma_wrap_step(v, s, d);
    lemma_wrap_step(wrap(v + s, d), -s, d);
}

/// The neighbourhood relation is symmetric: the `k`-th neighbour of `c` has
/// `c` as its opposite neighbour.
pub proof fn lemma_neighbor_symmetric(w: nat, h: nat, c: int, k: int)
    requires
        0 <= c < w * h,
        0 <= k < 8,
    ensures
        0 <= neighbor_index(w, h, c, k) < w * h,
        neighbor_index(w, h, neighbor_index(w, h, c, k), opposite(k)) == c,
{
    lemma_coords_of_index(w, h, c);
    let x = c % (w as int);
    let y = c / (w as int);
    let nx = wrap(x + dir_x(k), w);
    let ny = wrap(y + dir_y(k), h);
    lemma_wrap_step(x, dir_x(k), w);
    lemma_wrap_step(y, dir_y(k), h);
    lemma_index_coords(w, h, nx, ny);
    lemma_wrap_back(x, dir_x(k), w);
    lemma_wrap_back(y, dir_y(k), h);
    assert(dir_x(opposite(k)) == -dir_x(k));
    assert(dir_y(opposite(k)) == -dir_y(k));
}

/// A cell outside the frontier is dead and has no live neighbour.
pub proof fn lemma_outside_frontier_quiet(g: Grid, i: int)
    requires
        g.wf(),
        0 <= i < g.size(),
        !frontier_of(g).contains(i),
    ensures
        !g.cells[i],
        live_neighbors(g, i % (g.width as int), i / (g.width as int)) == 0,
{
    let w = g.width;
    let h = g.height;
    assert(covers(w, h, i, i));
    lemma_coords_of_index(w, h, i);
    let x = i % (w as int);
    let y = i / (w as int);
    assert forall|k: int| 0 <= k < 8 implies !g.alive(
        wrap(x + dir_x(k), w),
        wrap(y + dir_y(k), h),
    ) by {
        let j = neighbor_index(w, h, i, k);
        lemma_neighbor_symmetric(w, h, i, k);
        assert(g.index(wrap(x + dir_x(k), w), wrap(y + dir_y(k), h)) == j);
        if g.cells[j] {
            assert(i == neighbor_index(w, h, j, opposite(k)));
            assert(covers(w, h, j, i));
            assert(frontier_of(g).contains(i));
        }
    }
    lemma_count_zero(g, x, y, 0);
}

proof fn lemma_count_zero(g: Grid, x: int, y: int, k: int)
    requires
        0 <= k <= 8,
        forall|j: int|
            k <= j < 8 ==> !g.alive(wrap(x + dir_x(j), g.width), wrap(y + dir_y(j), g.height)),
    ensures
        count_from(g, x, y, k) == 0,
    decreases 8 - k,
{
    if k < 8 {
        lemma_count_zero(g, x, y, k + 1);
    }
}

/// Stepping only the frontier gives the same board as stepping every cell:
/// a cell outside the frontier is dead and stays dead.
pub proof fn lemma_frontier_step_is_full_step(g: Grid)
    requires
        g.wf(),
    ensures
        step_within(g, frontier_of(g)) == step(g),
{
    assert forall|i: int| 0 <= i < g.cells.len() implies (frontier_of(g).contains(i) && next_cell(g, i))
        == next_cell(g, i) by {
        if !frontier_of(g).contains(i) {
            lemma_outside_frontier_quiet(g, i);
        }
    }
    assert(step_within(g, frontier_of(g)).cells =~= step(g).cells);
}

/// `k` generations, each computed over every cell.
pub open spec fn run_full(g: Grid, k: nat) -> Grid
    decreases k,
{
    if k == 0 {
        g
    } else {
        step(run_full(g, (k - 1) as nat))
    }
}

/// `k` generations, each computed over the frontier of the board before it.
pub open spec fn run_frontier(g: Grid, k: nat) -> Grid
    decreases k,
{
    if k == 0 {
        g
    } else {
        let p = run_frontier(g, (k - 1) as nat);
        step_within(p, frontier_of(p))
    }
}

/// Advancing over the frontier and advancing over every cell give the same
/// board at every generation.
pub proof fn lemma_frontier_run_is_full_run(g: Grid, k: nat)
    requires
        g.wf(),
    ensures
        run_frontier(g, k) == run_full(g, k),
        run_full(g, k).wf(),
    decreases k,
{
    if k > 0 {
        lemma_frontier_run_is_full_run(g, (k - 1) as nat);
        let p = run_full(g, (k - 1) as nat);
        lemma_frontier_step_is_full_step(p);
    }
}

/// The rule of one cell.
pub fn next_state(alive: bool, live_neighbor_count: u32) -> (r: bool)
    ensures
        r == rule(alive, live_neighbor_count as int),
{
    if alive {
        live_neighbor_count == 2 || live_neighbor_count == 3
    } else {
        live_neighbor_count == 3
    }
}

} // verus!
