//! The simulation: cells, the board that holds them, and the game that
//! advances the board generation by generation over a frontier of active cells.
use crate::life::{
    covers, dir_x, dir_y, frontier_of, lemma_coords_of_index, lemma_frontier_step_is_full_step,
    lemma_index_coords, lemma_wrap_step, live_neighbors, count_from, neighbor_index, next_cell,
    next_state, step, step_within, wrap, Grid,
};
use crate::sources::{
    bitmap_dims, bitmap_pixels, draw_entropy, draw_seeded, image_height, image_pixel, image_width,
    seeded_draws,
};
use vstd::prelude::*;

verus! {

/// A position on the board.
#[derive(Hash, PartialEq, Eq, Structural, Debug, Clone, Copy)]
pub struct Point2D {
    x: i32,
    y: i32,
}

impl View for Point2D {
    type V = (i32, i32);

    closed spec fn view(&self) -> (i32, i32) {
        (self.x, self.y)
    }
}

impl Point2D {
    /// Points with the same coordinates are equal.
    pub proof fn lemma_view_eq(a: Point2D, b: Point2D)
        ensures
            a@ == b@ <==> a == b,
    {
    }

    pub fn new(x: i32, y: i32) -> (r: Self)
        ensures
            r@ == (x, y),
    {
        Point2D { x, y }
    }
}

/// A cell: where it stands and whether it is alive.
#[derive(Hash, PartialEq, Eq, Structural, Debug, Clone, Copy)]
pub struct Cell {
    location: Point2D,
    state: bool,
}

impl View for Cell {
    type V = (Point2D, bool);

    /// Its position, and whether it is alive.
    closed spec fn view(&self) -> (Point2D, bool) {
        (self.location, self.state)
    }
}

impl Cell {
    /// Cells with the same position and state are equal.
    pub proof fn lemma_view_eq(a: Cell, b: Cell)
        ensures
            a@ == b@ <==> a == b,
    {
    }

    pub fn new(location: Point2D, alive: bool) -> (r: Self)
        ensures
            r@ == (location, alive),
    {
        Cell { location, state: alive }
    }

    pub fn new_alive(location: Point2D) -> (r: Self)
        ensures
            r@ == (location, true),
    {
        Cell { location, state: true }
    }

    pub fn new_dead(location: Point2D) -> (r: Self)
        ensures
            r@ == (location, false),
    {
        Cell { location, state: false }
    }

    pub fn is_alive(&self) -> (r: bool)
        ensures
            r == self@.1,
    {
        self.state
    }

    pub fn set_state(&mut self, state: bool)
        ensures
            final(self)@ == (old(self)@.0, state),
    {
        self.state = state;
    }
}

/// The position that the cell at row-major index `i` of a board `w` wide holds.
spec fn location_at(w: int, i: int) -> Point2D {
    Point2D { x: (i % w) as i32, y: (i / w) as i32 }
}

/// Why a board could not be built.
#[derive(PartialEq, Eq, Structural, Debug, Clone, Copy)]
pub enum GridError {
    /// A side is zero where a non-empty board is needed, or the cell count
    /// does not fit in memory.
    InvalidDimensions,
    /// The mask's rows or columns differ from the requested dimensions.
    DimensionMismatch,
    /// The live ratio is not a probability: a zero denominator, or a
    /// numerator above it.
    InvalidProbability,
}

/// A board of `width * height` cells in row-major order.
pub struct Board {
    width: usize,
    height: usize,
    data: Vec<Cell>,
}

impl View for Board {
    type V = Grid;

    closed spec fn view(&self) -> Grid {
        Grid {
            width: self.width as nat,
            height: self.height as nat,
            cells: self.data@.map_values(|c: Cell| c.state),
        }
    }
}

impl Board {
    /// One cell per coordinate, each cell holding its own position.
    pub closed spec fn wf(&self) -> bool {
        &&& self.data@.len() == self.width * self.height
        &&& self.width * self.height <= usize::MAX
        &&& forall|i: int|
            0 <= i < self.data@.len() ==> #[trigger] self.data@[i].location == location_at(
                self.width as int,
                i,
            )
    }

    /// A well-formed board has one cell per coordinate.
    pub proof fn lemma_wf_view(&self)
        requires
            self.wf(),
        ensures
            self@.wf(),
    {
    }

    /// A board whose every cell is `default`.
    pub fn new(width: usize, height: usize, default: bool) -> (r: Self)
        requires
            width * height <= usize::MAX,
        ensures
            r.wf(),
            r@.width == width,
            r@.height == height,
            r@.cells == Seq::new((width * height) as nat, |i: int| default),
    {
        let mut cells: Vec<Cell> = Vec::new();
        let mut i: usize = 0;
        while i < height
            invariant
                i <= height,
                width * height <= usize::MAX,
                cells@.len() == i * width,
                forall|p: int| 0 <= p < cells@.len() ==> #[trigger] cells@[p] == (Cell {
                    location: location_at(width as int, p),
                    state: default,
                }),
            decreases height - i,
        {
            let mut j: usize = 0;
            while j < width
                invariant
                    i < height,
                    j <= width,
                    width * height <= usize::MAX,
                    cells@.len() == i * width + j,
                    forall|p: int| 0 <= p < cells@.len() ==> #[trigger] cells@[p] == (Cell {
                        location: location_at(width as int, p),
                        state: default,
                    }),
                decreases width - j,
            {
                proof {
                    lemma_index_coords(width as nat, height as nat, j as int, i as int);
                }
                let location = Point2D { x: #[verifier::truncate] (j as i32), y: #[verifier::truncate] (i as i32) };
                cells.push(Cell { location, state: default });
                j += 1;
            }
            proof {
                assert((i + 1) * width == i * width + width) by (nonlinear_arith);
            }
            i += 1;
        }
        let r = Board { width, height, data: cells };
        proof {
            assert(height * width == width * height) by (nonlinear_arith);
            assert(r@.cells =~= Seq::new((width * height) as nat, |i: int| default));
        }
        r
    }

    pub fn get_height(&self) -> (r: usize)
        ensures
            r == self@.height,
    {
        self.height
    }

    pub fn get_width(&self) -> (r: usize)
        ensures
            r == self@.width,
    {
        self.width
    }

    /// The cell at `(x, y)`.
    pub fn get(&self, x: usize, y: usize) -> (r: Cell)
        requires
            self.wf(),
            x < self@.width,
            y < self@.height,
        ensures
            r@.1 == self@.alive(x as int, y as int),
            r@.0@ == (x as i32, y as i32),
    {
        proof {
            lemma_index_coords(self.width as nat, self.height as nat, x as int, y as int);
        }
        self.data[y * self.width + x]
    }

    /// Sets the state of the cell at `(x, y)`; every other cell is kept.
    pub fn set(&mut self, x: usize, y: usize, state: bool)
        requires
            old(self).wf(),
            x < old(self)@.width,
            y < old(self)@.height,
        ensures
            final(self).wf(),
            final(self)@.width == old(self)@.width,
            final(self)@.height == old(self)@.height,
            final(self)@.cells == old(self)@.cells.update(old(self)@.index(x as int, y as int), state),
    {
        proof {
            lemma_index_coords(self.width as nat, self.height as nat, x as int, y as int);
        }
        let idx = y * self.width + x;
        let mut cell = self.data[idx];
        cell.set_state(state);
        self.data.set(idx, cell);
        proof {
            assert(self@.cells =~= old(self)@.cells.update(old(self)@.index(x as int, y as int), state));
        }
    }
}

/// Whether `numerator / denominator` is a probability.
pub open spec fn valid_ratio(numerator: u32, denominator: u32) -> bool {
    0 < denominator && numerator <= denominator
}

/// Whether a pixel is black, which marks a live cell in a bitmap.
pub open spec fn is_black(p: (u8, u8, u8)) -> bool {
    p.0 == 0 && p.1 == 0 && p.2 == 0
}

impl Board {
    /// A board whose cells are each alive with probability
    /// `numerator / denominator`, drawn from a generator seeded by the
    /// operating system and laid out by `from_cells`; rejects a ratio that is
    /// not a probability.
    pub fn random(width: usize, height: usize, numerator: u32, denominator: u32) -> (r: Result<Board, GridError>)
        requires
            width * height <= usize::MAX,
        ensures
            r is Err <==> !valid_ratio(numerator, denominator),
            r is Err ==> r->Err_0 == GridError::InvalidProbability,
            r is Ok ==> {
                let b = r->Ok_0;
                &&& b.wf()
                &&& b@.width == width
                &&& b@.height == height
                &&& numerator == 0 ==> b@.cells == Seq::new((width * height) as nat, |i: int| false)
                &&& numerator == denominator ==> b@.cells == Seq::new((width * height) as nat, |i: int| true)
            },
    {
        if denominator == 0 || numerator > denominator {
            return Err(GridError::InvalidProbability);
        }
        let cells = draw_entropy(numerator, denominator, width * height);
        let r = Board::from_cells(width, height, cells);
        proof {
            let b = r->Ok_0;
            if numerator == 0 {
                assert(b@.cells =~= Seq::new((width * height) as nat, |i: int| false));
            }
            if numerator == denominator {
                assert(b@.cells =~= Seq::new((width * height) as nat, |i: int| true));
            }
        }
        r
    }

    /// As `random`, drawing from a generator fixed by `seed`: the cells are
    /// the seeded draws in row-major order, so the same seed and ratio give
    /// the same board.
    pub fn random_seeded(
        width: usize,
        height: usize,
        numerator: u32,
        denominator: u32,
        seed: u64,
    ) -> (r: Result<Board, GridError>)
        requires
            width * height <= usize::MAX,
        ensures
            r is Err <==> !valid_ratio(numerator, denominator),
            r is Err ==> r->Err_0 == GridError::InvalidProbability,
            r is Ok ==> {
                let b = r->Ok_0;
                &&& b.wf()
                &&& b@.width == width
                &&& b@.height == height
                &&& b@.cells == seeded_draws(seed, numerator, denominator, (width * height) as nat)
                &&& numerator == 0 ==> b@.cells == Seq::new((width * height) as nat, |i: int| false)
                &&& numerator == denominator ==> b@.cells == Seq::new((width * height) as nat, |i: int| true)
            },
    {
        if denominator == 0 || numerator > denominator {
            return Err(GridError::InvalidProbability);
        }
        let cells = draw_seeded(seed, numerator, denominator, width * height);
        let r = Board::from_cells(width, height, cells);
        proof {
            let b = r->Ok_0;
            if numerator == 0 {
                assert(b@.cells =~= Seq::new((width * height) as nat, |i: int| false));
            }
            if numerator == denominator {
                assert(b@.cells =~= Seq::new((width * height) as nat, |i: int| true));
            }
        }
        r
    }

    /// A board of `width * height` cells given in row-major order, `cells[y *
    /// width + x]` being the cell at `(x, y)`.
    pub fn from_cells(width: usize, height: usize, cells: Vec<bool>) -> (r: Result<Board, GridError>)
        ensures
            r is Err <==> cells@.len() != width * height,
            r is Err ==> r->Err_0 == GridError::DimensionMismatch,
            r is Ok ==> {
                let b = r->Ok_0;
                &&& b.wf()
                &&& b@.width == width
                &&& b@.height == height
                &&& b@.cells == cells@
            },
    {
        let len = cells.len();
        match width.checked_mul(height) {
            None => {
                return Err(GridError::DimensionMismatch);
            },
            Some(n) => {
                if len != n {
                    return Err(GridError::DimensionMismatch);
                }
            },
        }
        let mut data: Vec<Cell> = Vec::new();
        let mut i: usize = 0;
        while i < height
            invariant
                i <= height,
                width * height <= usize::MAX,
                cells@.len() == width * height,
                data@.len() == i * width,
                forall|q: int| 0 <= q < data@.len() ==> #[trigger] data@[q] == (Cell {
                    location: location_at(width as int, q),
                    state: cells@[q],
                }),
            decreases height - i,
        {
            let mut j: usize = 0;
            while j < width
                invariant
                    i < height,
                    j <= width,
                    width * height <= usize::MAX,
                    cells@.len() == width * height,
                    data@.len() == i * width + j,
                    forall|q: int| 0 <= q < data@.len() ==> #[trigger] data@[q] == (Cell {
                        location: location_at(width as int, q),
                        state: cells@[q],
                    }),
                decreases width - j,
            {
                proof {
                    lemma_index_coords(width as nat, height as nat, j as int, i as int);
                }
                let alive = cells[i * width + j];
                let location = Point2D { x: #[verifier::truncate] (j as i32), y: #[verifier::truncate] (i as i32) };
                data.push(Cell { location, state: alive });
                j += 1;
            }
            proof {
                assert((i + 1) * width == i * width + width) by (nonlinear_arith);
            }
            i += 1;
        }
        let r = Board { width, height, data };
        proof {
            assert(height * width == width * height) by (nonlinear_arith);
            assert(r@.cells =~= cells@);
        }
        Ok(r)
    }

    /// A board read from a decoded bitmap: black pixels are live cells.
    /// Fails when the image is empty or has more pixels than a `u32` counts.
    pub fn from_bmp(image: &bmp::Image) -> (r: Result<Board, GridError>)
        ensures
            ({
                let (w, h) = bitmap_dims(*image);
                &&& r is Err <==> (w == 0 || h == 0 || w * h > u32::MAX || w * h > usize::MAX)
                &&& r is Err ==> r->Err_0 == GridError::InvalidDimensions
                &&& r is Ok ==> {
                    let b = r->Ok_0;
                    &&& b.wf()
                    &&& b@.width == w
                    &&& b@.height == h
                    &&& b@.cells == Seq::new((w * h) as nat, |i: int| is_black(bitmap_pixels(*image)[i]))
                }
            }),
    {
        let w = image_width(image);
        let h = image_height(image);
        let width = w as usize;
        let height = h as usize;
        if w == 0 || h == 0 || w.checked_mul(h).is_none() || width.checked_mul(height).is_none() {
            return Err(GridError::InvalidDimensions);
        }
        let ghost pixels = bitmap_pixels(*image);
        let mut cells: Vec<Cell> = Vec::new();
        let mut i: u32 = 0;
        while i < h
            invariant
                i <= h,
                w == bitmap_dims(*image).0,
                h == bitmap_dims(*image).1,
                pixels == bitmap_pixels(*image),
                width == w,
                height == h,
                width * height <= usize::MAX,
                w * h <= u32::MAX,
                cells@.len() == i * width,
                forall|p: int| 0 <= p < cells@.len() ==> #[trigger] cells@[p] == (Cell {
                    location: location_at(width as int, p),
                    state: is_black(pixels[p]),
                }),
            decreases h - i,
        {
            let mut j: u32 = 0;
            while j < w
                invariant
                    i < h,
                    j <= w,
                    w == bitmap_dims(*image).0,
                    h == bitmap_dims(*image).1,
                    pixels == bitmap_pixels(*image),
                    width == w,
                    height == h,
                    width * height <= usize::MAX,
                    w * h <= u32::MAX,
                    cells@.len() == i * width + j,
                    forall|p: int| 0 <= p < cells@.len() ==> #[trigger] cells@[p] == (Cell {
                        location: location_at(width as int, p),
                        state: is_black(pixels[p]),
                    }),
                decreases w - j,
            {
                proof {
                    lemma_index_coords(width as nat, height as nat, j as int, i as int);
                }
                let (r, g, b) = image_pixel(image, j, i);
                let alive = r == 0 && g == 0 && b == 0;
                let location = Point2D { x: #[verifier::truncate] (j as i32), y: #[verifier::truncate] (i as i32) };
                cells.push(Cell { location, state: alive });
                j += 1;
            }
            proof {
                assert((i + 1) * width == i * width + width) by (nonlinear_arith);
            }
            i += 1;
        }
        let r = Board { width, height, data: cells };
        proof {
            assert(height * width == width * height) by (nonlinear_arith);
            assert(r@.cells =~= Seq::new((w * h) as nat, |i: int| is_black(pixels[i])));
        }
        Ok(r)
    }

    /// A board copied from a mask of `height` rows of `width` cells each,
    /// `mask[y][x]` giving the cell at `(x, y)`.
    pub fn from_mask(width: usize, height: usize, mask: &Vec<Vec<bool>>) -> (r: Result<Board, GridError>)
        ensures
            r is Err <==> (width == 0 || height == 0 || !mask_fits(mask@, width as int, height as int)
                || width * height > usize::MAX),
            r is Err ==> r->Err_0 == (if width == 0 || height == 0 || width * height > usize::MAX {
                GridError::InvalidDimensions
            } else {
                GridError::DimensionMismatch
            }),
            r is Ok ==> {
                let b = r->Ok_0;
                &&& b.wf()
                &&& b@.width == width
                &&& b@.height == height
                &&& b@.cells == Seq::new(
                    (width * height) as nat,
                    |i: int| mask@[i / (width as int)]@[i % (width as int)],
                )
            },
    {
        if width == 0 || height == 0 {
            return Err(GridError::InvalidDimensions);
        }
        if width.checked_mul(height).is_none() {
            return Err(GridError::InvalidDimensions);
        }
        if mask.len() != height {
            return Err(GridError::DimensionMismatch);
        }
        let mut k: usize = 0;
        while k < height
            invariant
                k <= height,
                0 < width,
                0 < height,
                width * height <= usize::MAX,
                mask@.len() == height,
                forall|y: int| 0 <= y < k ==> (#[trigger] mask@[y])@.len() == width,
            decreases height - k,
        {
            if mask[k].len() != width {
                return Err(GridError::DimensionMismatch);
            }
            k += 1;
        }
        let mut cells: Vec<Cell> = Vec::new();
        let mut i: usize = 0;
        while i < height
            invariant
                i <= height,
                mask_fits(mask@, width as int, height as int),
                width * height <= usize::MAX,
                cells@.len() == i * width,
                forall|p: int| 0 <= p < cells@.len() ==> #[trigger] cells@[p] == (Cell {
                    location: location_at(width as int, p),
                    state: mask@[p / (width as int)]@[p % (width as int)],
                }),
            decreases height - i,
        {
            let mut j: usize = 0;
            while j < width
                invariant
                    i < height,
                    j <= width,
                    mask_fits(mask@, width as int, height as int),
                    width * height <= usize::MAX,
                    cells@.len() == i * width + j,
                    forall|p: int| 0 <= p < cells@.len() ==> #[trigger] cells@[p] == (Cell {
                        location: location_at(width as int, p),
                        state: mask@[p / (width as int)]@[p % (width as int)],
                    }),
                decreases width - j,
            {
                proof {
                    lemma_index_coords(width as nat, height as nat, j as int, i as int);
                }
                let alive = mask[i][j];
                let location = Point2D { x: #[verifier::truncate] (j as i32), y: #[verifier::truncate] (i as i32) };
                cells.push(Cell { location, state: alive });
                j += 1;
            }
            proof {
                assert((i + 1) * width == i * width + width) by (nonlinear_arith);
            }
            i += 1;
        }
        let r = Board { width, height, data: cells };
        proof {
            assert(height * width == width * height) by (nonlinear_arith);
            assert(r@.cells =~= Seq::new(
                (width * height) as nat,
                |i: int| mask@[i / (width as int)]@[i % (width as int)],
            ));
        }
        Ok(r)
    }
}

/// A mask of exactly `height` rows of `width` cells.
pub open spec fn mask_fits(mask: Seq<Vec<bool>>, width: int, height: int) -> bool {
    mask.len() == height && forall|y: int| 0 <= y < height ==> (#[trigger] mask[y])@.len() == width
}

/// The `k`-th of the eight Moore directions, as `(dx, dy)`.
fn direction(k: usize) -> (r: (i32, i32))
    requires
        k < 8,
    ensures
        r.0 == dir_x(k as int),
        r.1 == dir_y(k as int),
{
    if k == 0 {
        (-1, -1)
    } else if k == 1 {
        (-1, 0)
    } else if k == 2 {
        (-1, 1)
    } else if k == 3 {
        (0, -1)
    } else if k == 4 {
        (0, 1)
    } else if k == 5 {
        (1, -1)
    } else if k == 6 {
        (1, 0)
    } else {
        (1, 1)
    }
}

/// The coordinate one step of `s` from `v` on a torus of size `d`.
fn wrap_coord(v: usize, s: i32, d: usize) -> (r: usize)
    requires
        v < d,
        -1 <= s <= 1,
    ensures
        r == wrap(v + s, d as nat),
        r < d,
{
    proof {
        lemma_wrap_step(v as int, s as int, d as nat);
    }
    if s < 0 {
        if v == 0 {
            d - 1
        } else {
            v - 1
        }
    } else if s > 0 {
        if v + 1 == d {
            0
        } else {
            v + 1
        }
    } else {
        v
    }
}

/// The number of live cells among the eight neighbours of `(x, y)`, the
/// board's edges wrapping round to the opposite ones.
pub fn count_live_neighbors(board: &Board, x: usize, y: usize) -> (r: u32)
    requires
        board.wf(),
        x < board@.width,
        y < board@.height,
    ensures
        r == live_neighbors(board@, x as int, y as int),
{
    let w = board.get_width();
    let h = board.get_height();
    let mut count: u32 = 0;
    let mut k: usize = 0;
    while k < 8
        invariant
            board.wf(),
            w == board@.width,
            h == board@.height,
            x < w,
            y < h,
            k <= 8,
            count <= k,
            count + count_from(board@, x as int, y as int, k as int) == live_neighbors(
                board@,
                x as int,
                y as int,
            ),
        decreases 8 - k,
    {
        let (dx, dy) = direction(k);
        let nx = wrap_coord(x, dx, w);
        let ny = wrap_coord(y, dy, h);
        if board.get(nx, ny).is_alive() {
            count += 1;
        }
        k += 1;
    }
    count
}

impl Board {
    /// The next generation, computed over every cell of the board.
    pub fn next_generation(&self) -> (r: Board)
        requires
            self.wf(),
        ensures
            r.wf(),
            r@ == step(self@),
    {
        let width = self.width;
        let height = self.height;
        let mut cells: Vec<Cell> = Vec::new();
        let mut i: usize = 0;
        while i < height
            invariant
                self.wf(),
                width == self@.width,
                height == self@.height,
                i <= height,
                cells@.len() == i * width,
                forall|p: int| 0 <= p < cells@.len() ==> #[trigger] cells@[p] == (Cell {
                    location: location_at(width as int, p),
                    state: next_cell(self@, p),
                }),
            decreases height - i,
        {
            let mut j: usize = 0;
            while j < width
                invariant
                    self.wf(),
                    width == self@.width,
                    height == self@.height,
                    i < height,
                    j <= width,
                    cells@.len() == i * width + j,
                    forall|p: int| 0 <= p < cells@.len() ==> #[trigger] cells@[p] == (Cell {
                        location: location_at(width as int, p),
                        state: next_cell(self@, p),
                    }),
                decreases width - j,
            {
                proof {
                    lemma_index_coords(width as nat, height as nat, j as int, i as int);
                }
                let n = count_live_neighbors(self, j, i);
                let alive = next_state(self.get(j, i).is_alive(), n);
                let location = Point2D { x: #[verifier::truncate] (j as i32), y: #[verifier::truncate] (i as i32) };
                cells.push(Cell { location, state: alive });
                j += 1;
            }
            proof {
                assert((i + 1) * width == i * width + width) by (nonlinear_arith);
            }
            i += 1;
        }
        let r = Board { width, height, data: cells };
        proof {
            assert(height * width == width * height) by (nonlinear_arith);
            assert(r@.cells =~= step(self@).cells);
        }
        r
    }
}

/// `list` holds, each once, exactly the indices below `n` that `mask` marks.
spec fn frontier_consistent(mask: Seq<bool>, list: Seq<usize>, n: int) -> bool {
    &&& mask.len() == n
    &&& forall|a: int| 0 <= a < list.len() ==> (#[trigger] list[a]) < n && mask[list[a] as int]
    &&& forall|a: int, b: int|
        0 <= a < list.len() && 0 <= b < list.len() && a != b ==> #[trigger] list[a] != #[trigger] list[b]
    &&& forall|i: int|
        0 <= i < n && #[trigger] mask[i] ==> exists|a: int| 0 <= a < list.len() && list[a] == i
}

/// The indices that a mask marks.
spec fn mask_set(mask: Seq<bool>) -> Set<int> {
    Set::new(|i: int| 0 <= i < mask.len() && mask[i])
}

/// A mask of `n` unmarked cells.
fn unmarked(n: usize) -> (r: Vec<bool>)
    ensures
        r@ == Seq::new(n as nat, |i: int| false),
{
    let mut r: Vec<bool> = Vec::new();
    let mut i: usize = 0;
    while i < n
        invariant
            i <= n,
            r@ == Seq::new(i as nat, |p: int| false),
        decreases n - i,
    {
        r.push(false);
        i += 1;
        proof {
            assert(r@ =~= Seq::new(i as nat, |p: int| false));
        }
    }
    r
}

/// Adds the cell at index `c` to the frontier unless it is there already.
fn mark(mask: &mut Vec<bool>, list: &mut Vec<usize>, c: usize)
    requires
        frontier_consistent(old(mask)@, old(list)@, old(mask)@.len() as int),
        c < old(mask)@.len(),
    ensures
        frontier_consistent(final(mask)@, final(list)@, final(mask)@.len() as int),
        final(mask)@ == old(mask)@.update(c as int, true),
{
    if !mask[c] {
        let ghost old_list = list@;
        let ghost n = mask@.len() as int;
        proof {
            assert forall|a: int| 0 <= a < old_list.len() implies old_list[a] != c by {
                assert(mask@[old_list[a] as int]);
            }
        }
        mask.set(c, true);
        list.push(c);
        proof {
            assert forall|i: int| 0 <= i < n && #[trigger] mask@[i] implies exists|a: int|
                0 <= a < list@.len() && list@[a] == i by {
                if i == c {
                    assert(list@[old_list.len() as int] == c);
                } else {
                    let a = choose|a: int| 0 <= a < old_list.len() && old_list[a] == i;
                    assert(list@[a] == old_list[a]);
                }
            }
            assert forall|a: int| 0 <= a < list@.len() implies (#[trigger] list@[a]) < n
                && mask@[list@[a] as int] by {
                if a < old_list.len() {
                    assert(list@[a] == old_list[a]);
                }
            }
        }
    } else {
        proof {
            assert(mask@ =~= mask@.update(c as int, true));
        }
    }
}

/// Adds the cell at index `c` of a `w` by `h` board and its eight
/// neighbours to the frontier.
fn insert_me_and_neighbours(
    mask: &mut Vec<bool>,
    list: &mut Vec<usize>,
    w: usize,
    h: usize,
    c: usize,
)
    requires
        frontier_consistent(old(mask)@, old(list)@, w * h),
        c < w * h,
        w * h <= usize::MAX,
    ensures
        frontier_consistent(final(mask)@, final(list)@, w * h),
        forall|i: int|
            0 <= i < w * h ==> #[trigger] final(mask)@[i] == (old(mask)@[i] || covers(
                w as nat,
                h as nat,
                c as int,
                i,
            )),
{
    proof {
        lemma_coords_of_index(w as nat, h as nat, c as int);
    }
    let x = c % w;
    let y = c / w;
    let ghost start = mask@;
    mark(mask, list, c);
    let mut k: usize = 0;
    while k < 8
        invariant
            frontier_consistent(mask@, list@, w * h),
            w * h <= usize::MAX,
            c < w * h,
            x == (c as int) % (w as int),
            y == (c as int) / (w as int),
            x < w,
            y < h,
            k <= 8,
            forall|i: int|
                0 <= i < w * h ==> #[trigger] mask@[i] == (start[i] || i == c || exists|k2: int|
                    0 <= k2 < k && i == neighbor_index(w as nat, h as nat, c as int, k2)),
        decreases 8 - k,
    {
        let (dx, dy) = direction(k);
        let nx = wrap_coord(x, dx, w);
        let ny = wrap_coord(y, dy, h);
        proof {
            lemma_index_coords(w as nat, h as nat, nx as int, ny as int);
        }
        let idx = ny * w + nx;
        let ghost before = mask@;
        mark(mask, list, idx);
        proof {
            assert(idx == neighbor_index(w as nat, h as nat, c as int, k as int));
            assert forall|i: int| 0 <= i < w * h implies #[trigger] mask@[i] == (start[i] || i == c
                || exists|k2: int|
                0 <= k2 < k + 1 && i == neighbor_index(w as nat, h as nat, c as int, k2)) by {
                if i == idx {
                } else {
                    assert(mask@[i] == before[i]);
                    if exists|k2: int|
                        0 <= k2 < k + 1 && i == neighbor_index(w as nat, h as nat, c as int, k2) {
                        let k2 = choose|k2: int|
                            0 <= k2 < k + 1 && i == neighbor_index(w as nat, h as nat, c as int, k2);
                        assert(k2 < k);
                    }
                }
            }
        }
        k += 1;
    }
}

/// Builds the frontier of a board: every live cell and its eight neighbours.
fn initial_analysis(board: &Board) -> (r: (Vec<bool>, Vec<usize>))
    requires
        board.wf(),
    ensures
        frontier_consistent(r.0@, r.1@, board@.size()),
        mask_set(r.0@) == frontier_of(board@),
{
    let w = board.width;
    let h = board.height;
    let n = w * h;
    let ghost g = board@;
    let mut mask = unmarked(n);
    let mut list: Vec<usize> = Vec::new();
    let mut c: usize = 0;
    while c < n
        invariant
            board.wf(),
            g == board@,
            w == g.width,
            h == g.height,
            n == w * h,
            c <= n,
            frontier_consistent(mask@, list@, w * h),
            forall|i: int|
                0 <= i < n ==> #[trigger] mask@[i] == exists|c2: int|
                    0 <= c2 < c && #[trigger] g.cells[c2] && covers(w as nat, h as nat, c2, i),
        decreases n - c,
    {
        let ghost before = mask@;
        assert(g.cells[c as int] == board.data@[c as int].state);
        if board.data[c].state {
            insert_me_and_neighbours(&mut mask, &mut list, w, h, c);
        }
        proof {
            assert forall|i: int| 0 <= i < n implies #[trigger] mask@[i] == exists|c2: int|
                0 <= c2 < c + 1 && #[trigger] g.cells[c2] && covers(w as nat, h as nat, c2, i) by {
                if exists|c2: int|
                    0 <= c2 < c + 1 && #[trigger] g.cells[c2] && covers(w as nat, h as nat, c2, i) {
                    let c2 = choose|c2: int|
                        0 <= c2 < c + 1 && #[trigger] g.cells[c2] && covers(
                            w as nat,
                            h as nat,
                            c2,
                            i,
                        );
                    if c2 < c {
                        assert(before[i]);
                    }
                }
                if mask@[i] {
                    if before[i] {
                        let c2 = choose|c2: int|
                            0 <= c2 < c && #[trigger] g.cells[c2] && covers(w as nat, h as nat, c2, i);
                        assert(g.cells[c2]);
                    } else {
                        assert(g.cells[c as int] && covers(w as nat, h as nat, c as int, i));
                    }
                }
            }
        }
        c += 1;
    }
    proof {
        assert(mask_set(mask@) =~= frontier_of(g));
    }
    (mask, list)
}

/// A game as a value.
pub struct LifeState {
    pub grid: Grid,
    pub paused: bool,
    pub finished: bool,
    pub generation: nat,
    /// The cells that the next generation examines.
    pub frontier: Set<int>,
}

/// The game: a board, its generation, its run flags, and the frontier of
/// cells whose state may change in the next generation.
pub struct GameOfLife {
    board: Board,
    paused: bool,
    finished: bool,
    generation: u32,
    marked: Vec<bool>,
    cells_to_analyze: Vec<usize>,
}

impl View for GameOfLife {
    type V = LifeState;

    closed spec fn view(&self) -> LifeState {
        LifeState {
            grid: self.board@,
            paused: self.paused,
            finished: self.finished,
            generation: self.generation as nat,
            frontier: mask_set(self.marked@),
        }
    }
}

impl GameOfLife {
    /// The board is well formed and the frontier is exactly its live cells
    /// together with their neighbours.
    pub closed spec fn wf(&self) -> bool {
        &&& self.board.wf()
        &&& frontier_consistent(self.marked@, self.cells_to_analyze@, self.board@.size())
        &&& mask_set(self.marked@) == frontier_of(self.board@)
    }

    /// A running game at generation zero on `board`.
    pub fn new(board: Board) -> (r: Self)
        requires
            board.wf(),
        ensures
            r.wf(),
            r@.grid == board@,
            !r@.paused,
            !r@.finished,
            r@.generation == 0,
            r@.frontier == frontier_of(board@),
    {
        let (marked, cells_to_analyze) = initial_analysis(&board);
        GameOfLife { board, paused: false, finished: false, generation: 0, marked, cells_to_analyze }
    }

    /// Advances one generation, examining the frontier only; does nothing
    /// once the game is finished.
    pub fn update(&mut self)
        requires
            old(self).wf(),
            old(self)@.finished || old(self)@.generation < u32::MAX,
        ensures
            final(self).wf(),
            old(self)@.finished ==> final(self)@ == old(self)@,
            !old(self)@.finished ==> {
                &&& final(self)@.grid == step_within(old(self)@.grid, old(self)@.frontier)
                &&& final(self)@.grid == step(old(self)@.grid)
                &&& final(self)@.generation == old(self)@.generation + 1
                &&& final(self)@.frontier == frontier_of(final(self)@.grid)
                &&& final(self)@.paused == old(self)@.paused
                &&& !final(self)@.finished
            },
    {
        if self.finished {
            return;
        }
        let width = self.board.get_width();
        let height = self.board.get_height();
        let n = width * height;
        let ghost g = self.board@;
        let ghost f = mask_set(self.marked@);
        let ghost old_mask = self.marked@;
        let ghost list = self.cells_to_analyze@;
        let mut new_board = Board::new(width, height, false);
        let mut new_marked = unmarked(n);
        let mut new_cells: Vec<usize> = Vec::new();
        let mut t: usize = 0;
        while t < self.cells_to_analyze.len()
            invariant
                self.wf(),
                g == self.board@,
                list == self.cells_to_analyze@,
                old_mask == self.marked@,
                f == mask_set(old_mask),
                width == g.width,
                height == g.height,
                n == width * height,
                new_board.wf(),
                new_board@.width == width,
                new_board@.height == height,
                t <= list.len(),
                frontier_consistent(new_marked@, new_cells@, n as int),
                forall|s: int| 0 <= s < t ==> #[trigger] new_board@.cells[list[s] as int] == next_cell(g, list[s] as int),
                forall|s: int| t <= s < list.len() ==> !#[trigger] new_board@.cells[list[s] as int],
                forall|i: int| 0 <= i < n && #[trigger] new_board@.cells[i] ==> old_mask[i],
                forall|i: int|
                    0 <= i < n ==> #[trigger] new_marked@[i] == exists|c2: int|
                        0 <= c2 < n && #[trigger] new_board@.cells[c2] && covers(
                            width as nat,
                            height as nat,
                            c2,
                            i,
                        ),
            decreases list.len() - t,
        {
            let c = self.cells_to_analyze[t];
            proof {
                lemma_coords_of_index(width as nat, height as nat, c as int);
            }
            let x = c % width;
            let y = c / width;
            let alive = self.board.get(x, y).is_alive();
            let live = count_live_neighbors(&self.board, x, y);
            if next_state(alive, live) {
                let ghost cells_before = new_board@.cells;
                let ghost mask_before = new_marked@;
                new_board.set(x, y, true);
                insert_me_and_neighbours(&mut new_marked, &mut new_cells, width, height, c);
                proof {
                    assert(new_board@.cells == cells_before.update(c as int, true));
                    assert forall|s: int| t + 1 <= s < list.len() implies !#[trigger] new_board@.cells[list[s] as int] by {
                        assert(list[s] != list[t as int]);
                    }
                    assert forall|s: int| 0 <= s < t + 1 implies #[trigger] new_board@.cells[list[s] as int] == next_cell(g, list[s] as int) by {
                        if s < t {
                            assert(list[s] != list[t as int]);
                        }
                    }
                    assert forall|i: int| 0 <= i < n implies #[trigger] new_marked@[i] == exists|c2: int|
                        0 <= c2 < n && #[trigger] new_board@.cells[c2] && covers(
                            width as nat,
                            height as nat,
                            c2,
                            i,
                        ) by {
                        if exists|c2: int|
                            0 <= c2 < n && #[trigger] new_board@.cells[c2] && covers(
                                width as nat,
                                height as nat,
                                c2,
                                i,
                            ) {
                            let c2 = choose|c2: int|
                                0 <= c2 < n && #[trigger] new_board@.cells[c2] && covers(
                                    width as nat,
                                    height as nat,
                                    c2,
                                    i,
                                );
                            if c2 != c {
                                assert(cells_before[c2]);
                                assert(mask_before[i]);
                            }
                        } else {
                            assert(new_board@.cells[c as int]);
                            assert(!covers(width as nat, height as nat, c as int, i));
                            if mask_before[i] {
                                let c2 = choose|c2: int|
                                    0 <= c2 < n && #[trigger] cells_before[c2] && covers(
                                        width as nat,
                                        height as nat,
                                        c2,
                                        i,
                                    );
                                assert(new_board@.cells[c2]);
                            }
                        }
                    }
                }
            } else {
                proof {
                    assert forall|s: int| 0 <= s < t + 1 implies #[trigger] new_board@.cells[list[s] as int] == next_cell(g, list[s] as int) by {
                    }
                }
            }
            t += 1;
        }
        proof {
            assert forall|i: int| 0 <= i < n implies new_board@.cells[i] == (f.contains(i) && next_cell(g, i)) by {
                if f.contains(i) {
                    let s = choose|s: int| 0 <= s < list.len() && list[s] == i;
                    assert(new_board@.cells[list[s] as int] == next_cell(g, list[s] as int));
                }
            }
            assert(new_board@.cells =~= step_within(g, f).cells);
            lemma_frontier_step_is_full_step(g);
            assert(mask_set(new_marked@) =~= frontier_of(new_board@));
        }
        self.generation = self.generation + 1;
        self.board = new_board;
        self.marked = new_marked;
        self.cells_to_analyze = new_cells;
    }

    /// Starts over from generation zero on the board whose cells, in
    /// row-major order, are `cells`; the dimensions and the run flags stay.
    pub fn reset_with(&mut self, cells: Vec<bool>)
        requires
            old(self).wf(),
            cells@.len() == old(self)@.grid.width * old(self)@.grid.height,
        ensures
            final(self).wf(),
            final(self)@.grid.width == old(self)@.grid.width,
            final(self)@.grid.height == old(self)@.grid.height,
            final(self)@.grid.cells == cells@,
            final(self)@.generation == 0,
            final(self)@.frontier == frontier_of(final(self)@.grid),
            final(self)@.paused == old(self)@.paused,
            final(self)@.finished == old(self)@.finished,
    {
        let width = self.board.get_width();
        let height = self.board.get_height();
        if let Ok(new_board) = Board::from_cells(width, height, cells) {
            let (marked, cells_to_analyze) = initial_analysis(&new_board);
            self.board = new_board;
            self.marked = marked;
            self.cells_to_analyze = cells_to_analyze;
            self.generation = 0;
        }
    }

    /// Starts over from generation zero on a fresh random board of the same
    /// size, each cell alive with probability one half; the run flags stay.
    pub fn reset(&mut self)
        requires
            old(self).wf(),
        ensures
            final(self).wf(),
            final(self)@.grid.width == old(self)@.grid.width,
            final(self)@.grid.height == old(self)@.grid.height,
            final(self)@.generation == 0,
            final(self)@.frontier == frontier_of(final(self)@.grid),
            final(self)@.paused == old(self)@.paused,
            final(self)@.finished == old(self)@.finished,
    {
        let cells = draw_entropy(1, 2, self.board.get_width() * self.board.get_height());
        self.reset_with(cells);
    }

    /// A well-formed game holds a well-formed board.
    pub proof fn lemma_wf_grid(&self)
        requires
            self.wf(),
        ensures
            self@.grid.wf(),
    {
    }

    pub fn get_board(&self) -> (r: &Board)
        requires
            self.wf(),
        ensures
            r.wf(),
            r@ == self@.grid,
    {
        &self.board
    }

    pub fn is_paused(&self) -> (r: bool)
        ensures
            r == self@.paused,
    {
        self.paused
    }

    pub fn pause(&mut self)
        ensures
            final(self)@ == (LifeState { paused: true, ..old(self)@ }),
            final(self).wf() == old(self).wf(),
    {
        self.paused = true;
    }

    pub fn unpause(&mut self)
        ensures
            final(self)@ == (LifeState { paused: false, ..old(self)@ }),
            final(self).wf() == old(self).wf(),
    {
        self.paused = false;
    }

    pub fn toggle_pause(&mut self)
        ensures
            final(self)@ == (LifeState { paused: !old(self)@.paused, ..old(self)@ }),
            final(self).wf() == old(self).wf(),
    {
        self.paused = !self.paused;
    }

    /// The number of generations since the start or the last reset.
    pub fn get_genereation(&self) -> (r: u32)
        ensures
            r == self@.generation,
    {
        self.generation
    }

    /// Ends the game: later updates change nothing.
    pub fn finish(&mut self)
        ensures
            final(self)@ == (LifeState { finished: true, ..old(self)@ }),
            final(self).wf() == old(self).wf(),
    {
        self.finished = true;
    }

    pub fn is_finished(&self) -> (r: bool)
        ensures
            r == self@.finished,
    {
        self.finished
    }

    /// The number of cells that the next update examines.
    pub fn get_analyzed_cell_count(&self) -> (r: usize)
        requires
            self.wf(),
        ensures
            r == self@.frontier.len(),
    {
        proof {
            lemma_frontier_count(self.marked@, self.cells_to_analyze@, self.board@.size());
        }
        self.cells_to_analyze.len()
    }
}

/// A consistent frontier list holds as many entries as its mask marks.
proof fn lemma_frontier_count(mask: Seq<bool>, list: Seq<usize>, n: int)
    requires
        frontier_consistent(mask, list, n),
    ensures
        list.len() == mask_set(mask).len(),
{
    let ints = list.map_values(|v: usize| v as int);
    assert forall|a: int, b: int| 0 <= a < ints.len() && 0 <= b < ints.len() && a != b implies ints[a] != ints[b] by {
        assert(list[a] != list[b]);
    }
    ints.unique_seq_to_set();
    assert forall|i: int| #[trigger] mask_set(mask).contains(i) <==> ints.to_set().contains(i) by {
        if mask_set(mask).contains(i) {
            let a = choose|a: int| 0 <= a < list.len() && list[a] == i;
            assert(ints[a] == i);
        }
        if ints.to_set().contains(i) {
            assert(ints.contains(i));
            let a = choose|a: int| 0 <= a < ints.len() && ints[a] == i;
            assert(list[a] < n && mask[list[a] as int]);
        }
    }
    assert(mask_set(mask) =~= ints.to_set());
}

} // verus!
