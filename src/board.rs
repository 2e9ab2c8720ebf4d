//! A plain board of booleans in row-major order.
use crate::game::{is_black, valid_ratio, GridError};
use crate::life::{lemma_index_coords, Grid};
use crate::sources::{
    bitmap_dims, bitmap_pixels, draw_entropy, image_height, image_pixel, image_width,
};
use vstd::prelude::*;

verus! {

/// A board of `width * height` cells, the cell at `(x, y)` at index
/// `y * width + x`.
#[derive(Debug)]
pub struct Board {
    width: usize,
    height: usize,
    data: Vec<bool>,
}

impl View for Board {
    type V = Grid;

    closed spec fn view(&self) -> Grid {
        Grid { width: self.width as nat, height: self.height as nat, cells: self.data@ }
    }
}

impl Board {
    /// One cell per coordinate.
    pub closed spec fn wf(&self) -> bool {
        &&& self.data@.len() == self.width * self.height
        &&& self.width * self.height <= usize::MAX
    }

    /// A well-formed board has one cell per coordinate.
    pub proof fn lemma_wf_view(&self)
        requires
            self.wf(),
        ensures
            self@.wf(),
    {
    }

    /// A board of `width * height` cells given in row-major order, `cells[y *
    /// width + x]` being the cell at `(x, y)`.
    pub fn from_cells(width: usize, height: usize, cells: Vec<bool>) -> (r: Result<Board, GridError>)
        ensures
            r is Err <==> cells@.len() != width * height,
            r is Err ==> r->Err_0 == GridError::DimensionMismatch,
            r is Ok ==> {
                let b = r->Ok_0;
                &&& b.wf()
                &&& b@.width == width
                &&& b@.height == height
                &&& b@.cells == cells@
            },
    {
        let len = cells.len();
        match width.checked_mul(height) {
            None => Err(GridError::DimensionMismatch),
            Some(n) => {
                if len != n {
                    Err(GridError::DimensionMismatch)
                } else {
                    Ok(Board { width, height, data: cells })
                }
            },
        }
    }

    /// A board whose every cell is `default`.
    pub fn new(width: usize, height: usize, default: bool) -> (r: Board)
        requires
            width * height <= usize::MAX,
        ensures
            r.wf(),
            r@.width == width,
            r@.height == height,
            r@.cells == Seq::new((width * height) as nat, |i: int| default),
    {
        let n = width * height;
        let mut data: Vec<bool> = Vec::new();
        let mut i: usize = 0;
        while i < n
            invariant
                i <= n,
                data@ == Seq::new(i as nat, |p: int| default),
            decreases n - i,
        {
            data.push(default);
            i += 1;
            proof {
                assert(data@ =~= Seq::new(i as nat, |p: int| default));
            }
        }
        Board { width, height, data }
    }

    /// A board whose cells are each alive with probability
    /// `numerator / denominator`, laid out by `from_cells`; rejects a ratio that is not a probability.
    pub fn random(width: usize, height: usize, numerator: u32, denominator: u32) -> (r: Result<Board, GridError>)
        requires
            width * height <= usize::MAX,
        ensures
            r is Err <==> !valid_ratio(numerator, denominator),
            r is Err ==> r->Err_0 == GridError::InvalidProbability,
            r is Ok ==> {
                let b = r->Ok_0;
                &&& b.wf()
                &&& b@.width == width
                &&& b@.height == height
                &&& numerator == 0 ==> b@.cells == Seq::new((width * height) as nat, |i: int| false)
                &&& numerator == denominator ==> b@.cells == Seq::new((width * height) as nat, |i: int| true)
            },
    {
        if denominator == 0 || numerator > denominator {
            return Err(GridError::InvalidProbability);
        }
        let cells = draw_entropy(numerator, denominator, width * height);
        let r = Board::from_cells(width, height, cells);
        proof {
            let b = r->Ok_0;
            if numerator == 0 {
                assert(b@.cells =~= Seq::new((width * height) as nat, |i: int| false));
            }
            if numerator == denominator {
                assert(b@.cells =~= Seq::new((width * height) as nat, |i: int| true));
            }
        }
        r
    }

    /// A board read from a decoded bitmap: black pixels are live cells.
    /// Fails when the image is empty or has more pixels than a `u32` counts.
    pub fn from_bmp(image: &bmp::Image) -> (r: Result<Board, GridError>)
        ensures
            ({
                let (w, h) = bitmap_dims(*image);
                &&& r is Err <==> (w == 0 || h == 0 || w * h > u32::MAX || w * h > usize::MAX)
                &&& r is Err ==> r->Err_0 == GridError::InvalidDimensions
                &&& r is Ok ==> {
                    let b = r->Ok_0;
                    &&& b.wf()
                    &&& b@.width == w
                    &&& b@.height == h
                    &&& b@.cells == Seq::new((w * h) as nat, |i: int| is_black(bitmap_pixels(*image)[i]))
                }
            }),
    {
        let w = image_width(image);
        let h = image_height(image);
        let width = w as usize;
        let height = h as usize;
        if w == 0 || h == 0 || w.checked_mul(h).is_none() || width.checked_mul(height).is_none() {
            return Err(GridError::InvalidDimensions);
        }
        let ghost pixels = bitmap_pixels(*image);
        let mut data: Vec<bool> = Vec::new();
        let mut i: u32 = 0;
        while i < h
            invariant
                i <= h,
                w == bitmap_dims(*image).0,
                h == bitmap_dims(*image).1,
                pixels == bitmap_pixels(*image),
                width == w,
                height == h,
                width * height <= usize::MAX,
                w * h <= u32::MAX,
                data@.len() == i * width,
                forall|p: int| 0 <= p < data@.len() ==> #[trigger] data@[p] == is_black(pixels[p]),
            decreases h - i,
        {
            let mut j: u32 = 0;
            while j < w
                invariant
                    i < h,
                    j <= w,
                    w == bitmap_dims(*image).0,
                    h == bitmap_dims(*image).1,
                    pixels == bitmap_pixels(*image),
                    width == w,
                    height == h,
                    width * height <= usize::MAX,
                    w * h <= u32::MAX,
                    data@.len() == i * width + j,
                    forall|p: int| 0 <= p < data@.len() ==> #[trigger] data@[p] == is_black(pixels[p]),
                decreases w - j,
            {
                proof {
                    lemma_index_coords(width as nat, height as nat, j as int, i as int);
                }
                let (r, g, b) = image_pixel(image, j, i);
                data.push(r == 0 && g == 0 && b == 0);
                j += 1;
            }
            proof {
                assert((i + 1) * width == i * width + width) by (nonlinear_arith);
            }
            i += 1;
        }
        proof {
            assert(height * width == width * height) by (nonlinear_arith);
            assert(data@ =~= Seq::new((w * h) as nat, |i: int| is_black(pixels[i])));
        }
        Ok(Board { width, height, data })
    }

    pub fn get_height(&self) -> (r: usize)
        ensures
            r == self@.height,
    {
        self.height
    }

    pub fn get_width(&self) -> (r: usize)
        ensures
            r == self@.width,
    {
        self.width
    }

    /// Whether the cell at `(x, y)` is alive.
    pub fn get(&self, x: usize, y: usize) -> (r: bool)
        requires
            self.wf(),
            x < self@.width,
            y < self@.height,
        ensures
            r == self@.alive(x as int, y as int),
    {
        proof {
            lemma_index_coords(self.width as nat, self.height as nat, x as int, y as int);
        }
        self.data[y * self.width + x]
    }

    /// Sets the cell at `(x, y)`; every other cell is kept.
    pub fn set(&mut self, x: usize, y: usize, value: bool)
        requires
            old(self).wf(),
            x < old(self)@.width,
            y < old(self)@.height,
        ensures
            final(self).wf(),
            final(self)@.width == old(self)@.width,
            final(self)@.height == old(self)@.height,
            final(self)@.cells == old(self)@.cells.update(old(self)@.index(x as int, y as int), value),
    {
        proof {
            lemma_index_coords(self.width as nat, self.height as nat, x as int, y as int);
        }
        let idx = y * self.width + x;
        self.data.set(idx, value);
    }
}

} // verus!
