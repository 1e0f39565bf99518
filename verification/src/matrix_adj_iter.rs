//! The cells next to a cell of a grid, in four directions.

use vstd::prelude::*;

verus! {

/// The number of directions: up, down, left, right.
pub const N_DIRS: usize = 4;

/// The cell next to `(i, j)` in direction `d`: 0 is up (one row less), 1 is
/// down, 2 is left (one column less), 3 is right.
pub open spec fn neighbor(i: int, j: int, d: int) -> (int, int) {
    if d == 0 {
        (i - 1, j)
    } else if d == 1 {
        (i + 1, j)
    } else if d == 2 {
        (i, j - 1)
    } else {
        (i, j + 1)
    }
}

/// The cell `p` lies in a grid of `h` rows and `w` columns.
pub open spec fn inside(p: (int, int), h: int, w: int) -> bool {
    0 <= p.0 < h && 0 <= p.1 < w
}

/// The cells next to `(i, j)` in the directions `d, d + 1, ..., 3` that lie
/// in the grid, in that order.
pub open spec fn neighbors_from(i: int, j: int, h: int, w: int, d: int) -> Seq<(int, int)>
    decreases 4 - d,
{
    if d >= 4 {
        Seq::empty()
    } else if inside(neighbor(i, j, d), h, w) {
        seq![neighbor(i, j, d)] + neighbors_from(i, j, h, w, d + 1)
    } else {
        neighbors_from(i, j, h, w, d + 1)
    }
}

/// The cells next to one cell of a grid, handed out one by one.
#[derive(Debug, Copy, Clone)]
pub struct MatrixAdjIter {
    i: usize,
    j: usize,
    h: usize,
    w: usize,
    iter_index: usize,
}

impl MatrixAdjIter {
    /// The cells that are still to come, in order.
    pub closed spec fn remaining(&self) -> Seq<(int, int)> {
        neighbors_from(
            self.i as int,
            self.j as int,
            self.h as int,
            self.w as int,
            self.iter_index as int,
        )
    }

    /// The cell next to `(i, j)` in direction `d`, where it lies in the
    /// grid.
    fn cell(&self, d: usize) -> (r: Option<(usize, usize)>)
        requires
            d < 4,
        ensures
            match r {
                Some(p) => (p.0 as int, p.1 as int) == neighbor(self.i as int, self.j as int, d as int)
                    && inside((p.0 as int, p.1 as int), self.h as int, self.w as int),
                None => !inside(
                    neighbor(self.i as int, self.j as int, d as int),
                    self.h as int,
                    self.w as int,
                ),
            },
    {
        let (i, j, h, w) = (self.i, self.j, self.h, self.w);
        if d == 0 {
            if i >= 1 && i - 1 < h && j < w {
                return Some((i - 1, j));
            }
        } else if d == 1 {
            if h > 0 && i < h - 1 && j < w {
                return Some((i + 1, j));
            }
        } else if d == 2 {
            if j >= 1 && j - 1 < w && i < h {
                return Some((i, j - 1));
            }
        } else {
            if w > 0 && j < w - 1 && i < h {
                return Some((i, j + 1));
            }
        }
        None
    }

    /// The next cell, or `None` when all four directions have been tried.
    pub fn next(&mut self) -> (r: Option<(usize, usize)>)
        ensures
            match r {
                Some(p) => old(self).remaining().len() > 0 && (p.0 as int, p.1 as int) == old(
                    self,
                ).remaining()[0] && final(self).remaining() == old(self).remaining().skip(1),
                None => old(self).remaining().len() == 0 && final(self).remaining().len() == 0,
            },
    {
        while self.iter_index < N_DIRS
            invariant
                self.i == old(self).i,
                self.j == old(self).j,
                self.h == old(self).h,
                self.w == old(self).w,
                self.remaining() == old(self).remaining(),
            decreases N_DIRS - self.iter_index,
        {
            let d = self.iter_index;
            self.iter_index += 1;
            match self.cell(d) {
                Some(p) => {
                    return Some(p);
                },
                None => {},
            }
        }
        None
    }

    /// All the cells that are still to come.
    pub fn collect(self) -> (v: Vec<(usize, usize)>)
        ensures
            v@.len() == self.remaining().len(),
            forall|k: int|
                0 <= k < v@.len() ==> (#[trigger] v@[k].0 as int, v@[k].1 as int)
                    == self.remaining()[k],
    {
        let mut it = self;
        let mut v: Vec<(usize, usize)> = Vec::new();
        loop
            invariant
                v@.len() + it.remaining().len() == self.remaining().len(),
                it.remaining() == self.remaining().skip(v@.len() as int),
                forall|k: int|
                    0 <= k < v@.len() ==> (#[trigger] v@[k].0 as int, v@[k].1 as int)
                        == self.remaining()[k],
            decreases it.remaining().len(),
        {
            match it.next() {
                Some(p) => {
                    v.push(p);
                },
                None => {
                    return v;
                },
            }
        }
    }

    /// The number of cells that are still to come.
    pub fn count(self) -> (n: usize)
        ensures
            n == self.remaining().len(),
    {
        let v = self.collect();
        v.len()
    }
}

/// Grids that hand out the cells next to one of their cells.
pub trait VecAdjIterExt<T> {
    /// The number of rows.
    spec fn height(&self) -> int;

    /// The number of columns, taken from the first row.
    spec fn width(&self) -> int;

    /// The cells of the grid next to `(i, j)`: up, down, left, right, those
    /// left out that lie outside the grid.
    fn adj_iter(&self, i: usize, j: usize) -> (it: MatrixAdjIter)
        requires
            self.height() > 0,
        ensures
            it.remaining() == neighbors_from(i as int, j as int, self.height(), self.width(), 0),
    ;
}

impl<T> VecAdjIterExt<T> for Vec<Vec<T>> {
    open spec fn height(&self) -> int {
        self@.len() as int
    }

    open spec fn width(&self) -> int {
        self@[0]@.len() as int
    }

    fn adj_iter(&self, i: usize, j: usize) -> (it: MatrixAdjIter) {
        MatrixAdjIter { i, j, h: self.len(), w: self[0].len(), iter_index: 0 }
    }
}

} // verus!
