//! The grid of cell classifications, with bounds-checked access.
use vstd::prelude::*;
use crate::cell::{Cell, in_bounds};

verus! {

/// The role currently assigned to a cell.
#[derive(Clone, Copy, Debug, PartialEq, Eq, Structural)]
pub enum Tile {
    Empty,
    Start,
    Target,
    OnPath,
}

#[derive(Clone, Copy, Debug, PartialEq, Eq, Structural)]
pub enum GridError {
    OutOfBounds,
}

/// Position of an in-bounds cell in the row-major tile sequence.
pub open spec fn index_of(c: Cell, w: int) -> int {
    c.row * w + c.col
}

pub proof fn lemma_index_in_range(c: Cell, w: int, h: int)
    requires
        in_bounds(c, w, h),
    ensures
        0 <= index_of(c, w) < w * h,
{
    assert(0 <= c.row * w) by (nonlinear_arith)
        requires 0 <= c.row, 0 <= w;
    assert(c.row * w + c.col < w * h) by (nonlinear_arith)
        requires 0 <= c.col < w, 0 <= c.row < h;
}

pub proof fn lemma_index_unique(a: Cell, b: Cell, w: int, h: int)
    requires
        in_bounds(a, w, h),
        in_bounds(b, w, h),
        index_of(a, w) == index_of(b, w),
    ensures
        a == b,
{
    if a.row < b.row {
        assert(a.row * w + w <= b.row * w) by (nonlinear_arith)
            requires a.row < b.row, 0 <= w;
    } else if a.row > b.row {
        assert(b.row * w + w <= a.row * w) by (nonlinear_arith)
            requires b.row < a.row, 0 <= w;
    }
}

/// A fixed-size rectangular grid of classified cells.
pub struct Grid {
    width: i32,
    height: i32,
    tiles: Vec<Tile>,
}

impl View for Grid {
    type V = Seq<Tile>;

    closed spec fn view(&self) -> Seq<Tile> {
        self.tiles@
    }
}

impl Grid {
    pub closed spec fn spec_width(&self) -> int {
        self.width as int
    }

    pub closed spec fn spec_height(&self) -> int {
        self.height as int
    }

    pub open spec fn wf(&self) -> bool {
        &&& 0 <= self.spec_width()
        &&& 0 <= self.spec_height()
        &&& self@.len() == self.spec_width() * self.spec_height()
        &&& self.spec_width() * self.spec_height() <= usize::MAX
        &&& self.spec_width() <= i32::MAX
        &&& self.spec_height() <= i32::MAX
    }

    /// The classification of an in-bounds cell.
    pub open spec fn tile(&self, c: Cell) -> Tile {
        self@[index_of(c, self.spec_width())]
    }

    pub open spec fn contains(&self, c: Cell) -> bool {
        in_bounds(c, self.spec_width(), self.spec_height())
    }

    /// A `width` by `height` grid with every cell `Empty`.
    pub fn new(width: i32, height: i32) -> (r: Grid)
        requires
            0 <= width,
            0 <= height,
            width as int * height as int <= usize::MAX,
        ensures
            r.wf(),
            r.spec_width() == width,
            r.spec_height() == height,
            forall|c: Cell| r.contains(c) ==> #[trigger] r.tile(c) == Tile::Empty,
    {
        let n: usize = (width as usize) * (height as usize);
        let mut tiles: Vec<Tile> = Vec::new();
        let mut i: usize = 0;
        while i < n
            invariant
                i <= n,
                tiles@.len() == i,
                forall|j: int| 0 <= j < i ==> tiles@[j] == Tile::Empty,
            decreases n - i,
        {
            tiles.push(Tile::Empty);
            i = i + 1;
        }
        let r = Grid { width, height, tiles };
        proof {
            assert forall|c: Cell| r.contains(c) implies #[trigger] r.tile(c) == Tile::Empty by {
                lemma_index_in_range(c, width as int, height as int);
            }
        }
        r
    }

    pub fn width(&self) -> (r: i32)
        ensures
            r == self.spec_width(),
    {
        self.width
    }

    pub fn height(&self) -> (r: i32)
        ensures
            r == self.spec_height(),
    {
        self.height
    }

    fn index(&self, c: Cell) -> (r: usize)
        requires
            self.wf(),
            self.contains(c),
        ensures
            r as int == index_of(c, self.spec_width()),
            r < self@.len(),
    {
        proof {
            lemma_index_in_range(c, self.spec_width(), self.spec_height());
            assert(self.tiles@.len() == self.tiles.len());
            assert(0 <= c.row as int * self.width as int) by (nonlinear_arith)
                requires 0 <= c.row, 0 <= self.width;
        }
        (c.row as usize) * (self.width as usize) + (c.col as usize)
    }

    /// Reads a cell's classification; cells outside the grid are rejected.
    pub fn get_tile(&self, c: Cell) -> (r: Result<Tile, GridError>)
        requires
            self.wf(),
        ensures
            self.contains(c) ==> r == Ok::<Tile, GridError>(self.tile(c)),
            !self.contains(c) ==> r == Err::<Tile, GridError>(GridError::OutOfBounds),
    {
        if 0 <= c.col && c.col < self.width && 0 <= c.row && c.row < self.height {
            let i = self.index(c);
            Ok(self.tiles[i])
        } else {
            Err(GridError::OutOfBounds)
        }
    }

    /// Overwrites a cell's classification; cells outside the grid are
    /// rejected and leave the grid unchanged.
    pub fn set_tile(&mut self, c: Cell, t: Tile) -> (r: Result<(), GridError>)
        requires
            old(self).wf(),
        ensures
            final(self).wf(),
            final(self).spec_width() == old(self).spec_width(),
            final(self).spec_height() == old(self).spec_height(),
            old(self).contains(c) ==> r is Ok,
            !old(self).contains(c) ==> r == Err::<(), GridError>(GridError::OutOfBounds) && final(self)@ == old(self)@,
            old(self).contains(c) ==> final(self).tile(c) == t,
            forall|d: Cell| old(self).contains(d) && d != c ==> #[trigger] final(self).tile(d) == old(self).tile(d),
    {
        if 0 <= c.col && c.col < self.width && 0 <= c.row && c.row < self.height {
            let i = self.index(c);
            self.tiles.set(i, t);
            proof {
                assert forall|d: Cell| old(self).contains(d) && d != c implies #[trigger] self.tile(d) == old(self).tile(d) by {
                    lemma_index_in_range(d, self.spec_width(), self.spec_height());
                    if index_of(d, self.spec_width()) == i {
                        lemma_index_unique(c, d, self.spec_width(), self.spec_height());
                    }
                }
            }
            Ok(())
        } else {
            Err(GridError::OutOfBounds)
        }
    }

    /// Resets every cell holding `kind` to `Empty`.
    pub fn clear_classification(&mut self, kind: Tile)
        requires
            old(self).wf(),
        ensures
            final(self).wf(),
            final(self).spec_width() == old(self).spec_width(),
            final(self).spec_height() == old(self).spec_height(),
            forall|c: Cell| #[trigger] old(self).contains(c) ==> final(self).tile(c) == (
                if old(self).tile(c) == kind { Tile::Empty } else { old(self).tile(c) }),
    {
        let n = self.tiles.len();
        let mut i: usize = 0;
        while i < n
            invariant
                i <= n,
                n == old(self)@.len(),
                self.wf(),
                self.spec_width() == old(self).spec_width(),
                self.spec_height() == old(self).spec_height(),
                self@.len() == n,
                forall|j: int| 0 <= j < i ==> self@[j] == (
                    if old(self)@[j] == kind { Tile::Empty } else { old(self)@[j] }),
                forall|j: int| i <= j < n ==> self@[j] == old(self)@[j],
            decreases n - i,
        {
            if self.tiles[i] == kind {
                self.tiles.set(i, Tile::Empty);
            }
            i = i + 1;
        }
        proof {
            assert forall|c: Cell| #[trigger] old(self).contains(c) implies self.tile(c) == (
                if old(self).tile(c) == kind { Tile::Empty } else { old(self).tile(c) }) by {
                lemma_index_in_range(c, self.spec_width(), self.spec_height());
            }
        }
    }

    /// Moves the `kind` marker (a start or a target) from `previous` to
    /// `next`: `previous` goes back to `Empty` if it still holds `kind`, then
    /// `next` gets `kind`. A `next` outside the grid is rejected and nothing
    /// changes; a `previous` outside the grid (an unset marker) is skipped.
    pub fn reassign(&mut self, previous: Cell, next: Cell, kind: Tile) -> (r: Result<(), GridError>)
        requires
            old(self).wf(),
        ensures
            final(self).wf(),
            final(self).spec_width() == old(self).spec_width(),
            final(self).spec_height() == old(self).spec_height(),
            !old(self).contains(next) ==> r == Err::<(), GridError>(GridError::OutOfBounds) && final(self)@ == old(self)@,
            old(self).contains(next) ==> r is Ok && final(self).tile(next) == kind,
            old(self).contains(next) ==> forall|c: Cell| old(self).contains(c) && c != next ==> #[trigger] final(self).tile(c) == (
                if c == previous && old(self).tile(c) == kind { Tile::Empty } else { old(self).tile(c) }),
    {
        if !(0 <= next.col && next.col < self.width && 0 <= next.row && next.row < self.height) {
            return Err(GridError::OutOfBounds);
        }
        match self.get_tile(previous) {
            Ok(t) => {
                if t == kind {
                    let _ = self.set_tile(previous, Tile::Empty);
                }
            },
            Err(_) => {},
        }
        self.set_tile(next, kind)
    }
}

} // verus!
