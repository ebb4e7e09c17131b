use vstd::prelude::*;

verus! {

/// What a single grid cell currently is.
#[derive(Clone, Copy, Debug, PartialEq, Eq, Structural)]
pub enum CellType {
    Wall,
    Path,
    Start,
    End,
}

/// One grid cell: its kind and the visitation flag used while carving.
#[derive(Clone, Copy, Debug, PartialEq, Eq, Structural)]
pub struct Cell {
    pub cell_type: CellType,
    pub visited: bool,
}

/// Errors reported by the grid model and the generator.
#[derive(Clone, Copy, Debug, PartialEq, Eq, Structural)]
pub enum MazeError {
    /// A dimension is even or smaller than three.
    InvalidDimensions,
    /// A coordinate lies outside the grid.
    OutOfBounds,
    /// No row offers a carved cell next to the left or right border.
    PlacementFailed,
}

/// Both dimensions odd and at least three.
pub open spec fn valid_dims(width: int, height: int) -> bool {
    width >= 3 && height >= 3 && width % 2 == 1 && height % 2 == 1
}

pub open spec fn in_bounds(width: int, height: int, x: int, y: int) -> bool {
    0 <= x < width && 0 <= y < height
}

pub open spec fn on_border(width: int, height: int, x: int, y: int) -> bool {
    x == 0 || y == 0 || x == width - 1 || y == height - 1
}

/// A junction: both coordinates odd, strictly inside the border.
pub open spec fn is_junction(width: int, height: int, x: int, y: int) -> bool {
    0 < x < width - 1 && 0 < y < height - 1 && x % 2 == 1 && y % 2 == 1
}

/// Two junction positions one lattice step (two cells) apart.
pub open spec fn lattice_adjacent(x: int, y: int, u: int, v: int) -> bool {
    (x == u && (v == y + 2 || v == y - 2)) || (y == v && (u == x + 2 || u == x - 2))
}

/// Position of cell `(x, y)` in row-major storage.
pub open spec fn flat_index(width: int, x: int, y: int) -> int {
    y * width + x
}

/// Row-major positions of distinct in-bounds cells differ, and stay below `width * height`.
pub proof fn lemma_flat_index(width: int, height: int, x: int, y: int, u: int, v: int)
    requires
        in_bounds(width, height, x, y),
        in_bounds(width, height, u, v),
    ensures
        0 <= flat_index(width, x, y) < width * height,
        flat_index(width, x, y) == flat_index(width, u, v) ==> x == u && y == v,
{
    assert(0 <= y * width) by (nonlinear_arith)
        requires
            0 <= y,
            0 <= width,
    ;
    assert(y * width + x < width * height) by (nonlinear_arith)
        requires
            0 <= x < width,
            0 <= y < height,
    ;
    if y < v {
        assert(y * width + x < v * width + u) by (nonlinear_arith)
            requires
                0 <= x < width,
                0 <= u,
                y < v,
        ;
    } else if v < y {
        assert(v * width + u < y * width + x) by (nonlinear_arith)
            requires
                0 <= u < width,
                0 <= x,
                v < y,
        ;
    }
}

/// A rectangular grid of cells, stored row by row.
pub struct Maze {
    width: usize,
    height: usize,
    grid: Vec<Cell>,
}

impl Maze {
    pub closed spec fn w(&self) -> int {
        self.width as int
    }

    pub closed spec fn h(&self) -> int {
        self.height as int
    }

    /// The cell at column `x`, row `y`.
    pub closed spec fn cell_at(&self, x: int, y: int) -> Cell {
        self.grid@[flat_index(self.width as int, x, y)]
    }

    pub closed spec fn storage_ok(&self) -> bool {
        self.width * self.height <= usize::MAX && self.grid@.len() == self.width * self.height
    }

    /// Well-formed: odd dimensions of at least three, storage matching them.
    pub open spec fn wf(&self) -> bool {
        valid_dims(self.w(), self.h()) && self.storage_ok()
    }

    /// Each dimension, and their product, fits in a `usize`.
    pub proof fn lemma_dims_fit(&self)
        requires
            self.wf(),
        ensures
            self.w() <= usize::MAX,
            self.h() <= usize::MAX,
            self.w() * self.h() <= usize::MAX,
            self.w() + 2 <= usize::MAX,
            self.h() + 2 <= usize::MAX,
    {
        let (w, h) = (self.w(), self.h());
        assert(w * 3 <= w * h && h * 3 <= w * h) by (nonlinear_arith)
            requires
                w >= 3,
                h >= 3,
        ;
    }

    /// Every cell a wall, none visited: the state a new grid starts in.
    pub open spec fn is_blank(&self) -> bool {
        forall|x: int, y: int|
            in_bounds(self.w(), self.h(), x, y) ==> #[trigger] self.cell_at(x, y) == (Cell {
                cell_type: CellType::Wall,
                visited: false,
            })
    }

    /// `self` and `other` agree on every cell except possibly `(x, y)`.
    pub open spec fn same_except(&self, other: &Maze, x: int, y: int) -> bool {
        &&& self.w() == other.w()
        &&& self.h() == other.h()
        &&& forall|i: int, j: int|
            in_bounds(self.w(), self.h(), i, j) && !(i == x && j == y) ==> #[trigger] self.cell_at(
                i,
                j,
            ) == other.cell_at(i, j)
    }

    /// Creates a grid of the given size with every cell a wall and unvisited.
    pub fn new(width: usize, height: usize) -> (r: Result<Maze, MazeError>)
        requires
            width * height <= usize::MAX,
        ensures
            valid_dims(width as int, height as int) <==> r is Ok,
            r is Err ==> r == Err::<Maze, MazeError>(MazeError::InvalidDimensions),
            r matches Ok(m) ==> m.wf() && m.w() == width && m.h() == height && m.is_blank(),
    {
        if width < 3 || height < 3 || width % 2 == 0 || height % 2 == 0 {
            return Err(MazeError::InvalidDimensions);
        }
        let cell = Cell { cell_type: CellType::Wall, visited: false };
        let n: usize = width * height;
        let mut grid: Vec<Cell> = Vec::new();
        let mut i: usize = 0;
        while i < n
            invariant
                i <= n,
                grid@.len() == i,
                forall|k: int| 0 <= k < i ==> grid@[k] == cell,
            decreases n - i,
        {
            grid.push(cell);
            i = i + 1;
        }
        let m = Maze { width, height, grid };
        assert forall|x: int, y: int| in_bounds(width as int, height as int, x, y) implies #[trigger] m.cell_at(x, y) == cell by {
            lemma_flat_index(width as int, height as int, x, y, x, y);
        }
        Ok(m)
    }

    pub fn width(&self) -> (r: usize)
        ensures
            r == self.w(),
    {
        self.width
    }

    pub fn height(&self) -> (r: usize)
        ensures
            r == self.h(),
    {
        self.height
    }

    /// Unchecked read of an in-bounds cell.
    pub fn cell(&self, x: usize, y: usize) -> (r: Cell)
        requires
            self.wf(),
            in_bounds(self.w(), self.h(), x as int, y as int),
        ensures
            r == self.cell_at(x as int, y as int),
    {
        proof {
            lemma_flat_index(self.w(), self.h(), x as int, y as int, x as int, y as int);
        }
        self.grid[y * self.width + x]
    }

    /// Unchecked write of an in-bounds cell.
    pub(crate) fn put(&mut self, x: usize, y: usize, c: Cell)
        requires
            old(self).wf(),
            in_bounds(old(self).w(), old(self).h(), x as int, y as int),
        ensures
            final(self).wf(),
            final(self).same_except(&*old(self), x as int, y as int),
            final(self).cell_at(x as int, y as int) == c,
    {
        proof {
            lemma_flat_index(self.w(), self.h(), x as int, y as int, x as int, y as int);
        }
        let i: usize = y * self.width + x;
        self.grid.set(i, c);
        proof {
            assert forall|u: int, v: int|
                in_bounds(self.w(), self.h(), u, v) && !(u == x && v == y) implies #[trigger] self.cell_at(u, v)
                == old(self).cell_at(u, v) by {
                lemma_flat_index(self.w(), self.h(), x as int, y as int, u, v);
                lemma_flat_index(self.w(), self.h(), u, v, u, v);
            }
        }
    }

    /// Bounds-checked read.
    pub fn get(&self, x: usize, y: usize) -> (r: Result<Cell, MazeError>)
        requires
            self.wf(),
        ensures
            in_bounds(self.w(), self.h(), x as int, y as int) ==> r == Ok::<Cell, MazeError>(
                self.cell_at(x as int, y as int),
            ),
            !in_bounds(self.w(), self.h(), x as int, y as int) ==> r == Err::<Cell, MazeError>(
                MazeError::OutOfBounds,
            ),
    {
        if x >= self.width || y >= self.height {
            return Err(MazeError::OutOfBounds);
        }
        Ok(self.cell(x, y))
    }

    /// Bounds-checked query of the visited flag.
    pub fn is_visited(&self, x: usize, y: usize) -> (r: Result<bool, MazeError>)
        requires
            self.wf(),
        ensures
            in_bounds(self.w(), self.h(), x as int, y as int) ==> r == Ok::<bool, MazeError>(
                self.cell_at(x as int, y as int).visited,
            ),
            !in_bounds(self.w(), self.h(), x as int, y as int) ==> r == Err::<bool, MazeError>(
                MazeError::OutOfBounds,
            ),
    {
        if x >= self.width || y >= self.height {
            return Err(MazeError::OutOfBounds);
        }
        Ok(self.cell(x, y).visited)
    }

    /// Bounds-checked change of a cell's kind; its visited flag is kept.
    pub fn set_kind(&mut self, x: usize, y: usize, kind: CellType) -> (r: Result<(), MazeError>)
        requires
            old(self).wf(),
        ensures
            final(self).wf(),
            in_bounds(old(self).w(), old(self).h(), x as int, y as int) ==> r is Ok
                && final(self).same_except(&*old(self), x as int, y as int) && final(self).cell_at(
                x as int,
                y as int,
            ) == (Cell { cell_type: kind, visited: old(self).cell_at(x as int, y as int).visited }),
            !in_bounds(old(self).w(), old(self).h(), x as int, y as int) ==> r == Err::<
                (),
                MazeError,
            >(MazeError::OutOfBounds) && *final(self) == *old(self),
    {
        if x >= self.width || y >= self.height {
            return Err(MazeError::OutOfBounds);
        }
        self.set_kind_at(x, y, kind);
        Ok(())
    }

    /// Bounds-checked change of a cell's visited flag; its kind is kept.
    pub fn set_visited(&mut self, x: usize, y: usize, visited: bool) -> (r: Result<(), MazeError>)
        requires
            old(self).wf(),
        ensures
            final(self).wf(),
            in_bounds(old(self).w(), old(self).h(), x as int, y as int) ==> r is Ok
                && final(self).same_except(&*old(self), x as int, y as int) && final(self).cell_at(
                x as int,
                y as int,
            ) == (Cell {
                cell_type: old(self).cell_at(x as int, y as int).cell_type,
                visited: visited,
            }),
            !in_bounds(old(self).w(), old(self).h(), x as int, y as int) ==> r == Err::<
                (),
                MazeError,
            >(MazeError::OutOfBounds) && *final(self) == *old(self),
    {
        if x >= self.width || y >= self.height {
            return Err(MazeError::OutOfBounds);
        }
        let c = self.cell(x, y);
        self.put(x, y, Cell { cell_type: c.cell_type, visited });
        Ok(())
    }

    /// Unchecked change of an in-bounds cell's kind.
    pub(crate) fn set_kind_at(&mut self, x: usize, y: usize, kind: CellType)
        requires
            old(self).wf(),
            in_bounds(old(self).w(), old(self).h(), x as int, y as int),
        ensures
            final(self).wf(),
            final(self).same_except(&*old(self), x as int, y as int),
            final(self).cell_at(x as int, y as int) == (Cell {
                cell_type: kind,
                visited: old(self).cell_at(x as int, y as int).visited,
            }),
    {
        let c = self.cell(x, y);
        self.put(x, y, Cell { cell_type: kind, visited: c.visited });
    }
}

} // verus!
