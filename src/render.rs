use vstd::prelude::*;
use vstd::arithmetic::div_mod::{
    lemma_fundamental_div_mod_converse_div, lemma_fundamental_div_mod_converse_mod,
    lemma_multiply_divide_lt, lemma_mod_pos_bound, lemma_div_pos_is_pos};
use crate::grid::{CellType, Maze, in_bounds};

verus! {

/// An 8-bit RGB colour.
#[derive(Clone, Copy, Debug, PartialEq, Eq, Structural)]
pub struct Color {
    pub r: u8,
    pub g: u8,
    pub b: u8,
}

/// Channel `k` of `c`: red for 0, green for 1, blue otherwise.
pub open spec fn channel(c: Color, k: int) -> u8 {
    if k == 0 {
        c.r
    } else if k == 1 {
        c.g
    } else {
        c.b
    }
}

/// The colour drawn for each kind of cell.
#[derive(Clone, Copy, Debug, PartialEq, Eq, Structural)]
pub struct Palette {
    pub wall: Color,
    pub path: Color,
    pub start: Color,
    pub end: Color,
}

impl Palette {
    pub open spec fn color_spec(&self, cell_type: CellType) -> Color {
        match cell_type {
            CellType::Wall => self.wall,
            CellType::Path => self.path,
            CellType::Start => self.start,
            CellType::End => self.end,
        }
    }

    /// Dark slate walls, off-white paths, a blue start and an orange end.
    pub fn default() -> (r: Palette)
        ensures
            r.wall == (Color { r: 34, g: 40, b: 49 }),
            r.path == (Color { r: 233, g: 227, b: 223 }),
            r.start == (Color { r: 70, g: 92, b: 136 }),
            r.end == (Color { r: 225, g: 122, b: 48 }),
    {
        Palette {
            wall: Color { r: 34, g: 40, b: 49 },
            path: Color { r: 233, g: 227, b: 223 },
            start: Color { r: 70, g: 92, b: 136 },
            end: Color { r: 225, g: 122, b: 48 },
        }
    }

    pub fn color_for(&self, cell_type: CellType) -> (r: Color)
        ensures
            r == self.color_spec(cell_type),
    {
        match cell_type {
            CellType::Wall => self.wall,
            CellType::Path => self.path,
            CellType::Start => self.start,
            CellType::End => self.end,
        }
    }
}

impl Maze {
    /// Byte `i` of the row-major RGB raster in which every cell is a
    /// `cell_size` by `cell_size` block of its palette colour.
    pub open spec fn raster_byte(&self, palette: &Palette, cell_size: int, i: int) -> u8 {
        let pixel = i / 3;
        let row_len = self.w() * cell_size;
        let px = pixel % row_len;
        let py = pixel / row_len;
        channel(
            palette.color_spec(self.cell_at(px / cell_size, py / cell_size).cell_type),
            i % 3,
        )
    }

    /// Rasterizes the grid: `width * cell_size` by `height * cell_size` pixels,
    /// three bytes (red, green, blue) each, row by row.
    pub fn render_rgb(&self, palette: &Palette, cell_size: usize) -> (r: Vec<u8>)
        requires
            self.wf(),
            cell_size > 0,
            self.w() * cell_size * (self.h() * cell_size) * 3 <= usize::MAX,
        ensures
            r@.len() == self.w() * cell_size * (self.h() * cell_size) * 3,
            forall|i: int| 0 <= i < r@.len() ==> #[trigger] r@[i] == self.raster_byte(palette, cell_size as int, i),
    {
        let ghost n = cell_size as int;
        let w = self.width();
        let h = self.height();
        assert(w * n <= w * n * (h * n) * 3) by (nonlinear_arith)
            requires w >= 1, h >= 1, n >= 1;
        assert(w * n * (h * n) <= w * n * (h * n) * 3) by (nonlinear_arith)
            requires w >= 1, h >= 1, n >= 1;
        assert(h * n <= w * n * (h * n) * 3 && w * n >= 1) by (nonlinear_arith)
            requires w >= 1, h >= 1, n >= 1;
        let row_len: usize = w * cell_size;
        let total: usize = row_len * (h * cell_size);
        let mut out: Vec<u8> = Vec::new();
        let mut k: usize = 0;
        while k < total
            invariant
                k <= total,
                self.wf(),
                n > 0,
                n == cell_size,
                w == self.w(),
                h == self.h(),
                row_len == w * n,
                row_len > 0,
                total == row_len * (h * n),
                out@.len() == 3 * k,
                forall|i: int| 0 <= i < out@.len() ==> #[trigger] out@[i] == self.raster_byte(palette, n, i),
            decreases total - k,
        {
            let px = k % row_len;
            let py = k / row_len;
            proof {
                lemma_mod_pos_bound(k as int, row_len as int);
                lemma_div_pos_is_pos(k as int, row_len as int);
                lemma_multiply_divide_lt(k as int, row_len as int, h * n);
                lemma_multiply_divide_lt(px as int, n, w as int);
                assert(n * (h as int) == h * n) by (nonlinear_arith);
                assert(n * (w as int) == w * n) by (nonlinear_arith);
                lemma_multiply_divide_lt(py as int, n, h as int);
                lemma_div_pos_is_pos(px as int, n);
                lemma_div_pos_is_pos(py as int, n);
            }
            let c = palette.color_for(self.cell(px / cell_size, py / cell_size).cell_type);
            let ghost before = out@;
            out.push(c.r);
            out.push(c.g);
            out.push(c.b);
            proof {
                assert forall|i: int| 0 <= i < out@.len() implies #[trigger] out@[i] == self.raster_byte(palette, n, i) by {
                    if i < 3 * k {
                        assert(out@[i] == before[i]);
                    } else {
                        assert(i / 3 == k);
                    }
                }
            }
            k = k + 1;
        }
        out
    }
}

/// The character a cell is drawn with in the text dump.
pub open spec fn symbol_spec(cell_type: CellType) -> char {
    match cell_type {
        CellType::Wall => '#',
        CellType::Path => ' ',
        CellType::Start => 'O',
        CellType::End => 'X',
    }
}

pub fn symbol_for(cell_type: CellType) -> (r: char)
    ensures
        r == symbol_spec(cell_type),
{
    match cell_type {
        CellType::Wall => '#',
        CellType::Path => ' ',
        CellType::Start => 'O',
        CellType::End => 'X',
    }
}

impl Maze {
    /// Character `i` of the text dump: one line of `width` symbols per row,
    /// each line ended by a newline.
    pub open spec fn text_char(&self, i: int) -> char {
        let line = self.w() + 1;
        if i % line == self.w() {
            '\n'
        } else {
            symbol_spec(self.cell_at(i % line, i / line).cell_type)
        }
    }

    /// The grid as text, row by row.
    pub fn to_text(&self) -> (r: Vec<char>)
        requires
            self.wf(),
        ensures
            r@.len() == (self.w() + 1) * self.h(),
            forall|i: int| 0 <= i < r@.len() ==> #[trigger] r@[i] == self.text_char(i),
    {
        let w = self.width();
        let h = self.height();
        let ghost line = w + 1;
        proof {
            self.lemma_dims_fit();
        }
        let mut out: Vec<char> = Vec::new();
        let mut y: usize = 0;
        while y < h
            invariant
                self.wf(),
                w == self.w(),
                h == self.h(),
                line == w + 1,
                y <= h,
                w + 2 <= usize::MAX,
                out@.len() == y * line,
                forall|i: int| 0 <= i < out@.len() ==> #[trigger] out@[i] == self.text_char(i),
            decreases h - y,
        {
            let mut x: usize = 0;
            while x <= w
                invariant
                    self.wf(),
                    w == self.w(),
                    h == self.h(),
                    line == w + 1,
                    y < h,
                    x <= w + 1,
                    w + 2 <= usize::MAX,
                    out@.len() == y * line + x,
                    forall|i: int| 0 <= i < out@.len() ==> #[trigger] out@[i] == self.text_char(i),
                decreases w + 1 - x,
            {
                let ghost p = out@.len() as int;
                let ghost before = out@;
                proof {
                    lemma_fundamental_div_mod_converse_mod(p, line, y as int, x as int);
                    lemma_fundamental_div_mod_converse_div(p, line, y as int, x as int);
                }
                if x == w {
                    out.push('\n');
                } else {
                    out.push(symbol_for(self.cell(x, y).cell_type));
                }
                proof {
                    assert forall|i: int| 0 <= i < out@.len() implies #[trigger] out@[i] == self.text_char(i) by {
                        if i < p {
                            assert(out@[i] == before[i]);
                        }
                    }
                }
                x = x + 1;
            }
            assert((y + 1) * line == y * line + line) by (nonlinear_arith);
            y = y + 1;
        }
        assert(h * line == line * h) by (nonlinear_arith);
        out
    }
}

} // verus!
