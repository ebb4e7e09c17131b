use maze_gen::grid::{Cell, CellType, Maze, MazeError};
use maze_gen::render::{symbol_for, Color, Palette};

fn kind(m: &Maze, x: usize, y: usize) -> CellType {
    m.get(x, y).unwrap().cell_type
}

/// Checks the structure every generated maze must have; returns the number
/// of junctions and of carved connectors.
fn check_structure(m: &Maze) -> (usize, usize) {
    let (w, h) = (m.width(), m.height());
    let mut junctions = 0;
    for y in (1..h - 1).step_by(2) {
        for x in (1..w - 1).step_by(2) {
            let c = m.get(x, y).unwrap();
            assert_eq!(c.cell_type, CellType::Path);
            assert!(c.visited);
            junctions += 1;
        }
    }
    let mut starts = vec![];
    let mut ends = vec![];
    for y in 0..h {
        for x in 0..w {
            match kind(m, x, y) {
                CellType::Start => starts.push((x, y)),
                CellType::End => ends.push((x, y)),
                CellType::Wall => {}
                CellType::Path => {
                    assert!(x > 0 && y > 0 && x < w - 1 && y < h - 1);
                    assert!(x % 2 == 1 || y % 2 == 1);
                }
            }
        }
    }
    assert_eq!(starts.len(), 1);
    assert_eq!(ends.len(), 1);
    let (sx, sy) = starts[0];
    let (ex, ey) = ends[0];
    assert_eq!(sx, 0);
    assert_eq!(ex, w - 1);
    assert!(sy >= 1 && sy <= h - 2 && ey >= 1 && ey <= h - 2);
    assert_eq!(kind(m, 1, sy), CellType::Path);
    assert_eq!(kind(m, w - 2, ey), CellType::Path);
    let mut connectors = 0;
    for y in 1..h - 1 {
        for x in 1..w - 1 {
            if (x % 2 == 0) != (y % 2 == 0) && kind(m, x, y) == CellType::Path {
                connectors += 1;
            }
        }
    }
    // Every junction is reachable from (1, 1) through carved connectors.
    let mut seen = vec![vec![false; w]; h];
    let mut todo = vec![(1usize, 1usize)];
    seen[1][1] = true;
    let mut reached = 0;
    while let Some((x, y)) = todo.pop() {
        reached += 1;
        let steps: [(isize, isize); 4] = [(0, -1), (0, 1), (-1, 0), (1, 0)];
        for (dx, dy) in steps {
            let nx = x as isize + 2 * dx;
            let ny = y as isize + 2 * dy;
            if nx <= 0 || ny <= 0 || nx >= w as isize - 1 || ny >= h as isize - 1 {
                continue;
            }
            let (nx, ny) = (nx as usize, ny as usize);
            let cx = (x as isize + dx) as usize;
            let cy = (y as isize + dy) as usize;
            if kind(m, cx, cy) == CellType::Path && !seen[ny][nx] {
                seen[ny][nx] = true;
                todo.push((nx, ny));
            }
        }
    }
    assert_eq!(reached, junctions);
    (junctions, connectors)
}

#[test]
fn new_rejects_even_width() {
    assert!(matches!(Maze::new(10, 51), Err(MazeError::InvalidDimensions)));
}

#[test]
fn new_rejects_even_height() {
    assert!(matches!(Maze::new(125, 50), Err(MazeError::InvalidDimensions)));
}

#[test]
fn new_rejects_too_small() {
    assert!(matches!(Maze::new(1, 1), Err(MazeError::InvalidDimensions)));
    assert!(matches!(Maze::new(1, 5), Err(MazeError::InvalidDimensions)));
    assert!(matches!(Maze::new(0, 3), Err(MazeError::InvalidDimensions)));
}

#[test]
fn new_grid_is_blank() {
    let m = Maze::new(5, 7).unwrap();
    assert_eq!(m.width(), 5);
    assert_eq!(m.height(), 7);
    for y in 0..7 {
        for x in 0..5 {
            assert_eq!(m.get(x, y).unwrap(), Cell { cell_type: CellType::Wall, visited: false });
        }
    }
}

#[test]
fn access_out_of_bounds() {
    let mut m = Maze::new(3, 5).unwrap();
    assert_eq!(m.get(3, 0), Err(MazeError::OutOfBounds));
    assert_eq!(m.get(0, 5), Err(MazeError::OutOfBounds));
    assert_eq!(m.is_visited(7, 1), Err(MazeError::OutOfBounds));
    assert_eq!(m.set_kind(3, 1, CellType::Path), Err(MazeError::OutOfBounds));
    assert_eq!(m.set_visited(1, 5, true), Err(MazeError::OutOfBounds));
}

#[test]
fn set_kind_and_visited() {
    let mut m = Maze::new(3, 3).unwrap();
    assert_eq!(m.set_kind(1, 2, CellType::Path), Ok(()));
    assert_eq!(m.get(1, 2), Ok(Cell { cell_type: CellType::Path, visited: false }));
    assert_eq!(m.set_visited(1, 2, true), Ok(()));
    assert_eq!(m.is_visited(1, 2), Ok(true));
    assert_eq!(m.get(1, 2), Ok(Cell { cell_type: CellType::Path, visited: true }));
    assert_eq!(m.get(2, 1), Ok(Cell { cell_type: CellType::Wall, visited: false }));
}

#[test]
fn smallest_maze() {
    let mut m = Maze::new(3, 3).unwrap();
    m.generate_dfs_stack();
    assert_eq!(m.get(1, 1), Ok(Cell { cell_type: CellType::Path, visited: true }));
    assert_eq!(kind(&m, 0, 1), CellType::Start);
    assert_eq!(kind(&m, 2, 1), CellType::End);
    assert_eq!(check_structure(&m), (1, 0));
    let text: String = m.to_text().into_iter().collect();
    assert_eq!(text, "###\nO X\n###\n");
}

#[test]
fn generated_maze_is_perfect() {
    let mut m = Maze::new(125, 51).unwrap();
    m.generate_dfs_stack();
    let (junctions, connectors) = check_structure(&m);
    assert_eq!(junctions, 62 * 25);
    assert_eq!(connectors, junctions - 1);
}

#[test]
fn two_generations_both_valid() {
    let mut a = Maze::new(125, 51).unwrap();
    let mut b = Maze::new(125, 51).unwrap();
    a.generate_dfs_stack();
    b.generate_dfs_stack();
    let (ja, ca) = check_structure(&a);
    let (jb, cb) = check_structure(&b);
    assert_eq!(ca + 1, ja);
    assert_eq!(cb + 1, jb);
}

#[test]
fn non_square_mazes() {
    for (w, h) in [(3, 9), (9, 3), (5, 5), (21, 7)] {
        let mut m = Maze::new(w, h).unwrap();
        m.generate_dfs_stack();
        let (j, c) = check_structure(&m);
        assert_eq!(j, (w / 2) * (h / 2));
        assert_eq!(c + 1, j);
    }
}

#[test]
fn placement_fails_without_paths() {
    let mut m = Maze::new(5, 5).unwrap();
    assert_eq!(m.set_start_stop_cells(), Err(MazeError::PlacementFailed));
    for y in 0..5 {
        for x in 0..5 {
            assert_eq!(kind(&m, x, y), CellType::Wall);
        }
    }
}

#[test]
fn placement_uses_only_open_rows() {
    let mut m = Maze::new(5, 7).unwrap();
    m.set_kind(1, 3, CellType::Path).unwrap();
    m.set_kind(3, 5, CellType::Path).unwrap();
    assert_eq!(m.set_start_stop_cells(), Ok(()));
    assert_eq!(kind(&m, 0, 3), CellType::Start);
    assert_eq!(kind(&m, 4, 5), CellType::End);
}

#[test]
fn random_fill_keeps_border() {
    let mut m = Maze::new(15, 9).unwrap();
    m.generate_random();
    for y in 0..9 {
        for x in 0..15 {
            let k = kind(&m, x, y);
            if x == 0 || y == 0 || x == 14 || y == 8 {
                assert_eq!(k, CellType::Wall);
            } else {
                assert!(k == CellType::Wall || k == CellType::Path);
            }
            assert!(!m.get(x, y).unwrap().visited);
        }
    }
}

#[test]
fn palette_colors() {
    let p = Palette::default();
    assert_eq!(p.color_for(CellType::Wall), Color { r: 34, g: 40, b: 49 });
    assert_eq!(p.color_for(CellType::Path), Color { r: 233, g: 227, b: 223 });
    assert_eq!(p.color_for(CellType::Start), Color { r: 70, g: 92, b: 136 });
    assert_eq!(p.color_for(CellType::End), Color { r: 225, g: 122, b: 48 });
}

#[test]
fn render_blocks_match_cells() {
    let mut m = Maze::new(125, 51).unwrap();
    m.generate_dfs_stack();
    let p = Palette::default();
    let buf = m.render_rgb(&p, 10);
    let (iw, ih) = (125 * 10, 51 * 10);
    assert_eq!(buf.len(), iw * ih * 3);
    for py in 0..ih {
        for px in 0..iw {
            let c = p.color_for(kind(&m, px / 10, py / 10));
            let i = (py * iw + px) * 3;
            assert_eq!((buf[i], buf[i + 1], buf[i + 2]), (c.r, c.g, c.b));
        }
    }
}

#[test]
fn render_small_exact() {
    let mut m = Maze::new(3, 3).unwrap();
    m.set_kind(1, 1, CellType::Path).unwrap();
    let p = Palette::default();
    let buf = m.render_rgb(&p, 2);
    assert_eq!(buf.len(), 6 * 6 * 3);
    // Pixel (2, 2) lies in cell (1, 1); pixel (1, 2) in cell (0, 1).
    assert_eq!(&buf[(2 * 6 + 2) * 3..(2 * 6 + 2) * 3 + 3], &[233, 227, 223]);
    assert_eq!(&buf[(2 * 6 + 1) * 3..(2 * 6 + 1) * 3 + 3], &[34, 40, 49]);
}

#[test]
fn text_symbols() {
    assert_eq!(symbol_for(CellType::Wall), '#');
    assert_eq!(symbol_for(CellType::Path), ' ');
    assert_eq!(symbol_for(CellType::Start), 'O');
    assert_eq!(symbol_for(CellType::End), 'X');
}
