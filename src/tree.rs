use vstd::prelude::*;
use vstd::arithmetic::div_mod::{
    lemma_div_pos_is_pos, lemma_mod_pos_bound, lemma_multiply_divide_lt, lemma_fundamental_div_mod,
    lemma_fundamental_div_mod_converse_div, lemma_fundamental_div_mod_converse_mod,
};
use crate::grid::{
    Cell, CellType, Maze, in_bounds, is_junction, lattice_adjacent, flat_index, lemma_flat_index,
};
use crate::generate::{Direction, step_target, step_wall};

verus! {

/// A connector: an inner cell with exactly one even coordinate, lying between
/// two junctions one lattice step apart.
pub open spec fn is_connector(width: int, height: int, x: int, y: int) -> bool {
    0 < x < width - 1 && 0 < y < height - 1 && ((x % 2 == 0) != (y % 2 == 0))
}

impl Maze {
    /// `p` is a walk over the maze: junctions, each one lattice step from the
    /// next, with the connector between them carved.
    pub open spec fn is_walk(&self, p: Seq<(int, int)>) -> bool {
        &&& p.len() > 0
        &&& forall|i: int|
            0 <= i < p.len() ==> is_junction(self.w(), self.h(), #[trigger] p[i].0, p[i].1)
        &&& forall|i: int| 0 <= i < p.len() - 1 ==> #[trigger] self.carved_step(p[i], p[i + 1])
    }

    /// Junctions `a` and `b` are one lattice step apart and the connector
    /// between them is carved.
    pub open spec fn carved_step(&self, a: (int, int), b: (int, int)) -> bool {
        lattice_adjacent(a.0, a.1, b.0, b.1) && self.cell_at((a.0 + b.0) / 2, (a.1 + b.1) / 2).cell_type
            == CellType::Path
    }

    /// Some walk leads from junction `(x, y)` to junction `(rx, ry)`.
    pub open spec fn joined(&self, x: int, y: int, rx: int, ry: int) -> bool {
        exists|p: Seq<(int, int)>|
            #[trigger] self.is_walk(p) && p[0] == (x, y) && p[p.len() - 1] == (rx, ry)
    }

    /// Row-major positions of the carved connectors: the edges of the maze.
    pub open spec fn connector_keys(&self) -> Set<int> {
        Set::new(
            |i: int|
                0 <= i < self.w() * self.h() && is_connector(self.w(), self.h(), i % self.w(), i / self.w())
                    && self.cell_at(i % self.w(), i / self.w()).cell_type == CellType::Path,
        )
    }

    /// Row-major positions of the junctions: the rooms of the maze.
    pub open spec fn junction_keys(&self) -> Set<int> {
        Set::new(
            |i: int|
                0 <= i < self.w() * self.h() && is_junction(self.w(), self.h(), i % self.w(), i / self.w()),
        )
    }

    /// The junctions with the carved connectors between them form a spanning
    /// tree: one edge fewer than rooms, and every room joined to one root.
    pub open spec fn is_spanning_tree(&self) -> bool {
        &&& self.connector_keys().finite()
        &&& self.junction_keys().finite()
        &&& self.connector_keys().len() + 1 == self.junction_keys().len()
        &&& exists|rx: int, ry: int|
            is_junction(self.w(), self.h(), rx, ry) && forall|x: int, y: int|
                is_junction(self.w(), self.h(), x, y) ==> #[trigger] self.joined(x, y, rx, ry)
    }

    /// `(u, v)` is a carved connector.
    pub open spec fn carved_at(&self, u: int, v: int) -> bool {
        is_connector(self.w(), self.h(), u, v) && self.cell_at(u, v).cell_type == CellType::Path
    }

    /// Both ends of every carved connector are visited.
    pub(crate) open spec fn ends_visited(&self) -> bool {
        forall|u: int, v: int|
            #[trigger] self.carved_at(u, v) ==> if u % 2 == 0 {
                self.cell_at(u - 1, v).visited && self.cell_at(u + 1, v).visited
            } else {
                self.cell_at(u, v - 1).visited && self.cell_at(u, v + 1).visited
            }
    }

    /// Every visited junction is joined to `(x0, y0)`.
    pub(crate) open spec fn visited_joined(&self, x0: int, y0: int) -> bool {
        forall|u: int, v: int|
            #![trigger self.cell_at(u, v)]
            is_junction(self.w(), self.h(), u, v) && self.cell_at(u, v).visited ==> self.joined(
                u,
                v,
                x0,
                y0,
            )
    }

    /// Bookkeeping of the carved edges between two steps of the walk.
    pub(crate) open spec fn tree_state(&self, x0: int, y0: int, seen: Set<int>) -> bool {
        let (wd, ht) = (self.w(), self.h());
        &&& forall|i: int|
            #[trigger] seen.contains(i) ==> 0 <= i < wd * ht && is_junction(wd, ht, i % wd, i / wd)
        &&& self.ends_visited()
        &&& self.connector_keys().finite()
        &&& self.connector_keys().len() + 1 == seen.len()
        &&& self.visited_joined(x0, y0)
    }

    /// `self` is `before` after carving the connector from junction `(x, y)`
    /// in direction `d` and marking the junction beyond it.
    pub(crate) open spec fn carve_frame(&self, before: Maze, x: int, y: int, d: Direction) -> bool {
        let (wd, ht) = (before.w(), before.h());
        let (nx, ny) = step_target(x, y, d);
        let (wx, wy) = step_wall(x, y, d);
        &&& before.wf()
        &&& self.wf()
        &&& self.w() == wd
        &&& self.h() == ht
        &&& is_junction(wd, ht, x, y)
        &&& before.cell_at(x, y).visited
        &&& before.open_step(x, y, d)
        &&& self.cell_at(wx, wy).cell_type == CellType::Path
        &&& self.cell_at(nx, ny) == (Cell { cell_type: CellType::Path, visited: true })
        &&& forall|u: int, v: int|
            #![trigger self.cell_at(u, v)]
            in_bounds(wd, ht, u, v) ==> self.cell_at(u, v).visited == (before.cell_at(u, v).visited
                || (u == nx && v == ny)) && (!(u == nx && v == ny) && !(u == wx && v == wy)
                ==> self.cell_at(u, v) == before.cell_at(u, v))
    }

    proof fn lemma_frame_edges(&self, before: Maze, x: int, y: int, d: Direction)
        requires
            self.carve_frame(before, x, y, d),
            before.cell_at(step_wall(x, y, d).0, step_wall(x, y, d).1).cell_type != CellType::Path,
        ensures
            self.connector_keys() =~= before.connector_keys().insert(
                flat_index(before.w(), step_wall(x, y, d).0, step_wall(x, y, d).1),
            ),
            !before.connector_keys().contains(
                flat_index(before.w(), step_wall(x, y, d).0, step_wall(x, y, d).1),
            ),
    {
        let (wd, ht) = (before.w(), before.h());
        let (nx, ny) = step_target(x, y, d);
        let (wx, wy) = step_wall(x, y, d);
        let kc = flat_index(wd, wx, wy);
        lemma_flat_index(wd, ht, wx, wy, wx, wy);
        lemma_key_coords(wd, ht, kc, wx, wy);
        assert forall|i: int| #[trigger]
            self.connector_keys().contains(i) == before.connector_keys().insert(kc).contains(i) by {
            if 0 <= i < wd * ht {
                lemma_key_in_bounds(wd, ht, i);
                lemma_key_coords(wd, ht, i, wx, wy);
                let (a, b) = (i % wd, i / wd);
                assert(in_bounds(wd, ht, a, b));
            }
        }
    }

    proof fn lemma_frame_ends(&self, before: Maze, x: int, y: int, d: Direction)
        requires
            self.carve_frame(before, x, y, d),
            before.ends_visited(),
        ensures
            self.ends_visited(),
    {
        let (wd, ht) = (before.w(), before.h());
        let (nx, ny) = step_target(x, y, d);
        let (wx, wy) = step_wall(x, y, d);
        assert forall|u: int, v: int| #[trigger]
            self.carved_at(u, v) implies if u % 2 == 0 {
            self.cell_at(u - 1, v).visited && self.cell_at(u + 1, v).visited
        } else {
            self.cell_at(u, v - 1).visited && self.cell_at(u, v + 1).visited
        } by {
            assert(in_bounds(wd, ht, u, v));
            assert(in_bounds(wd, ht, u - 1, v) && in_bounds(wd, ht, u + 1, v));
            assert(in_bounds(wd, ht, u, v - 1) && in_bounds(wd, ht, u, v + 1));
            assert(in_bounds(wd, ht, x, y));
            if u == wx && v == wy {
                if u % 2 == 0 {
                    assert(v == y);
                    assert((u - 1 == x && u + 1 == nx) || (u + 1 == x && u - 1 == nx));
                } else {
                    assert(u == x);
                    assert((v - 1 == y && v + 1 == ny) || (v + 1 == y && v - 1 == ny));
                }
            } else {
                assert(!(u == nx && v == ny));
                assert(before.cell_at(u, v) == self.cell_at(u, v));
                assert(before.carved_at(u, v));
            }
        }
    }

    proof fn lemma_frame_joined(&self, before: Maze, x: int, y: int, d: Direction, x0: int, y0: int)
        requires
            self.carve_frame(before, x, y, d),
            before.visited_joined(x0, y0),
        ensures
            self.visited_joined(x0, y0),
    {
        let (wd, ht) = (before.w(), before.h());
        let (nx, ny) = step_target(x, y, d);
        let (wx, wy) = step_wall(x, y, d);
        assert forall|i: int, j: int|
            0 < i < wd - 1 && 0 < j < ht - 1 && #[trigger] before.cell_at(i, j).cell_type
                == CellType::Path implies self.cell_at(i, j).cell_type == CellType::Path by {
            assert(in_bounds(wd, ht, i, j));
        }
        assert forall|u: int, v: int|
            #![trigger self.cell_at(u, v)]
            is_junction(wd, ht, u, v) && self.cell_at(u, v).visited implies self.joined(
            u,
            v,
            x0,
            y0,
        ) by {
            assert(in_bounds(wd, ht, u, v));
            if u == nx && v == ny {
                assert(in_bounds(wd, ht, x, y));
                assert(before.joined(x, y, x0, y0));
                let p = choose|p: Seq<(int, int)>|
                    #[trigger] before.is_walk(p) && p[0] == (x, y) && p[p.len() - 1] == (x0, y0);
                lemma_walk_kept(&before, self, p);
                let q = seq![(nx, ny)] + p;
                assert(q[0] == (nx, ny));
                assert forall|i: int| 0 <= i < q.len() implies is_junction(wd, ht, #[trigger] q[i].0, q[i].1) by {
                    if i > 0 {
                        assert(q[i] == p[i - 1]);
                    }
                }
                assert forall|i: int| 0 <= i < q.len() - 1 implies #[trigger] self.carved_step(q[i], q[i + 1]) by {
                    if i > 0 {
                        let j = i - 1;
                        assert(q[i] == p[j]);
                        assert(q[i + 1] == p[j + 1]);
                        assert(self.carved_step(p[j], p[j + 1]));
                    } else {
                        assert(q[1] == p[0]);
                        assert(((nx + x) / 2, (ny + y) / 2) == (wx, wy));
                    }
                }
                assert(q[q.len() - 1] == p[p.len() - 1]);
                assert(self.is_walk(q));
            } else {
                assert(before.cell_at(u, v).visited);
                assert(before.joined(u, v, x0, y0));
                let p = choose|p: Seq<(int, int)>|
                    #[trigger] before.is_walk(p) && p[0] == (u, v) && p[p.len() - 1] == (x0, y0);
                lemma_walk_kept(&before, self, p);
            }
        }
    }
}

/// A walk over carved connectors stays one when no inner path cell is filled in.
proof fn lemma_walk_kept(a: &Maze, b: &Maze, p: Seq<(int, int)>)
    requires
        a.w() == b.w(),
        a.h() == b.h(),
        forall|i: int, j: int|
            0 < i < a.w() - 1 && 0 < j < a.h() - 1 && #[trigger] a.cell_at(i, j).cell_type
                == CellType::Path ==> b.cell_at(i, j).cell_type == CellType::Path,
        a.is_walk(p),
    ensures
        b.is_walk(p),
{
    assert forall|i: int| 0 <= i < p.len() - 1 implies #[trigger] b.carved_step(p[i], p[i + 1]) by {
        assert(a.carved_step(p[i], p[i + 1]));
        assert(is_junction(a.w(), a.h(), p[i].0, p[i].1));
        assert(is_junction(a.w(), a.h(), p[i + 1].0, p[i + 1].1));
    }
}

/// Row-major position and coordinates determine each other.
proof fn lemma_key_coords(wd: int, ht: int, i: int, x: int, y: int)
    requires
        wd > 0,
        in_bounds(wd, ht, x, y),
        0 <= i,
    ensures
        i == flat_index(wd, x, y) <==> (i % wd == x && i / wd == y),
{
    lemma_fundamental_div_mod(i, wd);
    if i == flat_index(wd, x, y) {
        lemma_fundamental_div_mod_converse_mod(i, wd, y, x);
        lemma_fundamental_div_mod_converse_div(i, wd, y, x);
    }
    assert((wd * (i / wd) + (i % wd)) == (i / wd) * wd + (i % wd)) by (nonlinear_arith);
}

/// The row-major position `i` of an in-bounds cell gives back its coordinates.
proof fn lemma_key_in_bounds(wd: int, ht: int, i: int)
    requires
        wd > 0,
        ht > 0,
        0 <= i < wd * ht,
    ensures
        in_bounds(wd, ht, i % wd, i / wd),
        i == flat_index(wd, i % wd, i / wd),
{
    lemma_mod_pos_bound(i, wd);
    lemma_div_pos_is_pos(i, wd);
    assert(wd * ht == ht * wd) by (nonlinear_arith);
    lemma_multiply_divide_lt(i, wd, ht);
    lemma_fundamental_div_mod(i, wd);
    assert(wd * (i / wd) == (i / wd) * wd) by (nonlinear_arith);
}

impl Maze {
    /// Carving one connector towards an unvisited junction adds one edge and
    /// one room, and joins the new room to the seed.
    pub(crate) proof fn lemma_tree_step(
        &self,
        before: Maze,
        mid: Maze,
        x0: int,
        y0: int,
        x: int,
        y: int,
        d: Direction,
        pre: Seq<(usize, usize)>,
        seen: Set<int>,
    )
        requires
            before.dfs_state(x0, y0, pre, seen),
            before.tree_state(x0, y0, seen),
            pre.len() > 0,
            pre[pre.len() - 1].0 == x,
            pre[pre.len() - 1].1 == y,
            before.open_step(x, y, d),
            mid.wf(),
            mid.same_except(&before, step_wall(x, y, d).0, step_wall(x, y, d).1),
            mid.cell_at(step_wall(x, y, d).0, step_wall(x, y, d).1) == (Cell {
                cell_type: CellType::Path,
                visited: before.cell_at(step_wall(x, y, d).0, step_wall(x, y, d).1).visited,
            }),
            self.wf(),
            self.same_except(&mid, step_target(x, y, d).0, step_target(x, y, d).1),
            self.cell_at(step_target(x, y, d).0, step_target(x, y, d).1) == (Cell {
                cell_type: CellType::Path,
                visited: true,
            }),
        ensures
            self.tree_state(
                x0,
                y0,
                seen.insert(flat_index(before.w(), step_target(x, y, d).0, step_target(x, y, d).1)),
            ),
    {
        let (wd, ht) = (before.w(), before.h());
        let (nx, ny) = step_target(x, y, d);
        let (wx, wy) = step_wall(x, y, d);
        let kn = flat_index(wd, nx, ny);
        let seen2 = seen.insert(kn);
        assert(is_junction(wd, ht, pre[pre.len() - 1].0 as int, pre[pre.len() - 1].1 as int));
        assert(before.cell_at(x, y).visited);
        assert(in_bounds(wd, ht, nx, ny));
        lemma_flat_index(wd, ht, nx, ny, nx, ny);
        lemma_key_coords(wd, ht, kn, nx, ny);
        assert forall|u: int, v: int|
            #![trigger self.cell_at(u, v)]
            in_bounds(wd, ht, u, v) implies self.cell_at(u, v).visited == (before.cell_at(
            u,
            v,
        ).visited || (u == nx && v == ny)) && (!(u == nx && v == ny) && !(u == wx && v == wy)
            ==> self.cell_at(u, v) == before.cell_at(u, v)) by {
            assert(mid.cell_at(u, v) == before.cell_at(u, v) || (u == wx && v == wy));
        }
        assert(self.carve_frame(before, x, y, d));
        // The connector was not carved yet: its far end was unvisited.
        assert(is_connector(wd, ht, wx, wy));
        assert(!before.carved_at(wx, wy));
        self.lemma_frame_edges(before, x, y, d);
        self.lemma_frame_ends(before, x, y, d);
        self.lemma_frame_joined(before, x, y, d, x0, y0);
        assert(!seen.contains(kn)) by {
            assert(is_junction(wd, ht, nx, ny));
            assert(!before.cell_at(nx, ny).visited);
        }
        assert forall|i: int| #[trigger]
            seen2.contains(i) implies 0 <= i < wd * ht && is_junction(wd, ht, i % wd, i / wd) by {
            if i != kn {
                assert(seen.contains(i));
            }
        }
    }
}

impl Maze {
    /// The walk's bookkeeping holds once the seed alone is visited.
    pub(crate) proof fn lemma_first_room(&self, blank: Maze, x0: int, y0: int)
        requires
            blank.wf(),
            blank.is_blank(),
            self.wf(),
            is_junction(blank.w(), blank.h(), x0, y0),
            self.same_except(&blank, x0, y0),
            self.cell_at(x0, y0) == (Cell { cell_type: CellType::Path, visited: true }),
        ensures
            self.tree_state(x0, y0, set![flat_index(blank.w(), x0, y0)]),
    {
        let (wd, ht) = (blank.w(), blank.h());
        let k0 = flat_index(wd, x0, y0);
        lemma_flat_index(wd, ht, x0, y0, x0, y0);
        lemma_key_coords(wd, ht, k0, x0, y0);
        assert forall|u: int, v: int| in_bounds(wd, ht, u, v) && !(u == x0 && v == y0) implies #[trigger] self.cell_at(u, v) == (Cell { cell_type: CellType::Wall, visited: false }) by {
            assert(blank.cell_at(u, v) == self.cell_at(u, v));
        }
        assert(self.connector_keys() =~= Set::<int>::empty()) by {
            assert forall|i: int| !#[trigger] self.connector_keys().contains(i) by {
                if 0 <= i < wd * ht {
                    lemma_key_in_bounds(wd, ht, i);
                    assert(in_bounds(wd, ht, i % wd, i / wd));
                }
            }
        }
        assert(set![k0].len() == 1);
        assert forall|u: int, v: int| #[trigger] self.carved_at(u, v) implies if u % 2 == 0 {
            self.cell_at(u - 1, v).visited && self.cell_at(u + 1, v).visited
        } else {
            self.cell_at(u, v - 1).visited && self.cell_at(u, v + 1).visited
        } by {
            assert(in_bounds(wd, ht, u, v));
        }
        assert forall|u: int, v: int|
            #![trigger self.cell_at(u, v)]
            is_junction(wd, ht, u, v) && self.cell_at(u, v).visited implies self.joined(u, v, x0, y0) by {
            assert(in_bounds(wd, ht, u, v));
            let p = seq![(x0, y0)];
            assert(self.is_walk(p));
        }
    }

    /// Once every junction is visited the bookkeeping says that the carved
    /// connectors form a spanning tree.
    pub(crate) proof fn lemma_tree_done(&self, x0: int, y0: int, seen: Set<int>)
        requires
            self.wf(),
            self.tree_state(x0, y0, seen),
            seen.finite(),
            is_junction(self.w(), self.h(), x0, y0),
            self.junctions_carved(),
            forall|u: int, v: int|
                #![trigger self.cell_at(u, v)]
                is_junction(self.w(), self.h(), u, v) ==> (self.cell_at(u, v).visited
                    <==> seen.contains(flat_index(self.w(), u, v))),
        ensures
            self.is_spanning_tree(),
    {
        let (wd, ht) = (self.w(), self.h());
        assert(self.junction_keys() =~= seen) by {
            assert forall|i: int| #[trigger] self.junction_keys().contains(i) implies seen.contains(i) by {
                lemma_key_in_bounds(wd, ht, i);
                let (a, b) = (i % wd, i / wd);
                assert(self.cell_at(a, b).visited);
            }
        }
        assert forall|x: int, y: int| is_junction(wd, ht, x, y) implies #[trigger] self.joined(x, y, x0, y0) by {
            assert(self.cell_at(x, y).visited);
        }
        assert(self.connector_keys().len() + 1 == self.junction_keys().len());
        assert(is_junction(wd, ht, x0, y0) && forall|x: int, y: int|
            is_junction(wd, ht, x, y) ==> #[trigger] self.joined(x, y, x0, y0));
    }

    /// Changing border cells only keeps a spanning tree one.
    pub(crate) proof fn lemma_tree_kept(&self, before: &Maze)
        requires
            before.is_spanning_tree(),
            self.w() == before.w(),
            self.h() == before.h(),
            before.w() > 0,
            before.h() > 0,
            forall|x: int, y: int|
                0 < x < before.w() - 1 && 0 < y < before.h() - 1 ==> #[trigger] self.cell_at(x, y)
                    == before.cell_at(x, y),
        ensures
            self.is_spanning_tree(),
    {
        let (wd, ht) = (self.w(), self.h());
        assert(self.connector_keys() =~= before.connector_keys()) by {
            assert forall|i: int| #[trigger] self.connector_keys().contains(i) == before.connector_keys().contains(i) by {
                if 0 <= i < wd * ht {
                    lemma_key_in_bounds(wd, ht, i);
                }
            }
        }
        assert(self.junction_keys() =~= before.junction_keys());
        assert forall|i: int, j: int|
            0 < i < wd - 1 && 0 < j < ht - 1 && #[trigger] before.cell_at(i, j).cell_type
                == CellType::Path implies self.cell_at(i, j).cell_type == CellType::Path by {
            assert(self.cell_at(i, j) == before.cell_at(i, j));
        }
        let (rx, ry) = choose|rx: int, ry: int|
            is_junction(wd, ht, rx, ry) && forall|x: int, y: int|
                is_junction(wd, ht, x, y) ==> #[trigger] before.joined(x, y, rx, ry);
        assert forall|x: int, y: int| is_junction(wd, ht, x, y) implies #[trigger] self.joined(x, y, rx, ry) by {
            assert(before.joined(x, y, rx, ry));
            let p = choose|p: Seq<(int, int)>|
                #[trigger] before.is_walk(p) && p[0] == (x, y) && p[p.len() - 1] == (rx, ry);
            lemma_walk_kept(before, self, p);
        }
    }
}

} // verus!
