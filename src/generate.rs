use vstd::prelude::*;
use vstd::set_lib::{lemma_int_range, lemma_len_subset, set_int_range};
use crate::grid::{
    Cell, CellType, Maze, MazeError, on_border, in_bounds, is_junction, lattice_adjacent, flat_index,
    lemma_flat_index,
};
use crate::random::{random_below, random_ratio, shuffle};

verus! {

broadcast use vstd::seq_lib::group_to_multiset_ensures;

/// One lattice step, two cells long.
#[derive(Clone, Copy, Debug, PartialEq, Eq, Structural)]
pub enum Direction {
    North,
    South,
    West,
    East,
}

/// The junction one lattice step from `(x, y)` in direction `d`.
pub open spec fn step_target(x: int, y: int, d: Direction) -> (int, int) {
    match d {
        Direction::North => (x, y - 2),
        Direction::South => (x, y + 2),
        Direction::West => (x - 2, y),
        Direction::East => (x + 2, y),
    }
}

/// The connector cell between `(x, y)` and `step_target(x, y, d)`.
pub open spec fn step_wall(x: int, y: int, d: Direction) -> (int, int) {
    match d {
        Direction::North => (x, y - 1),
        Direction::South => (x, y + 1),
        Direction::West => (x - 1, y),
        Direction::East => (x + 1, y),
    }
}

/// `(u, v)` appears on the traversal stack.
pub open spec fn on_stack(s: Seq<(usize, usize)>, u: int, v: int) -> bool {
    exists|i: int| 0 <= i < s.len() && s[i].0 == u && s[i].1 == v
}

impl Maze {
    /// Stepping from `(x, y)` in direction `d` reaches a junction not yet visited.
    pub open spec fn open_step(&self, x: int, y: int, d: Direction) -> bool {
        let t = step_target(x, y, d);
        is_junction(self.w(), self.h(), t.0, t.1) && !self.cell_at(t.0, t.1).visited
    }

    /// Every junction one lattice step from `(x, y)` is visited.
    pub open spec fn exhausted(&self, x: int, y: int) -> bool {
        forall|u: int, v: int|
            is_junction(self.w(), self.h(), u, v) && lattice_adjacent(x, y, u, v)
                ==> #[trigger] self.cell_at(u, v).visited
    }

    /// Every in-bounds border cell is a wall.
    pub open spec fn border_is_wall(&self) -> bool {
        forall|x: int, y: int|
            in_bounds(self.w(), self.h(), x, y) && crate::grid::on_border(self.w(), self.h(), x, y)
                ==> #[trigger] self.cell_at(x, y).cell_type == CellType::Wall
    }

    /// Every in-bounds cell is a wall or a path.
    pub open spec fn only_walls_and_paths(&self) -> bool {
        forall|x: int, y: int|
            in_bounds(self.w(), self.h(), x, y) ==> (#[trigger] self.cell_at(x, y).cell_type
                == CellType::Wall || self.cell_at(x, y).cell_type == CellType::Path)
    }

    /// Every junction is a visited path cell.
    pub open spec fn junctions_carved(&self) -> bool {
        forall|x: int, y: int|
            is_junction(self.w(), self.h(), x, y) ==> #[trigger] self.cell_at(x, y) == (Cell {
                cell_type: CellType::Path,
                visited: true,
            })
    }

    /// Looks one lattice step from junction `(x, y)`; yields the target and the
    /// connector cell when the target is an unvisited junction.
    fn probe(&self, x: usize, y: usize, d: Direction) -> (r: Option<(usize, usize, usize, usize)>)
        requires
            self.wf(),
            is_junction(self.w(), self.h(), x as int, y as int),
        ensures
            r is Some <==> self.open_step(x as int, y as int, d),
            r matches Some(t) ==> (t.0 as int, t.1 as int) == step_target(x as int, y as int, d)
                && (t.2 as int, t.3 as int) == step_wall(x as int, y as int, d),
    {
        let (nx, ny, wx, wy): (usize, usize, usize, usize) = match d {
            Direction::North => {
                if y < 3 {
                    return None;
                }
                (x, y - 2, x, y - 1)
            },
            Direction::South => {
                if y >= self.height() - 3 {
                    return None;
                }
                (x, y + 2, x, y + 1)
            },
            Direction::West => {
                if x < 3 {
                    return None;
                }
                (x - 2, y, x - 1, y)
            },
            Direction::East => {
                if x >= self.width() - 3 {
                    return None;
                }
                (x + 2, y, x + 1, y)
            },
        };
        if self.cell(nx, ny).visited {
            None
        } else {
            Some((nx, ny, wx, wy))
        }
    }
}

impl Maze {
    /// What holds of the grid, the traversal stack and the set of row-major
    /// positions of visited junctions between two steps of the walk.
    pub(crate) open spec fn dfs_state(&self, x0: int, y0: int, stack: Seq<(usize, usize)>, seen: Set<int>) -> bool {
        let (wd, ht) = (self.w(), self.h());
        &&& self.wf()
        &&& self.border_is_wall()
        &&& self.only_walls_and_paths()
        &&& is_junction(wd, ht, x0, y0)
        &&& self.cell_at(x0, y0).visited
        &&& forall|u: int, v: int|
            #![trigger self.cell_at(u, v)]
            is_junction(wd, ht, u, v) && self.cell_at(u, v).visited ==> self.cell_at(u, v).cell_type
                == CellType::Path
        &&& forall|i: int|
            0 <= i < stack.len() ==> is_junction(wd, ht, #[trigger] stack[i].0 as int, stack[i].1 as int)
                && self.cell_at(stack[i].0 as int, stack[i].1 as int).visited
        &&& forall|u: int, v: int|
            #![trigger self.cell_at(u, v)]
            is_junction(wd, ht, u, v) && self.cell_at(u, v).visited ==> on_stack(stack, u, v)
                || self.exhausted(u, v)
        &&& seen.subset_of(set_int_range(0, wd * ht))
        &&& seen.finite()
        &&& seen.len() <= wd * ht
        &&& forall|u: int, v: int|
            #![trigger self.cell_at(u, v)]
            is_junction(wd, ht, u, v) ==> (self.cell_at(u, v).visited <==> seen.contains(
                flat_index(wd, u, v),
            ))
    }

    /// Carving from the top of the stack towards an unvisited neighbour, and
    /// pushing both cells back, keeps the walk's state.
    proof fn lemma_carve_step(
        &self,
        before: Maze,
        mid: Maze,
        x0: int,
        y0: int,
        x: int,
        y: int,
        d: Direction,
        pre: Seq<(usize, usize)>,
        post: Seq<(usize, usize)>,
        seen: Set<int>,
    )
        requires
            before.dfs_state(x0, y0, pre, seen),
            pre.len() > 0,
            pre[pre.len() - 1].0 == x,
            pre[pre.len() - 1].1 == y,
            before.open_step(x, y, d),
            mid.wf(),
            mid.same_except(&before, step_wall(x, y, d).0, step_wall(x, y, d).1),
            mid.cell_at(step_wall(x, y, d).0, step_wall(x, y, d).1) == (Cell {
                cell_type: CellType::Path,
                visited: before.cell_at(step_wall(x, y, d).0, step_wall(x, y, d).1).visited,
            }),
            self.wf(),
            self.same_except(&mid, step_target(x, y, d).0, step_target(x, y, d).1),
            self.cell_at(step_target(x, y, d).0, step_target(x, y, d).1) == (Cell {
                cell_type: CellType::Path,
                visited: true,
            }),
            post == pre.drop_last().push((x as usize, y as usize)).push(
                (step_target(x, y, d).0 as usize, step_target(x, y, d).1 as usize),
            ),
        ensures
            self.w() == before.w(),
            self.h() == before.h(),
            !seen.contains(flat_index(before.w(), step_target(x, y, d).0, step_target(x, y, d).1)),
            self.dfs_state(
                x0,
                y0,
                post,
                seen.insert(flat_index(before.w(), step_target(x, y, d).0, step_target(x, y, d).1)),
            ),
    {
        let (wd, ht) = (before.w(), before.h());
        let (nx, ny) = step_target(x, y, d);
        let (wx, wy) = step_wall(x, y, d);
        let seen2 = seen.insert(flat_index(wd, nx, ny));
        before.lemma_dims_fit();
        assert(is_junction(wd, ht, x, y));
        assert(in_bounds(wd, ht, wx, wy) && !crate::grid::on_border(wd, ht, wx, wy));
        assert(!is_junction(wd, ht, wx, wy));
        assert(in_bounds(wd, ht, nx, ny));
        lemma_flat_index(wd, ht, nx, ny, nx, ny);
        lemma_int_range(0, wd * ht);
        lemma_len_subset(seen2, set_int_range(0, wd * ht));
        assert forall|u: int, v: int| #[trigger]
            in_bounds(wd, ht, u, v) implies self.cell_at(u, v).visited == (before.cell_at(
            u,
            v,
        ).visited || (u == nx && v == ny)) && (self.cell_at(u, v).cell_type == before.cell_at(
            u,
            v,
        ).cell_type || self.cell_at(u, v).cell_type == CellType::Path) && (!(u == nx && v == ny)
            && !(u == wx && v == wy) ==> self.cell_at(u, v) == before.cell_at(u, v)) by {
            assert(mid.cell_at(u, v) == before.cell_at(u, v) || (u == wx && v == wy));
        }
        assert forall|u: int, v: int|
            #![trigger self.cell_at(u, v)]
            is_junction(wd, ht, u, v) implies (self.cell_at(u, v).visited <==> seen2.contains(
            flat_index(wd, u, v),
        )) by {
            assert(in_bounds(wd, ht, u, v));
            lemma_flat_index(wd, ht, u, v, nx, ny);
            assert(before.cell_at(u, v).visited <==> seen.contains(flat_index(wd, u, v)));
        }
        assert forall|u: int, v: int|
            #![trigger self.cell_at(u, v)]
            is_junction(wd, ht, u, v) && self.cell_at(u, v).visited implies on_stack(post, u, v)
            || self.exhausted(u, v) by {
            assert(in_bounds(wd, ht, u, v));
            if u == nx && v == ny {
                assert(post[post.len() - 1] == (nx as usize, ny as usize));
                assert(post[post.len() - 1].0 == u && post[post.len() - 1].1 == v);
            } else {
                assert(before.cell_at(u, v).visited);
                if on_stack(pre, u, v) {
                    let j = choose|j: int| 0 <= j < pre.len() && pre[j].0 == u && pre[j].1 == v;
                    assert(post[j] == pre[j]);
                } else {
                    assert(before.exhausted(u, v));
                    assert forall|a: int, b: int|
                        is_junction(wd, ht, a, b) && lattice_adjacent(
                            u,
                            v,
                            a,
                            b,
                        ) implies #[trigger] self.cell_at(a, b).visited by {
                        assert(in_bounds(wd, ht, a, b));
                        assert(before.cell_at(a, b).visited);
                    }
                }
            }
        }
        assert forall|i: int|
            0 <= i < post.len() implies is_junction(wd, ht, #[trigger] post[i].0 as int, post[i].1 as int)
            && self.cell_at(post[i].0 as int, post[i].1 as int).visited by {
            if i < pre.len() - 1 {
                assert(post[i] == pre[i]);
            } else if i == pre.len() - 1 {
                assert(post[i] == (x as usize, y as usize));
            } else {
                assert(post[i] == (nx as usize, ny as usize));
            }
        }
        assert forall|u: int, v: int|
            #![trigger self.cell_at(u, v)]
            in_bounds(wd, ht, u, v) && crate::grid::on_border(wd, ht, u, v) implies self.cell_at(
            u,
            v,
        ).cell_type == CellType::Wall by {
            assert(before.cell_at(u, v).cell_type == CellType::Wall);
        }
        assert forall|u: int, v: int|
            #![trigger self.cell_at(u, v)]
            in_bounds(wd, ht, u, v) implies self.cell_at(u, v).cell_type == CellType::Wall
            || self.cell_at(u, v).cell_type == CellType::Path by {
            assert(before.cell_at(u, v).cell_type == CellType::Wall || before.cell_at(
                u,
                v,
            ).cell_type == CellType::Path);
        }
        assert forall|u: int, v: int|
            #![trigger self.cell_at(u, v)]
            is_junction(wd, ht, u, v) && self.cell_at(u, v).visited implies self.cell_at(
            u,
            v,
        ).cell_type == CellType::Path by {
            assert(in_bounds(wd, ht, u, v));
            if !(u == nx && v == ny) {
                assert(before.cell_at(u, v).visited);
            }
        }
    }
}

/// When every visited junction has all its lattice neighbours visited, every
/// junction is reachable by lattice steps from a visited one, so all are visited.
proof fn lemma_closed_reaches_all(m: &Maze, sx: int, sy: int, tx: int, ty: int)
    requires
        forall|u: int, v: int|
            #![trigger m.cell_at(u, v)]
            is_junction(m.w(), m.h(), u, v) && m.cell_at(u, v).visited ==> m.exhausted(u, v),
        is_junction(m.w(), m.h(), sx, sy),
        m.cell_at(sx, sy).visited,
        is_junction(m.w(), m.h(), tx, ty),
    ensures
        m.cell_at(tx, ty).visited,
    decreases (if sx < tx {
            tx - sx
        } else {
            sx - tx
        }) + (if sy < ty {
            ty - sy
        } else {
            sy - ty
        }),
{
    let (nx, ny) = if sx < tx {
        (sx + 2, sy)
    } else if sx > tx {
        (sx - 2, sy)
    } else if sy < ty {
        (sx, sy + 2)
    } else {
        (sx, sy - 2)
    };
    if sx != tx || sy != ty {
        assert(m.exhausted(sx, sy));
        assert(is_junction(m.w(), m.h(), nx, ny));
        assert(lattice_adjacent(sx, sy, nx, ny));
        assert(m.cell_at(nx, ny).visited);
        lemma_closed_reaches_all(m, nx, ny, tx, ty);
    }
}

impl Maze {
    /// Carves a spanning tree of the junction lattice into a blank grid by a
    /// randomized depth-first walk from a random junction, kept on an explicit stack.
    #[verifier::loop_isolation(false)]
    #[verifier::rlimit(50)]
    fn carve_from_random_seed(&mut self)
        requires
            old(self).wf(),
            old(self).is_blank(),
        ensures
            final(self).wf(),
            final(self).w() == old(self).w(),
            final(self).h() == old(self).h(),
            final(self).junctions_carved(),
            final(self).border_is_wall(),
            final(self).only_walls_and_paths(),
            final(self).is_spanning_tree(),
    {
        let ghost wd = self.w();
        let ghost ht = self.h();
        let x0: usize = 2 * random_below(self.width() / 2) + 1;
        let y0: usize = 2 * random_below(self.height() / 2) + 1;
        self.put(x0, y0, Cell { cell_type: CellType::Path, visited: true });
        let mut stack: Vec<(usize, usize)> = vec![(x0, y0)];
        let ghost mut seen: Set<int> = set![flat_index(wd, x0 as int, y0 as int)];
        proof {
            lemma_flat_index(wd, ht, x0 as int, y0 as int, x0 as int, y0 as int);
            lemma_int_range(0, wd * ht);
            lemma_len_subset(seen, set_int_range(0, wd * ht));
            assert forall|u: int, v: int| #[trigger]
                is_junction(wd, ht, u, v) implies (self.cell_at(u, v).visited <==> seen.contains(
                flat_index(wd, u, v),
            )) by {
                lemma_flat_index(wd, ht, u, v, x0 as int, y0 as int);
                assert(old(self).cell_at(u, v).visited == false);
            }
            assert(stack@[0] == (x0, y0));
            assert(on_stack(stack@, x0 as int, y0 as int));
            self.lemma_first_room(*old(self), x0 as int, y0 as int);
        }
        while stack.len() > 0
            invariant
                self.w() == wd,
                self.h() == ht,
                self.dfs_state(x0 as int, y0 as int, stack@, seen),
                self.tree_state(x0 as int, y0 as int, seen),
            decreases 2 * (wd * ht - seen.len()) + stack@.len(),
        {
            let ghost pre = stack@;
            let (x, y) = stack.pop().unwrap();
            assert(pre[pre.len() - 1] == (x, y));
            assert(is_junction(wd, ht, x as int, y as int));
            let mut dirs: Vec<Direction> = vec![
                Direction::North,
                Direction::South,
                Direction::West,
                Direction::East,
            ];
            let ghost all = dirs@;
            shuffle(&mut dirs);
            proof {
                assert(all[0] == Direction::North && all[1] == Direction::South && all[2]
                    == Direction::West && all[3] == Direction::East);
                assert(all.contains(Direction::North));
                assert(all.contains(Direction::South));
                assert(all.contains(Direction::West));
                assert(all.contains(Direction::East));
                assert(all.to_multiset().count(Direction::North) > 0);
                assert(all.to_multiset().count(Direction::South) > 0);
                assert(all.to_multiset().count(Direction::West) > 0);
                assert(all.to_multiset().count(Direction::East) > 0);
                assert(dirs@.to_multiset().count(Direction::North) > 0);
                assert(dirs@.to_multiset().count(Direction::South) > 0);
                assert(dirs@.to_multiset().count(Direction::West) > 0);
                assert(dirs@.to_multiset().count(Direction::East) > 0);
            }
            let ghost mut chosen: Direction = Direction::North;
            let mut choice: Option<(usize, usize, usize, usize)> = None;
            let mut i: usize = 0;
            while i < dirs.len() && choice.is_none()
                invariant
                    i <= dirs@.len(),
                    choice is None ==> forall|k: int|
                        0 <= k < i ==> !self.open_step(x as int, y as int, #[trigger] dirs@[k]),
                    choice matches Some(t) ==> self.open_step(x as int, y as int, chosen) && (
                    t.0 as int, t.1 as int) == step_target(x as int, y as int, chosen) && (
                    t.2 as int, t.3 as int) == step_wall(x as int, y as int, chosen),
                decreases dirs@.len() - i,
            {
                proof {
                    chosen = dirs@[i as int];
                }
                choice = self.probe(x, y, dirs[i]);
                i = i + 1;
            }
            match choice {
                Some((nx, ny, wx, wy)) => {
                    let ghost before = *self;
                    self.set_kind_at(wx, wy, CellType::Path);
                    let ghost mid = *self;
                    self.put(nx, ny, Cell { cell_type: CellType::Path, visited: true });
                    stack.push((x, y));
                    stack.push((nx, ny));
                    proof {
                        self.lemma_tree_step(
                            before,
                            mid,
                            x0 as int,
                            y0 as int,
                            x as int,
                            y as int,
                            chosen,
                            pre,
                            seen,
                        );
                        self.lemma_carve_step(
                            before,
                            mid,
                            x0 as int,
                            y0 as int,
                            x as int,
                            y as int,
                            chosen,
                            pre,
                            stack@,
                            seen,
                        );
                        seen = seen.insert(flat_index(wd, nx as int, ny as int));
                    }
                },
                None => {
                    proof {
                        assert forall|u: int, v: int|
                            is_junction(wd, ht, u, v) && lattice_adjacent(
                                x as int,
                                y as int,
                                u,
                                v,
                            ) implies #[trigger] self.cell_at(u, v).visited by {
                            let d = if u == x && v == y - 2 {
                                Direction::North
                            } else if u == x && v == y + 2 {
                                Direction::South
                            } else if v == y && u == x - 2 {
                                Direction::West
                            } else {
                                Direction::East
                            };
                            assert(step_target(x as int, y as int, d) == (u, v));
                            assert(dirs@.contains(d));
                            let k = choose|k: int| 0 <= k < dirs@.len() && dirs@[k] == d;
                            assert(!self.open_step(x as int, y as int, dirs@[k]));
                        }
                        assert(self.exhausted(x as int, y as int));
                        assert forall|u: int, v: int|
                            #![trigger self.cell_at(u, v)]
                            is_junction(wd, ht, u, v) && self.cell_at(
                                u,
                                v,
                            ).visited implies on_stack(stack@, u, v) || self.exhausted(u, v) by {
                            if on_stack(pre, u, v) && !(u == x && v == y) {
                                let j = choose|j: int|
                                    0 <= j < pre.len() && pre[j].0 == u && pre[j].1 == v;
                                assert(j < pre.len() - 1);
                                assert(stack@[j] == pre[j]);
                            }
                        }
                    }
                },
            }
        }
        proof {
            assert forall|u: int, v: int| is_junction(wd, ht, u, v) implies #[trigger] self.cell_at(
                u,
                v,
            ) == (Cell { cell_type: CellType::Path, visited: true }) by {
                lemma_closed_reaches_all(self, x0 as int, y0 as int, u, v);
            }
            self.lemma_tree_done(x0 as int, y0 as int, seen);
        }
    }
}

impl Maze {
    /// Row `y` may hold the entrance: it is an inner row whose cell at `x = 1` is a path.
    pub open spec fn can_enter_at(&self, y: int) -> bool {
        1 <= y <= self.h() - 2 && self.cell_at(1, y).cell_type == CellType::Path
    }

    /// Row `y` may hold the exit: it is an inner row whose cell at `x = width - 2` is a path.
    pub open spec fn can_exit_at(&self, y: int) -> bool {
        1 <= y <= self.h() - 2 && self.cell_at(self.w() - 2, y).cell_type == CellType::Path
    }

    /// `self` is `before` with the cell `(0, sy)` turned into the start and
    /// `(width - 1, ey)` into the end, visited flags kept.
    pub open spec fn placed_from(&self, before: &Maze, sy: int, ey: int) -> bool {
        &&& self.w() == before.w()
        &&& self.h() == before.h()
        &&& self.cell_at(0, sy) == (Cell {
            cell_type: CellType::Start,
            visited: before.cell_at(0, sy).visited,
        })
        &&& self.cell_at(self.w() - 1, ey) == (Cell {
            cell_type: CellType::End,
            visited: before.cell_at(self.w() - 1, ey).visited,
        })
        &&& forall|x: int, y: int|
            in_bounds(self.w(), self.h(), x, y) && !(x == 0 && y == sy) && !(x == self.w() - 1
                && y == ey) ==> #[trigger] self.cell_at(x, y) == before.cell_at(x, y)
    }

    /// The start sits at `(0, sy)` and the end at `(width - 1, ey)`, each facing a
    /// path cell; every other border cell is a wall and every other cell a wall or a path.
    pub open spec fn entry_exit_at(&self, sy: int, ey: int) -> bool {
        &&& 1 <= sy <= self.h() - 2
        &&& 1 <= ey <= self.h() - 2
        &&& self.cell_at(0, sy).cell_type == CellType::Start
        &&& self.cell_at(1, sy).cell_type == CellType::Path
        &&& self.cell_at(self.w() - 1, ey).cell_type == CellType::End
        &&& self.cell_at(self.w() - 2, ey).cell_type == CellType::Path
        &&& forall|x: int, y: int|
            in_bounds(self.w(), self.h(), x, y) && !(x == 0 && y == sy) && !(x == self.w() - 1
                && y == ey) ==> (on_border(self.w(), self.h(), x, y) ==> #[trigger] self.cell_at(
                x,
                y,
            ).cell_type == CellType::Wall) && (self.cell_at(x, y).cell_type == CellType::Wall
                || self.cell_at(x, y).cell_type == CellType::Path)
    }

    /// Exactly one start on the left border and one end on the right, as `entry_exit_at` says.
    pub open spec fn has_entry_exit(&self) -> bool {
        exists|sy: int, ey: int| self.entry_exit_at(sy, ey)
    }

    /// Marks the start on the left border and the end on the right border, each
    /// in a row drawn uniformly from the rows whose inward neighbour is a path.
    /// Fails, changing nothing, when one border has no such row.
    pub fn set_start_stop_cells(&mut self) -> (r: Result<(), MazeError>)
        requires
            old(self).wf(),
        ensures
            final(self).wf(),
            r is Ok <==> (exists|y: int| old(self).can_enter_at(y)) && (exists|y: int|
                old(self).can_exit_at(y)),
            r is Err ==> r == Err::<(), MazeError>(MazeError::PlacementFailed) && *final(self)
                == *old(self),
            r is Ok ==> exists|sy: int, ey: int|
                old(self).can_enter_at(sy) && old(self).can_exit_at(ey) && final(self).placed_from(
                    &*old(self),
                    sy,
                    ey,
                ),
    {
        let ghost before = *self;
        let w = self.width();
        let h = self.height();
        let mut starts: Vec<usize> = Vec::new();
        let mut ends: Vec<usize> = Vec::new();
        let mut y: usize = 1;
        while y < h - 1
            invariant
                *self == before,
                self.wf(),
                w == self.w(),
                h == self.h(),
                1 <= y <= h - 1,
                forall|k: int| 0 <= k < starts@.len() ==> self.can_enter_at(#[trigger] starts@[k] as int),
                forall|k: int| 0 <= k < ends@.len() ==> self.can_exit_at(#[trigger] ends@[k] as int),
                starts@.len() == 0 ==> forall|j: int| 1 <= j < y ==> !#[trigger] self.can_enter_at(j),
                ends@.len() == 0 ==> forall|j: int| 1 <= j < y ==> !#[trigger] self.can_exit_at(j),
            decreases h - y,
        {
            if self.cell(1, y).cell_type == CellType::Path {
                starts.push(y);
            }
            if self.cell(w - 2, y).cell_type == CellType::Path {
                ends.push(y);
            }
            y = y + 1;
        }
        if starts.len() == 0 || ends.len() == 0 {
            return Err(MazeError::PlacementFailed);
        }
        let sy = starts[random_below(starts.len())];
        let ey = ends[random_below(ends.len())];
        self.set_kind_at(0, sy, CellType::Start);
        let ghost mid = *self;
        self.set_kind_at(w - 1, ey, CellType::End);
        proof {
            assert(before.can_enter_at(sy as int));
            assert(before.can_exit_at(ey as int));
            assert forall|x: int, y: int|
                in_bounds(self.w(), self.h(), x, y) && !(x == 0 && y == sy) && !(x == self.w() - 1
                    && y == ey) implies #[trigger] self.cell_at(x, y) == before.cell_at(x, y) by {
                assert(mid.cell_at(x, y) == before.cell_at(x, y));
            }
            assert(self.placed_from(&before, sy as int, ey as int));
        }
        Ok(())
    }

    /// Carves a perfect maze into a blank grid by a randomized iterative
    /// depth-first walk, then places the start and the end.
    pub fn generate_dfs_stack(&mut self)
        requires
            old(self).wf(),
            old(self).is_blank(),
        ensures
            final(self).wf(),
            final(self).w() == old(self).w(),
            final(self).h() == old(self).h(),
            final(self).junctions_carved(),
            final(self).has_entry_exit(),
            final(self).is_spanning_tree(),
    {
        self.carve_from_random_seed();
        let ghost carved = *self;
        proof {
            assert(is_junction(carved.w(), carved.h(), 1, 1));
            assert(is_junction(carved.w(), carved.h(), carved.w() - 2, 1));
            assert(carved.can_enter_at(1));
            assert(carved.can_exit_at(1));
        }
        let r = self.set_start_stop_cells();
        proof {
            let (sy, ey) = choose|sy: int, ey: int|
                carved.can_enter_at(sy) && carved.can_exit_at(ey) && self.placed_from(
                    &carved,
                    sy,
                    ey,
                );
            assert forall|x: int, y: int|
                is_junction(self.w(), self.h(), x, y) implies #[trigger] self.cell_at(x, y) == (Cell {
                cell_type: CellType::Path,
                visited: true,
            }) by {
                assert(carved.cell_at(x, y) == self.cell_at(x, y));
            }
            assert forall|x: int, y: int|
                in_bounds(self.w(), self.h(), x, y) && !(x == 0 && y == sy) && !(x == self.w() - 1
                    && y == ey) implies (on_border(self.w(), self.h(), x, y) ==> #[trigger] self.cell_at(
                x,
                y,
            ).cell_type == CellType::Wall) && (self.cell_at(x, y).cell_type == CellType::Wall
                || self.cell_at(x, y).cell_type == CellType::Path) by {
                assert(carved.cell_at(x, y) == self.cell_at(x, y));
            }
            assert(self.cell_at(1, sy) == carved.cell_at(1, sy));
            assert(self.cell_at(self.w() - 2, ey) == carved.cell_at(self.w() - 2, ey));
            assert(self.entry_exit_at(sy, ey));
            assert forall|x: int, y: int|
                0 < x < carved.w() - 1 && 0 < y < carved.h() - 1 implies #[trigger] self.cell_at(x, y)
                    == carved.cell_at(x, y) by {
                assert(in_bounds(carved.w(), carved.h(), x, y));
            }
            self.lemma_tree_kept(&carved);
        }
    }
}

impl Maze {
    /// Fills the grid with noise: border cells become walls, every inner cell a
    /// wall with probability 7/10 and a path otherwise; visited flags are kept.
    #[verifier::loop_isolation(false)]
    pub fn generate_random(&mut self)
        requires
            old(self).wf(),
        ensures
            final(self).wf(),
            final(self).w() == old(self).w(),
            final(self).h() == old(self).h(),
            forall|x: int, y: int|
                in_bounds(old(self).w(), old(self).h(), x, y) ==> #[trigger] final(self).cell_at(
                    x,
                    y,
                ).visited == old(self).cell_at(x, y).visited,
            final(self).only_walls_and_paths(),
            final(self).border_is_wall(),
    {
        let w = self.width();
        let h = self.height();
        let mut y: usize = 0;
        while y < h
            invariant
                self.wf(),
                self.w() == w,
                self.h() == h,
                y <= h,
                forall|u: int, v: int|
                    in_bounds(w as int, h as int, u, v) ==> #[trigger] self.cell_at(u, v).visited
                        == old(self).cell_at(u, v).visited,
                forall|u: int, v: int|
                    in_bounds(w as int, h as int, u, v) && v < y ==> (#[trigger] self.cell_at(
                        u,
                        v,
                    ).cell_type == CellType::Wall || self.cell_at(u, v).cell_type == CellType::Path)
                        && (on_border(w as int, h as int, u, v) ==> self.cell_at(u, v).cell_type
                        == CellType::Wall),
            decreases h - y,
        {
            let mut x: usize = 0;
            while x < w
                invariant
                    self.wf(),
                    self.w() == w,
                    self.h() == h,
                    y < h,
                    x <= w,
                    forall|u: int, v: int|
                        in_bounds(w as int, h as int, u, v) ==> #[trigger] self.cell_at(u, v).visited
                            == old(self).cell_at(u, v).visited,
                    forall|u: int, v: int|
                        in_bounds(w as int, h as int, u, v) && (v < y || (v == y && u < x)) ==> (
                        #[trigger] self.cell_at(u, v).cell_type == CellType::Wall || self.cell_at(
                            u,
                            v,
                        ).cell_type == CellType::Path) && (on_border(w as int, h as int, u, v)
                            ==> self.cell_at(u, v).cell_type == CellType::Wall),
                decreases w - x,
            {
                let kind = if x == 0 || y == 0 || x == w - 1 || y == h - 1 {
                    CellType::Wall
                } else if random_ratio(7, 10) {
                    CellType::Wall
                } else {
                    CellType::Path
                };
                self.set_kind_at(x, y, kind);
                x = x + 1;
            }
            y = y + 1;
        }
    }
}

} // verus!
