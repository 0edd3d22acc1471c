//! Depth-first search from the top-left cell to the bottom-right cell, and
//! the marking of the route it finds.

use crate::grid::{Maze, Path, WALL};
use vstd::prelude::*;

verus! {

/// No position occurs twice.
pub open spec fn is_simple(t: Seq<(int, int)>) -> bool {
    forall|a: int, b: int| 0 <= a < b < t.len() ==> t[a] != t[b]
}

/// The slot halfway between two positions.
pub open spec fn midpoint(a: (int, int), b: (int, int)) -> (int, int) {
    ((a.0 + b.0) / 2, (a.1 + b.1) / 2)
}

/// Position `n` of the chain `t`, or the slot between it and its successor
/// when `n` lies below `lim`, is `(x, y)`.
pub open spec fn hit(t: Seq<(int, int)>, n: int, lim: int, x: int, y: int) -> bool {
    t[n] == (x, y) || (n < lim && midpoint(t[n], t[n + 1]) == (x, y))
}

/// `(x, y)` is one of the first `lim + 1` positions of `t` or a slot between
/// two of them.
pub open spec fn on_prefix(t: Seq<(int, int)>, lim: int, x: int, y: int) -> bool {
    exists|n: int| 0 <= n <= lim && #[trigger] hit(t, n, lim, x, y)
}

/// `(x, y)` is a position of `t` or the slot between two consecutive ones.
pub open spec fn on_solution(t: Seq<(int, int)>, x: int, y: int) -> bool {
    on_prefix(t, t.len() - 1, x, y)
}

/// What a search hands back: the last node of the route, chained to the
/// first, and the number of nodes in that chain.
pub struct Solved {
    pub path: Path,
    pub steps: usize,
}

/// On a lattice of glyph rows, two positions are joined when both lie on it,
/// two units apart along one axis, and the slot between them is not a wall.
pub open spec fn joined_in(rows: Seq<Vec<char>>, w: int, h: int, a: (int, int), b: (int, int)) -> bool {
    &&& 0 <= a.0 < w && 0 <= a.1 < h
    &&& 0 <= b.0 < w && 0 <= b.1 < h
    &&& (a.1 == b.1 && (b.0 == a.0 + 2 || b.0 == a.0 - 2)) || (a.0 == b.0 && (b.1 == a.1 + 2
        || b.1 == a.1 - 2))
    &&& rows[midpoint(a, b).1]@[midpoint(a, b).0] != WALL
}

/// Position `k` of `t` is joined to the one after it.
pub open spec fn link_in(rows: Seq<Vec<char>>, w: int, h: int, t: Seq<(int, int)>, k: int) -> bool {
    joined_in(rows, w, h, t[k], t[k + 1])
}

/// A non-empty sequence of positions on the lattice in which each is joined
/// to the next.
pub open spec fn route_in(rows: Seq<Vec<char>>, w: int, h: int, t: Seq<(int, int)>) -> bool {
    &&& t.len() > 0
    &&& forall|k: int| 0 <= k < t.len() ==> 0 <= (#[trigger] t[k]).0 < w && 0 <= t[k].1 < h
    &&& forall|k: int| 0 <= k < t.len() - 1 ==> #[trigger] link_in(rows, w, h, t, k)
}

impl Maze {
    /// Two positions are joined when they lie two units apart along one axis
    /// and the slot between them is not a wall.
    #[verifier::inline]
    pub open spec fn joined(&self, a: (int, int), b: (int, int)) -> bool {
        joined_in(self.grid@, self.width as int, self.height as int, a, b)
    }

    /// A route over this maze's glyphs; it is listed from its end back to its start.
    #[verifier::inline]
    pub open spec fn is_route(&self, t: Seq<(int, int)>) -> bool {
        route_in(self.grid@, self.width as int, self.height as int, t)
    }

    /// Position `k` of `t` is joined to the one after it.
    #[verifier::inline]
    pub open spec fn link(&self, t: Seq<(int, int)>, k: int) -> bool {
        link_in(self.grid@, self.width as int, self.height as int, t, k)
    }

    /// Some route leads from `from` to `to`.
    pub open spec fn connected(&self, from: (int, int), to: (int, int)) -> bool {
        exists|t: Seq<(int, int)>|
            #[trigger] route_in(self.grid@, self.width as int, self.height as int, t) && t[0] == to
                && t.last() == from
    }

    /// The neighbour of `(x, y)` in direction `(dx, dy)`, if it can be entered
    /// at all, carries a marker.
    pub open spec fn reach_ok(&self, x: int, y: int, dx: int, dy: int) -> bool {
        self.inside(x + 2 * dx, y + 2 * dy) && self.glyph(x + dx, y + dy) != WALL ==> self.marked(
            x + 2 * dx,
            y + 2 * dy,
        )
    }

    /// Every neighbour that can be entered from `(x, y)` carries a marker.
    pub open spec fn closed_at(&self, x: int, y: int) -> bool {
        &&& self.reach_ok(x, y, 1, 0)
        &&& self.reach_ok(x, y, 0, 1)
        &&& self.reach_ok(x, y, -1, 0)
        &&& self.reach_ok(x, y, 0, -1)
    }

    /// Row-major indices of the positions without a marker.
    pub open spec fn unmarked(&self) -> Set<int> {
        Set::new(
            |k: int|
                0 <= k < self.width * self.height && !self.marked(
                    k % (self.width as int),
                    k / (self.width as int),
                ),
        )
    }
}

/// Setting one more marker, and clearing none, leaves fewer positions unmarked.
pub proof fn lemma_marking_shrinks(before: Maze, after: Maze, x: int, y: int)
    requires
        before.wf(),
        after.width == before.width,
        after.height == before.height,
        before.inside(x, y),
        !before.marked(x, y),
        after.marked(x, y),
        forall|i: int, j: int|
            before.inside(i, j) && before.marked(i, j) ==> #[trigger] after.paths@[j]@[i].visited,
    ensures
        before.unmarked().finite(),
        after.unmarked().finite(),
        after.unmarked().len() < before.unmarked().len(),
        before.unmarked().len() <= before.width * before.height,
{
    let w = before.width as int;
    let h = before.height as int;
    let k0 = y * w + x;
    assert(0 <= k0 < w * h) by (nonlinear_arith)
        requires
            0 <= x < w,
            0 <= y < h,
            k0 == y * w + x,
    ;
    vstd::arithmetic::div_mod::lemma_fundamental_div_mod_converse(k0, w, y, x);
    let full = vstd::set_lib::set_int_range(0, w * h);
    vstd::set_lib::lemma_int_range(0, w * h);
    assert(before.unmarked().subset_of(full));
    vstd::set_lib::lemma_len_subset(before.unmarked(), full);
    assert(before.unmarked().contains(k0));
    let smaller = before.unmarked().remove(k0);
    assert forall|k: int| after.unmarked().contains(k) implies smaller.contains(k) by {
        vstd::arithmetic::div_mod::lemma_fundamental_div_mod(k, w);
        vstd::arithmetic::div_mod::lemma_mod_bound(k, w);
        let q = k / w;
        let r = k % w;
        assert(0 <= q < h) by (nonlinear_arith)
            requires
                0 <= k < w * h,
                k == w * q + r,
                0 <= r < w,
        ;
        if before.marked(r, q) {
            assert(after.paths@[q]@[r].visited);
        }
    }
    assert(after.unmarked().subset_of(smaller));
    vstd::set_lib::lemma_len_subset(after.unmarked(), smaller);
}

impl Maze {
    /// Depth-first search from `(x, y)` for the bottom-right corner.  The
    /// position is marked on entry and stays marked; the moves are tried in
    /// the order right, down, left, up, and the first route found is returned.
    #[verifier::rlimit(60)]
    pub fn search(&mut self, x: usize, y: usize) -> (found: Option<Path>)
        requires
            old(self).wf(),
            old(self).inside(x as int, y as int),
            !old(self).marked(x as int, y as int),
            old(self).is_route(old(self).node(x as int, y as int).trail()),
            is_simple(old(self).node(x as int, y as int).trail()),
            forall|k: int|
                1 <= k < old(self).node(x as int, y as int).trail().len() ==> old(self).marked(
                    (#[trigger] old(self).node(x as int, y as int).trail()[k]).0,
                    old(self).node(x as int, y as int).trail()[k].1,
                ),
            old(self).node(x as int, y as int).trail().len() + old(self).unmarked().len()
                <= old(self).width * old(self).height + 1,
        ensures
            final(self).wf(),
            final(self).width == old(self).width,
            final(self).height == old(self).height,
            final(self).grid == old(self).grid,
            final(self).cells == old(self).cells,
            final(self).marked(x as int, y as int),
            final(self).node(x as int, y as int).previous == old(self).node(
                x as int,
                y as int,
            ).previous,
            forall|i: int, j: int|
                #![trigger final(self).paths@[j]@[i]]
                #![trigger old(self).paths@[j]@[i]]
                old(self).inside(i, j) && old(self).marked(i, j) ==> final(self).node(i, j) == old(self).node(i, j),
            forall|i: int, j: int|
                old(self).inside(i, j) && (#[trigger] final(self).paths@[j]@[i]).visited && !old(
                    self,
                ).marked(i, j) ==> old(self).connected(
                    old(self).node(x as int, y as int).trail().last(),
                    (i, j),
                ),
            match found {
                Some(p) => {
                    &&& p.x == old(self).width - 1
                    &&& p.y == old(self).height - 1
                    &&& old(self).is_route(p.trail())
                    &&& is_simple(p.trail())
                    &&& p.trail().last() == old(self).node(x as int, y as int).trail().last()
                    &&& p.trail().len() <= old(self).width * old(self).height
                },
                None => {
                    &&& final(self).marked(old(self).width - 1, old(self).height - 1) ==> old(self).marked(old(self).width - 1, old(self).height - 1)
                    &&& forall|i: int, j: int|
                        old(self).inside(i, j) && (#[trigger] final(self).paths@[j]@[i]).visited
                            && !old(self).marked(i, j) ==> final(self).closed_at(i, j)
                },
            },
        decreases old(self).unmarked().len(),
    {
        let ghost entry = *self;
        let ghost trail = self.node(x as int, y as int).trail();
        self.paths[y][x].visited = true;
        proof {
            lemma_marking_shrinks(entry, *self, x as int, y as int);
            assert(self.node(x as int, y as int).trail() == trail);
            assert(trail[0] == (x as int, y as int));
            assert(entry.is_route(trail));
            assert(entry.connected(trail.last(), (x as int, y as int)));
        }
        if x == self.width - 1 && y == self.height - 1 {
            let p = self.paths[y][x].duplicate();
            return Some(p);
        }
        let mut d: usize = 0;
        while d < 4
            invariant
                d <= 4,
                entry == *old(self),
                self.wf(),
                entry.wf(),
                entry.inside(x as int, y as int),
                !entry.marked(x as int, y as int),
                !(x == self.width - 1 && y == self.height - 1),
                self.width == entry.width,
                self.height == entry.height,
                self.grid == entry.grid,
                self.cells == entry.cells,
                self.marked(x as int, y as int),
                self.node(x as int, y as int).previous == entry.node(x as int, y as int).previous,
                self.node(x as int, y as int).trail() == trail,
                trail == entry.node(x as int, y as int).trail(),
                entry.is_route(trail),
                is_simple(trail),
                forall|k: int|
                    1 <= k < trail.len() ==> entry.marked((#[trigger] trail[k]).0, trail[k].1),
                trail.len() + entry.unmarked().len() <= entry.width * entry.height + 1,
                forall|i: int, j: int|
                    #![trigger self.paths@[j]@[i]]
                    #![trigger entry.paths@[j]@[i]]
                    entry.inside(i, j) && entry.marked(i, j) ==> self.node(i, j) == entry.node(
                        i,
                        j,
                    ),
                self.marked(self.width - 1, self.height - 1) ==> entry.marked(
                    self.width - 1,
                    self.height - 1,
                ),
                forall|i: int, j: int|
                    entry.inside(i, j) && (#[trigger] self.paths@[j]@[i]).visited && !entry.marked(
                        i,
                        j,
                    ) && !(i == x && j == y) ==> self.closed_at(i, j),
                forall|i: int, j: int|
                    entry.inside(i, j) && (#[trigger] self.paths@[j]@[i]).visited && !entry.marked(
                        i,
                        j,
                    ) ==> entry.connected(trail.last(), (i, j)),
                d >= 1 ==> self.reach_ok(x as int, y as int, 1, 0),
                d >= 2 ==> self.reach_ok(x as int, y as int, 0, 1),
                d >= 3 ==> self.reach_ok(x as int, y as int, -1, 0),
                d >= 4 ==> self.reach_ok(x as int, y as int, 0, -1),
            decreases 4 - d,
        {
            match self.step_from(x, y, d) {
                Some((nx, ny, mx, my)) => {
                    if !self.paths[ny][nx].visited && self.grid[my][mx] != WALL {
                        let here = self.paths[y][x].duplicate();
                        self.paths[ny][nx].previous = Some(Box::new(here));
                        proof {
                            let t = self.node(nx as int, ny as int).trail();
                            assert(t == seq![(nx as int, ny as int)] + trail);
                            assert(self.joined(t[0], t[1]));
                            assert forall|k: int| 0 <= k < t.len() - 1 implies #[trigger] self.link(
                                t,
                                k,
                            ) by {
                                if k > 0 {
                                    assert(entry.link(trail, k - 1));
                                }
                            }
                            assert forall|k: int| 1 <= k < t.len() implies self.marked(
                                (#[trigger] t[k]).0,
                                t[k].1,
                            ) by {
                                if k > 1 {
                                    assert(entry.marked(trail[k - 1].0, trail[k - 1].1));
                                }
                            }
                            assert(is_simple(t)) by {
                                assert forall|a: int, b: int| 0 <= a < b < t.len() implies t[a]
                                    != t[b] by {
                                    if a == 0 {
                                        assert(self.marked(t[b].0, t[b].1));
                                    } else {
                                        assert(trail[a - 1] != trail[b - 1]);
                                    }
                                }
                            }
                            lemma_marking_shrinks(entry, *self, x as int, y as int);
                        }
                        let r = self.search(nx, ny);
                        if r.is_some() {
                            return r;
                        }
                    }
                },
                None => {},
            }
            d += 1;
        }
        None
    }
}

/// Where every marked position is closed, a route that ends on a marked
/// position runs over marked positions only.
pub proof fn lemma_marks_hold_routes(m: Maze, t: Seq<(int, int)>)
    requires
        m.wf(),
        m.is_route(t),
        m.marked(t.last().0, t.last().1),
        forall|i: int, j: int|
            m.inside(i, j) && m.paths@[j]@[i].visited ==> #[trigger] m.closed_at(i, j),
    ensures
        forall|k: int| 0 <= k < t.len() ==> m.marked((#[trigger] t[k]).0, t[k].1),
    decreases t.len(),
{
    if t.len() > 1 {
        let rest = t.subrange(1, t.len() as int);
        assert forall|k: int| 0 <= k < rest.len() - 1 implies #[trigger] m.link(rest, k) by {
            assert(m.link(t, k + 1));
        }
        assert forall|k: int| 0 <= k < rest.len() implies m.inside(
            (#[trigger] rest[k]).0,
            rest[k].1,
        ) by {
            assert(m.inside(t[k + 1].0, t[k + 1].1));
        }
        lemma_marks_hold_routes(m, rest);
        assert(rest[0] == t[1]);
        assert(m.marked(t[1].0, t[1].1));
        assert(m.link(t, 0));
        assert(m.closed_at(t[1].0, t[1].1));
        assert(m.marked(t[0].0, t[0].1));
        assert forall|k: int| 0 <= k < t.len() implies m.marked((#[trigger] t[k]).0, t[k].1) by {
            if k > 0 {
                assert(t[k] == rest[k - 1]);
            }
        }
    }
}

impl Maze {
    /// Clears every marker; the nodes keep their positions and links.
    pub fn clear_marks(&mut self)
        requires
            old(self).wf(),
        ensures
            final(self).wf(),
            final(self).width == old(self).width,
            final(self).height == old(self).height,
            final(self).grid == old(self).grid,
            final(self).cells == old(self).cells,
            forall|i: int, j: int|
                old(self).inside(i, j) ==> !(#[trigger] final(self).paths@[j]@[i]).visited
                    && final(self).node(i, j).previous == old(self).node(i, j).previous,
    {
        let mut y: usize = 0;
        while y < self.height
            invariant
                y <= self.height,
                self.wf(),
                old(self).wf(),
                self.width == old(self).width,
                self.height == old(self).height,
                self.grid == old(self).grid,
                self.cells == old(self).cells,
                forall|i: int, j: int|
                    old(self).inside(i, j) ==> (#[trigger] self.paths@[j]@[i]).previous == old(self).node(i, j).previous,
                forall|i: int, j: int|
                    old(self).inside(i, j) && j < y ==> !(#[trigger] self.paths@[j]@[i]).visited,
            decreases self.height - y,
        {
            let mut x: usize = 0;
            while x < self.width
                invariant
                    x <= self.width,
                    y < self.height,
                    self.wf(),
                    old(self).wf(),
                    self.width == old(self).width,
                    self.height == old(self).height,
                    self.grid == old(self).grid,
                    self.cells == old(self).cells,
                    forall|i: int, j: int|
                        old(self).inside(i, j) ==> (#[trigger] self.paths@[j]@[i]).previous == old(self).node(i, j).previous,
                    forall|i: int, j: int|
                        old(self).inside(i, j) && (j < y || (j == y && i < x)) ==> !(
                        #[trigger] self.paths@[j]@[i]).visited,
                decreases self.width - x,
            {
                self.paths[y][x].visited = false;
                x += 1;
            }
            y += 1;
        }
    }

    /// Clears all markers, then marks every position of the chain that ends
    /// in `found` and every slot between two consecutive positions.  Returns
    /// the number of nodes in the chain.
    pub fn mark_solution(&mut self, found: &Path) -> (steps: usize)
        requires
            old(self).wf(),
            old(self).is_route(found.trail()),
            found.trail().len() <= usize::MAX,
        ensures
            final(self).wf(),
            final(self).width == old(self).width,
            final(self).height == old(self).height,
            final(self).grid == old(self).grid,
            final(self).cells == old(self).cells,
            steps == found.trail().len(),
            forall|i: int, j: int|
                old(self).inside(i, j) ==> ((#[trigger] final(self).paths@[j]@[i]).visited
                    <==> on_solution(found.trail(), i, j)),
            forall|i: int, j: int|
                old(self).inside(i, j) ==> (#[trigger] final(self).paths@[j]@[i]).previous == old(self).node(i, j).previous,
    {
        let ghost t = found.trail();
        proof {
            assert(t[0] == (found.x as int, found.y as int));
            assert(self.inside(t[0].0, t[0].1));
        }
        self.clear_marks();
        self.paths[found.y][found.x].visited = true;
        let mut node: &Path = found;
        let mut steps: usize = 1;
        proof {
            assert(t[0] == (found.x as int, found.y as int));
            assert forall|i: int, j: int| old(self).inside(i, j) implies ((
            #[trigger] self.paths@[j]@[i]).visited <==> on_prefix(t, 0, i, j)) by {
                if i == found.x && j == found.y {
                    assert(hit(t, 0, 0, i, j));
                }
            }
        }
        loop
            invariant
                1 <= steps <= t.len(),
                t.len() <= usize::MAX,
                t == found.trail(),
                node.trail() == t.skip(steps - 1),
                self.wf(),
                old(self).wf(),
                old(self).is_route(t),
                self.width == old(self).width,
                self.height == old(self).height,
                self.grid == old(self).grid,
                self.cells == old(self).cells,
                forall|i: int, j: int|
                    old(self).inside(i, j) ==> ((#[trigger] self.paths@[j]@[i]).visited
                        <==> on_prefix(t, steps - 1, i, j)),
                forall|i: int, j: int|
                    old(self).inside(i, j) ==> (#[trigger] self.paths@[j]@[i]).previous == old(self).node(i, j).previous,
            ensures
                steps == t.len(),
            decreases t.len() - steps,
        {
            let ghost k = steps - 1;
            proof {
                assert(node.trail()[0] == t[k]);
                assert(old(self).inside(t[k].0, t[k].1));
            }
            match &node.previous {
                None => {
                    proof {
                        assert(node.trail().len() == 1);
                    }
                    break ;
                },
                Some(prev) => {
                    proof {
                        assert(node.trail() == seq![(node.x as int, node.y as int)] + prev.trail());
                        assert(prev.trail() =~= node.trail().skip(1));
                        assert(t.skip(k).skip(1) =~= t.skip(k + 1));
                        assert(prev.trail()[0] == t[k + 1]);
                        assert(old(self).link(t, k));
                    }
                    let ghost before = *self;
                    if node.x == prev.x {
                        let mid_y = if node.y > prev.y { prev.y + 1 } else { node.y + 1 };
                        self.paths[mid_y][node.x].visited = true;
                    } else {
                        let mid_x = if node.x > prev.x { prev.x + 1 } else { node.x + 1 };
                        self.paths[node.y][mid_x].visited = true;
                    }
                    self.paths[prev.y][prev.x].visited = true;
                    proof {
                        let mid = midpoint(t[k], t[k + 1]);
                        assert forall|i: int, j: int| old(self).inside(i, j) implies ((
                        #[trigger] self.paths@[j]@[i]).visited <==> on_prefix(t, k + 1, i, j)) by {
                            if before.paths@[j]@[i].visited {
                                let n = choose|n: int| 0 <= n <= k && #[trigger] hit(t, n, k, i, j);
                                assert(hit(t, n, k + 1, i, j));
                            }
                            if (i, j) == mid {
                                assert(hit(t, k, k + 1, i, j));
                            }
                            if (i, j) == t[k + 1] {
                                assert(hit(t, k + 1, k + 1, i, j));
                            }
                            if on_prefix(t, k + 1, i, j) {
                                let n = choose|n: int|
                                    0 <= n <= k + 1 && #[trigger] hit(t, n, k + 1, i, j);
                                if n <= k && !((i, j) == mid) {
                                    assert(hit(t, n, k, i, j));
                                }
                            }
                        }
                    }
                    node = &**prev;
                    steps += 1;
                },
            }
        }
        steps
    }

    /// Searches a route from the top-left cell to the bottom-right one and,
    /// when there is one, marks it.  The answer is `None` exactly when the two
    /// corners are not connected.
    pub fn find_path(&mut self) -> (r: Option<Solved>)
        requires
            old(self).wf(),
            old(self).scratch_clear(),
            old(self).width * old(self).height <= usize::MAX,
        ensures
            final(self).wf(),
            final(self).width == old(self).width,
            final(self).height == old(self).height,
            final(self).grid == old(self).grid,
            final(self).cells == old(self).cells,
            r is Some <==> old(self).connected(
                (0, 0),
                (old(self).width - 1, old(self).height - 1),
            ),
            match r {
                Some(s) => {
                    &&& s.path.trail()[0] == (old(self).width - 1, old(self).height - 1)
                    &&& s.path.trail().last() == (0int, 0int)
                    &&& old(self).is_route(s.path.trail())
                    &&& is_simple(s.path.trail())
                    &&& s.steps == s.path.trail().len()
                    &&& s.steps <= old(self).width * old(self).height
                    &&& forall|i: int, j: int|
                        old(self).inside(i, j) ==> ((#[trigger] final(self).paths@[j]@[i]).visited
                            <==> on_solution(s.path.trail(), i, j))
                },
                None => forall|i: int, j: int|
                    old(self).inside(i, j) ==> ((#[trigger] final(self).paths@[j]@[i]).visited
                        <==> old(self).connected((0, 0), (i, j))),
            },
    {
        proof {
            let origin = self.node(0, 0).trail();
            assert(origin == seq![(0int, 0int)]);
            assert(self.is_route(origin));
            let full = vstd::set_lib::set_int_range(0, self.width * self.height);
            vstd::set_lib::lemma_int_range(0, self.width * self.height);
            assert(self.unmarked().subset_of(full));
            vstd::set_lib::lemma_len_subset(self.unmarked(), full);
        }
        let found = self.search(0, 0);
        match found {
            Some(path) => {
                proof {
                    let t = path.trail();
                    assert(t[0] == (path.x as int, path.y as int));
                    assert(old(self).is_route(t) && t[0] == (old(self).width - 1, old(self).height - 1)
                        && t.last() == (0int, 0int));
                }
                let steps = self.mark_solution(&path);
                Some(Solved { path, steps })
            },
            None => {
                proof {
                    let goal = (old(self).width - 1, old(self).height - 1);
                    assert forall|t: Seq<(int, int)>|
                        #[trigger] old(self).is_route(t) && t[0] == goal && t.last() == (
                            0int,
                            0int,
                        ) implies false by {
                        lemma_marks_hold_routes(*self, t);
                        assert(self.marked(t[0].0, t[0].1));
                    }
                    assert forall|i: int, j: int| old(self).inside(i, j) implies ((
                    #[trigger] self.paths@[j]@[i]).visited <==> old(self).connected(
                        (0, 0),
                        (i, j),
                    )) by {
                        if old(self).connected((0, 0), (i, j)) {
                            let t = choose|t: Seq<(int, int)>|
                                #[trigger] route_in(
                                    old(self).grid@,
                                    old(self).width as int,
                                    old(self).height as int,
                                    t,
                                ) && t[0] == (i, j) && t.last() == (0int, 0int);
                            lemma_marks_hold_routes(*self, t);
                            assert(self.marked(t[0].0, t[0].1));
                        }
                    }
                }
                None
            },
        }
    }
}

} // verus!
