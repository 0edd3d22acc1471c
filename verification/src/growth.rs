//! Why carving joins every cell: the taken cells outside the walk in
//! progress all lead to one root, and the cells of the walk lead to where
//! the walk stands.

use crate::grid::{is_cell, Maze, FLOOR, WALL};
use crate::solver::{midpoint, route_in};
use vstd::prelude::*;

verus! {

/// The walk's list holds the position `p`.
pub open spec fn listed(l: Seq<(usize, usize)>, p: (int, int)) -> bool {
    l.contains((p.0 as usize, p.1 as usize))
}

/// The slot between position `k` of `t` and the next.
pub open spec fn slot_at(t: Seq<(int, int)>, k: int) -> (int, int) {
    midpoint(t[k], t[k + 1])
}

/// No position of `t` and no slot between two of them is on the list.
pub open spec fn clear_of(l: Seq<(usize, usize)>, t: Seq<(int, int)>) -> bool {
    &&& forall|k: int| 0 <= k < t.len() ==> !listed(l, #[trigger] t[k])
    &&& forall|k: int| 0 <= k < t.len() - 1 ==> !listed(l, #[trigger] slot_at(t, k))
}

impl Maze {
    /// A route that runs over taken cells only.
    pub open spec fn trodden(&self, t: Seq<(int, int)>) -> bool {
        &&& self.is_route(t)
        &&& forall|k: int|
            0 <= k < t.len() ==> is_cell((#[trigger] t[k]).0, t[k].1) && self.in_maze(t[k].0, t[k].1)
    }

    /// A route over taken cells leads from `a` to `r` and keeps clear of the list.
    pub open spec fn settled_link(&self, l: Seq<(usize, usize)>, a: (int, int), r: (int, int)) -> bool {
        exists|t: Seq<(int, int)>|
            #[trigger] self.trodden(t) && clear_of(l, t) && t[0] == a && t.last() == r
    }

    /// A route over taken cells leads from `a` to `b`.
    pub open spec fn walk_link(&self, a: (int, int), b: (int, int)) -> bool {
        exists|t: Seq<(int, int)>| #[trigger] self.trodden(t) && t[0] == a && t.last() == b
    }

    /// The carving invariant: every taken cell off the list is linked to
    /// `root` clear of the list, every cell on the list is taken and linked
    /// to `pos`, and during the first walk every taken cell is on the list.
    pub open spec fn knit(
        &self,
        l: Seq<(usize, usize)>,
        pos: (int, int),
        root: (int, int),
        first: bool,
    ) -> bool {
        &&& forall|i: int, j: int|
            self.inside(i, j) && is_cell(i, j) && self.in_maze(i, j) && !listed(l, (i, j))
                ==> #[trigger] self.settled_link(l, (i, j), root)
        &&& forall|i: int, j: int|
            self.inside(i, j) && is_cell(i, j) && #[trigger] listed(l, (i, j)) ==> self.in_maze(
                i,
                j,
            )
        &&& forall|i: int, j: int|
            self.inside(i, j) && is_cell(i, j) && listed(l, (i, j)) ==> #[trigger] self.walk_link(
                (i, j),
                pos,
            )
        &&& first ==> forall|i: int, j: int|
            self.inside(i, j) && is_cell(i, j) && self.in_maze(i, j) ==> #[trigger] listed(
                l,
                (i, j),
            )
    }

    /// `self` is `m0` with the glyph at `s` replaced by floor.
    pub open spec fn opened_from(&self, m0: Maze, s: (int, int)) -> bool {
        &&& self.wf() && m0.wf()
        &&& self.width == m0.width && self.height == m0.height
        &&& forall|i: int, j: int|
            m0.inside(i, j) ==> #[trigger] self.glyph(i, j) == (if i == s.0 && j == s.1 {
                FLOOR
            } else {
                m0.glyph(i, j)
            })
    }

    /// `self` has the flags of `m0` and the one at `p` set.
    pub open spec fn flagged_from(&self, m0: Maze, p: (int, int)) -> bool {
        forall|i: int, j: int|
            m0.inside(i, j) ==> (#[trigger] self.cells@[j]@[i]).visited == (m0.in_maze(i, j) || (i
                == p.0 && j == p.1))
    }
}

/// A route over taken cells stays one when no flag is cleared and none of
/// its slots is walled up.
pub proof fn lemma_trodden_kept(m0: Maze, m1: Maze, t: Seq<(int, int)>)
    requires
        m0.trodden(t),
        m1.width == m0.width,
        m1.height == m0.height,
        forall|k: int| 0 <= k < t.len() ==> m1.in_maze((#[trigger] t[k]).0, t[k].1),
        forall|k: int|
            0 <= k < t.len() - 1 ==> m1.glyph(
                (#[trigger] slot_at(t, k)).0,
                slot_at(t, k).1,
            ) != WALL,
    ensures
        m1.trodden(t),
{
    assert forall|k: int| 0 <= k < t.len() - 1 implies #[trigger] m1.link(t, k) by {
        assert(m0.link(t, k));
        assert(m1.glyph(slot_at(t, k).0, slot_at(t, k).1) != WALL);
    }
}

/// Pushing an item onto a list adds exactly that item.
pub proof fn lemma_listed_push(l: Seq<(usize, usize)>, q: (usize, usize), p: (int, int))
    ensures
        listed(l.push(q), p) <==> (listed(l, p) || q == (p.0 as usize, p.1 as usize)),
{
    let x = (p.0 as usize, p.1 as usize);
    if l.contains(x) {
        let n = l.index_of(x);
        assert(l.push(q)[n] == x);
    }
    if q == x {
        assert(l.push(q)[l.len() as int] == x);
    }
    if l.push(q).contains(x) {
        let n = l.push(q).index_of(x);
        if n < l.len() {
            assert(l[n] == x);
        }
    }
}

/// Two routes over taken cells whose ends are joined make one route.
pub proof fn lemma_trodden_joined(m: Maze, t1: Seq<(int, int)>, t2: Seq<(int, int)>)
    requires
        m.trodden(t1),
        m.trodden(t2),
        m.joined(t1.last(), t2[0]),
    ensures
        m.trodden(t1 + t2),
        (t1 + t2)[0] == t1[0],
        (t1 + t2).last() == t2.last(),
{
    let t = t1 + t2;
    assert forall|k: int| 0 <= k < t.len() - 1 implies #[trigger] m.link(t, k) by {
        if k < t1.len() - 1 {
            assert(m.link(t1, k));
        } else if k == t1.len() - 1 {
            assert(t[k] == t1.last() && t[k + 1] == t2[0]);
        } else {
            assert(m.link(t2, k - t1.len()));
            assert(t[k] == t2[k - t1.len()] && t[k + 1] == t2[k - t1.len() + 1]);
        }
    }
    assert forall|k: int| 0 <= k < t.len() implies is_cell((#[trigger] t[k]).0, t[k].1)
        && m.in_maze(t[k].0, t[k].1) && m.inside(t[k].0, t[k].1) by {
        if k < t1.len() {
            assert(t[k] == t1[k]);
        } else {
            assert(t[k] == t2[k - t1.len()]);
        }
    }
}

/// A route over taken cells can be walked backwards.
pub proof fn lemma_trodden_reversed(m: Maze, t: Seq<(int, int)>)
    requires
        m.trodden(t),
    ensures
        m.trodden(t.reverse()),
        t.reverse()[0] == t.last(),
        t.reverse().last() == t[0],
{
    let r = t.reverse();
    assert forall|k: int| 0 <= k < r.len() - 1 implies #[trigger] m.link(r, k) by {
        let n = t.len() - 2 - k;
        assert(m.link(t, n));
        assert(r[k] == t[n + 1] && r[k + 1] == t[n]);
    }
    assert forall|k: int| 0 <= k < r.len() implies is_cell((#[trigger] r[k]).0, r[k].1)
        && m.in_maze(r[k].0, r[k].1) && m.inside(r[k].0, r[k].1) by {
        assert(r[k] == t[t.len() - 1 - k]);
    }
}

/// Two routes over taken cells that meet in one position make one route.
pub proof fn lemma_trodden_through(m: Maze, t1: Seq<(int, int)>, t2: Seq<(int, int)>)
    requires
        m.trodden(t1),
        m.trodden(t2),
        t1.last() == t2[0],
    ensures
        m.walk_link(t1[0], t2.last()),
{
    if t2.len() == 1 {
        assert(m.trodden(t1) && t1[0] == t1[0] && t1.last() == t2.last());
    } else {
        let rest = t2.skip(1);
        assert forall|k: int| 0 <= k < rest.len() - 1 implies #[trigger] m.link(rest, k) by {
            assert(m.link(t2, k + 1));
        }
        assert forall|k: int| 0 <= k < rest.len() implies is_cell((#[trigger] rest[k]).0, rest[k].1)
            && m.in_maze(rest[k].0, rest[k].1) && m.inside(rest[k].0, rest[k].1) by {
            assert(rest[k] == t2[k + 1]);
        }
        assert(m.link(t2, 0));
        assert(rest[0] == t2[1]);
        lemma_trodden_joined(m, t1, rest);
        assert(rest.last() == t2.last());
        assert(m.trodden(t1 + rest));
    }
}

/// With an empty list and every cell taken, the invariant joins any two cells.
pub proof fn lemma_knit_joins_all(m: Maze, pos: (int, int), root: (int, int), a: (int, int), b: (int, int))
    requires
        m.wf(),
        m.knit(Seq::empty(), pos, root, false),
        m.inside(a.0, a.1) && is_cell(a.0, a.1) && m.in_maze(a.0, a.1),
        m.inside(b.0, b.1) && is_cell(b.0, b.1) && m.in_maze(b.0, b.1),
    ensures
        m.connected(a, b),
{
    let l = Seq::<(usize, usize)>::empty();
    assert(!listed(l, a) && !listed(l, b));
    assert(m.settled_link(l, (a.0, a.1), root));
    assert(m.settled_link(l, (b.0, b.1), root));
    let ta = choose|t: Seq<(int, int)>|
        #[trigger] m.trodden(t) && clear_of(l, t) && t[0] == a && t.last() == root;
    let tb = choose|t: Seq<(int, int)>|
        #[trigger] m.trodden(t) && clear_of(l, t) && t[0] == b && t.last() == root;
    lemma_trodden_reversed(m, ta);
    lemma_trodden_through(m, tb, ta.reverse());
    let t = choose|t: Seq<(int, int)>| #[trigger] m.trodden(t) && t[0] == b && t.last() == a;
    assert(route_in(m.grid@, m.width as int, m.height as int, t));
}

/// A step of the walk: from the cell `c` over the slot `s` to the cell `d`.
pub open spec fn step_of(c: (int, int), d: (int, int), s: (int, int)) -> bool {
    &&& is_cell(c.0, c.1)
    &&& is_cell(d.0, d.1)
    &&& (c.1 == d.1 && (d.0 == c.0 + 2 || d.0 == c.0 - 2)) || (c.0 == d.0 && (d.1 == c.1 + 2
        || d.1 == c.1 - 2))
    &&& s == midpoint(c, d)
}

/// The list of a walk that has taken the step onto `d` over `s`.
pub open spec fn grown(l: Seq<(usize, usize)>, d: (int, int), s: (int, int)) -> Seq<(usize, usize)> {
    l.push((d.0 as usize, d.1 as usize)).push((s.0 as usize, s.1 as usize))
}

/// What is on the list after a step.
pub proof fn lemma_listed_grown(l: Seq<(usize, usize)>, d: (int, int), s: (int, int), p: (int, int))
    ensures
        listed(grown(l, d, s), p) <==> (listed(l, p) || (d.0 as usize, d.1 as usize) == (
            p.0 as usize,
            p.1 as usize,
        ) || (s.0 as usize, s.1 as usize) == (p.0 as usize, p.1 as usize)),
{
    lemma_listed_push(l, (d.0 as usize, d.1 as usize), p);
    lemma_listed_push(l.push((d.0 as usize, d.1 as usize)), (s.0 as usize, s.1 as usize), p);
}

/// A route over taken cells that keeps clear of a list holding `c` does not
/// cross the slot of a step from `c`, and stays a route when that slot is
/// opened and `d` is taken.
pub proof fn lemma_route_misses_step(
    m0: Maze,
    m1: Maze,
    l: Seq<(usize, usize)>,
    c: (int, int),
    d: (int, int),
    s: (int, int),
    t: Seq<(int, int)>,
)
    requires
        m1.opened_from(m0, s),
        m0.inside(c.0, c.1) && m0.inside(d.0, d.1),
        step_of(c, d, s),
        m0.trodden(t),
        clear_of(l, t),
        listed(l, c),
        listed(l, d) || !m0.in_maze(d.0, d.1),
        forall|i: int, j: int|
            m0.inside(i, j) && m0.in_maze(i, j) ==> (#[trigger] m1.cells@[j]@[i]).visited,
    ensures
        m1.trodden(t),
        clear_of(grown(l, d, s), t),
        forall|k: int| 0 <= k < t.len() - 1 ==> #[trigger] slot_at(t, k) != s,
        forall|k: int| 0 <= k < t.len() ==> #[trigger] t[k] != d && t[k] != c,
{
    assert forall|k: int| 0 <= k < t.len() implies #[trigger] t[k] != d && t[k] != c && t[k] != s
        && m0.inside(t[k].0, t[k].1) by {
        assert(!listed(l, t[k]));
        assert(is_cell(t[k].0, t[k].1) && m0.in_maze(t[k].0, t[k].1));
    }
    assert forall|k: int| 0 <= k < t.len() - 1 implies #[trigger] slot_at(t, k) != s && slot_at(
        t,
        k,
    ) != d && m0.inside(slot_at(t, k).0, slot_at(t, k).1) && m1.glyph(
        slot_at(t, k).0,
        slot_at(t, k).1,
    ) != WALL by {
        assert(m0.link(t, k));
        assert(t[k] != c && t[k + 1] != c);
        assert(is_cell(t[k].0, t[k].1) && is_cell(t[k + 1].0, t[k + 1].1));
    }
    assert forall|k: int| 0 <= k < t.len() implies m1.in_maze((#[trigger] t[k]).0, t[k].1) by {
        assert(m0.in_maze(t[k].0, t[k].1) && m0.inside(t[k].0, t[k].1));
    }
    lemma_trodden_kept(m0, m1, t);
    assert forall|k: int| 0 <= k < t.len() implies !listed(grown(l, d, s), #[trigger] t[k]) by {
        lemma_listed_grown(l, d, s, t[k]);
    }
    assert forall|k: int| 0 <= k < t.len() - 1 implies !listed(
        grown(l, d, s),
        #[trigger] slot_at(t, k),
    ) by {
        lemma_listed_grown(l, d, s, slot_at(t, k));
    }
}

/// The invariant holds once the first cell of a blank lattice is taken.
pub proof fn lemma_knit_begin(m0: Maze, m1: Maze, start: (int, int), root: (int, int))
    requires
        m0.wf() && m1.wf(),
        m1.width == m0.width && m1.height == m0.height,
        m0.is_blank(),
        m0.inside(start.0, start.1) && is_cell(start.0, start.1),
        m1.flagged_from(m0, start),
    ensures
        m1.knit(seq![(start.0 as usize, start.1 as usize)], start, root, true),
{
    let l = seq![(start.0 as usize, start.1 as usize)];
    assert(l[0] == (start.0 as usize, start.1 as usize));
    assert(listed(l, start));
    let t = seq![start];
    assert(m1.trodden(t) && t[0] == start && t.last() == start);
    assert(m1.walk_link(start, start));
    assert forall|i: int, j: int|
        m1.inside(i, j) && is_cell(i, j) && m1.in_maze(i, j) implies #[trigger] listed(l, (i, j)) by {
        assert(m0.in_maze(i, j) == !is_cell(i, j));
    }
    assert forall|i: int, j: int|
        m1.inside(i, j) && is_cell(i, j) && listed(l, (i, j)) implies #[trigger] m1.walk_link(
        (i, j),
        start,
    ) by {
        assert((i, j) == start);
    }
    assert forall|i: int, j: int|
        m1.inside(i, j) && is_cell(i, j) && #[trigger] listed(l, (i, j)) implies m1.in_maze(i, j) by {
        assert((i, j) == start);
    }
}

/// The invariant survives a step onto a free cell.
pub proof fn lemma_knit_entered(
    m0: Maze,
    m1: Maze,
    l: Seq<(usize, usize)>,
    c: (int, int),
    d: (int, int),
    s: (int, int),
    root: (int, int),
    first: bool,
)
    requires
        m1.opened_from(m0, s),
        m1.flagged_from(m0, d),
        m0.inside(c.0, c.1) && m0.inside(d.0, d.1),
        step_of(c, d, s),
        !m0.in_maze(d.0, d.1),
        m0.knit(l, c, root, first),
        !first ==> listed(l, c),
    ensures
        m1.knit(grown(l, d, s), d, root, first),
        listed(grown(l, d, s), d),
{
    let l1 = grown(l, d, s);
    lemma_listed_grown(l, d, s, d);
    assert forall|i: int, j: int|
        m1.inside(i, j) && is_cell(i, j) && m1.in_maze(i, j) && !listed(l1, (i, j))
        implies #[trigger] m1.settled_link(l1, (i, j), root) by {
        lemma_listed_grown(l, d, s, (i, j));
        assert(m0.in_maze(i, j) && !listed(l, (i, j)));
        if first {
            assert(listed(l, (i, j)));
        }
        assert(m0.settled_link(l, (i, j), root));
        let t = choose|t: Seq<(int, int)>|
            #[trigger] m0.trodden(t) && clear_of(l, t) && t[0] == (i, j) && t.last() == root;
        lemma_route_misses_step(m0, m1, l, c, d, s, t);
    }
    assert forall|i: int, j: int|
        m1.inside(i, j) && is_cell(i, j) && #[trigger] listed(l1, (i, j)) implies m1.in_maze(i, j) by {
        lemma_listed_grown(l, d, s, (i, j));
        if (i, j) != d {
            assert(listed(l, (i, j)));
        }
    }
    assert forall|i: int, j: int|
        m1.inside(i, j) && is_cell(i, j) && listed(l1, (i, j)) implies #[trigger] m1.walk_link(
        (i, j),
        d,
    ) by {
        lemma_listed_grown(l, d, s, (i, j));
        let one = seq![d];
        assert(m1.trodden(one));
        if (i, j) == d {
            assert(one[0] == d && one.last() == d);
        } else {
            assert(listed(l, (i, j)));
            assert(m0.walk_link((i, j), c));
            let t = choose|t: Seq<(int, int)>|
                #[trigger] m0.trodden(t) && t[0] == (i, j) && t.last() == c;
            assert forall|k: int| 0 <= k < t.len() - 1 implies m1.glyph(
                (#[trigger] slot_at(t, k)).0,
                slot_at(t, k).1,
            ) != WALL by {
                assert(m0.link(t, k));
            }
            assert forall|k: int| 0 <= k < t.len() implies m1.in_maze((#[trigger] t[k]).0, t[k].1) by {
                assert(m0.in_maze(t[k].0, t[k].1) && m0.inside(t[k].0, t[k].1));
            }
            lemma_trodden_kept(m0, m1, t);
            assert(m1.joined(c, d));
            lemma_trodden_joined(m1, t, one);
            assert(m1.trodden(t + one) && (t + one)[0] == (i, j) && (t + one).last() == d);
        }
    }
    if first {
        assert forall|i: int, j: int|
            m1.inside(i, j) && is_cell(i, j) && m1.in_maze(i, j) implies #[trigger] listed(
            l1,
            (i, j),
        ) by {
            lemma_listed_grown(l, d, s, (i, j));
            if (i, j) != d {
                assert(listed(l, (i, j)));
            }
        }
    }
}

/// The invariant, stated for the list and the cell before the step,
/// survives a step onto a taken cell; the step joins the two cells.
pub proof fn lemma_knit_closed(
    m0: Maze,
    m1: Maze,
    l: Seq<(usize, usize)>,
    c: (int, int),
    d: (int, int),
    s: (int, int),
    root: (int, int),
    first: bool,
)
    requires
        m1.opened_from(m0, s),
        m1.flagged_from(m0, d),
        m0.inside(c.0, c.1) && m0.inside(d.0, d.1),
        step_of(c, d, s),
        m0.in_maze(d.0, d.1),
        m0.knit(l, c, root, first),
    ensures
        m1.knit(l, c, root, first),
        m1.joined(c, d),
{
    assert forall|t: Seq<(int, int)>| m0.trodden(t) implies #[trigger] m1.trodden(t) by {
        assert forall|k: int| 0 <= k < t.len() - 1 implies m1.glyph(
            (#[trigger] slot_at(t, k)).0,
            slot_at(t, k).1,
        ) != WALL by {
            assert(m0.link(t, k));
        }
        assert forall|k: int| 0 <= k < t.len() implies m1.in_maze((#[trigger] t[k]).0, t[k].1) by {
            assert(m0.in_maze(t[k].0, t[k].1) && m0.inside(t[k].0, t[k].1));
        }
        lemma_trodden_kept(m0, m1, t);
    }
    assert forall|i: int, j: int|
        m1.inside(i, j) && is_cell(i, j) && m1.in_maze(i, j) && !listed(l, (i, j))
        implies #[trigger] m1.settled_link(l, (i, j), root) by {
        assert(m0.settled_link(l, (i, j), root));
        let t = choose|t: Seq<(int, int)>|
            #[trigger] m0.trodden(t) && clear_of(l, t) && t[0] == (i, j) && t.last() == root;
        assert(m1.trodden(t));
    }
    assert forall|i: int, j: int|
        m1.inside(i, j) && is_cell(i, j) && #[trigger] listed(l, (i, j)) implies m1.in_maze(i, j) by {
        assert(m0.in_maze(i, j));
    }
    assert forall|i: int, j: int|
        m1.inside(i, j) && is_cell(i, j) && listed(l, (i, j)) implies #[trigger] m1.walk_link(
        (i, j),
        c,
    ) by {
        assert(m0.walk_link((i, j), c));
        let t = choose|t: Seq<(int, int)>|
            #[trigger] m0.trodden(t) && t[0] == (i, j) && t.last() == c;
        assert(m1.trodden(t));
    }
    if first {
        assert forall|i: int, j: int|
            m1.inside(i, j) && is_cell(i, j) && m1.in_maze(i, j) implies #[trigger] listed(
            l,
            (i, j),
        ) by {
            assert(m0.in_maze(i, j));
        }
    }
}

/// A first walk that is kept becomes the maze: every taken cell leads to
/// the cell the walk last left.
pub proof fn lemma_knit_kept_first(
    m: Maze,
    l: Seq<(usize, usize)>,
    c: (int, int),
    root: (int, int),
    pos: (int, int),
)
    requires
        m.wf(),
        m.knit(l, c, root, true),
    ensures
        m.knit(Seq::empty(), pos, c, false),
{
    let e = Seq::<(usize, usize)>::empty();
    assert forall|i: int, j: int|
        m.inside(i, j) && is_cell(i, j) && m.in_maze(i, j) && !listed(e, (i, j))
        implies #[trigger] m.settled_link(e, (i, j), c) by {
        assert(listed(l, (i, j)));
        assert(m.walk_link((i, j), c));
        let t = choose|t: Seq<(int, int)>|
            #[trigger] m.trodden(t) && t[0] == (i, j) && t.last() == c;
        assert(clear_of(e, t));
    }
}

/// On a blank lattice the invariant holds with an empty list.
pub proof fn lemma_knit_blank(m: Maze, pos: (int, int), root: (int, int))
    requires
        m.wf(),
        m.is_blank(),
    ensures
        m.knit(Seq::empty(), pos, root, true),
{
    let e = Seq::<(usize, usize)>::empty();
    assert forall|i: int, j: int|
        m.inside(i, j) && is_cell(i, j) && m.in_maze(i, j) implies #[trigger] listed(e, (i, j)) by {
        assert(m.in_maze(i, j) == !is_cell(i, j));
    }
    assert forall|i: int, j: int|
        m.inside(i, j) && is_cell(i, j) && m.in_maze(i, j) && !listed(e, (i, j))
        implies #[trigger] m.settled_link(e, (i, j), root) by {
        assert(m.in_maze(i, j) == !is_cell(i, j));
    }
}

/// A later walk that met the maze becomes part of it.
pub proof fn lemma_knit_committed(
    m: Maze,
    l: Seq<(usize, usize)>,
    c: (int, int),
    d: (int, int),
    root: (int, int),
    pos: (int, int),
)
    requires
        m.wf(),
        m.knit(l, c, root, false),
        m.inside(d.0, d.1) && is_cell(d.0, d.1) && m.in_maze(d.0, d.1),
        !listed(l, d),
        m.joined(c, d),
    ensures
        m.knit(Seq::empty(), pos, root, false),
{
    let e = Seq::<(usize, usize)>::empty();
    assert(m.settled_link(l, (d.0, d.1), root));
    let td = choose|t: Seq<(int, int)>|
        #[trigger] m.trodden(t) && clear_of(l, t) && t[0] == d && t.last() == root;
    assert forall|i: int, j: int|
        m.inside(i, j) && is_cell(i, j) && m.in_maze(i, j) && !listed(e, (i, j))
        implies #[trigger] m.settled_link(e, (i, j), root) by {
        if listed(l, (i, j)) {
            assert(m.walk_link((i, j), c));
            let t = choose|t: Seq<(int, int)>|
                #[trigger] m.trodden(t) && t[0] == (i, j) && t.last() == c;
            lemma_trodden_joined(m, t, td);
            assert(m.trodden(t + td) && clear_of(e, t + td));
        } else {
            assert(m.settled_link(l, (i, j), root));
            let t = choose|t: Seq<(int, int)>|
                #[trigger] m.trodden(t) && clear_of(l, t) && t[0] == (i, j) && t.last() == root;
            assert(clear_of(e, t));
        }
    }
}

/// Wiping a later walk that crossed itself leaves the maze as it was knit.
pub proof fn lemma_knit_wiped(
    m0: Maze,
    m1: Maze,
    l: Seq<(usize, usize)>,
    c: (int, int),
    d: (int, int),
    s: (int, int),
    root: (int, int),
    pos: (int, int),
)
    requires
        m0.wf() && m1.wf(),
        m1.width == m0.width && m1.height == m0.height,
        m0.inside(c.0, c.1) && m0.inside(d.0, d.1),
        step_of(c, d, s),
        m0.knit(l, c, root, false),
        m0.glyph(s.0, s.1) == FLOOR,
        listed(l, c),
        listed(l, d),
        forall|i: int, j: int|
            m0.inside(i, j) ==> #[trigger] m1.glyph(i, j) == (if grown(l, d, s).contains(
                (i as usize, j as usize),
            ) && !is_cell(i, j) {
                WALL
            } else {
                m0.glyph(i, j)
            }),
        forall|i: int, j: int|
            m0.inside(i, j) ==> (#[trigger] m1.cells@[j]@[i]).visited == (m0.in_maze(i, j) && !(
            grown(l, d, s).contains((i as usize, j as usize)) && is_cell(i, j))),
    ensures
        m1.knit(Seq::empty(), pos, root, false),
{
    let e = Seq::<(usize, usize)>::empty();
    let la = grown(l, d, s);
    assert forall|i: int, j: int|
        m1.inside(i, j) && is_cell(i, j) && m1.in_maze(i, j) && !listed(e, (i, j))
        implies #[trigger] m1.settled_link(e, (i, j), root) by {
        assert(m0.in_maze(i, j) && !listed(la, (i, j)));
        lemma_listed_grown(l, d, s, (i, j));
        assert(m0.settled_link(l, (i, j), root));
        let t = choose|t: Seq<(int, int)>|
            #[trigger] m0.trodden(t) && clear_of(l, t) && t[0] == (i, j) && t.last() == root;
        lemma_route_misses_step(m0, m0, l, c, d, s, t);
        assert forall|k: int| 0 <= k < t.len() implies m1.in_maze((#[trigger] t[k]).0, t[k].1) by {
            assert(!listed(la, t[k]));
            assert(m0.in_maze(t[k].0, t[k].1) && m0.inside(t[k].0, t[k].1));
        }
        assert forall|k: int| 0 <= k < t.len() - 1 implies m1.glyph(
            (#[trigger] slot_at(t, k)).0,
            slot_at(t, k).1,
        ) != WALL by {
            assert(!listed(la, slot_at(t, k)));
            assert(m0.link(t, k));
        }
        lemma_trodden_kept(m0, m1, t);
        assert(clear_of(e, t));
    }
}

/// The invariant survives the start of a new walk on a free cell.
pub proof fn lemma_knit_departed(m0: Maze, m1: Maze, x: (int, int), root: (int, int), pos: (int, int))
    requires
        m0.wf() && m1.wf(),
        m1.width == m0.width && m1.height == m0.height,
        m1.grid == m0.grid,
        m1.flagged_from(m0, x),
        m0.inside(x.0, x.1) && is_cell(x.0, x.1) && !m0.in_maze(x.0, x.1),
        m0.knit(Seq::empty(), pos, root, false),
    ensures
        m1.knit(seq![(x.0 as usize, x.1 as usize)], x, root, false),
        listed(seq![(x.0 as usize, x.1 as usize)], x),
{
    let e = Seq::<(usize, usize)>::empty();
    let l = seq![(x.0 as usize, x.1 as usize)];
    assert(l[0] == (x.0 as usize, x.1 as usize));
    let one = seq![x];
    assert(m1.trodden(one) && one[0] == x && one.last() == x);
    assert forall|i: int, j: int|
        m1.inside(i, j) && is_cell(i, j) && listed(l, (i, j)) implies #[trigger] m1.walk_link(
        (i, j),
        x,
    ) by {
        assert((i, j) == x);
    }
    assert forall|i: int, j: int|
        m1.inside(i, j) && is_cell(i, j) && #[trigger] listed(l, (i, j)) implies m1.in_maze(i, j) by {
        assert((i, j) == x);
    }
    assert forall|i: int, j: int|
        m1.inside(i, j) && is_cell(i, j) && m1.in_maze(i, j) && !listed(l, (i, j))
        implies #[trigger] m1.settled_link(l, (i, j), root) by {
        assert(m0.in_maze(i, j) && !listed(e, (i, j)));
        assert(m0.settled_link(e, (i, j), root));
        let t = choose|t: Seq<(int, int)>|
            #[trigger] m0.trodden(t) && clear_of(e, t) && t[0] == (i, j) && t.last() == root;
        assert forall|k: int| 0 <= k < t.len() implies m1.in_maze((#[trigger] t[k]).0, t[k].1)
            && !listed(l, t[k]) by {
            assert(m0.in_maze(t[k].0, t[k].1) && m0.inside(t[k].0, t[k].1));
        }
        assert forall|k: int| 0 <= k < t.len() - 1 implies m1.glyph(
            (#[trigger] slot_at(t, k)).0,
            slot_at(t, k).1,
        ) != WALL && !listed(l, slot_at(t, k)) by {
            assert(m0.link(t, k));
            assert(is_cell(t[k].0, t[k].1) && is_cell(t[k + 1].0, t[k + 1].1));
        }
        lemma_trodden_kept(m0, m1, t);
    }
}

} // verus!
