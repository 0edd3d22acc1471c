//! Carving: a random walk over the cells that opens the slot behind every
//! step, commits when it meets the maze and is wiped when it bites its tail.

use crate::chance::{draw_below, pick, thread_source};
use crate::grid::{is_cell, unit_dx, unit_dy, Maze, FLOOR, WALL};
use crate::growth::{
    grown, lemma_knit_begin, lemma_knit_blank, lemma_knit_closed, lemma_knit_committed,
    lemma_knit_departed, lemma_knit_entered, lemma_knit_joins_all, lemma_knit_kept_first,
    lemma_knit_wiped, listed,
};
use crate::solver::route_in;
use vstd::prelude::*;

verus! {

/// Steps a first walk must have taken to be kept however it closed.
pub const FIRST_WALK_STEPS: usize = 20;

/// The move that undoes move `d`.
pub open spec fn reverse_of(d: int) -> int {
    (d + 2) % 4
}

/// `a` comes before `b` when the lattice is read row by row.
pub open spec fn row_major_before(a: (usize, usize), b: (usize, usize)) -> bool {
    a.1 < b.1 || (a.1 == b.1 && a.0 < b.0)
}

/// Bookkeeping of the walk in progress.
pub struct Walk {
    /// Cell the walk stands on.
    pub x: usize,
    pub y: usize,
    /// Index of the last move taken in this walk, if any.
    pub heading: Option<usize>,
    /// Every cell entered and every slot opened by this walk, in order.
    pub steps: Vec<(usize, usize)>,
    /// Whether this is still the first walk of the run.
    pub first: bool,
    /// Whether the walk has stepped onto a cell of its own list.
    pub looped: bool,
}

/// What became of one drawn move.
#[derive(Clone, Copy, Debug, PartialEq, Eq)]
pub enum Step {
    /// The move was the reverse of the last one or left the lattice: draw again.
    Rejected,
    /// The walk moved onto a cell that was still free and took it.
    Entered,
    /// The walk moved onto a cell that was already taken and ends there.
    Closed,
}

/// What follows the end of a walk.
#[derive(Clone, Copy, Debug, PartialEq, Eq)]
pub enum Verdict {
    /// The run was discarded and the lattice is blank: stand on a fresh cell.
    Restart,
    /// The walk is settled: depart from a free cell, if one is left.
    Resume,
}

impl Walk {
    /// The walk stands on a cell of the lattice, its heading is a move, and
    /// its list holds lattice positions only.
    pub open spec fn ok(&self, m: &Maze) -> bool {
        &&& m.inside(self.x as int, self.y as int)
        &&& is_cell(self.x as int, self.y as int)
        &&& self.heading is Some ==> self.heading.unwrap() < 4
        &&& forall|k: int|
            0 <= k < self.steps@.len() ==> m.inside(
                (#[trigger] self.steps@[k]).0 as int,
                self.steps@[k].1 as int,
            )
    }

    /// A first walk long enough to be kept however it closed.
    pub open spec fn long_first(&self) -> bool {
        self.first && self.steps@.len() / 2 >= FIRST_WALK_STEPS
    }
}

fn holds(steps: &Vec<(usize, usize)>, x: usize, y: usize) -> (r: bool)
    ensures
        r == steps@.contains((x, y)),
{
    let mut k: usize = 0;
    while k < steps.len()
        invariant
            k <= steps@.len(),
            forall|n: int| 0 <= n < k ==> steps@[n] != (x, y),
        decreases steps@.len() - k,
    {
        if steps[k].0 == x && steps[k].1 == y {
            return true;
        }
        k += 1;
    }
    false
}

impl Maze {
    /// The positions not yet taken, row by row.
    pub fn unvisited(&self) -> (r: Vec<(usize, usize)>)
        requires
            self.wf(),
        ensures
            forall|k: int|
                0 <= k < r@.len() ==> self.inside((#[trigger] r@[k]).0 as int, r@[k].1 as int)
                    && !self.in_maze(r@[k].0 as int, r@[k].1 as int),
            forall|i: int, j: int|
                self.inside(i, j) && !(#[trigger] self.cells@[j]@[i]).visited ==> r@.contains(
                    (i as usize, j as usize),
                ),
            forall|a: int, b: int|
                0 <= a < b < r@.len() ==> row_major_before(#[trigger] r@[a], #[trigger] r@[b]),
    {
        let mut r: Vec<(usize, usize)> = Vec::new();
        let mut y: usize = 0;
        while y < self.height
            invariant
                y <= self.height,
                self.wf(),
                forall|k: int|
                    0 <= k < r@.len() ==> self.inside((#[trigger] r@[k]).0 as int, r@[k].1 as int)
                        && !self.in_maze(r@[k].0 as int, r@[k].1 as int) && r@[k].1 < y,
                forall|i: int, j: int|
                    self.inside(i, j) && j < y && !(#[trigger] self.cells@[j]@[i]).visited
                        ==> r@.contains((i as usize, j as usize)),
                forall|a: int, b: int|
                    0 <= a < b < r@.len() ==> row_major_before(#[trigger] r@[a], #[trigger] r@[b]),
            decreases self.height - y,
        {
            let mut x: usize = 0;
            while x < self.width
                invariant
                    x <= self.width,
                    y < self.height,
                    self.wf(),
                    forall|k: int|
                        0 <= k < r@.len() ==> self.inside(
                            (#[trigger] r@[k]).0 as int,
                            r@[k].1 as int,
                        ) && !self.in_maze(r@[k].0 as int, r@[k].1 as int) && (r@[k].1 < y || (
                        r@[k].1 == y && r@[k].0 < x)),
                    forall|i: int, j: int|
                        self.inside(i, j) && (j < y || (j == y && i < x)) && !(
                        #[trigger] self.cells@[j]@[i]).visited ==> r@.contains(
                            (i as usize, j as usize),
                        ),
                    forall|a: int, b: int|
                        0 <= a < b < r@.len() ==> row_major_before(
                            #[trigger] r@[a],
                            #[trigger] r@[b],
                        ),
                decreases self.width - x,
            {
                if !self.cells[y][x].visited {
                    let ghost before = r@;
                    r.push((x, y));
                    proof {
                        assert(r@[before.len() as int] == (x, y));
                        assert forall|i: int, j: int|
                            self.inside(i, j) && (j < y || (j == y && i < x + 1)) && !(
                            #[trigger] self.cells@[j]@[i]).visited implies r@.contains(
                            (i as usize, j as usize),
                        ) by {
                            if i == x && j == y {
                            } else {
                                let n = before.index_of((i as usize, j as usize));
                                assert(before.contains((i as usize, j as usize)));
                                assert(r@[n] == before[n]);
                            }
                        }
                    }
                }
                x += 1;
            }
            y += 1;
        }
        r
    }

    /// Opens the walk of a run on cell `(2 col, 2 row)`: the cell is taken
    /// and shown as floor, and the walk's list holds it alone.
    pub fn begin(&mut self, col: usize, row: usize) -> (walk: Walk)
        requires
            old(self).wf(),
            old(self).lattice_ok(),
            2 * col < old(self).width,
            2 * row < old(self).height,
        ensures
            final(self).wf(),
            final(self).lattice_ok(),
            final(self).width == old(self).width,
            final(self).height == old(self).height,
            final(self).paths == old(self).paths,
            forall|i: int, j: int|
                old(self).inside(i, j) ==> #[trigger] final(self).glyph(i, j) == old(self).glyph(
                    i,
                    j,
                ),
            forall|i: int, j: int|
                old(self).inside(i, j) ==> (#[trigger] final(self).cells@[j]@[i]).visited == (old(self).in_maze(i, j) || (i == 2 * col && j == 2 * row)),
            walk.x == 2 * col,
            walk.y == 2 * row,
            walk.heading is None,
            walk.steps@ == seq![(walk.x, walk.y)],
            walk.first,
            !walk.looped,
            walk.ok(final(self)),
    {
        let x = 2 * col;
        let y = 2 * row;
        self.cells[y][x].visited = true;
        self.grid[y][x] = FLOOR;
        let mut steps: Vec<(usize, usize)> = Vec::new();
        steps.push((x, y));
        Walk { x, y, heading: None, steps, first: true, looped: false }
    }

    /// Tries move `d` from the cell the walk stands on.  A move that undoes
    /// the last one, or leaves the lattice, changes nothing.  Any other move
    /// is taken at once: the slot behind it is opened, cell and slot join
    /// the walk's list, and the walk is flagged when the cell was on the list
    /// already.  A free cell is taken; a taken cell ends the walk.
    pub fn advance(&mut self, walk: &mut Walk, d: usize) -> (s: Step)
        requires
            old(self).wf(),
            old(self).lattice_ok(),
            old(walk).ok(old(self)),
            d < 4,
        ensures
            final(self).wf(),
            final(self).lattice_ok(),
            final(walk).ok(final(self)),
            final(self).width == old(self).width,
            final(self).height == old(self).height,
            final(self).paths == old(self).paths,
            final(walk).first == old(walk).first,
            s is Rejected <==> (old(walk).heading == Some(reverse_of(d as int) as usize)
                || !old(self).inside(
                old(walk).x + 2 * unit_dx(d as int),
                old(walk).y + 2 * unit_dy(d as int),
            )),
            s is Rejected ==> final(self).grid == old(self).grid && final(self).cells == old(self).cells && final(walk).x == old(walk).x && final(walk).y == old(walk).y && final(walk).heading == old(walk).heading && final(walk).steps@ == old(walk).steps@ && final(walk).looped == old(walk).looped,
            !(s is Rejected) ==> {
                let nx = old(walk).x + 2 * unit_dx(d as int);
                let ny = old(walk).y + 2 * unit_dy(d as int);
                let mx = old(walk).x + unit_dx(d as int);
                let my = old(walk).y + unit_dy(d as int);
                &&& final(walk).x == nx
                &&& final(walk).y == ny
                &&& final(walk).heading == Some(d)
                &&& final(walk).steps@ == old(walk).steps@.push((nx as usize, ny as usize)).push(
                    (mx as usize, my as usize),
                )
                &&& final(walk).looped == (old(walk).looped || old(walk).steps@.contains(
                    (nx as usize, ny as usize),
                ))
                &&& (s is Entered <==> !old(self).in_maze(nx, ny))
                &&& forall|i: int, j: int|
                    old(self).inside(i, j) ==> #[trigger] final(self).glyph(i, j) == (if i == mx
                        && j == my {
                        FLOOR
                    } else {
                        old(self).glyph(i, j)
                    })
                &&& forall|i: int, j: int|
                    old(self).inside(i, j) ==> (#[trigger] final(self).cells@[j]@[i]).visited == (
                    old(self).in_maze(i, j) || (i == nx && j == ny))
            },
    {
        match walk.heading {
            Some(h) => {
                if d == (h + 2) % 4 {
                    return Step::Rejected;
                }
            },
            None => {},
        }
        match self.step_from(walk.x, walk.y, d) {
            None => Step::Rejected,
            Some((nx, ny, mx, my)) => {
                if holds(&walk.steps, nx, ny) {
                    walk.looped = true;
                }
                walk.heading = Some(d);
                walk.x = nx;
                walk.y = ny;
                self.grid[my][mx] = FLOOR;
                walk.steps.push((nx, ny));
                walk.steps.push((mx, my));
                if !self.cells[ny][nx].visited {
                    self.cells[ny][nx].visited = true;
                    Step::Entered
                } else {
                    Step::Closed
                }
            },
        }
    }
}

impl Maze {
    /// Settles a walk that has just ended on a taken cell.
    ///
    /// A first walk of at least `FIRST_WALK_STEPS` steps is kept as it is and
    /// ends the first-walk phase.  A shorter first walk that crossed itself
    /// discards the run: the lattice is blank again.  A later walk that
    /// crossed itself is wiped: every slot on its list is walled up and every
    /// cell on its list is free again.  Any other walk is kept.  In every case
    /// the list is emptied and the heading forgotten.
    pub fn settle(&mut self, walk: &mut Walk) -> (v: Verdict)
        requires
            old(self).wf(),
            old(self).lattice_ok(),
            old(walk).ok(old(self)),
        ensures
            final(self).wf(),
            final(self).lattice_ok(),
            final(walk).ok(final(self)),
            final(self).width == old(self).width,
            final(self).height == old(self).height,
            final(self).paths == old(self).paths,
            final(walk).x == old(walk).x,
            final(walk).y == old(walk).y,
            final(walk).steps@.len() == 0,
            final(walk).heading is None,
            !final(walk).looped,
            final(walk).first == (old(walk).first && !old(walk).long_first()),
            v is Restart <==> (old(walk).first && !old(walk).long_first() && old(walk).looped),
            old(walk).long_first() || !old(walk).looped ==> final(self).grid == old(self).grid
                && final(self).cells == old(self).cells,
            v is Restart ==> final(self).is_blank(),
            !old(walk).first && old(walk).looped ==> {
                &&& forall|i: int, j: int|
                    old(self).inside(i, j) ==> #[trigger] final(self).glyph(i, j) == (if old(
                        walk,
                    ).steps@.contains((i as usize, j as usize)) && !is_cell(i, j) {
                        WALL
                    } else {
                        old(self).glyph(i, j)
                    })
                &&& forall|i: int, j: int|
                    old(self).inside(i, j) ==> (#[trigger] final(self).cells@[j]@[i]).visited == (
                    old(self).in_maze(i, j) && !(old(walk).steps@.contains((i as usize, j as usize))
                        && is_cell(i, j)))
            },
    {
        if walk.first && walk.steps.len() / 2 >= FIRST_WALK_STEPS {
            walk.first = false;
            walk.looped = false;
            walk.heading = None;
            walk.steps = Vec::new();
            Verdict::Resume
        } else if walk.first && walk.looped {
            self.reset_grid();
            walk.looped = false;
            walk.heading = None;
            walk.steps = Vec::new();
            Verdict::Restart
        } else {
            if walk.looped {
                self.wipe(&walk.steps);
                walk.looped = false;
            }
            walk.heading = None;
            walk.steps = Vec::new();
            Verdict::Resume
        }
    }

    /// Walls up every listed slot and frees every listed cell.
    pub fn wipe(&mut self, steps: &Vec<(usize, usize)>)
        requires
            old(self).wf(),
            old(self).lattice_ok(),
            forall|k: int|
                0 <= k < steps@.len() ==> old(self).inside(
                    (#[trigger] steps@[k]).0 as int,
                    steps@[k].1 as int,
                ),
        ensures
            final(self).wf(),
            final(self).lattice_ok(),
            final(self).width == old(self).width,
            final(self).height == old(self).height,
            final(self).paths == old(self).paths,
            forall|i: int, j: int|
                old(self).inside(i, j) ==> #[trigger] final(self).glyph(i, j) == (if steps@.contains(
                    (i as usize, j as usize),
                ) && !is_cell(i, j) {
                    WALL
                } else {
                    old(self).glyph(i, j)
                }),
            forall|i: int, j: int|
                old(self).inside(i, j) ==> (#[trigger] final(self).cells@[j]@[i]).visited == (old(
                    self,
                ).in_maze(i, j) && !(steps@.contains((i as usize, j as usize)) && is_cell(i, j))),
    {
        let mut k: usize = 0;
        while k < steps.len()
            invariant
                k <= steps@.len(),
                self.wf(),
                self.lattice_ok(),
                self.width == old(self).width,
                self.height == old(self).height,
                self.paths == old(self).paths,
                forall|n: int|
                    0 <= n < steps@.len() ==> old(self).inside(
                        (#[trigger] steps@[n]).0 as int,
                        steps@[n].1 as int,
                    ),
                forall|i: int, j: int|
                    old(self).inside(i, j) ==> #[trigger] self.glyph(i, j) == (if steps@.take(
                        k as int,
                    ).contains((i as usize, j as usize)) && !is_cell(i, j) {
                        WALL
                    } else {
                        old(self).glyph(i, j)
                    }),
                forall|i: int, j: int|
                    old(self).inside(i, j) ==> (#[trigger] self.cells@[j]@[i]).visited == (old(
                        self,
                    ).in_maze(i, j) && !(steps@.take(k as int).contains((i as usize, j as usize))
                        && is_cell(i, j))),
            decreases steps@.len() - k,
        {
            let sx = steps[k].0;
            let sy = steps[k].1;
            proof {
                assert(old(self).inside(steps@[k as int].0 as int, steps@[k as int].1 as int));
                let shorter = steps@.take(k as int);
                let longer = steps@.take(k + 1);
                assert(longer =~= shorter.push((sx, sy)));
                assert forall|p: (usize, usize)|
                    longer.contains(p) <==> (shorter.contains(p) || p == (sx, sy)) by {
                    if shorter.contains(p) {
                        let n = shorter.index_of(p);
                        assert(longer[n] == p);
                    }
                    if p == (sx, sy) {
                        assert(longer[k as int] == p);
                    }
                }
            }
            if sx % 2 == 1 || sy % 2 == 1 {
                self.grid[sy][sx] = WALL;
            } else {
                self.cells[sy][sx].visited = false;
            }
            k += 1;
        }
        proof {
            assert(steps@.take(steps@.len() as int) =~= steps@);
        }
    }

    /// Starts a new walk on the cell `(x, y)`: the cell is taken and the
    /// walk's list holds it alone.
    pub fn depart(&mut self, walk: &mut Walk, x: usize, y: usize)
        requires
            old(self).wf(),
            old(self).lattice_ok(),
            old(self).inside(x as int, y as int),
            is_cell(x as int, y as int),
        ensures
            final(self).wf(),
            final(self).lattice_ok(),
            final(walk).ok(final(self)),
            final(self).width == old(self).width,
            final(self).height == old(self).height,
            final(self).paths == old(self).paths,
            final(self).grid == old(self).grid,
            forall|i: int, j: int|
                old(self).inside(i, j) ==> (#[trigger] final(self).cells@[j]@[i]).visited == (old(
                    self,
                ).in_maze(i, j) || (i == x && j == y)),
            final(walk).x == x,
            final(walk).y == y,
            final(walk).heading is None,
            final(walk).steps@ == seq![(x, y)],
            final(walk).first == old(walk).first,
            final(walk).looped == old(walk).looped,
    {
        self.cells[y][x].visited = true;
        let mut steps: Vec<(usize, usize)> = Vec::new();
        steps.push((x, y));
        walk.x = x;
        walk.y = y;
        walk.heading = None;
        walk.steps = steps;
    }

    /// Carves the maze, drawing moves until every cell is taken.  The answer
    /// is `false` only if the largest number of moves a counter can hold did
    /// not suffice.  Carving that started on a blank lattice and came to its
    /// end has joined every cell to every other.
    pub fn generate_maze(&mut self) -> (done: bool)
        requires
            old(self).wf(),
            old(self).lattice_ok(),
        ensures
            final(self).wf(),
            final(self).lattice_ok(),
            final(self).width == old(self).width,
            final(self).height == old(self).height,
            final(self).paths == old(self).paths,
            done ==> forall|i: int, j: int|
                old(self).inside(i, j) ==> (#[trigger] final(self).cells@[j]@[i]).visited,
            done && old(self).is_blank() ==> forall|ax: int, ay: int, bx: int, by: int|
                old(self).inside(ax, ay) && is_cell(ax, ay) && old(self).inside(bx, by) && is_cell(
                    bx,
                    by,
                ) ==> #[trigger] final(self).connected((ax, ay), (bx, by)),
            old(self).width == 1 && old(self).height == 1 ==> done,
    {
        self.carve(usize::MAX)
    }

    /// Carves the maze with at most `budget` drawn moves.  Returns `true`
    /// once every cell is taken, `false` when the moves ran out first.  A
    /// maze of one cell is complete without a single move.  Carving that
    /// started on a blank lattice and came to its end has joined every cell
    /// to every other.
    pub fn carve(&mut self, budget: usize) -> (done: bool)
        requires
            old(self).wf(),
            old(self).lattice_ok(),
        ensures
            final(self).wf(),
            final(self).lattice_ok(),
            final(self).width == old(self).width,
            final(self).height == old(self).height,
            final(self).paths == old(self).paths,
            done ==> forall|i: int, j: int|
                old(self).inside(i, j) ==> (#[trigger] final(self).cells@[j]@[i]).visited,
            done && old(self).is_blank() ==> forall|ax: int, ay: int, bx: int, by: int|
                old(self).inside(ax, ay) && is_cell(ax, ay) && old(self).inside(bx, by) && is_cell(
                    bx,
                    by,
                ) ==> #[trigger] final(self).connected((ax, ay), (bx, by)),
            old(self).width == 1 && old(self).height == 1 ==> done,
            budget == 0 && old(self).is_blank() && !(old(self).width == 1 && old(self).height == 1)
                ==> !done,
    {
        let mut rng = thread_source();
        let col = draw_below(&mut rng, self.width / 2 + 1);
        let row = draw_below(&mut rng, self.height / 2 + 1);
        let ghost before = *self;
        let ghost blank = before.is_blank();
        let ghost mut root: (int, int) = (0, 0);
        let mut walk = self.begin(col, row);
        proof {
            if blank {
                lemma_knit_begin(before, *self, (2 * col as int, 2 * row as int), root);
            }
        }
        let remaining = self.unvisited();
        if remaining.len() == 0 {
            proof {
                assert forall|i: int, j: int| self.inside(i, j) implies (
                #[trigger] self.cells@[j]@[i]).visited by {
                    if !self.cells@[j]@[i].visited {
                        assert(remaining@.contains((i as usize, j as usize)));
                    }
                }
                if blank && !(self.width == 1 && self.height == 1) {
                    if self.width >= 3 {
                        assert(before.inside(0, 0) && before.inside(2, 0));
                        assert(self.cells@[0]@[0].visited && self.cells@[0]@[2].visited);
                        assert(!before.in_maze(0, 0) && !before.in_maze(2, 0));
                    } else {
                        assert(before.inside(0, 0) && before.inside(0, 2));
                        assert(self.cells@[0]@[0].visited && self.cells@[2]@[0].visited);
                        assert(!before.in_maze(0, 0) && !before.in_maze(0, 2));
                    }
                }
                if blank {
                    assert forall|ax: int, ay: int, bx: int, by: int|
                        self.inside(ax, ay) && is_cell(ax, ay) && self.inside(bx, by) && is_cell(
                            bx,
                            by,
                        ) implies #[trigger] self.connected((ax, ay), (bx, by)) by {
                        assert(self.cells@[ay]@[ax].visited && self.cells@[by]@[bx].visited);
                        assert(before.in_maze(ax, ay) == !is_cell(ax, ay));
                        assert(before.in_maze(bx, by) == !is_cell(bx, by));
                        let t = seq![(ax, ay)];
                        assert(route_in(self.grid@, self.width as int, self.height as int, t));
                        assert(t[0] == (bx, by) && t.last() == (ax, ay));
                    }
                }
            }
            return true;
        }
        proof {
            assert(self.inside(remaining@[0].0 as int, remaining@[0].1 as int));
        }
        let moves: Vec<usize> = vec![0, 1, 2, 3];
        let mut left: usize = budget;
        while left > 0
            invariant
                self.wf(),
                self.lattice_ok(),
                walk.ok(self),
                self.width == old(self).width,
                self.height == old(self).height,
                self.paths == old(self).paths,
                !(self.width == 1 && self.height == 1),
                left > 0 ==> budget > 0,
                moves@.len() == 4,
                forall|n: int| 0 <= n < 4 ==> #[trigger] moves@[n] < 4,
                blank == old(self).is_blank(),
                blank ==> !walk.looped,
                blank ==> self.knit(
                    walk.steps@,
                    (walk.x as int, walk.y as int),
                    root,
                    walk.first,
                ),
                blank && !walk.first ==> listed(walk.steps@, (walk.x as int, walk.y as int)),
            decreases left,
        {
            left -= 1;
            let d = match pick(&mut rng, &moves) {
                Some(d) => d,
                None => {
                    return false;
                },
            };
            let ghost m0 = *self;
            let ghost l0 = walk.steps@;
            let ghost c = (walk.x as int, walk.y as int);
            let ghost first0 = walk.first;
            let ghost dd = (c.0 + 2 * unit_dx(d as int), c.1 + 2 * unit_dy(d as int));
            let ghost s = (c.0 + unit_dx(d as int), c.1 + unit_dy(d as int));
            match self.advance(&mut walk, d) {
                Step::Rejected => {
                    proof {
                        assert(*self == m0);
                        assert(walk.steps@ == l0);
                    }
                },
                Step::Entered => {
                    proof {
                        if blank {
                            if listed(l0, dd) {
                                assert(m0.in_maze(dd.0, dd.1));
                            }
                            lemma_knit_entered(m0, *self, l0, c, dd, s, root, first0);
                            assert(walk.steps@ == grown(l0, dd, s));
                        }
                    }
                },
                Step::Closed => {
                    let ghost ma = *self;
                    let ghost crossed = walk.looped;
                    let ghost long = walk.long_first();
                    proof {
                        if blank {
                            lemma_knit_closed(m0, ma, l0, c, dd, s, root, first0);
                            assert(walk.steps@ == grown(l0, dd, s));
                            assert(crossed == listed(l0, dd));
                            if first0 {
                                assert(ma.in_maze(dd.0, dd.1));
                                assert(listed(l0, dd));
                            }
                        }
                    }
                    match self.settle(&mut walk) {
                        Verdict::Restart => {
                            let col = draw_below(&mut rng, self.width / 2 + 1);
                            let row = draw_below(&mut rng, self.height / 2 + 1);
                            walk.x = 2 * col;
                            walk.y = 2 * row;
                            proof {
                                if blank {
                                    assert(walk.steps@ =~= Seq::empty());
                                    lemma_knit_blank(*self, (walk.x as int, walk.y as int), root);
                                }
                            }
                        },
                        Verdict::Resume => {
                            proof {
                                if blank {
                                    assert(walk.steps@ =~= Seq::empty());
                                    if first0 {
                                        assert(long);
                                        assert(*self == ma);
                                        lemma_knit_kept_first(ma, l0, c, root, dd);
                                        root = c;
                                    } else if crossed {
                                        lemma_knit_wiped(ma, *self, l0, c, dd, s, root, dd);
                                    } else {
                                        assert(*self == ma);
                                        lemma_knit_committed(ma, l0, c, dd, root, dd);
                                    }
                                    assert(self.knit(Seq::empty(), dd, root, false));
                                }
                            }
                            let remaining = self.unvisited();
                            if remaining.len() == 0 {
                                proof {
                                    assert forall|i: int, j: int| self.inside(i, j) implies (
                                    #[trigger] self.cells@[j]@[i]).visited by {
                                        if !self.cells@[j]@[i].visited {
                                            assert(remaining@.contains((i as usize, j as usize)));
                                        }
                                    }
                                    if blank {
                                        assert forall|ax: int, ay: int, bx: int, by: int|
                                            self.inside(ax, ay) && is_cell(ax, ay) && self.inside(
                                                bx,
                                                by,
                                            ) && is_cell(bx, by) implies #[trigger] self.connected(
                                            (ax, ay),
                                            (bx, by),
                                        ) by {
                                            assert(self.cells@[ay]@[ax].visited
                                                && self.cells@[by]@[bx].visited);
                                            lemma_knit_joins_all(
                                                *self,
                                                dd,
                                                root,
                                                (ax, ay),
                                                (bx, by),
                                            );
                                        }
                                    }
                                }
                                return true;
                            }
                            match pick(&mut rng, &remaining) {
                                Some(cell) => {
                                    let ghost m1 = *self;
                                    proof {
                                        let n = remaining@.index_of(cell);
                                        assert(self.inside(
                                            remaining@[n].0 as int,
                                            remaining@[n].1 as int,
                                        ));
                                    }
                                    self.depart(&mut walk, cell.0, cell.1);
                                    proof {
                                        if blank {
                                            lemma_knit_departed(
                                                m1,
                                                *self,
                                                (cell.0 as int, cell.1 as int),
                                                root,
                                                dd,
                                            );
                                        }
                                    }
                                },
                                None => {
                                    return false;
                                },
                            }
                        },
                    }
                },
            }
        }
        false
    }
}

/// In a carved lattice every open slot lies between two cells that are two
/// units apart along exactly one axis: it has one odd coordinate, and the
/// positions on either side of it along that axis are cells of the lattice.
pub proof fn lemma_open_slot_joins_neighbours(m: Maze, x: int, y: int)
    requires
        m.wf(),
        m.lattice_ok(),
        m.inside(x, y),
        !is_cell(x, y),
        m.glyph(x, y) != WALL,
    ensures
        (x % 2 == 1) != (y % 2 == 1),
        x % 2 == 1 ==> m.inside(x - 1, y) && m.inside(x + 1, y) && is_cell(x - 1, y) && is_cell(
            x + 1,
            y,
        ),
        y % 2 == 1 ==> m.inside(x, y - 1) && m.inside(x, y + 1) && is_cell(x, y - 1) && is_cell(
            x,
            y + 1,
        ),
{
}

/// A lattice of one position holds a cell and no slot, so nothing can be
/// carved in it.
pub proof fn lemma_single_cell_has_no_slot(m: Maze, x: int, y: int)
    requires
        m.wf(),
        m.width == 1,
        m.height == 1,
        m.inside(x, y),
    ensures
        is_cell(x, y),
        x == 0 && y == 0,
{
}

} // verus!
