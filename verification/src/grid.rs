//! The lattice itself: glyphs, membership flags and the solver's scratch nodes.

use vstd::prelude::*;

verus! {

/// Glyph of a closed wall slot.
pub const WALL: char = '#';

/// Glyph of open floor: a cell, or a carved passage.
pub const FLOOR: char = '.';

/// A position is a cell when both of its coordinates are even.
pub open spec fn is_cell(x: int, y: int) -> bool {
    x % 2 == 0 && y % 2 == 0
}

/// The glyph a position shows before anything has been carved.
pub open spec fn blank_glyph(x: int, y: int) -> char {
    if is_cell(x, y) { FLOOR } else { WALL }
}

/// The smallest odd number that is not below `n`.
pub open spec fn odd_at_least(n: int) -> int {
    if n % 2 == 0 { n + 1 } else { n }
}

/// Horizontal unit of the move with index `d`; the moves are numbered in the
/// order right, down, left, up.
pub open spec fn unit_dx(d: int) -> int {
    if d == 0 { 1 } else if d == 2 { -1 } else { 0 }
}

/// Vertical unit of the move with index `d`.
pub open spec fn unit_dy(d: int) -> int {
    if d == 1 { 1 } else if d == 3 { -1 } else { 0 }
}

/// Membership flag of one lattice position.
#[derive(Clone, Copy, Debug)]
pub struct Cell {
    pub visited: bool,
}

impl Cell {
    pub fn new() -> (c: Cell)
        ensures
            !c.visited,
    {
        Cell { visited: false }
    }
}

/// One node of a route: a position, a marker, and the node it was reached from.
pub struct Path {
    pub x: usize,
    pub y: usize,
    pub previous: Option<Box<Path>>,
    pub visited: bool,
}

impl Path {
    pub fn new(x: usize, y: usize) -> (p: Path)
        ensures
            p.x == x,
            p.y == y,
            p.previous is None,
            !p.visited,
    {
        Path { x, y, previous: None, visited: false }
    }

    /// The positions along the chain, from this node back to its origin.
    pub open spec fn trail(self) -> Seq<(int, int)>
        decreases self,
    {
        match self.previous {
            Some(b) => seq![(self.x as int, self.y as int)] + b.trail(),
            None => seq![(self.x as int, self.y as int)],
        }
    }

    /// An owned copy of the node together with its whole chain.
    pub fn duplicate(&self) -> (r: Path)
        ensures
            r == *self,
        decreases *self,
    {
        let previous = match &self.previous {
            Some(b) => Some(Box::new(b.duplicate())),
            None => None,
        };
        Path { x: self.x, y: self.y, previous, visited: self.visited }
    }
}

/// The maze: glyph lattice, membership flags, scratch nodes and dimensions.
pub struct Maze {
    pub grid: Vec<Vec<char>>,
    pub cells: Vec<Vec<Cell>>,
    pub paths: Vec<Vec<Path>>,
    pub width: usize,
    pub height: usize,
}

fn blank_glyph_row(width: usize, y: usize) -> (row: Vec<char>)
    ensures
        row@.len() == width,
        forall|i: int| 0 <= i < width ==> #[trigger] row@[i] == blank_glyph(i, y as int),
{
    let mut row: Vec<char> = Vec::new();
    let mut x: usize = 0;
    while x < width
        invariant
            x <= width,
            row@.len() == x,
            forall|i: int| 0 <= i < x ==> #[trigger] row@[i] == blank_glyph(i, y as int),
        decreases width - x,
    {
        if x % 2 == 0 && y % 2 == 0 {
            row.push(FLOOR);
        } else {
            row.push(WALL);
        }
        x += 1;
    }
    row
}

fn blank_flag_row(width: usize, y: usize) -> (row: Vec<Cell>)
    ensures
        row@.len() == width,
        forall|i: int| 0 <= i < width ==> (#[trigger] row@[i]).visited == !is_cell(i, y as int),
{
    let mut row: Vec<Cell> = Vec::new();
    let mut x: usize = 0;
    while x < width
        invariant
            x <= width,
            row@.len() == x,
            forall|i: int| 0 <= i < x ==> (#[trigger] row@[i]).visited == !is_cell(i, y as int),
        decreases width - x,
    {
        let mut cell = Cell::new();
        if x % 2 == 1 || y % 2 == 1 {
            cell.visited = true;
        }
        row.push(cell);
        x += 1;
    }
    row
}

fn blank_node_row(width: usize, y: usize) -> (row: Vec<Path>)
    ensures
        row@.len() == width,
        forall|i: int| 0 <= i < width ==> (#[trigger] row@[i]) == (Path {
            x: i as usize,
            y,
            previous: None,
            visited: false,
        }),
{
    let mut row: Vec<Path> = Vec::new();
    let mut x: usize = 0;
    while x < width
        invariant
            x <= width,
            row@.len() == x,
            forall|i: int| 0 <= i < x ==> (#[trigger] row@[i]) == (Path {
                x: i as usize,
                y,
                previous: None,
                visited: false,
            }),
        decreases width - x,
    {
        row.push(Path::new(x, y));
        x += 1;
    }
    row
}

impl Maze {
    /// Glyph at a position.
    #[verifier::inline]
    pub open spec fn glyph(&self, x: int, y: int) -> char {
        self.grid@[y]@[x]
    }

    /// Whether the generator counts a position as taken.
    #[verifier::inline]
    pub open spec fn in_maze(&self, x: int, y: int) -> bool {
        self.cells@[y]@[x].visited
    }

    /// Whether the solver's marker is set at a position.
    #[verifier::inline]
    pub open spec fn marked(&self, x: int, y: int) -> bool {
        self.paths@[y]@[x].visited
    }

    /// The scratch node stored at a position.
    #[verifier::inline]
    pub open spec fn node(&self, x: int, y: int) -> Path {
        self.paths@[y]@[x]
    }

    /// Whether a position lies on the lattice.
    #[verifier::inline]
    pub open spec fn inside(&self, x: int, y: int) -> bool {
        0 <= x < self.width && 0 <= y < self.height
    }

    /// Shape invariant: odd dimensions, three rectangular lattices of that
    /// size, and every scratch node knows its own position.
    pub open spec fn wf(&self) -> bool {
        &&& self.width % 2 == 1
        &&& self.height % 2 == 1
        &&& self.grid@.len() == self.height
        &&& self.cells@.len() == self.height
        &&& self.paths@.len() == self.height
        &&& forall|j: int| 0 <= j < self.height ==> (#[trigger] self.grid@[j])@.len() == self.width
        &&& forall|j: int| 0 <= j < self.height ==> (#[trigger] self.cells@[j])@.len() == self.width
        &&& forall|j: int| 0 <= j < self.height ==> (#[trigger] self.paths@[j])@.len() == self.width
        &&& forall|i: int, j: int| self.inside(i, j) ==> (#[trigger] self.node(i, j)).x == i
                && self.node(i, j).y == j
    }

    /// Lattice invariant of generation: cells are always floor, positions
    /// with two odd coordinates are always wall, and every position that is
    /// not a cell is permanently flagged as taken.
    pub open spec fn lattice_ok(&self) -> bool {
        &&& forall|i: int, j: int| self.inside(i, j) && is_cell(i, j)
                ==> #[trigger] self.glyph(i, j) == FLOOR
        &&& forall|i: int, j: int| self.inside(i, j) && i % 2 == 1 && j % 2 == 1
                ==> #[trigger] self.glyph(i, j) == WALL
        &&& forall|i: int, j: int| self.inside(i, j) && !is_cell(i, j)
                ==> #[trigger] self.in_maze(i, j)
    }

    /// Nothing carved, nothing taken: the state right after construction.
    pub open spec fn is_blank(&self) -> bool {
        &&& forall|i: int, j: int| self.inside(i, j)
                ==> #[trigger] self.glyph(i, j) == blank_glyph(i, j)
        &&& forall|i: int, j: int| self.inside(i, j)
                ==> #[trigger] self.in_maze(i, j) == !is_cell(i, j)
    }

    /// No solver marker set and no node linked to another.
    pub open spec fn scratch_clear(&self) -> bool {
        forall|i: int, j: int| self.inside(i, j)
            ==> !(#[trigger] self.node(i, j)).visited && self.node(i, j).previous is None
    }

    /// What `reset_grid` makes of `pre`: same dimensions and scratch nodes,
    /// glyphs and flags blank again.
    pub open spec fn reset_of(&self, pre: &Maze) -> bool {
        &&& self.width == pre.width
        &&& self.height == pre.height
        &&& self.paths == pre.paths
        &&& self.grid@.len() == self.height
        &&& self.cells@.len() == self.height
        &&& forall|j: int| 0 <= j < self.height ==> (#[trigger] self.grid@[j])@.len() == self.width
        &&& forall|j: int| 0 <= j < self.height ==> (#[trigger] self.cells@[j])@.len() == self.width
        &&& self.is_blank()
    }

    /// The cell two units away in direction `d` and the slot in between, as
    /// `(cell x, cell y, slot x, slot y)`; `None` when that cell is off the lattice.
    pub fn step_from(&self, x: usize, y: usize, d: usize) -> (r: Option<(usize, usize, usize, usize)>)
        requires
            self.inside(x as int, y as int),
            d < 4,
        ensures
            r is Some <==> self.inside(x + 2 * unit_dx(d as int), y + 2 * unit_dy(d as int)),
            r is Some ==> r.unwrap().0 == x + 2 * unit_dx(d as int)
                && r.unwrap().1 == y + 2 * unit_dy(d as int)
                && r.unwrap().2 == x + unit_dx(d as int)
                && r.unwrap().3 == y + unit_dy(d as int),
    {
        if d == 0 {
            if self.width - x > 2 { Some((x + 2, y, x + 1, y)) } else { None }
        } else if d == 1 {
            if self.height - y > 2 { Some((x, y + 2, x, y + 1)) } else { None }
        } else if d == 2 {
            if x >= 2 { Some((x - 2, y, x - 1, y)) } else { None }
        } else {
            if y >= 2 { Some((x, y - 2, x, y - 1)) } else { None }
        }
    }

    /// Builds a blank maze.  Even dimensions are raised to the next odd
    /// number, so a maze is never empty.
    pub fn new(new_width: usize, new_height: usize) -> (m: Maze)
        ensures
            m.wf(),
            m.width == odd_at_least(new_width as int),
            m.height == odd_at_least(new_height as int),
            m.is_blank(),
            m.lattice_ok(),
            m.scratch_clear(),
    {
        let mut width = new_width;
        let mut height = new_height;
        if width % 2 == 0 {
            width += 1;
        }
        if height % 2 == 0 {
            height += 1;
        }
        let mut grid: Vec<Vec<char>> = Vec::new();
        let mut cells: Vec<Vec<Cell>> = Vec::new();
        let mut paths: Vec<Vec<Path>> = Vec::new();
        let mut y: usize = 0;
        while y < height
            invariant
                y <= height,
                grid@.len() == y,
                cells@.len() == y,
                paths@.len() == y,
                forall|j: int| 0 <= j < y ==> (#[trigger] grid@[j])@.len() == width,
                forall|j: int| 0 <= j < y ==> (#[trigger] cells@[j])@.len() == width,
                forall|j: int| 0 <= j < y ==> (#[trigger] paths@[j])@.len() == width,
                forall|i: int, j: int| 0 <= j < y && 0 <= i < width
                    ==> #[trigger] grid@[j]@[i] == blank_glyph(i, j),
                forall|i: int, j: int| 0 <= j < y && 0 <= i < width
                    ==> (#[trigger] cells@[j]@[i]).visited == !is_cell(i, j),
                forall|i: int, j: int| 0 <= j < y && 0 <= i < width
                    ==> (#[trigger] paths@[j]@[i]) == (Path {
                        x: i as usize,
                        y: j as usize,
                        previous: None,
                        visited: false,
                    }),
            decreases height - y,
        {
            grid.push(blank_glyph_row(width, y));
            cells.push(blank_flag_row(width, y));
            paths.push(blank_node_row(width, y));
            y += 1;
        }
        Maze { grid, cells, paths, width, height }
    }

    /// Makes glyphs and flags blank again; dimensions and scratch nodes stay.
    pub fn reset_grid(&mut self)
        requires
            old(self).wf(),
        ensures
            final(self).reset_of(old(self)),
            final(self).wf(),
            final(self).lattice_ok(),
    {
        let width = self.width;
        let height = self.height;
        let mut grid: Vec<Vec<char>> = Vec::new();
        let mut cells: Vec<Vec<Cell>> = Vec::new();
        let mut y: usize = 0;
        while y < height
            invariant
                y <= height,
                grid@.len() == y,
                cells@.len() == y,
                forall|j: int| 0 <= j < y ==> (#[trigger] grid@[j])@.len() == width,
                forall|j: int| 0 <= j < y ==> (#[trigger] cells@[j])@.len() == width,
                forall|i: int, j: int| 0 <= j < y && 0 <= i < width
                    ==> #[trigger] grid@[j]@[i] == blank_glyph(i, j),
                forall|i: int, j: int| 0 <= j < y && 0 <= i < width
                    ==> (#[trigger] cells@[j]@[i]).visited == !is_cell(i, j),
            decreases height - y,
        {
            grid.push(blank_glyph_row(width, y));
            cells.push(blank_flag_row(width, y));
            y += 1;
        }
        self.grid = grid;
        self.cells = cells;
    }

    /// Reads one glyph.
    pub fn get(&self, x: usize, y: usize) -> (c: char)
        requires
            self.wf(),
            self.inside(x as int, y as int),
        ensures
            c == self.glyph(x as int, y as int),
    {
        self.grid[y][x]
    }

    /// Whether the generator has taken the position.
    pub fn is_taken(&self, x: usize, y: usize) -> (b: bool)
        requires
            self.wf(),
            self.inside(x as int, y as int),
        ensures
            b == self.in_maze(x as int, y as int),
    {
        self.cells[y][x].visited
    }

    /// Whether the solver's marker is set at the position.
    pub fn is_marked(&self, x: usize, y: usize) -> (b: bool)
        requires
            self.wf(),
            self.inside(x as int, y as int),
        ensures
            b == self.marked(x as int, y as int),
    {
        self.paths[y][x].visited
    }

    /// Writes one glyph and leaves everything else as it was.
    pub fn set(&mut self, x: usize, y: usize, c: char)
        requires
            old(self).wf(),
            old(self).inside(x as int, y as int),
        ensures
            final(self).wf(),
            final(self).width == old(self).width,
            final(self).height == old(self).height,
            final(self).cells == old(self).cells,
            final(self).paths == old(self).paths,
            final(self).glyph(x as int, y as int) == c,
            forall|i: int, j: int| old(self).inside(i, j) && !(i == x && j == y)
                ==> #[trigger] final(self).glyph(i, j) == old(self).glyph(i, j),
    {
        self.grid[y][x] = c;
    }
}

/// Resetting twice in a row leaves the same glyphs and flags as resetting once.
pub proof fn lemma_reset_twice_is_reset_once(start: Maze, once: Maze, twice: Maze)
    requires
        once.reset_of(&start),
        twice.reset_of(&once),
    ensures
        twice.width == once.width,
        twice.height == once.height,
        twice.paths == once.paths,
        forall|i: int, j: int| once.inside(i, j)
            ==> #[trigger] twice.glyph(i, j) == once.glyph(i, j),
        forall|i: int, j: int| once.inside(i, j)
            ==> #[trigger] twice.in_maze(i, j) == once.in_maze(i, j),
        twice.grid.deep_view() == once.grid.deep_view(),
{
    assert forall|i: int, j: int| once.inside(i, j) implies #[trigger] twice.glyph(i, j)
        == once.glyph(i, j) by {
        assert(twice.inside(i, j));
        assert(once.glyph(i, j) == blank_glyph(i, j));
    }
    assert forall|i: int, j: int| once.inside(i, j) implies #[trigger] twice.in_maze(i, j)
        == once.in_maze(i, j) by {
        assert(twice.inside(i, j));
        assert(once.in_maze(i, j) == !is_cell(i, j));
    }
    assert(twice.grid.deep_view() =~~= once.grid.deep_view()) by {
        assert forall|j: int| 0 <= j < once.height implies #[trigger] twice.grid.deep_view()[j]
            =~= once.grid.deep_view()[j] by {
            assert(twice.grid@[j]@.len() == once.grid@[j]@.len());
            assert forall|i: int| 0 <= i < once.width implies twice.grid@[j]@[i]
                == once.grid@[j]@[i] by {
                assert(twice.glyph(i, j) == once.glyph(i, j));
            }
        }
    }
}

} // verus!
