use maze::grid::{Cell, Maze, Path};

fn glyph_rows(m: &Maze) -> Vec<String> {
    m.grid.iter().map(|row| row.iter().collect::<String>()).collect()
}

fn flag_rows(m: &Maze) -> Vec<Vec<bool>> {
    m.cells.iter().map(|row| row.iter().map(|c| c.visited).collect()).collect()
}

#[test]
fn cell_starts_free() {
    assert!(!Cell::new().visited);
}

#[test]
fn path_node_starts_unlinked() {
    let p = Path::new(4, 6);
    assert_eq!((p.x, p.y), (4, 6));
    assert!(p.previous.is_none());
    assert!(!p.visited);
}

#[test]
fn duplicate_copies_the_whole_chain() {
    let mut a = Path::new(0, 0);
    a.visited = true;
    let mut b = Path::new(2, 0);
    b.previous = Some(Box::new(a));
    let c = b.duplicate();
    assert_eq!((c.x, c.y, c.visited), (2, 0, false));
    let back = c.previous.expect("the copy keeps its link");
    assert_eq!((back.x, back.y, back.visited), (0, 0, true));
    assert!(back.previous.is_none());
}

#[test]
fn new_keeps_odd_dimensions() {
    let m = Maze::new(5, 3);
    assert_eq!((m.width, m.height), (5, 3));
    assert_eq!(glyph_rows(&m), vec![".#.#.", "#####", ".#.#."]);
}

#[test]
fn new_raises_even_dimensions() {
    let m = Maze::new(4, 6);
    assert_eq!((m.width, m.height), (5, 7));
    assert_eq!(m.grid.len(), 7);
    assert_eq!(m.cells.len(), 7);
    assert_eq!(m.paths.len(), 7);
    for y in 0..7 {
        assert_eq!(m.grid[y].len(), 5);
        assert_eq!(m.cells[y].len(), 5);
        assert_eq!(m.paths[y].len(), 5);
    }
}

#[test]
fn new_turns_zero_into_one() {
    let m = Maze::new(0, 0);
    assert_eq!((m.width, m.height), (1, 1));
    assert_eq!(glyph_rows(&m), vec!["."]);
}

#[test]
fn new_flags_every_slot_and_no_cell() {
    let m = Maze::new(5, 5);
    for y in 0..5 {
        for x in 0..5 {
            let cell = x % 2 == 0 && y % 2 == 0;
            assert_eq!(m.cells[y][x].visited, !cell);
            assert_eq!(m.is_taken(x, y), !cell);
            assert_eq!(m.get(x, y), if cell { '.' } else { '#' });
        }
    }
}

#[test]
fn new_scratch_nodes_know_their_place() {
    let m = Maze::new(3, 5);
    for y in 0..5 {
        for x in 0..3 {
            let p = &m.paths[y][x];
            assert_eq!((p.x, p.y), (x, y));
            assert!(!p.visited);
            assert!(p.previous.is_none());
            assert!(!m.is_marked(x, y));
        }
    }
}

#[test]
fn set_changes_one_glyph() {
    let mut m = Maze::new(3, 3);
    m.set(1, 0, '.');
    assert_eq!(m.get(1, 0), '.');
    assert_eq!(glyph_rows(&m), vec!["...", "###", ".#."]);
    m.set(1, 0, '#');
    assert_eq!(glyph_rows(&m), glyph_rows(&Maze::new(3, 3)));
}

#[test]
fn reset_grid_restores_the_blank_lattice() {
    let mut m = Maze::new(5, 5);
    m.set(1, 0, '.');
    m.set(2, 1, '.');
    m.cells[0][0].visited = true;
    m.cells[0][2].visited = true;
    m.reset_grid();
    let blank = Maze::new(5, 5);
    assert_eq!(glyph_rows(&m), glyph_rows(&blank));
    assert_eq!(flag_rows(&m), flag_rows(&blank));
    assert_eq!((m.width, m.height), (5, 5));
}

#[test]
fn reset_grid_twice_is_reset_grid_once() {
    let mut m = Maze::new(7, 5);
    m.set(3, 2, '.');
    m.cells[2][2].visited = true;
    m.reset_grid();
    let glyphs = glyph_rows(&m);
    let flags = flag_rows(&m);
    m.reset_grid();
    assert_eq!(glyph_rows(&m), glyphs);
    assert_eq!(flag_rows(&m), flags);
}

#[test]
fn reset_grid_leaves_scratch_nodes_alone() {
    let mut m = Maze::new(3, 3);
    m.paths[0][0].visited = true;
    m.reset_grid();
    assert!(m.paths[0][0].visited);
}

#[test]
fn step_from_gives_cell_and_slot() {
    let m = Maze::new(5, 5);
    assert_eq!(m.step_from(2, 2, 0), Some((4, 2, 3, 2)));
    assert_eq!(m.step_from(2, 2, 1), Some((2, 4, 2, 3)));
    assert_eq!(m.step_from(2, 2, 2), Some((0, 2, 1, 2)));
    assert_eq!(m.step_from(2, 2, 3), Some((2, 0, 2, 1)));
    assert_eq!(m.step_from(4, 0, 0), None);
    assert_eq!(m.step_from(4, 4, 1), None);
    assert_eq!(m.step_from(0, 4, 2), None);
    assert_eq!(m.step_from(4, 0, 3), None);
}
