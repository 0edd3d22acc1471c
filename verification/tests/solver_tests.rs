use maze::grid::{Maze, Path};
use maze::solver::Solved;

fn open_all(m: &mut Maze, slots: &[(usize, usize)]) {
    for &(x, y) in slots {
        m.set(x, y, '.');
    }
}

fn chain(p: &Path) -> Vec<(usize, usize)> {
    let mut out = vec![(p.x, p.y)];
    let mut node = p;
    while let Some(prev) = node.previous.as_ref() {
        out.push((prev.x, prev.y));
        node = prev;
    }
    out
}

fn all_distinct(cells: &[(usize, usize)]) -> bool {
    for a in 0..cells.len() {
        for b in a + 1..cells.len() {
            if cells[a] == cells[b] {
                return false;
            }
        }
    }
    true
}

fn marked(m: &Maze) -> Vec<(usize, usize)> {
    let mut out = Vec::new();
    for y in 0..m.height {
        for x in 0..m.width {
            if m.is_marked(x, y) {
                out.push((x, y));
            }
        }
    }
    out
}

fn serpentine() -> Maze {
    let mut m = Maze::new(5, 5);
    open_all(&mut m, &[(1, 0), (3, 0), (4, 1), (3, 2), (1, 2), (0, 3), (1, 4), (3, 4)]);
    m
}

fn solved(m: &mut Maze) -> Solved {
    m.find_path().expect("the corners are connected")
}

#[test]
fn serpentine_corridor_takes_nine_steps() {
    let mut m = serpentine();
    let s = solved(&mut m);
    assert_eq!(s.steps, 9);
    assert_eq!(
        chain(&s.path),
        vec![(4, 4), (2, 4), (0, 4), (0, 2), (2, 2), (4, 2), (4, 0), (2, 0), (0, 0)]
    );
}

#[test]
fn serpentine_route_is_marked_with_its_slots() {
    let mut m = serpentine();
    solved(&mut m);
    let mut expected = Vec::new();
    for y in 0..5 {
        for x in 0..5 {
            if m.get(x, y) == '.' {
                expected.push((x, y));
            }
        }
    }
    assert_eq!(expected.len(), 17);
    assert_eq!(marked(&m), expected);
}

#[test]
fn single_corridor_length_and_distinct_nodes() {
    let mut m = Maze::new(7, 1);
    open_all(&mut m, &[(1, 0), (3, 0), (5, 0)]);
    let s = solved(&mut m);
    assert_eq!(s.steps, 4);
    let cells = chain(&s.path);
    assert_eq!(cells, vec![(6, 0), (4, 0), (2, 0), (0, 0)]);
    assert!(all_distinct(&cells));
    assert_eq!(marked(&m), vec![(0, 0), (1, 0), (2, 0), (3, 0), (4, 0), (5, 0), (6, 0)]);
}

#[test]
fn vertical_corridor_is_followed_downwards() {
    let mut m = Maze::new(1, 5);
    open_all(&mut m, &[(0, 1), (0, 3)]);
    let s = solved(&mut m);
    assert_eq!(s.steps, 3);
    assert_eq!(chain(&s.path), vec![(0, 4), (0, 2), (0, 0)]);
}

#[test]
fn blank_lattice_has_no_route() {
    let mut m = Maze::new(3, 3);
    assert!(m.find_path().is_none());
}

#[test]
fn blocked_connection_has_no_route() {
    let mut m = Maze::new(3, 3);
    open_all(&mut m, &[(1, 0), (0, 1)]);
    assert!(m.find_path().is_none());
    assert_eq!(m.get(2, 1), '#');
    assert_eq!(m.get(1, 2), '#');
}

#[test]
fn opening_the_connection_gives_a_route() {
    let mut m = Maze::new(3, 3);
    open_all(&mut m, &[(1, 0), (0, 1), (2, 1)]);
    let s = solved(&mut m);
    assert_eq!(s.steps, 3);
    assert_eq!(chain(&s.path), vec![(2, 2), (2, 0), (0, 0)]);
}

#[test]
fn failed_search_keeps_glyphs_and_flags() {
    let mut m = Maze::new(5, 3);
    open_all(&mut m, &[(1, 0), (3, 0)]);
    let before = m.grid.clone();
    assert!(m.find_path().is_none());
    assert_eq!(m.grid, before);
    assert!(m.is_marked(0, 0));
    assert!(m.is_marked(4, 0));
    assert!(!m.is_marked(4, 2));
}

#[test]
fn right_is_tried_before_down() {
    let mut m = Maze::new(3, 3);
    open_all(&mut m, &[(1, 0), (2, 1), (0, 1), (1, 2)]);
    let s = solved(&mut m);
    assert_eq!(chain(&s.path), vec![(2, 2), (2, 0), (0, 0)]);
    assert_eq!(marked(&m), vec![(0, 0), (1, 0), (2, 0), (2, 1), (2, 2)]);
}

#[test]
fn dead_end_is_left_and_not_on_the_route() {
    let mut m = Maze::new(5, 3);
    open_all(&mut m, &[(1, 0), (3, 0), (2, 1), (3, 2)]);
    let s = solved(&mut m);
    assert_eq!(chain(&s.path), vec![(4, 2), (2, 2), (2, 0), (0, 0)]);
    assert_eq!(s.steps, 4);
    assert!(!m.is_marked(4, 0));
    assert!(!m.is_marked(3, 0));
}

#[test]
fn one_cell_maze_is_solved_on_the_spot() {
    let mut m = Maze::new(1, 1);
    let s = solved(&mut m);
    assert_eq!((s.path.x, s.path.y), (0, 0));
    assert!(s.path.previous.is_none());
    assert_eq!(s.steps, 1);
    assert_eq!(marked(&m), vec![(0, 0)]);
}

#[test]
fn search_marks_what_it_enters() {
    let mut m = Maze::new(3, 1);
    assert!(m.search(0, 0).is_none());
    assert!(m.is_marked(0, 0));
    assert!(!m.is_marked(2, 0));
}

#[test]
fn mark_solution_marks_cells_and_slots() {
    let mut m = Maze::new(3, 3);
    open_all(&mut m, &[(1, 0), (2, 1)]);
    m.paths[2][0].visited = true;
    let mut a = Path::new(2, 0);
    a.previous = Some(Box::new(Path::new(0, 0)));
    let mut b = Path::new(2, 2);
    b.previous = Some(Box::new(a));
    assert_eq!(m.mark_solution(&b), 3);
    assert_eq!(marked(&m), vec![(0, 0), (1, 0), (2, 0), (2, 1), (2, 2)]);
}

#[test]
fn clear_marks_clears_every_marker() {
    let mut m = Maze::new(3, 3);
    m.paths[1][1].visited = true;
    m.paths[2][2].visited = true;
    m.clear_marks();
    assert_eq!(marked(&m), Vec::<(usize, usize)>::new());
}

#[test]
fn failed_search_marks_exactly_what_the_start_reaches() {
    let mut m = Maze::new(5, 5);
    open_all(&mut m, &[(1, 0), (2, 1), (3, 4)]);
    assert!(m.find_path().is_none());
    assert_eq!(marked(&m), vec![(0, 0), (2, 0), (2, 2)]);
}
