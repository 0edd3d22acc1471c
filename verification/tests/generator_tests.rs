use maze::generator::{Step, Verdict, Walk, FIRST_WALK_STEPS};
use maze::grid::Maze;

fn glyph_rows(m: &Maze) -> Vec<String> {
    m.grid.iter().map(|row| row.iter().collect::<String>()).collect()
}

fn taken_cells(m: &Maze) -> Vec<(usize, usize)> {
    let mut out = Vec::new();
    for y in (0..m.height).step_by(2) {
        for x in (0..m.width).step_by(2) {
            if m.is_taken(x, y) {
                out.push((x, y));
            }
        }
    }
    out
}

fn lattice_holds(m: &Maze) -> bool {
    for y in 0..m.height {
        for x in 0..m.width {
            let cell = x % 2 == 0 && y % 2 == 0;
            if cell && m.get(x, y) != '.' {
                return false;
            }
            if x % 2 == 1 && y % 2 == 1 && m.get(x, y) != '#' {
                return false;
            }
            if !cell && !m.is_taken(x, y) {
                return false;
            }
        }
    }
    true
}

fn later_walk(m: &mut Maze) -> Walk {
    let mut walk = m.begin(0, 0);
    walk.first = false;
    assert_eq!(m.settle(&mut walk), Verdict::Resume);
    walk
}

#[test]
fn first_walk_threshold_is_twenty() {
    assert_eq!(FIRST_WALK_STEPS, 20);
}

#[test]
fn begin_takes_the_start_cell() {
    let mut m = Maze::new(5, 5);
    let walk = m.begin(1, 2);
    assert_eq!((walk.x, walk.y), (2, 4));
    assert_eq!(walk.steps, vec![(2, 4)]);
    assert_eq!(walk.heading, None);
    assert!(walk.first);
    assert!(!walk.looped);
    assert_eq!(taken_cells(&m), vec![(2, 4)]);
    assert_eq!(glyph_rows(&m), glyph_rows(&Maze::new(5, 5)));
}

#[test]
fn unvisited_lists_free_cells_row_by_row() {
    let mut m = Maze::new(5, 3);
    assert_eq!(m.unvisited(), vec![(0, 0), (2, 0), (4, 0), (0, 2), (2, 2), (4, 2)]);
    m.begin(1, 0);
    assert_eq!(m.unvisited(), vec![(0, 0), (4, 0), (0, 2), (2, 2), (4, 2)]);
}

#[test]
fn advance_opens_the_slot_and_takes_the_cell() {
    let mut m = Maze::new(5, 5);
    let mut walk = m.begin(0, 0);
    assert_eq!(m.advance(&mut walk, 0), Step::Entered);
    assert_eq!((walk.x, walk.y), (2, 0));
    assert_eq!(walk.heading, Some(0));
    assert_eq!(walk.steps, vec![(0, 0), (2, 0), (1, 0)]);
    assert_eq!(m.get(1, 0), '.');
    assert!(m.is_taken(2, 0));
    assert!(!walk.looped);
    assert_eq!(m.advance(&mut walk, 1), Step::Entered);
    assert_eq!((walk.x, walk.y), (2, 2));
    assert_eq!(walk.steps, vec![(0, 0), (2, 0), (1, 0), (2, 2), (2, 1)]);
    assert_eq!(glyph_rows(&m), vec!["...#.", "##.##", ".#.#.", "#####", ".#.#."]);
}

#[test]
fn advance_rejects_the_reverse_move() {
    let mut m = Maze::new(5, 5);
    let mut walk = m.begin(0, 0);
    assert_eq!(m.advance(&mut walk, 0), Step::Entered);
    let glyphs = glyph_rows(&m);
    assert_eq!(m.advance(&mut walk, 2), Step::Rejected);
    assert_eq!((walk.x, walk.y), (2, 0));
    assert_eq!(walk.heading, Some(0));
    assert_eq!(walk.steps.len(), 3);
    assert_eq!(glyph_rows(&m), glyphs);
}

#[test]
fn advance_rejects_a_move_off_the_lattice() {
    let mut m = Maze::new(5, 5);
    let mut walk = m.begin(2, 0);
    assert_eq!(m.advance(&mut walk, 0), Step::Rejected);
    assert_eq!(m.advance(&mut walk, 3), Step::Rejected);
    assert_eq!((walk.x, walk.y), (4, 0));
    assert_eq!(walk.heading, None);
    assert_eq!(walk.steps, vec![(4, 0)]);
    assert_eq!(glyph_rows(&m), glyph_rows(&Maze::new(5, 5)));
}

#[test]
fn short_first_walk_that_crosses_itself_restarts() {
    let mut m = Maze::new(5, 5);
    let mut walk = m.begin(0, 0);
    assert_eq!(m.advance(&mut walk, 0), Step::Entered);
    assert_eq!(m.advance(&mut walk, 1), Step::Entered);
    assert_eq!(m.advance(&mut walk, 2), Step::Entered);
    assert_eq!(m.advance(&mut walk, 3), Step::Closed);
    assert!(walk.looped);
    assert_eq!(m.get(0, 1), '.');
    assert_eq!(m.settle(&mut walk), Verdict::Restart);
    assert!(walk.first);
    assert!(!walk.looped);
    assert!(walk.steps.is_empty());
    assert_eq!(walk.heading, None);
    assert_eq!(glyph_rows(&m), glyph_rows(&Maze::new(5, 5)));
    assert_eq!(taken_cells(&m), Vec::<(usize, usize)>::new());
}

#[test]
fn long_first_walk_is_kept_although_it_crosses_itself() {
    let mut m = Maze::new(41, 3);
    let mut walk = m.begin(0, 0);
    for _ in 0..20 {
        assert_eq!(m.advance(&mut walk, 0), Step::Entered);
    }
    assert_eq!(m.advance(&mut walk, 1), Step::Entered);
    assert_eq!(m.advance(&mut walk, 2), Step::Entered);
    assert_eq!(m.advance(&mut walk, 3), Step::Closed);
    assert!(walk.looped);
    assert_eq!(walk.steps.len() / 2, 23);
    let glyphs = glyph_rows(&m);
    assert_eq!(m.settle(&mut walk), Verdict::Resume);
    assert!(!walk.first);
    assert!(!walk.looped);
    assert!(walk.steps.is_empty());
    assert_eq!(glyph_rows(&m), glyphs);
    assert_eq!(m.get(38, 1), '.');
    assert_eq!(taken_cells(&m).len(), 23);
}

#[test]
fn first_walk_of_nineteen_steps_is_not_long_enough() {
    let mut m = Maze::new(41, 3);
    let mut walk = m.begin(0, 0);
    for _ in 0..16 {
        assert_eq!(m.advance(&mut walk, 0), Step::Entered);
    }
    assert_eq!(m.advance(&mut walk, 1), Step::Entered);
    assert_eq!(m.advance(&mut walk, 2), Step::Entered);
    assert_eq!(m.advance(&mut walk, 3), Step::Closed);
    assert_eq!(walk.steps.len() / 2, 19);
    assert_eq!(m.settle(&mut walk), Verdict::Restart);
    assert_eq!(glyph_rows(&m), glyph_rows(&Maze::new(41, 3)));
}

#[test]
fn later_walk_that_meets_the_maze_is_kept() {
    let mut m = Maze::new(5, 5);
    let mut walk = later_walk(&mut m);
    m.depart(&mut walk, 4, 0);
    assert_eq!(walk.steps, vec![(4, 0)]);
    assert_eq!(m.advance(&mut walk, 2), Step::Entered);
    assert_eq!(m.advance(&mut walk, 2), Step::Closed);
    assert!(!walk.looped);
    assert_eq!(m.settle(&mut walk), Verdict::Resume);
    assert_eq!(glyph_rows(&m), vec![".....", "#####", ".#.#.", "#####", ".#.#."]);
    assert_eq!(taken_cells(&m), vec![(0, 0), (2, 0), (4, 0)]);
}

#[test]
fn later_walk_that_crosses_itself_is_wiped() {
    let mut m = Maze::new(5, 5);
    let mut walk = later_walk(&mut m);
    m.depart(&mut walk, 4, 4);
    assert_eq!(m.advance(&mut walk, 2), Step::Entered);
    assert_eq!(m.advance(&mut walk, 3), Step::Entered);
    assert_eq!(m.advance(&mut walk, 0), Step::Entered);
    assert_eq!(m.advance(&mut walk, 1), Step::Closed);
    assert!(walk.looped);
    assert_eq!(glyph_rows(&m), vec![".#.#.", "#####", ".#...", "##.#.", ".#..."]);
    assert_eq!(m.settle(&mut walk), Verdict::Resume);
    assert!(!walk.looped);
    assert!(walk.steps.is_empty());
    assert_eq!(glyph_rows(&m), glyph_rows(&Maze::new(5, 5)));
    assert_eq!(taken_cells(&m), vec![(0, 0)]);
}

#[test]
fn wipe_walls_slots_and_frees_cells() {
    let mut m = Maze::new(5, 3);
    let mut walk = m.begin(0, 0);
    assert_eq!(m.advance(&mut walk, 0), Step::Entered);
    assert_eq!(m.advance(&mut walk, 0), Step::Entered);
    m.wipe(&vec![(2, 0), (3, 0), (4, 0)]);
    assert_eq!(glyph_rows(&m), vec!["...#.", "#####", ".#.#."]);
    assert_eq!(taken_cells(&m), vec![(0, 0)]);
}

#[test]
fn depart_takes_the_cell_and_forgets_the_heading() {
    let mut m = Maze::new(5, 5);
    let mut walk = m.begin(0, 0);
    assert_eq!(m.advance(&mut walk, 0), Step::Entered);
    m.depart(&mut walk, 2, 4);
    assert_eq!((walk.x, walk.y), (2, 4));
    assert_eq!(walk.heading, None);
    assert_eq!(walk.steps, vec![(2, 4)]);
    assert_eq!(taken_cells(&m), vec![(0, 0), (2, 0), (2, 4)]);
}

#[test]
fn one_cell_maze_needs_no_move() {
    let mut m = Maze::new(1, 1);
    assert!(m.carve(0));
    assert!(m.generate_maze());
    assert_eq!(glyph_rows(&m), vec!["."]);
    assert!(m.is_taken(0, 0));
    let s = m.find_path().expect("start is goal");
    assert_eq!((s.path.x, s.path.y), (0, 0));
    assert!(s.path.previous.is_none());
}

#[test]
fn no_budget_leaves_a_larger_maze_unfinished() {
    let mut m = Maze::new(3, 3);
    assert!(!m.carve(0));
    assert_eq!(taken_cells(&m).len(), 1);
    assert_eq!(glyph_rows(&m), glyph_rows(&Maze::new(3, 3)));
}

#[test]
fn generated_maze_takes_every_cell_and_keeps_the_lattice() {
    let mut m = Maze::new(21, 15);
    assert!(m.generate_maze());
    assert!(lattice_holds(&m));
    assert_eq!(taken_cells(&m).len(), 11 * 8);
    assert!(m.unvisited().is_empty());
}

#[test]
fn generated_maze_opens_at_least_a_spanning_number_of_slots() {
    let mut m = Maze::new(15, 15);
    assert!(m.generate_maze());
    let mut open = 0;
    for y in 0..15 {
        for x in 0..15 {
            if (x % 2 == 1) != (y % 2 == 1) && m.get(x, y) == '.' {
                open += 1;
            }
        }
    }
    assert!(open >= 8 * 8 - 1);
}

#[test]
fn generated_maze_can_be_solved() {
    let mut m = Maze::new(15, 11);
    assert!(m.generate_maze());
    let s = m.find_path().expect("every cell is joined to the maze");
    assert_eq!((s.path.x, s.path.y), (14, 10));
    assert!(s.steps >= 13);
    assert!(m.is_marked(0, 0));
    assert!(m.is_marked(14, 10));
}

#[test]
fn unfinished_generation_keeps_the_lattice() {
    let mut m = Maze::new(9, 9);
    m.carve(50);
    assert!(lattice_holds(&m));
}

#[test]
fn generated_maze_joins_every_cell() {
    let mut m = Maze::new(17, 13);
    assert!(m.generate_maze());
    let mut seen = vec![vec![false; m.width]; m.height];
    let mut stack = vec![(0usize, 0usize)];
    seen[0][0] = true;
    let mut reached = 0;
    while let Some((x, y)) = stack.pop() {
        reached += 1;
        for d in 0..4 {
            if let Some((nx, ny, mx, my)) = m.step_from(x, y, d) {
                if !seen[ny][nx] && m.get(mx, my) == '.' {
                    seen[ny][nx] = true;
                    stack.push((nx, ny));
                }
            }
        }
    }
    assert_eq!(reached, 9 * 7);
}

#[test]
fn generated_maze_opens_only_slots_between_neighbours() {
    let mut m = Maze::new(13, 9);
    assert!(m.generate_maze());
    for y in 0..9 {
        for x in 0..13 {
            if m.get(x, y) == '.' && !(x % 2 == 0 && y % 2 == 0) {
                assert!((x % 2 == 1) != (y % 2 == 1));
                if x % 2 == 1 {
                    assert!(x >= 1 && x + 1 < 13);
                } else {
                    assert!(y >= 1 && y + 1 < 9);
                }
            }
        }
    }
}
