use labirust::{Maze, MazeError, Pos};

fn sample_maze() -> Maze {
    Maze::new(
        3,
        3,
        Pos::new(0, 0),
        Pos::new(2, 2),
        vec![
            (Pos::new(0, 0), vec![Pos::new(1, 0), Pos::new(0, 1)]),
            (Pos::new(1, 0), vec![Pos::new(1, 1)]),
            (Pos::new(1, 1), vec![Pos::new(1, 2)]),
            (Pos::new(1, 2), vec![Pos::new(2, 2)]),
        ],
    )
    .unwrap()
}

#[test]
fn display() {
    let maze = sample_maze();
    let text = maze.display(None);
    println!("{text}");
}

#[test]
fn display_content() {
    let maze = sample_maze();
    let text = maze.display(None);
    let expected = "\
\u{2022}\u{2500}\u{2022}\u{2500}\u{2022}\u{2500}\u{2022}\n\
\u{2502}   \u{2502} \u{2502}\n\
\u{2022} \u{2022} \u{2022}\u{2500}\u{2022}\n\
\u{2502} \u{2502} \u{2502} \u{2502}\n\
\u{2022}\u{2500}\u{2022} \u{2022}\u{2500}\u{2022}\n\
\u{2502} \u{2502}   \u{2502}\n\
\u{2022}\u{2500}\u{2022}\u{2500}\u{2022}\u{2500}\u{2022}";
    assert_eq!(text, expected);
}

#[test]
fn display_dimensions() {
    // a rendered maze is (2*height + 1) lines of (2*width + 1) characters
    let maze = sample_maze();
    let text = maze.display(None);
    let lines: Vec<&str> = text.lines().collect();
    assert_eq!(lines.len(), 7);
    for line in lines {
        assert_eq!(line.chars().count(), 7);
    }

    let wide = Maze::new(5, 2, Pos::new(0, 0), Pos::new(4, 1), vec![]).unwrap();
    let text = wide.display(None);
    let lines: Vec<&str> = text.lines().collect();
    assert_eq!(lines.len(), 5);
    for line in lines {
        assert_eq!(line.chars().count(), 11);
    }
}

#[test]
fn display_overlay() {
    let maze = sample_maze();
    let overlay = vec![(Pos::new(0, 0), 'S'), (Pos::new(2, 2), 'E'), (Pos::new(0, 0), 'X')];
    let text = maze.display(Some(overlay));
    let rows: Vec<Vec<char>> = text.lines().map(|l| l.chars().collect()).collect();
    // the later pair for the same cell wins
    assert_eq!(rows[1][1], 'X');
    assert_eq!(rows[5][5], 'E');
}

#[test]
fn getters() {
    let maze = sample_maze();
    assert_eq!(maze.width(), 3);
    assert_eq!(maze.height(), 3);
    assert_eq!(maze.size(), (3, 3));
    assert_eq!(maze.start(), Pos::new(0, 0));
    assert_eq!(maze.end(), Pos::new(2, 2));
    assert!(maze.is_start(Pos::new(0, 0)));
    assert!(!maze.is_start(Pos::new(1, 0)));
    assert!(maze.is_end(Pos::new(2, 2)));
    assert!(!maze.is_end(Pos::new(0, 0)));
    assert!(maze.is_inside(Pos::new(2, 1)));
    assert!(!maze.is_inside(Pos::new(3, 1)));
    assert!(!maze.is_inside(Pos::new(-1, 0)));
}

#[test]
fn paths_from_and_walls() {
    let maze = sample_maze();
    let from_origin = maze.paths_from(Pos::new(0, 0)).unwrap();
    assert_eq!(from_origin, &vec![Pos::new(1, 0), Pos::new(0, 1)]);
    assert_eq!(maze.paths_from(Pos::new(0, 1)).unwrap(), &vec![Pos::new(0, 0)]);
    assert_eq!(
        maze.paths_from(Pos::new(5, 5)),
        Err(MazeError::OutOfBounds)
    );
    assert_eq!(maze.is_walled(Pos::new(0, 0), Pos::new(1, 0)), Ok(false));
    assert_eq!(maze.is_walled(Pos::new(0, 0), Pos::new(0, 1)), Ok(false));
    assert_eq!(maze.is_walled(Pos::new(2, 0), Pos::new(2, 1)), Ok(true));
    assert_eq!(
        maze.is_walled(Pos::new(-1, 0), Pos::new(0, 0)),
        Err(MazeError::OutOfBounds)
    );
}

#[test]
fn adjacency_is_symmetric() {
    // for all cells a, b: b is reachable from a exactly when a is from b
    let maze = sample_maze();
    for ax in 0..3 {
        for ay in 0..3 {
            for bx in 0..3 {
                for by in 0..3 {
                    let a = Pos::new(ax, ay);
                    let b = Pos::new(bx, by);
                    let a_to_b = maze.paths_from(a).unwrap().contains(&b);
                    let b_to_a = maze.paths_from(b).unwrap().contains(&a);
                    assert_eq!(a_to_b, b_to_a);
                }
            }
        }
    }
}

#[test]
fn adjascent_neighbors() {
    // only in-bounds orthogonal neighbors, at most 4, never the cell itself
    let maze = sample_maze();
    let center = maze.adjascent(Pos::new(1, 1));
    assert_eq!(center.len(), 4);
    assert!(center.contains(&Pos::new(0, 1)));
    assert!(center.contains(&Pos::new(2, 1)));
    assert!(center.contains(&Pos::new(1, 0)));
    assert!(center.contains(&Pos::new(1, 2)));
    assert!(!center.contains(&Pos::new(1, 1)));

    let corner = maze.adjascent(Pos::new(0, 0));
    assert_eq!(corner.len(), 2);
    assert!(corner.contains(&Pos::new(1, 0)));
    assert!(corner.contains(&Pos::new(0, 1)));

    let edge = maze.adjascent(Pos::new(2, 1));
    assert_eq!(edge.len(), 3);
    assert!(!edge.contains(&Pos::new(3, 1)));
}

#[test]
fn new_rejects_bad_input() {
    assert_eq!(
        Maze::new(0, 3, Pos::new(0, 0), Pos::new(0, 0), vec![]).err(),
        Some(MazeError::InvalidSize)
    );
    assert_eq!(
        Maze::new(3, -1, Pos::new(0, 0), Pos::new(0, 0), vec![]).err(),
        Some(MazeError::InvalidSize)
    );
    assert_eq!(
        Maze::new(3, 3, Pos::new(3, 0), Pos::new(2, 2), vec![]).err(),
        Some(MazeError::OutOfBounds)
    );
    assert_eq!(
        Maze::new(3, 3, Pos::new(0, 0), Pos::new(2, 3), vec![]).err(),
        Some(MazeError::OutOfBounds)
    );
    let teleport = vec![(Pos::new(0, 0), vec![Pos::new(2, 0)])];
    assert_eq!(
        Maze::new(3, 3, Pos::new(0, 0), Pos::new(2, 2), teleport).err(),
        Some(MazeError::NotAdjacent)
    );
    let escaping = vec![(Pos::new(0, 0), vec![Pos::new(0, -1)])];
    assert_eq!(
        Maze::new(3, 3, Pos::new(0, 0), Pos::new(2, 2), escaping).err(),
        Some(MazeError::OutOfBounds)
    );
}

#[test]
fn create_path_validates_before_mutating() {
    let mut maze = Maze::new(3, 3, Pos::new(0, 0), Pos::new(2, 2), vec![]).unwrap();
    assert_eq!(
        maze.create_path(Pos::new(0, 0), Pos::new(2, 0)),
        Err(MazeError::NotAdjacent)
    );
    assert_eq!(
        maze.create_path(Pos::new(0, 0), Pos::new(0, -1)),
        Err(MazeError::OutOfBounds)
    );
    // the failed calls must not have left a half-open passage
    assert!(maze.paths_from(Pos::new(0, 0)).unwrap().is_empty());
    assert_eq!(maze.create_path(Pos::new(0, 0), Pos::new(1, 0)), Ok(()));
    assert_eq!(maze.is_walled(Pos::new(0, 0), Pos::new(1, 0)), Ok(false));
    assert_eq!(maze.is_walled(Pos::new(1, 0), Pos::new(0, 0)), Ok(false));
}

#[test]
fn error_messages() {
    assert_eq!(MazeError::InvalidSize.message(), "maze dimensions out of range");
    assert_eq!(MazeError::OutOfBounds.message(), "position out of bounds");
    assert_eq!(MazeError::NotAdjacent.message(), "cells are not grid-adjacent");
}
