use labirust::{MazeGenerator, Pos, SimpleGenerator};

#[test]
fn generation() {
    let generator = SimpleGenerator::new(10, 10);
    let maze = generator.generate();
    let text = maze.display(None);
    println!("{text}");
}

#[test]
fn generated_maze_is_a_spanning_tree() {
    // every generated maze is perfect: symmetric in-bounds adjacency,
    // cells - 1 passages, and every cell reachable from the start
    let (width, height): (isize, isize) = (7, 5);
    let generator = SimpleGenerator::new(width, height);
    let maze = generator.generate();
    assert_eq!(maze.start(), Pos::new(0, 0));
    assert_eq!(maze.end(), Pos::new(width - 1, height - 1));

    let mut degree_total = 0usize;
    for x in 0..width {
        for y in 0..height {
            let p = Pos::new(x, y);
            let neighbors = maze.paths_from(p).unwrap();
            degree_total += neighbors.len();
            for &q in neighbors {
                // in-bounds, grid-orthogonal, symmetric
                assert!(maze.is_inside(q));
                let (dx, dy) = p.sub(q).decompose();
                assert_eq!(dx.abs() + dy.abs(), 1);
                assert!(maze.paths_from(q).unwrap().contains(&p));
            }
        }
    }
    let cells = (width * height) as usize;
    assert_eq!(degree_total, 2 * (cells - 1));

    // breadth-first walk over the open passages reaches every cell
    let mut seen = vec![Pos::new(0, 0)];
    let mut frontier = vec![Pos::new(0, 0)];
    while let Some(p) = frontier.pop() {
        for &q in maze.paths_from(p).unwrap() {
            if !seen.contains(&q) {
                seen.push(q);
                frontier.push(q);
            }
        }
    }
    assert_eq!(seen.len(), cells);
}

#[test]
fn single_cell_maze() {
    // a 1x1 maze has start == end and no passages at all
    let generator = SimpleGenerator::new(1, 1);
    let maze = generator.generate();
    assert_eq!(maze.start(), maze.end());
    assert_eq!(maze.start(), Pos::new(0, 0));
    assert!(maze.paths_from(Pos::new(0, 0)).unwrap().is_empty());
}
