use labirust::implementations::{BreathFirst, DepthFirst};
use labirust::{
    new_builder, Executor, Maze, MazeGenerator, Pos, SimpleGenerator, SolveError,
};

#[test]
fn depth_first() {
    let algorithm = DepthFirst::new();
    let (maze, _delay) = new_builder().generated(SimpleGenerator::new(40, 20)).build();
    let end = maze.end();
    let mut executor = Executor::new(maze, algorithm);
    let steps = executor.run().unwrap();
    assert!(steps > 0);
    assert_eq!(executor.current(), end);
}

#[test]
fn breath_first() {
    let algorithm = BreathFirst::new();
    let (maze, _delay) = new_builder().generated(SimpleGenerator::new(40, 20)).build();
    let end = maze.end();
    let mut executor = Executor::new(maze, algorithm);
    let steps = executor.run().unwrap();
    assert!(steps > 0);
    assert_eq!(executor.current(), end);
}

#[test]
fn builder_settings() {
    let maze = Maze::new(2, 2, Pos::new(0, 0), Pos::new(1, 1), vec![]).unwrap();
    let (built, delay) = new_builder().delay_ms(250).maze(maze).build();
    assert_eq!(delay, 250);
    assert_eq!(built.size(), (2, 2));
    let (_, default_delay) = new_builder().maze(built).build();
    assert_eq!(default_delay, 100);
}

#[test]
fn depth_first_unbranched_path() {
    // along a single corridor, depth-first needs one step per passage
    let maze = Maze::new(
        3,
        3,
        Pos::new(0, 0),
        Pos::new(2, 2),
        vec![
            (Pos::new(0, 0), vec![Pos::new(1, 0), Pos::new(0, 1)]),
            (Pos::new(1, 0), vec![Pos::new(1, 1)]),
            (Pos::new(1, 1), vec![Pos::new(1, 2)]),
            (Pos::new(1, 2), vec![Pos::new(2, 2)]),
        ],
    )
    .unwrap();
    let mut executor = Executor::new(maze, DepthFirst::new());
    assert_eq!(executor.run(), Ok(5));
    assert_eq!(executor.current(), Pos::new(2, 2));
}

#[test]
fn single_cell_run_consults_no_algorithm() {
    // on a 1x1 maze the executor stops on the first insight; the
    // depth-first strategy would report exhaustion if it were consulted
    let maze = SimpleGenerator::new(1, 1).generate();
    let mut executor = Executor::new(maze, DepthFirst::new());
    assert_eq!(executor.run(), Ok(0));
}

#[test]
fn unsolvable_maze_is_exhausted() {
    let maze = Maze::new(2, 1, Pos::new(0, 0), Pos::new(1, 0), vec![]).unwrap();
    let mut executor = Executor::new(maze, DepthFirst::new());
    assert_eq!(executor.run(), Err(SolveError::Exhausted));

    let maze = Maze::new(2, 1, Pos::new(0, 0), Pos::new(1, 0), vec![]).unwrap();
    let mut executor = Executor::new(maze, BreathFirst::new());
    assert_eq!(executor.run(), Err(SolveError::Exhausted));
}

#[test]
fn breadth_first_finds_shortest_route() {
    // two corridors of different lengths; breadth-first still ends at the
    // end cell after visiting candidates in breadth order
    let maze = Maze::new(
        3,
        2,
        Pos::new(0, 0),
        Pos::new(2, 0),
        vec![
            (Pos::new(0, 0), vec![Pos::new(1, 0), Pos::new(0, 1)]),
            (Pos::new(1, 0), vec![Pos::new(2, 0)]),
            (Pos::new(0, 1), vec![Pos::new(1, 1)]),
            (Pos::new(1, 1), vec![Pos::new(2, 1)]),
            (Pos::new(2, 1), vec![Pos::new(2, 0)]),
        ],
    )
    .unwrap();
    let mut executor = Executor::new(maze, BreathFirst::new());
    let steps = executor.run().unwrap();
    assert_eq!(executor.current(), Pos::new(2, 0));
    assert!(steps >= 2);
}

#[test]
fn tried_cells_cover_guesses() {
    let maze = SimpleGenerator::new(6, 6).generate();
    let mut executor = Executor::new(maze, DepthFirst::new());
    executor.run().unwrap();
    let tried = executor.tried();
    assert!(tried.contains(&Pos::new(0, 0)) || tried.contains(&executor.current()));
    assert!(tried.contains(&Pos::new(5, 5)));
}

#[test]
fn step_reports_each_guess() {
    let maze = SimpleGenerator::new(4, 4).generate();
    let end = maze.end();
    let mut executor = Executor::new(maze, DepthFirst::new());
    let mut last = None;
    loop {
        match executor.step().unwrap() {
            Some(path) => {
                assert!(!path.is_empty());
                last = Some(*path.last().unwrap());
            },
            None => break,
        }
    }
    assert_eq!(last, Some(end));
    assert_eq!(executor.current(), end);
}

#[test]
fn solve_error_messages() {
    assert_eq!(SolveError::EmptyGuess.message(), "algorithm returned an empty guess");
    assert_eq!(
        SolveError::IllegalMove.message(),
        "guess steps through a wall or leaves the maze"
    );
    assert_eq!(SolveError::Exhausted.message(), "no unvisited branch remains");
}

#[test]
fn implementations_depth_first() {
    let algorithm = DepthFirst::new();
    let maze = SimpleGenerator::new(20, 20).generate();
    let end = maze.end();
    let mut executor = Executor::new(maze, algorithm);
    executor.run().unwrap();
    assert_eq!(executor.current(), end);
}

#[test]
fn implementations_breath_first() {
    let algorithm = BreathFirst::new();
    let maze = SimpleGenerator::new(20, 20).generate();
    let end = maze.end();
    let mut executor = Executor::new(maze, algorithm);
    executor.run().unwrap();
    assert_eq!(executor.current(), end);
}

#[test]
fn breadth_first_guess_lengths_never_shrink() {
    // FIFO consumption preserves breadth-first layering: successive
    // guesses never get shorter, and grow by at most one cell
    let maze = SimpleGenerator::new(8, 8).generate();
    let mut executor = Executor::new(maze, BreathFirst::new());
    let mut previous: usize = 0;
    loop {
        match executor.step().unwrap() {
            Some(path) => {
                assert!(path.len() >= previous);
                assert!(path.len() <= previous + 1);
                previous = path.len();
            },
            None => break,
        }
    }
}
