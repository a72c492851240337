use gridpuzzles::board::AsChar;
use gridpuzzles::board::Board;
use gridpuzzles::coord::Point;
use gridpuzzles::puzzle_piece::PuzzlePiece;
use gridpuzzles::shape::Shape;
use gridpuzzles::solution::Solution;
use gridpuzzles::solver::SolveError;

fn checkerboard(width: i32, height: i32) -> Board<PuzzlePiece> {
    Board::generate(width, height, |point: &Point| PuzzlePiece::blank(point))
}

#[test]
fn puzzle_piece() {
    assert_eq!('a', PuzzlePiece::shape(0).as_char());
    assert_eq!('b', PuzzlePiece::shape(1).as_char());
    assert_eq!('z', PuzzlePiece::shape(25).as_char());
    assert_eq!('X', PuzzlePiece::blank(&Point::new(1, 1)).as_char());
    assert_eq!('O', PuzzlePiece::blank(&Point::new(1, 2)).as_char());
}

#[test]
fn solve_puzzle() {
    let sprites = [
        "
                XO
                 X
                 O
            ",
        "
                XO
                O
            ",
        "X",
        "
                O
                X
                OX
            ",
        "
                OX
                XO
            ",
    ];
    let mut board = checkerboard(4, 4);
    let solution = gridpuzzles::solver::solve_puzzle(&mut board, &sprites).unwrap();
    println!("{}", solution.render(4, 4));
    assert_eq!(
        "
Found solution after 15 iterations.

    | 1 | 2 | 3 | 4 
----+---+---+---+---
 A  | X |   |   |   
----+---+---+---+---
 B  | O | X | O |   
----+---+---+---+---
 C  |   |   |   |   
----+---+---+---+---
 D  |   |   |   |   

    | 1 | 2 | 3 | 4 
----+---+---+---+---
 A  |   |   |   |   
----+---+---+---+---
 B  |   |   |   |   
----+---+---+---+---
 C  | X | O |   |   
----+---+---+---+---
 D  | O |   |   |   

    | 1 | 2 | 3 | 4 
----+---+---+---+---
 A  |   |   |   |   
----+---+---+---+---
 B  |   |   |   |   
----+---+---+---+---
 C  |   |   |   |   
----+---+---+---+---
 D  |   | X |   |   

    | 1 | 2 | 3 | 4 
----+---+---+---+---
 A  |   | O | X | O 
----+---+---+---+---
 B  |   |   |   | X 
----+---+---+---+---
 C  |   |   |   |   
----+---+---+---+---
 D  |   |   |   |   

    | 1 | 2 | 3 | 4 
----+---+---+---+---
 A  |   |   |   |   
----+---+---+---+---
 B  |   |   |   |   
----+---+---+---+---
 C  |   |   | X | O 
----+---+---+---+---
 D  |   |   | O | X 
",
        format!("\n{}", solution.render(4, 4))
    );
}

#[test]
fn known_tiling_covers_every_cell_once() {
    let sprites = ["XO\n X\n O", "XO\nO", "X", "O\nX\nOX", "OX\nXO"];
    let mut board = checkerboard(4, 4);
    let solution = gridpuzzles::solver::solve_puzzle(&mut board, &sprites).unwrap();
    assert!(solution.iterations > 0);
    assert_eq!(5, solution.positioned_shapes.len());
    let mut count = vec![0; 16];
    for (shape, at) in &solution.positioned_shapes {
        for p in &shape.tagged_points {
            let x = p.x() + at.x;
            let y = p.y() + at.y;
            assert!(0 <= x && x < 4 && 0 <= y && y < 4);
            assert_eq!(PuzzlePiece::blank(&Point::new(x, y)), PuzzlePiece::blank_char(p.color()));
            count[(x * 4 + y) as usize] += 1;
        }
    }
    assert!(count.iter().all(|c| *c == 1));
    for x in 0..4 {
        for y in 0..4 {
            assert_eq!(&PuzzlePiece::blank(&Point::new(x, y)), board.get(&Point::new(x, y)));
        }
    }
    let again = gridpuzzles::solver::solve_puzzle(&mut board, &sprites).unwrap();
    assert_eq!(solution.iterations, again.iterations);
}

#[test]
fn minimal_one_by_one() {
    let mut board = Board::new(1, 1, PuzzlePiece::blank_char('X'));
    let solution = gridpuzzles::solver::solve_puzzle(&mut board, &["X"]).unwrap();
    assert_eq!(1, solution.positioned_shapes.len());
    assert_eq!(Point::new(0, 0), solution.positioned_shapes[0].1);
    assert_eq!(1, solution.iterations);
}

#[test]
fn infeasible_pool_area() {
    let mut board = checkerboard(2, 2);
    assert_eq!(
        Err(SolveError::AreaMismatch { cells: 3, area: 4 }),
        gridpuzzles::solver::solve_puzzle(&mut board, &["XO", "X"]).map(|s| s.iterations)
    );
    assert_eq!(
        Err(SolveError::AreaMismatch { cells: 5, area: 4 }),
        gridpuzzles::solver::solve_puzzle(&mut board, &["XO", "OX", "X"]).map(|s| s.iterations)
    );
}

#[test]
fn infeasible_colors() {
    let mut board = checkerboard(2, 2);
    assert_eq!(
        Err(SolveError::NoSolution),
        gridpuzzles::solver::solve_puzzle(&mut board, &["XX", "OO"]).map(|s| s.iterations)
    );
}

#[test]
fn shape_larger_than_grid() {
    let mut board = checkerboard(2, 2);
    assert_eq!(
        Err(SolveError::NoSolution),
        gridpuzzles::solver::solve_puzzle(&mut board, &["XOXO"]).map(|s| s.iterations)
    );
}

#[test]
fn empty_sprite_is_refused() {
    let mut board = checkerboard(2, 2);
    assert_eq!(
        Err(SolveError::EmptySprite { index: 1 }),
        gridpuzzles::solver::solve_puzzle(&mut board, &["XO\nOX", "  \n "]).map(|s| s.iterations)
    );
}

#[test]
fn iteration_count_is_grouped_by_three() {
    let solution = Solution::of(vec![], 1234567);
    assert_eq!("Found solution after 1 234 567 iterations.\n\n", solution.render(2, 2));
    let solution = Solution::of(vec![], 999);
    assert_eq!("Found solution after 999 iterations.\n\n", solution.render(2, 2));
}

#[test]
fn of_sorts_stably_by_shape_index() {
    let entries = vec![
        (2, Shape::parse("X"), Point::new(5, 0)),
        (0, Shape::parse("XX"), Point::new(1, 0)),
        (2, Shape::parse("XXX"), Point::new(6, 0)),
        (1, Shape::parse("O"), Point::new(3, 0)),
    ];
    let solution = Solution::of(entries, 7);
    assert_eq!(7, solution.iterations);
    let offsets: Vec<i32> = solution.positioned_shapes.iter().map(|(_, at)| at.x).collect();
    assert_eq!(vec![1, 3, 5, 6], offsets);
    let sizes: Vec<usize> = solution.positioned_shapes.iter().map(|(s, _)| s.tagged_points.len()).collect();
    assert_eq!(vec![2, 1, 1, 3], sizes);
}

#[test]
fn tall_board_row_labels() {
    let board: Board<char> = Board::new(1, 30, '.');
    let text = board.to_string();
    assert!(text.contains("\n Z  | . \n"));
    assert!(text.contains("\n [  | . \n"));
    assert!(text.ends_with("\n ^  | . \n"));
}
