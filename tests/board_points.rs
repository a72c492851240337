use gridpuzzles::board::Board;
use gridpuzzles::board_points::BoardAllPoints;
use gridpuzzles::board_points::BoardCorners;
use gridpuzzles::board_points::BoardForAllPoints;
use gridpuzzles::board_points::BoardIterate;
use gridpuzzles::board_points::BoardLines;
use gridpuzzles::coord::Point;
use gridpuzzles::directions;

#[test]
fn all_points() {
    let board: Board<i32> = Board::new(2, 3, 0);
    let x: Vec<i32> = board.all_points().iter().map(|Point { x, y: _ }| *x).collect();
    let y: Vec<i32> = board.all_points().iter().map(|Point { x: _, y }| *y).collect();
    assert_eq!(vec![0, 1, 0, 1, 0, 1], x);
    assert_eq!(vec![0, 0, 1, 1, 2, 2], y);
}

#[test]
fn fall_points_mut() {
    let mut board: Board<i32> = Board::new(2, 3, 0);
    for p in board.all_points() {
        board.set(&p, p.x + p.y);
    }
    assert_eq!(0, *board.get(&Point::new(0, 0)));
    assert_eq!(1, *board.get(&Point::new(0, 1)));
    assert_eq!(1, *board.get(&Point::new(1, 0)));
    assert_eq!(3, *board.get(&Point::new(1, 2)));
}

#[test]
fn for_all_points() {
    let board: Board<i32> = Board::new(2, 3, 0);
    let mut x = vec![];
    let mut y = vec![];
    for point in board.for_all_points() {
        x.push(point.x);
    }
    for point in board.for_all_points() {
        y.push(point.y);
    }
    assert_eq!(vec![0, 0, 0, 1, 1, 1], x);
    assert_eq!(vec![0, 1, 2, 0, 1, 2], y);
}

#[test]
fn for_all_points_mut() {
    let mut board: Board<i32> = Board::new(2, 3, 0);
    board.for_all_points_mut(|p, _v| p.x + p.y);
    assert_eq!(0, *board.get(&Point::new(0, 0)));
    assert_eq!(1, *board.get(&Point::new(0, 1)));
    assert_eq!(1, *board.get(&Point::new(1, 0)));
    assert_eq!(3, *board.get(&Point::new(1, 2)));
}

fn coords(points: Vec<Point>) -> (Vec<i32>, Vec<i32>) {
    points.iter().map(|point| (point.x, point.y)).unzip()
}

#[test]
fn iterate() {
    let board: Board<i32> = Board::new(3, 5, 0);
    assert_eq!(
        (vec![0, 1, 2], vec![0, 0, 0]),
        coords(board.iterate(Point::new(0, 0), Point::new(1, 0)))
    );
    assert_eq!(
        (vec![2, 1, 0], vec![0, 0, 0]),
        coords(board.iterate(Point::new(2, 0), Point::new(-1, 0)))
    );
    assert_eq!(
        (vec![0, 0, 0, 0, 0], vec![0, 1, 2, 3, 4]),
        coords(board.iterate(Point::new(0, 0), Point::new(0, 1)))
    );
    assert_eq!(
        (vec![0, 0, 0, 0, 0], vec![4, 3, 2, 1, 0]),
        coords(board.iterate(Point::new(0, 4), Point::new(0, -1)))
    );
    assert_eq!(
        (vec![1, 2], vec![3, 2]),
        coords(board.iterate(Point::new(1, 3), Point::new(1, -1)))
    );
}

#[test]
fn iterate_mut() {
    let mut board: Board<i32> = Board::new(3, 5, 0);
    for point in board.iterate(Point::new(0, 0), Point::new(1, 0)) {
        board.set(&point, 1);
    }
    assert_eq!(
        vec![1, 1, 1],
        board
            .iterate(Point::new(0, 0), Point::new(1, 0))
            .iter()
            .map(|p| *board.get(p))
            .collect::<Vec<i32>>()
    );
    assert_eq!(
        vec![0, 0, 0],
        board
            .iterate(Point::new(0, 1), Point::new(1, 0))
            .iter()
            .map(|p| *board.get(p))
            .collect::<Vec<i32>>()
    );
    let first = board.iterate(Point::new(0, 1), Point::new(1, 0))[0];
    board.set(&first, 345);
    assert_eq!(345, *board.get(&Point::new(0, 1)));
}

fn get_lines(lines: Vec<Vec<Point>>) -> Vec<Vec<(i32, i32)>> {
    lines
        .iter()
        .map(|line| line.iter().map(|Point { x, y }| (*x, *y)).collect())
        .collect()
}

#[test]
fn lines() {
    let board: Board<i32> = Board::new(4, 3, 0);
    assert_eq!(
        vec![vec![(0, 0), (0, 1)]],
        get_lines(board.lines(Point::new(0, 0), directions::up(), 2))
    );
    assert_eq!(
        vec![vec![(0, 1), (0, 0)]],
        get_lines(board.lines(Point::new(0, 0), directions::down(), 2))
    );
    assert_eq!(
        vec![vec![(0, 0), (0, 1)], vec![(0, 1), (0, 2)]],
        get_lines(board.lines(Point::new(0, 1), directions::up(), 2))
    );
    assert_eq!(
        vec![vec![(0, 2), (0, 1)], vec![(0, 1), (0, 0)]],
        get_lines(board.lines(Point::new(0, 1), directions::down(), 2))
    );
}

#[test]
fn large() {
    let board: Board<i32> = Board::new(20, 20, 0);
    assert_eq!(
        vec![
            vec![(0, 7), (0, 8), (0, 9), (0, 10)],
            vec![(0, 8), (0, 9), (0, 10), (0, 11)],
            vec![(0, 9), (0, 10), (0, 11), (0, 12)],
            vec![(0, 10), (0, 11), (0, 12), (0, 13)],
        ],
        get_lines(board.lines(Point::new(0, 10), directions::up(), 4))
    );
    assert_eq!(
        vec![
            vec![(0, 13), (0, 12), (0, 11), (0, 10)],
            vec![(0, 12), (0, 11), (0, 10), (0, 9)],
            vec![(0, 11), (0, 10), (0, 9), (0, 8)],
            vec![(0, 10), (0, 9), (0, 8), (0, 7)],
        ],
        get_lines(board.lines(Point::new(0, 10), directions::down(), 4))
    );
}

#[test]
fn diagonal() {
    let board: Board<i32> = Board::new(20, 20, 0);
    assert_eq!(
        vec![
            vec![(13, 7), (12, 8), (11, 9), (10, 10)],
            vec![(12, 8), (11, 9), (10, 10), (9, 11)],
            vec![(11, 9), (10, 10), (9, 11), (8, 12)],
            vec![(10, 10), (9, 11), (8, 12), (7, 13)],
        ],
        get_lines(board.lines(
            Point::new(10, 10),
            directions::up().add(directions::left()),
            4
        ))
    );
}

#[test]
fn edge() {
    let board: Board<i32> = Board::new(20, 20, 0);
    assert_eq!(
        vec![
            vec![(0, 0), (1, 1), (2, 2), (3, 3)],
            vec![(1, 1), (2, 2), (3, 3), (4, 4)],
            vec![(2, 2), (3, 3), (4, 4), (5, 5)],
        ],
        get_lines(board.lines(
            Point::new(2, 2),
            directions::up().add(directions::right()),
            4
        ))
    );
}

#[test]
fn all_points33() {
    let mut board: Board<char> = Board::new(3, 3, ' ');
    let x: Vec<i32> = board.corners().iter().map(|Point { x, y: _ }| *x).collect();
    let y: Vec<i32> = board.corners().iter().map(|Point { x: _, y }| *y).collect();
    assert_eq!(vec![0, 1, 2, 0, 1, 2, 0, 2], x);
    assert_eq!(vec![0, 0, 0, 2, 2, 2, 1, 1], y);

    for point in board.corners() {
        board.set(&point, 'X');
    }
    println!("{}", board.to_string());
    assert_eq!(
        r#"
    | 1 | 2 | 3 
----+---+---+---
 A  | X | X | X 
----+---+---+---
 B  | X |   | X 
----+---+---+---
 C  | X | X | X 
"#,
        format!("\n{}", board.to_string())
    );
}

#[test]
fn all_points34() {
    let mut board: Board<char> = Board::new(4, 3, ' ');
    let x: Vec<i32> = board.corners().iter().map(|Point { x, y: _ }| *x).collect();
    let y: Vec<i32> = board.corners().iter().map(|Point { x: _, y }| *y).collect();
    assert_eq!(vec![0, 1, 2, 3, 0, 1, 2, 3, 0, 3], x);
    assert_eq!(vec![0, 0, 0, 0, 2, 2, 2, 2, 1, 1], y);

    for point in board.corners() {
        board.set(&point, 'X');
    }
    println!("{}", board.to_string());
    assert_eq!(
        r#"
    | 1 | 2 | 3 | 4 
----+---+---+---+---
 A  | X | X | X | X 
----+---+---+---+---
 B  | X |   |   | X 
----+---+---+---+---
 C  | X | X | X | X 
"#,
        format!("\n{}", board.to_string())
    );
}
