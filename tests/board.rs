use gridpuzzles::board::Board;
use gridpuzzles::board::BoardSize;
use gridpuzzles::board::Size;
use gridpuzzles::colored_point::ColoredPoint;
use gridpuzzles::coord::Coord;
use gridpuzzles::coord::Point;
use gridpuzzles::tagged_point::TaggedPoint;

#[test]
fn get_set() {
    let mut board: Board<i32> = Board::new(3, 5, 0);
    assert_eq!(&0, board.get(&Point::new(0, 0)));
    board.set(&Point::new(0, 0), 123);
    assert_eq!(&123, board.get(&Point::new(0, 0)));
    board.set(&Point::new(2, 4), 456);
    assert_eq!(&456, board.get(&Point::new(2, 4)));
}

fn letters() -> Board<char> {
    Board::generate(3, 5, |point: &Point| {
        char::from_u32('a' as u32 + (point.x - point.y).abs() as u32).unwrap()
    })
}

#[test]
fn board_to_string_to_string() {
    let board = letters();
    println!("{}", board.to_string());
    assert_eq!(
        r#"
    | 1 | 2 | 3 
----+---+---+---
 A  | a | b | c 
----+---+---+---
 B  | b | a | b 
----+---+---+---
 C  | c | b | a 
----+---+---+---
 D  | d | c | b 
----+---+---+---
 E  | e | d | c 
"#,
        format!("\n{}", board.to_string())
    );
}

#[test]
fn board_view_to_string() {
    let board = letters();
    assert_eq!(
        r#"
    | 1 | 2 | 3 
----+---+---+---
 A  | a | b | c 
----+---+---+---
 B  | b | a | b 
----+---+---+---
 C  | c | b | a 
----+---+---+---
 D  | d | c | b 
----+---+---+---
 E  | e | d | c 
"#,
        format!("\n{}", board.to_string())
    );
}

#[test]
fn wide_header_numbers() {
    let board: Board<char> = Board::new(11, 1, '.');
    let text = board.to_string();
    assert!(text.starts_with("    | 1 | 2 | 3 | 4 | 5 | 6 | 7 | 8 | 9 | 10 | 11 \n"));
}

#[test]
fn size_and_validity() {
    let board: Board<i32> = Board::new(2, 3, 0);
    assert_eq!(Size::new(2, 3), board.size());
    assert!(board.is_valid(&Point::new(1, 2)));
    assert!(!board.is_valid(&Point::new(2, 0)));
    assert!(!board.is_valid(&Point::new(0, -1)));
}

#[test]
fn add() {
    let a = Coord { x: 1, y: 2 };
    let b = Coord { x: 3, y: 5 };
    assert_eq!(Coord::new(4, 7), a.add(b));
}

#[test]
fn sub() {
    let a = Coord { x: 1, y: 2 };
    let b = Coord { x: 3, y: 5 };
    assert_eq!(Coord::new(-2, -3), a.sub(b));
}

#[test]
fn mul() {
    assert_eq!(Coord::new(3, -9), Coord::new(1, -3).mul(3));
}

#[test]
fn point_accessors() {
    let mut p = TaggedPoint::new(4, -2, 'Q');
    assert_eq!((4, -2, 'Q'), (p.x(), p.y(), p.color()));
    *p.x_mut() += 1;
    *p.y_mut() -= 1;
    assert_eq!(TaggedPoint::new(5, -3, 'Q'), p);
    assert_eq!(&Point::new(5, -3), p.as_point());
    let mut c = ColoredPoint::new_pound(1, 2);
    *c.color_mut() = 'Z';
    *c.x_mut() = 7;
    *c.y_mut() = 8;
    assert_eq!(ColoredPoint::new(7, 8, 'Z'), c);
    assert_eq!((7, 8, 'Z'), (c.x(), c.y(), c.color()));
}
