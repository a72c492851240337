use gridpuzzles::coord::Point;
use gridpuzzles::rubicscube::coord3::Coord3;
use gridpuzzles::rubicscube::facet::all_facets;
use gridpuzzles::rubicscube::facet::Facet;
use gridpuzzles::rubicscube::Cube;

#[allow(non_upper_case_globals)]
const North: Facet = Facet::North;
#[allow(non_upper_case_globals)]
const South: Facet = Facet::South;
#[allow(non_upper_case_globals)]
const East: Facet = Facet::East;
#[allow(non_upper_case_globals)]
const West: Facet = Facet::West;
#[allow(non_upper_case_globals)]
const Top: Facet = Facet::Top;
#[allow(non_upper_case_globals)]
const Bottom: Facet = Facet::Bottom;

#[test]
fn pitch() {
    let actual: Vec<(Facet, Facet)> = all_facets().iter().map(|f| (*f, f.pitch())).collect();
    let expected = vec![
        (North, Bottom),
        (South, Top),
        (East, East),
        (West, West),
        (Top, North),
        (Bottom, South),
    ];
    assert_eq!(expected, actual);
}

#[test]
fn yaw() {
    let actual: Vec<(Facet, Facet)> = all_facets().iter().map(|f| (*f, f.yaw())).collect();
    let expected = vec![
        (North, East),
        (South, West),
        (East, South),
        (West, North),
        (Top, Top),
        (Bottom, Bottom),
    ];
    assert_eq!(expected, actual);
}

#[test]
fn roll() {
    let actual: Vec<(Facet, Facet)> = all_facets().iter().map(|f| (*f, f.roll())).collect();
    let expected = vec![
        (North, North),
        (South, South),
        (East, Bottom),
        (West, Top),
        (Top, East),
        (Bottom, West),
    ];
    assert_eq!(expected, actual);
}

#[test]
fn neighbors() {
    for facet in all_facets() {
        assert!(facet.neighbors().contains(&facet.pitch()));
        assert!(facet.neighbors().contains(&facet.yaw()));
        assert!(facet.neighbors().contains(&facet.roll()));
    }
}

#[test]
fn circular() {
    for facet in all_facets() {
        assert_eq!(facet, facet.pitch().pitch().pitch().pitch());
        assert_eq!(facet, facet.yaw().yaw().yaw().yaw());
        assert_eq!(facet, facet.roll().roll().roll().roll());
    }
}

#[test]
fn opposite_and_neighbors() {
    assert_eq!(South, North.opposite());
    assert_eq!(vec![North, East, West, Top, Bottom], North.neighbors());
    assert_eq!(vec![North, South, East, West, Bottom], Bottom.neighbors());
}

#[test]
fn get_facet() {
    let cube = Cube::new();
    assert_eq!(*cube.get(&Coord3::up()).board.get(&Point::new(1, 1)), ' ');
}

#[test]
fn coord3_accessors() {
    let mut c = Coord3::new(1, 2, 3);
    *c.x_mut() = -1;
    *c.y_mut() = -2;
    *c.z_mut() = -3;
    assert_eq!((-1, -2, -3), (c.x(), c.y(), c.z()));
    assert_eq!(Coord3::new(0, 0, -1), Coord3::back());
    assert_eq!(Coord3::new(0, -1, 0), Coord3::right());
}
