use bookworm::{Coord, Offset, Path};

fn path_of(nodes: &[(i8, i8)]) -> Path {
    let coords: Vec<Coord> = nodes.iter().map(|&(x, y)| Coord::new(x, y)).collect();
    Path::from_slice(&coords)
}

#[test]
fn test_new_basic() {
    let empty = path_of(&[]);
    assert_eq!(empty.nodes().as_slice(), &[] as &[Coord]);
    assert_eq!(empty.start(), None);
    assert_eq!(empty.end(), None);

    let path = path_of(&[(1, 0)]);

    assert_eq!(path.nodes().as_slice(), &[Coord::new(1, 0)]);

    let path = path_of(&[(0, 0), (1, 0)]);

    assert_eq!(path.nodes().as_slice(), &[Coord::new(0, 0), Coord::new(1, 0)]);
}

#[test]
fn test_start_end() {
    let mut path = path_of(&[(0, 0)]);

    assert_eq!(path.start().unwrap(), Coord::new(0, 0));
    assert_eq!(path.end().unwrap(), Coord::new(0, 0));

    path = path_of(&[(0, 0), (4, 0), (4, 10), (4, 10)]);

    assert_eq!(path.start().unwrap(), Coord::new(0, 0));
    assert_eq!(path.end().unwrap(), Coord::new(4, 10));
}

fn check_len(dist: u32, num_nodes: usize, path: Path) {
    assert_eq!(path.dist(), dist);
    assert_eq!(path.num_nodes(), num_nodes);
}

#[test]
fn test_length() {
    check_len(0, 0, path_of(&[]));
    check_len(0, 1, path_of(&[(0, 0)]));

    check_len(1, 2, path_of(&[(0, 0), (1, 0)]));

    check_len(2, 2, path_of(&[(0, 0), (2, 0)]));

    check_len(2, 2, path_of(&[(0, 0), (1, 1)]));

    check_len(5, 7, path_of(&[(0, 0), (1, 0), (2, 0), (2, 1), (2, 2), (3, 2), (3, 2)]));

    check_len(27, 5, path_of(&[(0, 0), (1, 0), (1, 1), (10, 10), (15, 12)]));

    check_len(
        10,
        13,
        path_of(&[
            (0, 0),
            (1, 0),
            (2, 0),
            (2, 1),
            (2, 2),
            (3, 2),
            (3, 2),
            (4, 2),
            (5, 2),
            (5, 3),
            (5, 4),
            (5, 5),
            (5, 5),
        ]),
    );
}

#[test]
fn test_intersects() {
    let path = path_of(&[(0, 0)]);

    assert!(path.intersects(Coord::new(0, 0)));
    assert!(!path.intersects(Coord::new(1, 0)));

    let path = path_of(&[(0, 0), (10, 0), (10, 10), (20, 20)]);

    assert!(path.intersects(Coord::new(5, 0)));
    assert!(!path.intersects(Coord::new(5, 1)));
    assert!(path.intersects(Coord::new(10, 5)));
    assert!(path.intersects(Coord::new(10, 10)));
    assert!(path.intersects(Coord::new(15, 15)));
    assert!(path.intersects(Coord::new(20, 20)));
    assert!(!path.intersects(Coord::new(20, 21)));
}

#[test]
fn test_extend() {
    let mut path = path_of(&[]);
    path.extend_end(Offset::new(0, 1));
    path.extend_start(Offset::new(0, 1));
    assert_eq!(path.num_nodes(), 0);

    let mut path = path_of(&[(1, 1)]);
    assert_eq!(path.end().unwrap(), Coord::new(1, 1));
    assert_eq!(path.num_nodes(), 1);
    path.extend_end(Offset::new(0, 2));
    assert_eq!(path.start().unwrap(), Coord::new(1, 1));
    assert_eq!(path.end().unwrap(), Coord::new(1, 3));
    assert_eq!(path.num_nodes(), 2);
    path.extend_start(Offset::new(-1, -1));
    assert_eq!(path.start().unwrap(), Coord::new(0, 0));
    assert_eq!(path.num_nodes(), 3);
}

#[test]
fn test_pop() {
    let mut path = path_of(&[]);
    assert_eq!(path.pop_end(), None);
    assert_eq!(path.pop_start(), None);

    let mut path = path_of(&[(1, 0), (2, 0), (3, 0)]);
    assert_eq!(path.pop_end(), Some(Coord::new(3, 0)));
    assert_eq!(path.pop_start(), Some(Coord::new(1, 0)));
    assert_eq!(path.num_nodes(), 1);
}

#[test]
fn test_slide() {
    let mut path = path_of(&[(1, 0), (2, 0), (3, 0)]);
    path.slide_start(Offset::new(-1, 0));
    assert_eq!(path.start().unwrap(), Coord::new(0, 0));
    assert_eq!(path.end().unwrap(), Coord::new(2, 0));
    assert_eq!(path.num_nodes(), 3);

    path.slide_end(Offset::new(0, 1));
    assert_eq!(path.start().unwrap(), Coord::new(1, 0));
    assert_eq!(path.end().unwrap(), Coord::new(2, 1));
    assert_eq!(path.num_nodes(), 3);
}

#[test]
fn start_self_intersects_detects_crash_into_body() {
    let crashed = path_of(&[(1, 1), (1, 0), (2, 0), (2, 1), (0, 1)]);
    assert!(crashed.start_self_intersects());
    let clear = path_of(&[(0, 0), (1, 0), (2, 0)]);
    assert!(!clear.start_self_intersects());
}

#[test]
fn find_node_respects_min_index() {
    let path = path_of(&[(3, 3), (3, 4), (3, 3), (3, 3)]);
    assert_eq!(path.find_node(Coord::new(3, 3), 0), Some(0));
    assert_eq!(path.find_node(Coord::new(3, 3), 1), Some(2));
    assert_eq!(path.find_node(Coord::new(9, 9), 0), None);
    assert!(path.contains_node(Coord::new(3, 4)));
    assert_eq!(path.get_node(1), Some(Coord::new(3, 4)));
    assert_eq!(path.get_node(4), None);
}

#[test]
fn duplicate_keeps_nodes() {
    let path = path_of(&[(1, 2), (3, 4)]);
    assert_eq!(path.duplicate(), path);
}
