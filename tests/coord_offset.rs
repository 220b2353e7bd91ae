use bookworm::{ApiDirection, Coord, Offset};

#[test]
fn test_coord_and_offset() {
    let mut a = Coord { x: 1, y: 2 };
    let b = Coord { x: 10, y: 0 };
    assert_ne!(a, b);

    let ab = Offset::between(a, b);
    a += ab;
    assert_eq!(a, b);
}

#[test]
fn test_coord_ops() {
    let a = Coord { x: 1, y: 2 };
    let b = Coord { x: 10, y: 0 };

    let ab = b - a;
    assert_eq!(ab.dx, 9);
    assert_eq!(ab.dy, -2);

    let c = a + ab;
    assert_eq!(c.x, 10);
    assert_eq!(c.y, 0);
}

#[test]
fn test_dir_into_offset() {
    let mut a = Coord { x: 1, y: 1 };
    a += ApiDirection::Down.into();
    assert_eq!(a, Coord { x: 1, y: 2 });
}

#[test]
fn test_bound() {
    assert!(Coord { x: 5, y: 5 }.bounded_by(Coord { x: 0, y: 0 }, Coord { x: 10, y: 10 }));

    assert!(Coord { x: 5, y: 5 }.bounded_by(Coord { x: 10, y: 10 }, Coord { x: 0, y: 0 }));

    assert!(!Coord { x: 5, y: 5 }.bounded_by(Coord { x: 0, y: 4 }, Coord { x: 4, y: 6 }));
}

#[test]
fn test_offset_ops() {
    let a = Offset::new(4, -2);
    let b = Offset::new(-1, 10);

    assert_eq!(a + b, Offset::new(3, 8));
    assert_eq!(a - b, Offset::new(5, -12));
    assert_eq!(Offset::new(0, 0), Offset::zero());

    let mut c = Offset::new(1, 1);
    c += Offset::new(2, -1);
    assert_eq!(c, Offset::new(3, 0));
    c -= Offset::new(-1, 3);
    assert_eq!(c, Offset::new(4, -3));
}

#[test]
fn test_linear() {
    assert!(Offset::new(0, 10).linear());
    assert!(Offset::new(-1, 0).linear());
    assert!(!Offset::new(-1, 1).linear());
    assert!(!Offset::zero().linear());
}

#[test]
fn test_manhattan_dist() {
    assert_eq!(Offset::new(0, 10).manhattan_dist(), 10);
    assert_eq!(Offset::new(0, -10).manhattan_dist(), 10);
    assert_eq!(Offset::new(10, 0).manhattan_dist(), 10);
    assert_eq!(Offset::new(-10, 0).manhattan_dist(), 10);
    assert_eq!(Offset::new(-10, 10).manhattan_dist(), 20);
    assert_eq!(Offset::new(1, 2).manhattan_dist(), 3);
    assert_eq!(Offset::new(2, 1).manhattan_dist(), 3);
}

#[test]
fn manhattan_dist_of_extreme_offset() {
    assert_eq!(Offset::new(-128, 127).manhattan_dist(), 255);
}

#[test]
fn dist_to_is_symmetric() {
    let a = Coord::new(-3, 7);
    let b = Coord::new(4, -2);
    assert_eq!(a.dist_to(b), 16);
    assert_eq!(b.dist_to(a), 16);
}

#[test]
fn offset_abs() {
    assert_eq!(Offset::new(-3, 4).abs(), Offset::new(3, 4));
}

#[test]
fn direction_index_round_trip() {
    for i in 0..4 {
        assert_eq!(ApiDirection::from_index(i).as_index(), i);
    }
    assert_eq!(ApiDirection::Down.as_index(), 0);
    assert_eq!(ApiDirection::Right.as_index(), 3);
}

#[test]
fn direction_offsets() {
    assert_eq!(ApiDirection::Up.offset(), Offset::new(0, -1));
    assert_eq!(ApiDirection::from_offset(Offset::new(-1, 0)), Some(ApiDirection::Left));
    assert_eq!(ApiDirection::from_offset(Offset::new(1, 1)), None);
}

#[test]
fn compound_assignment_saturates() {
    let mut a = Coord::new(120, -120);
    a += Offset::new(100, -100);
    assert_eq!(a, Coord::new(127, -128));
    let mut o = Offset::new(-100, 100);
    o -= Offset::new(100, -100);
    assert_eq!(o, Offset::new(-128, 127));
}
