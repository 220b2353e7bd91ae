use bookworm::{ApiCoords, ApiDirection, ApiSnake, Coord, Snake};

#[test]
fn test_from_api_ok() {
    let snake = Snake::from_api(&ApiSnake {
        id: String::from("123abc"),
        name: String::from("waylon slithers"),
        health: 80,
        body: vec![ApiCoords { x: 1, y: 0 }, ApiCoords { x: 2, y: 0 }],
    });
    assert!(snake.is_ok());

    let snake = Snake::from_api(&ApiSnake {
        id: String::from("123abc"),
        name: String::from("waylon slithers"),
        health: 80,
        body: vec![],
    });
    assert!(snake.is_err());
}

#[test]
fn test_snake_body() {
    let snake = Snake::from_api(&ApiSnake {
        id: String::from("123abc"),
        name: String::from("waylon slithers"),
        health: 80,
        body: vec![ApiCoords { x: 1, y: 0 }, ApiCoords { x: 2, y: 0 }, ApiCoords { x: 2, y: 1 }],
    })
    .unwrap();

    assert_eq!(snake.head(), Coord::new(1, 0));
    assert_eq!(snake.neck().unwrap(), Coord::new(2, 0));
    assert_eq!(snake.tail(), Coord::new(2, 1));
    assert_eq!(snake.get_default_move(), ApiDirection::Left);

    //unusual case, but should still work...
    let snake = Snake::from_api(&ApiSnake {
        id: String::from("123abc"),
        name: String::from("waylon slithers"),
        health: 80,
        body: vec![ApiCoords { x: 1, y: 0 }],
    })
    .unwrap();

    assert_eq!(snake.head(), Coord::new(1, 0));
    assert!(snake.neck().is_none());
    assert_eq!(snake.head(), Coord::new(1, 0));
    assert_eq!(snake.get_default_move(), ApiDirection::Up);
}

#[test]
fn from_api_rejects_out_of_range_values() {
    let snake = Snake::from_api(&ApiSnake {
        id: String::from("x"),
        name: String::from("x"),
        health: 300,
        body: vec![ApiCoords { x: 1, y: 0 }],
    });
    assert!(snake.is_err());
    let snake = Snake::from_api(&ApiSnake {
        id: String::from("x"),
        name: String::from("x"),
        health: 30,
        body: vec![ApiCoords { x: 200, y: 0 }],
    });
    assert!(snake.is_err());
}

#[test]
fn slither_spends_one_health() {
    let mut snake = Snake::init(50, Coord::new(2, 2), 3);
    assert_eq!(snake.size(), 3);
    snake.slither(ApiDirection::Right);
    assert_eq!(snake.health, 49);
    assert_eq!(snake.head(), Coord::new(3, 2));
    assert_eq!(snake.tail(), Coord::new(2, 2));
    assert_eq!(snake.size(), 3);
}

#[test]
fn slither_keeps_starved_at_zero() {
    let mut snake = Snake::init(0, Coord::new(2, 2), 2);
    assert!(snake.starved());
    snake.slither(ApiDirection::Up);
    assert_eq!(snake.health, 0);
}

#[test]
fn feed_restores_health_and_grows() {
    let mut snake = Snake::init(7, Coord::new(1, 1), 2);
    snake.slither(ApiDirection::Down);
    snake.feed(100);
    assert_eq!(snake.health, 100);
    assert_eq!(snake.size(), 3);
    assert_eq!(snake.tail(), Coord::new(1, 1));
}

#[test]
fn find_first_node_skips_head() {
    let snake = Snake::init(5, Coord::new(4, 4), 3);
    assert_eq!(snake.find_first_node(Coord::new(4, 4), 0), Some(0));
    assert_eq!(snake.find_first_node(Coord::new(4, 4), 1), Some(1));
    assert_eq!(snake.find_first_node(Coord::new(4, 5), 0), None);
}
