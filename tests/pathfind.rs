use bookworm::board::build_api_game_state;
use bookworm::{fmt_int, ApiGameState, Board, Coord};

fn board_of(s: &str) -> Board {
    Board::from_api(&ApiGameState::parse_basic(s)).unwrap()
}

#[test]
fn pathfind_to_self_is_one_node() {
    let board = board_of(
        "
        |  |  |  |
        |  |Y0|  |
        |  |  |  |
        ",
    );
    let p = board.pathfind(Coord::new(2, 2), Coord::new(2, 2)).unwrap();
    assert_eq!(p.num_nodes(), 1);
    assert_eq!(p.dist(), 0);
}

#[test]
fn pathfind_finds_route_back_to_start() {
    let board = board_of(
        "
        |Y0|  |  |
        |  |  |  |
        |  |  |  |
        ",
    );
    let p = board.pathfind(Coord::new(0, 0), Coord::new(2, 2)).unwrap();
    assert_eq!(p.start(), Some(Coord::new(2, 2)));
    assert_eq!(p.end(), Some(Coord::new(0, 0)));
    assert_eq!(p.dist(), 4);
    assert_eq!(p.num_nodes(), 5);
}

#[test]
fn pathfind_unreachable_is_none() {
    let board = board_of(
        "
        |Y0|Y1|  |
        |Y3|Y2|  |
        ",
    );
    // no first step is free: both neighbours of the head are still occupied
    assert!(board.pathfind(Coord::new(0, 0), Coord::new(2, 0)).is_none());
    // off the board
    assert!(board.pathfind(Coord::new(0, 0), Coord::new(9, 9)).is_none());
}

#[test]
fn pathfind_goes_through_a_leaving_tail() {
    let board = board_of(
        "
        |Y0|  |A2|  |
        |  |  |A1|A0|
        ",
    );
    // every way right crosses A's body, which has moved on by the time we get there
    let p = board.pathfind(Coord::new(0, 0), Coord::new(3, 0)).unwrap();
    assert_eq!(p.start(), Some(Coord::new(3, 0)));
    assert_eq!(p.end(), Some(Coord::new(0, 0)));
}

#[test]
fn closest_snake_by_pathfind() {
    let board = board_of(
        "
        |Y0|  |  |  |A0|
        ",
    );
    assert_eq!(board.get_closest_snake_by_pathfind(Coord::new(1, 0)), Some((0, 1)));
    assert_eq!(board.get_closest_snake_by_pathfind(Coord::new(4, 0)), Some((1, 0)));
}

#[test]
fn init_places_snakes_and_food() {
    let board = Board::init(11, 11, 4).unwrap();
    assert_eq!(board.snakes.len(), 4);
    assert!(board.food.len() <= 4);
    for s in board.snakes.iter() {
        assert_eq!(s.health, 100);
        assert_eq!(s.size(), 3);
        let h = s.head();
        assert!(h.x >= 1 && h.x <= 9 && h.y >= 1 && h.y <= 9);
    }
    let random = Board::init(5, 4, 3).unwrap();
    assert_eq!(random.snakes.len(), 3);
    assert_eq!(random.width(), 5);
    assert_eq!(random.height(), 4);
    assert!(Board::init(2, 2, 5).is_err());
    assert!(Board::init(0, 3, 1).is_err());
}

#[test]
fn game_state_for_each_snake() {
    let board = board_of(
        "
        |Y0|()|A0|
        |Y1|  |A1|
        ",
    );
    let g = build_api_game_state(&board, 1, 7, "game");
    assert_eq!(g.turn, 7);
    assert_eq!(g.game.id, "game");
    assert_eq!(g.board.width, 3);
    assert_eq!(g.board.height, 2);
    assert_eq!(g.you.body[0].x, 2);
    assert_eq!(g.you.id, "id_1");
    assert_eq!(g.board.snakes.len(), 1);
    assert_eq!(g.board.snakes[0].body[0].x, 0);
    assert_eq!(g.board.snakes[0].id, "id_0");
    assert_eq!(g.board.food.len(), 1);
    let back = Board::from_api(&g).unwrap();
    assert_eq!(back.you().head(), Coord::new(2, 0));
}

#[test]
fn thousands_separators() {
    assert_eq!(fmt_int(0), "0");
    assert_eq!(fmt_int(999), "999");
    assert_eq!(fmt_int(1000), "1,000");
    assert_eq!(fmt_int(1234567), "1,234,567");
    assert_eq!(fmt_int(100200), "100,200");
}
