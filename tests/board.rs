use bookworm::board::{DeathCause, SNAKE_MAX_HEALTH};
use bookworm::territory::Claim;
use bookworm::ApiDirection::{Down, Left, Right, Up};
use bookworm::{heuristic, ApiGameState, Board, Coord};

fn board_of(s: &str) -> Board {
    Board::from_api(&ApiGameState::parse_basic(s)).unwrap()
}

fn advance(moves: &[bookworm::ApiDirection], s: &str) -> (Board, Board, Vec<(usize, DeathCause)>) {
    let game_state = ApiGameState::parse_basic(s);
    let prev = Board::from_api(&game_state).unwrap();
    let mut next = prev.clone();
    let result = next.advance(false, moves);
    (prev, next, result)
}

#[test]
fn test_parse_basic() {
    let game: ApiGameState = ApiGameState::parse_basic(
        "
        |  |  |  |  |  |
        |Y8|Y7|Y6|Y5|  |
        |  |Y0|  |Y4|  |
        |  |Y1|Y2|Y3|  |
        |  |  |  |  |  |
        ",
    );

    assert_eq!(game.you.body.len(), 9);
}

#[test]
fn parse_basic_reads_sizes_food_and_health() {
    let game = ApiGameState::parse_basic(
        "
        |  |()|  |
        |A0|A1|Y0|
        +A42
        ",
    );
    assert_eq!(game.board.width, 3);
    assert_eq!(game.board.height, 2);
    assert_eq!(game.board.food.len(), 1);
    assert_eq!(game.board.snakes.len(), 1);
    assert_eq!(game.board.snakes[0].health, 42);
    assert_eq!(game.board.snakes[0].id, "id_A");
    assert_eq!(game.you.health, 100);
}

#[test]
fn board_test_init() {
    let api_game = ApiGameState::parse_basic(
        "
        |  |()|  |
        |  |  |Y0|
        |A0|A1|Y1|
        |  |A2|  |
        |  |  |  |
        ",
    );

    let board = Board::from_api(&api_game).unwrap();
    assert_eq!(board.food, vec![Coord::new(1, 0)]);
    assert_eq!(board.enemies()[0].head(), Coord::new(0, 2));
    assert_eq!(board.enemies()[0].tail(), Coord::new(1, 3));
    assert_eq!(board.you().head(), Coord::new(2, 1));
    assert_eq!(board.you().tail(), Coord::new(2, 2));
}

#[test]
fn board_test_advance() {
    let (prev, next, result) = advance(
        &[Up, Left],
        "
        |  |()|  |
        |  |  |Y0|
        |A0|A1|Y1|
        |  |A2|  |
        |  |  |  |
        ",
    );

    //the Y snake didn't hit any walls
    assert_eq!(result.len(), 1);
    //no food was eaten
    assert_eq!(prev.food, next.food);
    assert_eq!(prev.food, next.food);
    //health of snakes goes down each turn
    assert_eq!(next.you().health, prev.you().health - 1);
    //snake A hit a wall
    assert!(next.enemies().is_empty());
    //moved Y snake according to intended direction
    assert_eq!(next.you().head(), Coord::new(2, 0));
}

#[test]
fn board_test_you_die() {
    let (prev, next, result) = advance(
        &[Up],
        "
        |  |  |  |  |  |
        |Y8|Y7|Y6|Y5|  |
        |  |Y0|  |Y4|  |
        |  |Y1|Y2|Y3|  |
        |  |  |  |  |  |
        ",
    );
    assert_eq!(prev.you().size(), 9);
    assert_eq!(next.snakes.len(), 0);
    assert!(!result.is_empty());
}

#[test]
fn from_api_rejects_empty_body() {
    let mut game = ApiGameState::parse_basic(
        "
        |  |Y0|
        ",
    );
    game.you.body.clear();
    assert!(Board::from_api(&game).is_err());
}

#[test]
fn from_api_rejects_cell_off_board() {
    let mut game = ApiGameState::parse_basic(
        "
        |  |Y0|
        ",
    );
    game.board.food.push(bookworm::ApiCoords { x: 5, y: 0 });
    assert!(Board::from_api(&game).is_err());
}

#[test]
fn starving_snake_dies_of_starvation() {
    let (_, next, result) = advance(
        &[Up],
        "
        |  |  |  |
        |  |Y0|  |
        |  |Y1|  |
        +Y1
        ",
    );
    assert_eq!(result, vec![(0, DeathCause::Starved)]);
    assert!(next.snakes.is_empty());
}

#[test]
fn health_falls_by_one_or_resets_on_food() {
    let (prev, next, result) = advance(
        &[Up, Left],
        "
        |  |()|  |  |
        |  |Y0|  |  |
        |  |Y1|  |A0|
        |  |  |  |A1|
        |  |  |  |  |
        +Y40
        +A30
        ",
    );
    assert!(result.is_empty());
    assert_eq!(prev.you().health, 40);
    assert_eq!(next.you().health, SNAKE_MAX_HEALTH);
    assert_eq!(next.you().size(), 3);
    assert!(next.food.is_empty());
    assert_eq!(next.enemies()[0].health, 29);
}

#[test]
fn advance_never_adds_snakes_and_drops_the_dead() {
    let (prev, next, result) = advance(
        &[Right, Up],
        "
        |  |  |  |  |
        |Y2|Y1|Y0|  |
        |  |  |  |A0|
        |  |  |  |A1|
        ",
    );
    assert!(next.snakes.len() <= prev.snakes.len());
    assert_eq!(next.snakes.len() + result.len(), prev.snakes.len());
    assert_eq!(result, vec![(1, DeathCause::HeadToHead)]);
    assert_eq!(next.snakes.len(), 1);
    assert_eq!(next.you().head(), Coord::new(3, 1));
}

#[test]
fn equal_heads_both_die() {
    let (_, next, result) = advance(
        &[Right, Left],
        "
        |Y1|Y0|  |A0|A1|
        ",
    );
    assert_eq!(result, vec![(0, DeathCause::HeadToHead), (1, DeathCause::HeadToHead)]);
    assert!(next.snakes.is_empty());
}

#[test]
fn body_collision_and_walls() {
    let (_, _, result) = advance(
        &[Left, Down],
        "
        |Y0|A0|A1|
        |  |  |A2|
        ",
    );
    assert_eq!(result, vec![(0, DeathCause::OutOfBounds)]);
    let (_, _, result) = advance(
        &[Right, Up],
        "
        |  |  |  |
        |Y0|A1|A0|
        |Y1|A2|  |
        ",
    );
    assert_eq!(result[0], (0, DeathCause::OtherCollision));
}

#[test]
fn replaying_moves_is_deterministic() {
    let s = "
        |  |()|  |  |
        |  |Y0|  |A0|
        |  |Y1|  |A1|
        |  |Y2|  |  |
        ";
    let mut a = board_of(s);
    let mut b = board_of(s);
    let ra = a.advance(false, &[Up, Left]);
    let rb = b.advance(false, &[Up, Left]);
    assert_eq!(ra, rb);
    assert_eq!(a.snakes, b.snakes);
    assert_eq!(a.food, b.food);
}

#[test]
fn free_moves_respect_walls_bodies_and_tails() {
    let board = board_of(
        "
        |Y0|Y1|
        |Y3|Y2|
        ",
    );
    // only the tail cell, which leaves this turn, is open
    assert_eq!(board.get_free_moves(Coord::new(0, 0), 1), vec![Down]);
    assert_eq!(board.get_free_moves(Coord::new(0, 0), 0), vec![]);
    assert_eq!(board.enumerate_snake_moves(), vec![vec![Down]]);
}

#[test]
fn trapped_snake_falls_back_to_default_move() {
    let board = board_of(
        "
        |Y0|Y1|Y2|
        |Y5|Y4|Y3|
        |Y6|  |  |
        ",
    );
    assert_eq!(board.enumerate_snake_moves(), vec![vec![Left]]);
}

#[test]
fn territories_are_disjoint() {
    let board = board_of(
        "
        |A0|  |Y0|
        ",
    );
    let owners = board.get_territory_owners();
    assert_eq!(owners, vec![Claim::Owned(1), Claim::Contested, Claim::Owned(0)]);
    let t = board.get_territories();
    assert_eq!(t[0].area, 1);
    assert_eq!(t[1].area, 1);
    let total: u32 = t.iter().map(|x| x.area).sum();
    assert!(total <= board.area() as u32);
}

#[test]
fn lone_snake_owns_the_board() {
    let board = board_of(
        "
        |  |()|  |
        |  |Y0|  |
        |  |  |  |
        ",
    );
    let t = board.get_territories();
    assert_eq!(t[0].area, 9);
    assert_eq!(t[0].num_food, 1);
    assert_eq!(t[0].nearest_food, Some(1));
}

#[test]
fn heuristic_is_a_fraction() {
    let board = board_of(
        "
        |A0|  |Y0|
        ",
    );
    assert_eq!(heuristic(&board, 0), 62500);
    let lone = board_of(
        "
        |  |Y0|
        ",
    );
    assert_eq!(heuristic(&lone, 0), 1_000_000);
}

#[test]
fn closest_snakes_sorted_by_distance() {
    let board = board_of(
        "
        |Y0|  |  |B0|
        |  |A0|  |  |
        ",
    );
    let r = board.get_closest_snakes_by_manhattan(Coord::new(0, 0));
    let dists: Vec<u16> = r.iter().map(|p| p.1).collect();
    assert_eq!(dists, vec![0, 2, 3]);
    assert_eq!(r[0].0, 0);
}

#[test]
fn free_cells_avoid_snakes() {
    let board = board_of(
        "
        |Y0|Y1|
        |  |  |
        ",
    );
    assert_eq!(board.free_cells(), vec![Coord::new(0, 1), Coord::new(1, 1)]);
}

#[test]
fn spawning_food_adds_at_most_one_free_cell() {
    let mut board = board_of(
        "
        |Y0|Y1|
        |  |  |
        ",
    );
    for _ in 0..50 {
        board.spawn_food();
    }
    assert!(board.food.len() <= 50);
    for f in board.food.iter() {
        assert!(f.y == 1);
    }
}

#[test]
fn turning_into_own_body_is_self_collision() {
    let (_, next, result) = advance(
        &[Down],
        "
        |Y0|Y1|
        |Y3|Y2|
        |Y4|  |
        ",
    );
    assert_eq!(result, vec![(0, DeathCause::SelfCollision)]);
    assert_eq!(result[0].1.as_str(), "self-collision");
    assert!(next.snakes.is_empty());
}

#[test]
fn head_on_a_stacked_tail_is_a_body_collision() {
    // A moves up onto (1, 1), where its own tail is stacked; Y moves right onto
    // the same cell, which is a non-zero index of A's body: Y dies too.
    let mut game = ApiGameState::parse_basic(
        "
        |  |  |  |  |  |
        |Y0|  |  |  |  |
        |Y1|A0|  |  |  |
        |Y2|A1|  |  |  |
        |Y3|Y4|Y5|  |  |
        ",
    );
    game.board.snakes[0].body.push(bookworm::ApiCoords { x: 1, y: 1 });
    game.board.snakes[0].body.push(bookworm::ApiCoords { x: 1, y: 1 });
    game.board.snakes[0].body.push(bookworm::ApiCoords { x: 1, y: 1 });
    let mut board = Board::from_api(&game).unwrap();
    let result = board.advance(false, &[Right, Up]);
    assert_eq!(result, vec![(0, DeathCause::OtherCollision), (1, DeathCause::HeadToHead)]);
}

#[test]
fn place_food_uses_the_draws() {
    let mut board = board_of(
        "
        |Y0|Y1|
        |  |  |
        ",
    );
    board.place_food(99, 0);
    assert!(board.food.is_empty());
    board.place_food(3, 5);
    assert!(board.food.is_empty());
    board.place_food(3, 1);
    assert_eq!(board.food, vec![Coord::new(1, 1)]);
}

#[test]
fn every_copy_of_eaten_food_goes() {
    let mut game = ApiGameState::parse_basic(
        "
        |  |()|  |
        |  |Y0|  |
        |  |Y1|  |
        ",
    );
    game.board.food.push(bookworm::ApiCoords { x: 1, y: 0 });
    let mut board = Board::from_api(&game).unwrap();
    assert_eq!(board.food.len(), 2);
    let result = board.advance(false, &[Up]);
    assert!(result.is_empty());
    assert!(board.food.is_empty());
    assert_eq!(board.you().health, SNAKE_MAX_HEALTH);
}
