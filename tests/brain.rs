use std::time::Duration;
use bookworm::ApiDirection::{Down, Left, Right, Up};
use bookworm::{get_decision, ApiDirection, ApiGameState};

fn decide(s: &str) -> ApiDirection {
    get_decision(&ApiGameState::parse_basic(s), Duration::from_millis(200)).unwrap()
}

#[test]
fn test_facing_wall() {
    let result = decide(
        "
        |  |  |  |
        |Y0|Y1|Y2|
        |  |  |  |
        ",
    );
    assert_ne!(result, Left); //would hit wall
    assert_ne!(result, Right); //would hit self

    assert_eq!(
        Down,
        decide(
            "
        |Y0|Y1|Y2|
        |  |  |  |
        |  |  |  |
        "
        )
    );
}

#[test]
fn test_facing_self() {
    //could also go right to avoid tail, but would be trapped
    assert_eq!(
        Left,
        decide(
            "
        |  |  |  |  |  |
        |Y8|Y7|Y6|Y5|  |
        |  |Y0|  |Y4|  |
        |  |Y1|Y2|Y3|  |
        |  |  |  |  |  |
        "
        )
    );
}

#[test]
fn test_lookahead_basic() {
    //looks like trapped, but actually next turn A's tail will move (assuming not stacked)
    assert_eq!(
        Right,
        decide(
            "
        |  |A1|A2|A3|
        |  |A0|Y0|A4|
        |  |  |Y1|  |
        "
        )
    );
}

#[test]
fn test_almost_trapped() {
    assert_eq!(
        Up,
        decide(
            "
        |  |  |  |  |  |
        |  |A0|  |  |  |
        |  |A1|  |  |  |
        |Y0|A2|  |  |  |
        |Y1|A3|A4|  |  |
        |Y2|Y3|Y4|  |  |
        "
        )
    );
}

#[test]
fn test_enemy_already_trapped() {
    //enemy is already trapped; don't get trapped ourselves
    assert_eq!(
        Right,
        decide(
            "
        |  |Y0|  |  |  |
        |  |Y1|  |  |  |
        |A0|Y2|  |  |  |
        |A1|Y3|Y4|  |  |
        |A2|A3|A4|  |  |
        "
        )
    );
}

#[test]
fn never_into_wall_or_neck() {
    for _ in 0..3 {
        let d = decide(
            "
        |  |Y1|  |
        |  |Y0|  |
        |  |  |  |
        ",
        );
        assert_ne!(d, Up);
    }
}

#[test]
fn coiled_snake_takes_the_only_exit_every_time() {
    for _ in 0..3 {
        assert_eq!(
            Left,
            decide(
                "
        |  |  |  |  |  |
        |Y8|Y7|Y6|Y5|  |
        |  |Y0|  |Y4|  |
        |  |Y1|Y2|Y3|  |
        |  |  |  |  |  |
        "
            )
        );
    }
}

#[test]
fn larger_agent_completes_head_to_head() {
    assert_eq!(
        Up,
        decide(
            "
        |  |A2|A1|A0|
        |  |  |  |  |
        |  |  |  |Y0|
        |  |Y3|Y2|Y1|
        "
        )
    );
}

#[test]
fn malformed_request_is_rejected() {
    let mut game = ApiGameState::parse_basic(
        "
        |  |Y0|
        ",
    );
    game.you.body.clear();
    assert!(get_decision(&game, Duration::from_millis(10)).is_err());
}

#[test]
fn trapped_agent_still_answers_with_default_move() {
    let d = decide(
        "
        |Y0|Y1|Y2|
        |Y5|Y4|Y3|
        |Y6|  |  |
        ",
    );
    assert_eq!(d, Left);
}

#[test]
fn test_facing_other() {
    //should avoid being trapped between self and other snake
    assert_eq!(
        Left,
        decide(
            "
        |A3|  |  |  |  |
        |A2|A1|A0|Y5|Y6|
        |  |Y0|  |Y4|  |
        |  |Y1|Y2|Y3|  |
        |  |  |  |  |  |
        "
        )
    );

    //will be trapped, but there is nowhere else to go
    assert_eq!(
        Right,
        decide(
            "
        |A2|  |Y6|  |
        |A1|A0|Y5|  |
        |Y0|  |Y4|  |
        |Y1|Y2|Y3|  |
        "
        )
    );

    //don't really care which way it goes, just that it doesn't panic
    decide(
        "
        |  |  |A0|A1|
        |  |Y1|Y0|A2|
        |  |A5|A4|A3|
        |  |  |  |  |
        ",
    );
}

#[test]
fn test_lookahead_avoid_dead_end() {
    //going Up has more space now but is a dead end, while B's tail will move and open up space
    assert_eq!(
        Right,
        decide(
            "
        |B0|  |  |  |  |  |  |
        |B1|B2|B3|B4|B5|  |  |
        |  |  |  |  |B6|B7|  |
        |A3|A2|A1|Y0|  |B8|  |
        |A4|A5|A0|Y1|C4|C3|  |
        |A7|A6|  |Y2|  |C2|  |
        |A8|A9|  |Y3|C0|C1|  |
        "
        )
    );
}

#[test]
fn test_trap_enemy() {
    //we have the opportunity to trap the enemy snake and keep
    assert_ne!(
        Right,
        decide(
            "
        |  |  |  |  |  |
        |  |Y0|  |  |  |
        |  |Y1|  |  |  |
        |A0|Y2|  |  |  |
        |A1|Y3|Y4|  |  |
        |A2|A3|A4|  |  |
        "
        )
    );
}

#[test]
fn test_avoid_trap_opportunity() {
    //if we go up, we will either die in head-to-head or give B the opportunity to trap us
    assert_ne!(
        Up,
        decide(
            "
        |  |  |  |  |  |()|A0|A1|A2|A3|  |
        |B5|B4|B3|B2|Y1|Y0|  |  |  |  |  |
        |B6|  |B0|B1|Y2|  |  |  |  |  |  |
        |  |  |  |  |Y3|  |  |  |  |  |  |
        |  |  |  |  |  |  |  |  |  |  |  |
        |  |  |  |  |  |  |  |  |  |  |  |
        |C2|C1|C0|  |  |  |  |  |  |  |  |
        |C3|  |  |  |  |  |  |  |  |  |  |
        |C4|  |  |  |  |  |  |  |  |  |  |
        |C5|  |  |  |  |  |  |  |  |  |  |
        |  |  |  |  |  |  |  |  |  |  |  |
        +Y66
        +A72
        +B95
        +C71
        "
        )
    );
}

#[test]
fn test_avoid_head_to_head_death() {
    assert_eq!(
        Up,
        decide(
            "
        |  |  |  |  |  |  |  |  |  |  |  |
        |  |()|  |  |  |  |  |  |  |  |  |
        |C0|C1|C2|  |  |()|  |  |  |  |  |
        |  |  |C3|C4|  |  |  |  |  |  |  |
        |  |D3|D2|D1|  |Y3|Y2|Y1|Y0|  |  |
        |  |  |  |D0|  |  |  |  |  |A0|  |
        |  |  |  |  |  |  |B2|B1|  |A1|  |
        |  |  |  |  |  |  |  |B0|  |A2|  |
        |  |  |  |  |  |  |  |  |  |A3|  |
        |  |  |  |  |  |  |  |  |  |A4|A5|
        |  |  |  |  |  |  |  |  |  |  |  |
        +Y84
        +A95
        +B80
        +C93
        +D98
        "
        )
    );
}

#[test]
fn test_avoid_head_to_head_death2() {
    assert_ne!(
        Down,
        decide(
            "
        |  |  |  |  |  |  |  |  |  |  |  |
        |  |  |  |  |  |  |  |  |  |  |  |
        |  |Y2|  |  |  |  |  |  |  |  |  |
        |  |Y1|  |  |  |  |  |  |  |  |  |
        |  |Y0|  |()|  |  |  |  |  |  |  |
        |  |  |  |  |  |  |  |()|  |  |  |
        |  |A0|  |  |  |  |  |  |  |  |  |
        |()|A1|  |  |  |  |  |  |  |  |  |
        |  |A2|  |  |B1|B2|  |  |  |  |  |
        |  |  |  |  |B0|  |  |  |  |  |  |
        |  |  |  |  |  |  |  |  |  |  |  |
        +Y97
        +A97
        +B97
        "
        )
    );
}

#[test]
fn test_avoid_starvation() {
    assert_eq!(
        Right,
        decide(
            "
        |  |  |  |()|  |  |  |  |  |A2|A1|
        |  |  |()|  |  |  |  |  |  |A3|A0|
        |  |  |()|  |  |  |  |  |  |  |  |
        |  |  |  |  |  |  |  |  |  |  |  |
        |  |  |  |  |  |  |  |()|  |  |  |
        |  |  |  |  |B2|B1|B0|  |  |  |  |
        |  |  |  |  |B3|()|  |()|  |  |  |
        |  |  |  |  |B4|  |  |  |  |  |  |
        |  |  |  |()|B5|  |  |  |()|  |  |
        |Y2|  |  |  |B6|B7|B8|  |  |  |()|
        |Y1|Y0|()|  |  |  |  |  |  |  |  |
        +Y1
        +A90
        +B95
        "
        )
    );
}
