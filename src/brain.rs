use vstd::prelude::*;
use rayon::iter::{IntoParallelRefIterator, ParallelIterator};
use std::time::{Duration, Instant};
use crate::api::{ApiDirection, ApiGameState, dir_at, dir_index};
use crate::board::{Board, BoardView, advance_deaths, advanced, api_state_fits, board_from_api, board_wf, in_bounds, snake_options, step_target};
use crate::coord::manhattan;
use crate::snake::default_move;
use crate::territory::{Claim, Territory, heads_owned, num_cells, owners_justified, territory_of, total_area, valid_owners};
use crate::util::{cartesian_product, lemma_product_members, product};

verus! {

/// A heuristic value in fixed point: `SCORE_SCALE` stands for 1.
pub type Score = u64;

/// The fixed-point unit of `Score`.
pub const SCORE_SCALE: Score = 1_000_000;

/// Snakes nearest the acting agent whose every move the search considers.
pub const MAX_PRIORITY_SNAKES: usize = 4;

/// Largest head distance at which a snake of at least equal size is a head-to-head threat.
pub const HEAD_TO_HEAD_RADIUS: u16 = 2;

/// Most frontier expansions a single decision makes.
pub const MAX_EXPANSIONS: u64 = 100_000_000;

/// std's monotonic clock reading, carried through unopened.
#[verifier::external_type_specification]
#[verifier::external_body]
pub struct ExInstant(std::time::Instant);

/// Relies on std's `Instant::now`: a reading of the monotonic clock.
#[verifier::external_body]
fn clock_start() -> (r: Instant) {
    Instant::now()
}

/// Relies on std's `Instant::elapsed`: whole milliseconds since `start`.
#[verifier::external_body]
fn elapsed_millis(start: &Instant) -> (r: u128) {
    start.elapsed().as_millis()
}

/// Relies on std's `Duration::as_millis`: the whole milliseconds of `d`.
#[verifier::external_body]
fn duration_millis(d: &Duration) -> (r: u128) {
    d.as_millis()
}

/// Snake `j` poses no head-to-head threat to snake `i`: it is `i` itself, it is
/// smaller, or its head is farther than the threat radius.
pub open spec fn h2h_safe(b: BoardView, i: int, j: int) -> bool {
    j == i || b.snakes[j].body.len() < b.snakes[i].body.len()
        || manhattan(b.snakes[j].body[0], b.snakes[i].body[0]) > HEAD_TO_HEAD_RADIUS
}

/// Number of the first `m` snakes that pose no head-to-head threat to snake `i`.
pub open spec fn h2h_safe_count(b: BoardView, i: int, m: int) -> int
    decreases m,
{
    if m <= 0 { 0 } else { h2h_safe_count(b, i, m - 1) + if h2h_safe(b, i, m - 1) { 1int } else { 0int } }
}

/// The survivability factor as a fraction: zero when starved; else, with food
/// in reach, one less the share of the remaining health its distance takes;
/// else the chance that food appears in time, capped at one.
pub open spec fn food_factor(health: int, nearest: Option<u32>, total: int, n: int) -> (int, int) {
    if health == 0 {
        (0, 1)
    } else {
        match nearest {
            Some(d) => (health - if d <= health { d as int } else { health }, health),
            None => (
                if 100 * total <= 15 * health * n { 100 * total } else { 15 * health * n },
                100 * total,
            ),
        }
    }
}

/// Sum of the territory areas, at least one.
pub open spec fn area_total(t: Seq<Territory>) -> int {
    if total_area(t, t.len() as int) >= 1 { total_area(t, t.len() as int) } else { 1 }
}

/// The score of snake `i` given the territories `t`, in fixed point: the product of
/// its share of the controlled area, its food factor, the share of snakes that pose
/// it no head-to-head threat, and the square of one over the number of snakes.
/// The acting agent alone on the board scores one.
pub open spec fn score_of(b: BoardView, i: int, t: Seq<Territory>) -> int {
    let n = b.snakes.len() as int;
    if i == 0 && n == 1 {
        SCORE_SCALE as int
    } else {
        let total = area_total(t);
        let f = food_factor(b.snakes[i].health as int, t[i].nearest_food, total, n);
        (SCORE_SCALE * t[i].area * f.0 * h2h_safe_count(b, i, n)) / (total * f.1 * n * n * n)
    }
}

/// The territories that the ownership `owners` gives every snake.
pub open spec fn territories_under(b: BoardView, owners: Seq<Claim>) -> Seq<Territory> {
    Seq::new(b.snakes.len(), |j: int| territory_of(b, owners, j))
}

proof fn lemma_area_le_total(t: Seq<Territory>, i: int, m: int)
    requires
        0 <= i < m <= t.len(),
    ensures
        t[i].area <= total_area(t, m),
        total_area(t, m) >= 0,
    decreases m,
{
    if m - 1 > i {
        lemma_area_le_total(t, i, m - 1);
    } else {
        lemma_total_nonneg(t, m - 1);
    }
}

proof fn lemma_total_nonneg(t: Seq<Territory>, m: int)
    requires
        0 <= m <= t.len(),
    ensures
        total_area(t, m) >= 0,
    decreases m,
{
    if m > 0 {
        lemma_total_nonneg(t, m - 1);
    }
}

proof fn lemma_total_le_prefix(t: Seq<Territory>, k: int, m: int)
    requires
        0 <= k <= m <= t.len(),
    ensures
        0 <= total_area(t, k) <= total_area(t, m),
    decreases m - k,
{
    if k < m {
        lemma_total_le_prefix(t, k, m - 1);
    } else {
        lemma_total_nonneg(t, k);
    }
}

proof fn lemma_h2h_count_le(b: BoardView, i: int, m: int)
    requires
        0 <= m,
    ensures
        0 <= h2h_safe_count(b, i, m) <= m,
    decreases m,
{
    if m > 0 {
        lemma_h2h_count_le(b, i, m - 1);
    }
}

proof fn lemma_score_bound(s: int, a: int, total: int, fnum: int, fden: int, c: int, n: int)
    requires
        s >= 0,
        0 <= a <= total,
        total >= 1,
        0 <= fnum <= fden,
        fden >= 1,
        0 <= c <= n,
        n >= 1,
    ensures
        0 <= (s * a * fnum * c) / (total * fden * n * n * n) <= s,
{
    assert(a * fnum <= total * fden) by (nonlinear_arith)
        requires 0 <= a <= total, 0 <= fnum <= fden;
    assert(a * fnum * c <= total * fden * n) by (nonlinear_arith)
        requires 0 <= a * fnum <= total * fden, 0 <= c <= n;
    assert(total * fden * n <= total * fden * n * n * n) by (nonlinear_arith)
        requires total >= 1, fden >= 1, n >= 1;
    let num = s * (a * fnum * c);
    let den = total * fden * n * n * n;
    assert(s * a * fnum * c == num) by (nonlinear_arith)
        requires num == s * (a * fnum * c);
    assert(den >= 1) by (nonlinear_arith)
        requires total >= 1, fden >= 1, n >= 1, den == total * fden * n * n * n;
    assert(0 <= num <= s * den) by (nonlinear_arith)
        requires s >= 0, 0 <= a * fnum * c <= den, num == s * (a * fnum * c);
    assert(0 <= num / den <= s) by (nonlinear_arith)
        requires 0 <= num <= s * den, den >= 1;
}

proof fn lemma_score_below_one(s: int, a: int, total: int, fnum: int, fden: int, c: int, n: int)
    requires
        s >= 1,
        0 <= a <= total,
        total >= 1,
        0 <= fnum <= fden,
        fden >= 1,
        0 <= c <= n,
        n >= 2,
    ensures
        (s * a * fnum * c) / (total * fden * n * n * n) < s,
{
    assert(a * fnum <= total * fden) by (nonlinear_arith)
        requires 0 <= a <= total, 0 <= fnum <= fden;
    assert(a * fnum * c <= total * fden * n) by (nonlinear_arith)
        requires 0 <= a * fnum <= total * fden, 0 <= c <= n;
    let k = total * fden * n;
    assert(k >= 1) by (nonlinear_arith)
        requires total >= 1, fden >= 1, n >= 1, k == total * fden * n;
    let num = s * (a * fnum * c);
    let den = total * fden * n * n * n;
    assert(s * a * fnum * c == num) by (nonlinear_arith)
        requires num == s * (a * fnum * c);
    assert(den == k * (n * n)) by (nonlinear_arith)
        requires den == total * fden * n * n * n, k == total * fden * n;
    assert(den >= 4 * k) by (nonlinear_arith)
        requires den == k * (n * n), n >= 2, k >= 1;
    assert(0 <= num <= s * k) by (nonlinear_arith)
        requires s >= 1, 0 <= a * fnum * c <= k, num == s * (a * fnum * c);
    assert(num < s * den) by (nonlinear_arith)
        requires num <= s * k, den >= 4 * k, k >= 1, s >= 1;
    assert(num / den < s) by (nonlinear_arith)
        requires 0 <= num, num < s * den, den >= 1;
}

/// The score of snake `snake_index` given the board's territories `territories`
/// (see `score_of`); always between zero and one.
pub fn score_with_territories(board: &Board, snake_index: usize, territories: &Vec<Territory>) -> (r: Score)
    requires
        board.wf(),
        snake_index < board@.snakes.len(),
        territories@.len() == board@.snakes.len(),
        total_area(territories@, territories@.len() as int) <= num_cells(board@),
    ensures
        r == score_of(board@, snake_index as int, territories@),
        r <= SCORE_SCALE,
        board@.snakes.len() >= 2 ==> r < SCORE_SCALE,
{
    let n = board.snakes.len();
    if snake_index == 0 && n == 1 {
        return SCORE_SCALE;
    }
    let ghost b = board@;
    let ghost t = territories@;
    proof {
        assert(num_cells(b) <= 121 * 121) by (nonlinear_arith)
            requires num_cells(b) == (b.bound.x + 1) * (b.bound.y + 1), 0 <= b.bound.x <= 120, 0 <= b.bound.y <= 120;
    }
    let mut sum: u64 = 0;
    let mut k: usize = 0;
    while k < n
        invariant
            n == t.len(),
            t == territories@,
            k <= n,
            sum == total_area(t, k as int),
            total_area(t, n as int) <= 121 * 121,
        decreases n - k,
    {
        proof {
            lemma_total_le_prefix(t, k as int + 1, n as int);
        }
        sum = sum + territories[k].area as u64;
        k += 1;
    }
    let total: u64 = if sum >= 1 { sum } else { 1 };
    let terr = territories[snake_index];
    proof {
        lemma_area_le_total(t, snake_index as int, n as int);
    }
    let health = board.snakes[snake_index].health as u64;
    assert(b.snakes[snake_index as int] == board.snakes@[snake_index as int]@);
    assert(n <= 1000);
    assert(total <= 121 * 121);
    proof {
        assert(15 * health * (n as u64) <= 15 * 255 * 1000) by (nonlinear_arith)
            requires health <= 255, n <= 1000;
    }
    let (fnum, fden): (u64, u64) = if health == 0 {
        (0, 1)
    } else {
        match terr.nearest_food {
            Some(d) => (health - if (d as u64) <= health { d as u64 } else { health }, health),
            None => {
                let cap = 100 * total;
                let chance = 15 * health * (n as u64);
                (if cap <= chance { cap } else { chance }, cap)
            },
        }
    };
    let me = &board.snakes[snake_index];
    assert(me@.body.len() > 0);
    let mut safe: u64 = 0;
    let mut j: usize = 0;
    while j < n
        invariant
            board.wf(),
            b == board@,
            n == b.snakes.len(),
            snake_index < n,
            me@ == b.snakes[snake_index as int],
            me@.body.len() > 0,
            j <= n,
            safe == h2h_safe_count(b, snake_index as int, j as int),
            safe <= j,
        decreases n - j,
    {
        let other = &board.snakes[j];
        assert(b.snakes[j as int] == other@);
        assert(other@.body.len() > 0);
        if j == snake_index || other.size() < me.size() || other.head().dist_to(me.head()) > HEAD_TO_HEAD_RADIUS {
            safe = safe + 1;
        }
        j += 1;
    }
    proof {
        lemma_h2h_count_le(b, snake_index as int, n as int);
        lemma_score_bound(SCORE_SCALE as int, terr.area as int, total as int, fnum as int, fden as int, safe as int, n as int);
        if n >= 2 {
            lemma_score_below_one(SCORE_SCALE as int, terr.area as int, total as int, fnum as int, fden as int, safe as int, n as int);
        }
        assert(fnum <= fden);
        assert(fden <= 100 * 121 * 121);
        assert(terr.area <= 121 * 121);
        assert(safe <= 1000);
        assert((SCORE_SCALE as int) * (terr.area as int) * (fnum as int) * (safe as int) <= 1_000_000 * (121 * 121) * (100 * 121 * 121) * 1000) by (nonlinear_arith)
            requires terr.area <= 121 * 121, fnum <= 100 * 121 * 121, safe <= 1000, fnum >= 0;
        assert((total as int) * (fden as int) * (n as int) * (n as int) * (n as int) <= (121 * 121) * (100 * 121 * 121) * 1000 * 1000 * 1000) by (nonlinear_arith)
            requires total <= 121 * 121, fden <= 100 * 121 * 121, n <= 1000;
    }
    let nn = n as u128;
    proof {
        assert((SCORE_SCALE as int) * (terr.area as int) <= 1_000_000 * (121 * 121)) by (nonlinear_arith)
            requires terr.area <= 121 * 121;
    }
    let n1: u128 = (SCORE_SCALE as u128) * (terr.area as u128);
    proof {
        assert((n1 as int) * (fnum as int) <= 1_000_000 * (121 * 121) * (100 * 121 * 121)) by (nonlinear_arith)
            requires n1 <= 1_000_000 * (121 * 121), fnum <= 100 * 121 * 121;
    }
    let n2: u128 = n1 * (fnum as u128);
    proof {
        assert((n2 as int) * (safe as int) <= 1_000_000 * (121 * 121) * (100 * 121 * 121) * 1000) by (nonlinear_arith)
            requires n2 <= 1_000_000 * (121 * 121) * (100 * 121 * 121), safe <= 1000;
    }
    let num: u128 = n2 * (safe as u128);
    proof {
        assert((total as int) * (fden as int) <= (121 * 121) * (100 * 121 * 121)) by (nonlinear_arith)
            requires total <= 121 * 121, fden <= 100 * 121 * 121;
    }
    let d1: u128 = (total as u128) * (fden as u128);
    proof {
        assert((d1 as int) * (nn as int) <= (121 * 121) * (100 * 121 * 121) * 1000) by (nonlinear_arith)
            requires d1 <= (121 * 121) * (100 * 121 * 121), nn <= 1000;
    }
    let d2: u128 = d1 * nn;
    proof {
        assert((d2 as int) * (nn as int) <= (121 * 121) * (100 * 121 * 121) * 1000 * 1000) by (nonlinear_arith)
            requires d2 <= (121 * 121) * (100 * 121 * 121) * 1000, nn <= 1000;
    }
    let d3: u128 = d2 * nn;
    proof {
        assert((d3 as int) * (nn as int) <= (121 * 121) * (100 * 121 * 121) * 1000 * 1000 * 1000) by (nonlinear_arith)
            requires d3 <= (121 * 121) * (100 * 121 * 121) * 1000 * 1000, nn <= 1000;
    }
    let den: u128 = d3 * nn;
    assert(num == (SCORE_SCALE as int) * (terr.area as int) * (fnum as int) * (safe as int));
    assert(den == (total as int) * (fden as int) * (n as int) * (n as int) * (n as int));
    proof {
        assert(den >= 1) by (nonlinear_arith)
            requires den == (total as int) * (fden as int) * (n as int) * (n as int) * (n as int), total >= 1, fden >= 1, n >= 1;
    }
    (num / den) as u64
}

/// How good the board is for snake `snake_index`, between zero and one: its
/// score under the board's territories (see `score_of`).
pub fn heuristic(board: &Board, snake_index: usize) -> (r: Score)
    requires
        board.wf(),
        snake_index < board@.snakes.len(),
    ensures
        r <= SCORE_SCALE,
        snake_index == 0 && board@.snakes.len() == 1 ==> r == SCORE_SCALE,
        board@.snakes.len() >= 2 ==> r < SCORE_SCALE,
        exists|owners: Seq<Claim>| valid_owners(board@, owners) && owners_justified(board@, owners)
            && heads_owned(board@, owners) && r == score_of(board@, snake_index as int, territories_under(board@, owners)),
{
    let territories = board.get_territories();
    let r = score_with_territories(board, snake_index, &territories);
    proof {
        let owners = choose|owners: Seq<Claim>| valid_owners(board@, owners) && owners_justified(board@, owners)
            && heads_owned(board@, owners) && forall|i: int|
            0 <= i < territories@.len() ==> #[trigger] territories@[i] == territory_of(board@, owners, i);
        assert(territories@ =~= territories_under(board@, owners));
    }
    r
}

/// A hypothetical future board in the search, with the first move of the acting
/// agent that leads to it (none for the current board).
pub struct FrontierBoard {
    pub board: Board,
    pub root_dir: Option<ApiDirection>,
    pub depth: usize,
    pub h_score: Score,
}

/// The worst outcome seen so far for one first move.
pub enum Outcome {
    Unseen,
    Dead,
    Alive(Score, Board),
}

/// Direction `d` is a move the acting agent may make on the board `root`, and
/// not one back onto its own neck unless all its moves are.
pub open spec fn root_option(root: BoardView, d: ApiDirection) -> bool {
    &&& snake_options(root, root.snakes[0]).contains(d)
    &&& onto_neck(root, d) ==> forall|d2: ApiDirection| #[trigger] snake_options(root, root.snakes[0]).contains(d2) ==> onto_neck(root, d2)
}

/// Moving in `d` takes the acting agent's head onto its neck.
pub open spec fn onto_neck(b: BoardView, d: ApiDirection) -> bool {
    b.snakes[0].body.len() >= 2 && step_target(b.snakes[0].body[0], d) == b.snakes[0].body[1]
}

/// The default move never turns the acting agent back onto its neck.
pub proof fn lemma_default_not_onto_neck(b: BoardView)
    requires
        board_wf(b),
        b.snakes.len() > 0,
    ensures
        !onto_neck(b, default_move(b.snakes[0].body)),
{
    let body = b.snakes[0].body;
    if body.len() >= 2 {
        assert(in_bounds(body[0], b.bound) && in_bounds(body[1], b.bound));
    }
}

/// A frontier entry fit for expansion: a well-formed board with the acting agent
/// on it, a score between zero and one, and a first move the agent may make.
pub open spec fn frontier_ok(f: FrontierBoard, root: BoardView) -> bool {
    &&& f.board.wf()
    &&& f.board@.snakes.len() > 0
    &&& f.h_score <= SCORE_SCALE
    &&& (f.root_dir matches Some(d) ==> root_option(root, d))
    &&& (f.root_dir is None ==> f.board@ == root)
}

/// What one combination of moves leads to, for the acting agent.
pub enum Evaluation {
    /// The agent dies.
    YouDied,
    /// The agent lives; the score of the board for it, and the board.
    Scored(Score, Board),
}

/// Playing the joint move `t` on `b` kills the acting agent (deaths are listed
/// by index, so it would come first) or leaves no snake at all.
pub open spec fn agent_dies(b: BoardView, t: Seq<ApiDirection>) -> bool {
    advanced(b, t).snakes.len() == 0 || (advance_deaths(b, t).len() > 0 && advance_deaths(b, t)[0].0 == 0)
}

/// `e` is what playing `moves` on `board` leads to.
pub open spec fn evaluation_ok(board: Board, moves: Vec<ApiDirection>, e: Evaluation) -> bool {
    &&& (e is YouDied) <==> agent_dies(board@, moves@)
    &&& match e {
        Evaluation::YouDied => true,
        Evaluation::Scored(score, next) => {
            &&& next.wf()
            &&& next@.snakes.len() > 0
            &&& score <= SCORE_SCALE
            &&& next@ == advanced(board@, moves@)
            &&& (score == SCORE_SCALE <==> next@.snakes.len() == 1)
            &&& exists|owners: Seq<Claim>| valid_owners(next@, owners) && owners_justified(next@, owners)
                && heads_owned(next@, owners) && score == score_of(next@, 0, territories_under(next@, owners))
        },
    }
}

/// With the move lists `lists` (one per snake), `d` is a safe first move for
/// the acting agent: some joint move starts with it, and none that does kills
/// the agent.
pub open spec fn safe_first(b: BoardView, lists: Seq<Seq<ApiDirection>>, d: ApiDirection) -> bool {
    &&& exists|j: int| 0 <= j < product(lists).len() && (#[trigger] product(lists)[j])[0] == d
    &&& forall|j: int| 0 <= j < product(lists).len() && (#[trigger] product(lists)[j])[0] == d
        ==> !agent_dies(b, product(lists)[j])
}

/// Move lists the search may weigh on `b`: one non-empty list per snake, each
/// drawn from that snake's options, the agent's from its root options.
pub open spec fn lists_ok(b: BoardView, lists: Seq<Seq<ApiDirection>>) -> bool {
    &&& lists.len() == b.snakes.len()
    &&& forall|i: int| 0 <= i < lists.len() ==> (#[trigger] lists[i]).len() > 0
    &&& forall|i: int, k: int| 0 <= i < lists.len() && 0 <= k < lists[i].len()
        ==> snake_options(b, b.snakes[i]).contains(#[trigger] lists[i][k])
    &&& forall|k: int| 0 <= k < lists[0].len() ==> root_option(b, #[trigger] lists[0][k])
}

/// Plays `moves` on a copy of `board` and scores the outcome for the acting agent.
pub fn evaluate(board: &Board, moves: &Vec<ApiDirection>) -> (r: Evaluation)
    requires
        board.wf(),
    ensures
        evaluation_ok(*board, *moves, r),
{
    let mut next = board.duplicate();
    let deaths = next.advance(false, moves.as_slice());
    let you_died = (deaths.len() > 0 && deaths[0].0 == 0) || next.snakes.len() == 0;
    if you_died {
        Evaluation::YouDied
    } else {
        let score = heuristic(&next, 0);
        Evaluation::Scored(score, next)
    }
}

/// Relies on rayon's `par_iter().map(..).collect()` on a slice: the function
/// runs once on each item, in parallel, and the results come back in the
/// items' order.
#[verifier::external_body]
fn evaluate_all(board: &Board, move_space: &Vec<Vec<ApiDirection>>) -> (r: Vec<Evaluation>)
    requires
        board.wf(),
    ensures
        r@.len() == move_space@.len(),
        forall|j: int| 0 <= j < move_space@.len() ==> evaluation_ok(*board, #[trigger] move_space@[j], r@[j]),
{
    move_space.par_iter().map(|moves| evaluate(board, moves)).collect()
}

/// After the first `m` joint moves of the product, `o` is the outcome kept for first move `d`:
/// unseen while no joint move starting with `d` came up, dead once one killed the
/// agent, alive while all that came up spared it.
pub open spec fn outcome_upto(b: BoardView, lists: Seq<Seq<ApiDirection>>, o: Outcome, d: ApiDirection, m: int) -> bool {
    match o {
        Outcome::Unseen => forall|j: int| 0 <= j < m ==> (#[trigger] product(lists)[j])[0] != d,
        Outcome::Dead => exists|j: int| 0 <= j < m && (#[trigger] product(lists)[j])[0] == d && agent_dies(b, product(lists)[j]),
        Outcome::Alive(sc, _) => (exists|j: int| 0 <= j < m && (#[trigger] product(lists)[j])[0] == d)
            && (forall|j: int| 0 <= j < m && (#[trigger] product(lists)[j])[0] == d ==> !agent_dies(b, product(lists)[j]))
            && (sc == SCORE_SCALE <==> forall|j: int| 0 <= j < m && (#[trigger] product(lists)[j])[0] == d
                ==> advanced(b, product(lists)[j]).snakes.len() == 1),
    }
}

/// The score an outcome keeps, zero for none.
pub open spec fn outcome_score(o: Outcome) -> int {
    match o {
        Outcome::Alive(sc, _) => sc as int,
        _ => 0,
    }
}

/// With the move lists `lists`, `d` wins outright: it is safe, and every joint
/// move starting with it leaves the agent alone on the board.
pub open spec fn wins_first(b: BoardView, lists: Seq<Seq<ApiDirection>>, d: ApiDirection) -> bool {
    &&& safe_first(b, lists, d)
    &&& forall|j: int| 0 <= j < product(lists).len() && (#[trigger] product(lists)[j])[0] == d
        ==> advanced(b, product(lists)[j]).snakes.len() == 1
}

/// A joint move that starts otherwise leaves the outcome for `d` as it was.
proof fn lemma_outcome_step(b: BoardView, lists: Seq<Seq<ApiDirection>>, o: Outcome, d: ApiDirection, m: int)
    requires
        0 <= m < product(lists).len(),
        outcome_upto(b, lists, o, d, m),
        product(lists)[m][0] != d,
    ensures
        outcome_upto(b, lists, o, d, m + 1),
{
    match o {
        Outcome::Dead => {
            let j = choose|j: int| 0 <= j < m && (#[trigger] product(lists)[j])[0] == d && agent_dies(b, product(lists)[j]);
        },
        Outcome::Alive(_, _) => {
            let j = choose|j: int| 0 <= j < m && (#[trigger] product(lists)[j])[0] == d;
        },
        _ => {},
    }
}

proof fn lemma_outcome_alive_new(b: BoardView, lists: Seq<Seq<ApiDirection>>, o: Outcome, o2: Outcome, d: ApiDirection, m: int, score: int)
    requires
        0 <= m < product(lists).len(),
        outcome_upto(b, lists, o, d, m),
        product(lists)[m][0] == d,
        !agent_dies(b, product(lists)[m]),
        score <= SCORE_SCALE,
        outcome_score(o) <= SCORE_SCALE,
        score == SCORE_SCALE <==> advanced(b, product(lists)[m]).snakes.len() == 1,
        o is Unseen ==> o2 is Alive && outcome_score(o2) == score,
        o is Alive ==> o2 is Alive && outcome_score(o2) == (if score < outcome_score(o) { score } else { outcome_score(o) }),
        !(o is Dead),
    ensures
        outcome_upto(b, lists, o2, d, m + 1),
{
    if o is Alive {
        let j = choose|j: int| 0 <= j < m && (#[trigger] product(lists)[j])[0] == d;
    }
    assert(product(lists)[m][0] == d);
}

/// A joint move starting with `d` updates its outcome: dead if it kills the
/// agent, else alive unless already dead.
proof fn lemma_outcome_step_same(b: BoardView, lists: Seq<Seq<ApiDirection>>, o: Outcome, o2: Outcome, d: ApiDirection, m: int)
    requires
        0 <= m < product(lists).len(),
        outcome_upto(b, lists, o, d, m),
        product(lists)[m][0] == d,
        o2 is Dead,
        agent_dies(b, product(lists)[m]) || o is Dead,
    ensures
        outcome_upto(b, lists, o2, d, m + 1),
{
    if o is Dead {
        let j = choose|j: int| 0 <= j < m && (#[trigger] product(lists)[j])[0] == d && agent_dies(b, product(lists)[j]);
    }
    if o2 is Dead && agent_dies(b, product(lists)[m]) {
        assert(product(lists)[m][0] == d);
    }
}

/// Removes and returns the entry with the highest score, the earliest among equals.
fn pop_best(frontier: &mut Vec<FrontierBoard>) -> (r: FrontierBoard)
    requires
        old(frontier)@.len() > 0,
    ensures
        exists|k: int| 0 <= k < old(frontier)@.len() && r == old(frontier)@[k]
            && final(frontier)@ == old(frontier)@.remove(k),
        forall|k: int| 0 <= k < old(frontier)@.len() ==> (#[trigger] old(frontier)@[k]).h_score <= r.h_score,
{
    let mut best: usize = 0;
    let mut k: usize = 1;
    while k < frontier.len()
        invariant
            best < k <= frontier@.len(),
            1 <= k,
            forall|q: int| 0 <= q < k ==> (#[trigger] frontier@[q]).h_score <= frontier@[best as int].h_score,
        decreases frontier@.len() - k,
    {
        if frontier[k].h_score > frontier[best].h_score {
            best = k;
        }
        k += 1;
    }
    frontier.remove(best)
}

/// Cuts the moves of every opponent but the `MAX_PRIORITY_SNAKES` snakes
/// nearest the acting agent's head down to one: its default move if that is
/// among them, else the first. The acting agent keeps all its moves.
fn prune_moves(board: &Board, snake_moves: &mut Vec<Vec<ApiDirection>>)
    requires
        board.wf(),
        board@.snakes.len() > 0,
        old(snake_moves)@.len() == board@.snakes.len(),
        forall|i: int| 0 <= i < old(snake_moves)@.len() ==> (#[trigger] old(snake_moves)@[i])@.len() > 0,
    ensures
        final(snake_moves)@.len() == old(snake_moves)@.len(),
        final(snake_moves)@[0] == old(snake_moves)@[0],
        forall|i: int| 0 <= i < final(snake_moves)@.len() ==> (#[trigger] final(snake_moves)@[i])@.len() > 0
            && forall|m: int| 0 <= m < final(snake_moves)@[i]@.len()
                ==> old(snake_moves)@[i]@.contains(#[trigger] final(snake_moves)@[i]@[m]),
{
    let you_head = board.you().head();
    let closest = board.get_closest_snakes_by_manhattan(you_head);
    let mut k: usize = MAX_PRIORITY_SNAKES;
    while k < closest.len()
        invariant
            board.wf(),
            closest@.len() == board@.snakes.len(),
            forall|q: int| 0 <= q < closest@.len() ==> (#[trigger] closest@[q]).0 < board@.snakes.len(),
            snake_moves@.len() == old(snake_moves)@.len(),
            old(snake_moves)@.len() == board@.snakes.len(),
            snake_moves@[0] == old(snake_moves)@[0],
            forall|i: int| 0 <= i < snake_moves@.len() ==> (#[trigger] snake_moves@[i])@.len() > 0
                && forall|m: int| 0 <= m < snake_moves@[i]@.len()
                    ==> old(snake_moves)@[i]@.contains(#[trigger] snake_moves@[i]@[m]),
        decreases closest@.len() - k,
    {
        let idx = closest[k].0;
        if idx == 0 {
            k += 1;
            continue;
        }
        let dirs = &snake_moves[idx];
        let s = &board.snakes[idx];
        assert(board@.snakes[idx as int] == s@);
        let default = s.get_default_move();
        let mut has_default = false;
        let mut m: usize = 0;
        while m < dirs.len()
            invariant
                has_default ==> dirs@.contains(default),
            decreases dirs@.len() - m,
        {
            if dirs[m] == default {
                has_default = true;
            }
            m += 1;
        }
        let first = dirs[0];
        let mut one: Vec<ApiDirection> = Vec::new();
        if has_default {
            one.push(default);
        } else {
            one.push(first);
        }
        proof {
            let c = if has_default { default } else { first };
            assert(one@ == seq![c]);
            assert(dirs@.contains(c)) by {
                if !has_default {
                    assert(dirs@[0] == first);
                }
            }
            let prev = dirs@;
            assert forall|m: int| 0 <= m < prev.len() implies old(snake_moves)@[idx as int]@.contains(#[trigger] prev[m]) by {
                assert(snake_moves@[idx as int]@[m] == prev[m]);
            }
        }
        snake_moves.set(idx, one);
        k += 1;
    }
}

/// Drops from the acting agent's moves those onto its own neck, unless no other move is left.
fn keep_off_neck(board: &Board, snake_moves: &mut Vec<Vec<ApiDirection>>)
    requires
        board.wf(),
        board@.snakes.len() > 0,
        old(snake_moves)@.len() == board@.snakes.len(),
        old(snake_moves)@[0]@ == snake_options(board@, board@.snakes[0]),
        forall|i: int| 0 <= i < old(snake_moves)@.len() ==> (#[trigger] old(snake_moves)@[i])@.len() > 0,
    ensures
        final(snake_moves)@.len() == old(snake_moves)@.len(),
        forall|i: int| 0 < i < final(snake_moves)@.len() ==> #[trigger] final(snake_moves)@[i] == old(snake_moves)@[i],
        forall|i: int| 0 <= i < final(snake_moves)@.len() ==> (#[trigger] final(snake_moves)@[i])@.len() > 0,
        forall|m: int| 0 <= m < final(snake_moves)@[0]@.len() ==> root_option(board@, #[trigger] final(snake_moves)@[0]@[m]),
{
    let ghost b = board@;
    let you = &board.snakes[0];
    assert(b.snakes[0] == you@);
    let options = &snake_moves[0];
    if you.size() < 2 {
        assert forall|m: int| 0 <= m < options@.len() implies root_option(b, #[trigger] options@[m]) by {
            assert(options@.contains(options@[m]));
        }
        return;
    }
    let head = you.head();
    let neck = you.neck().unwrap();
    assert(in_bounds(head, b.bound) && in_bounds(neck, b.bound));
    let mut kept: Vec<ApiDirection> = Vec::new();
    let mut m: usize = 0;
    while m < options.len()
        invariant
            board.wf(),
            b == board@,
            head == b.snakes[0].body[0],
            neck == b.snakes[0].body[1],
            b.snakes[0].body.len() >= 2,
            in_bounds(head, b.bound),
            options@ == snake_options(b, b.snakes[0]),
            m <= options@.len(),
            forall|q: int| 0 <= q < kept@.len() ==> options@.contains(#[trigger] kept@[q]) && !onto_neck(b, kept@[q]),
            kept@.len() == 0 ==> forall|q: int| 0 <= q < m ==> onto_neck(b, #[trigger] options@[q]),
        decreases options@.len() - m,
    {
        let d = options[m];
        let o = d.offset();
        let tx: i16 = head.x as i16 + o.dx as i16;
        let ty: i16 = head.y as i16 + o.dy as i16;
        let lands_on_neck = tx == neck.x as i16 && ty == neck.y as i16;
        assert(lands_on_neck == onto_neck(b, d));
        if !lands_on_neck {
            kept.push(d);
            assert(options@.contains(d));
        }
        m += 1;
    }
    if kept.len() > 0 {
        snake_moves.set(0, kept);
    } else {
        assert forall|m2: int| 0 <= m2 < options@.len() implies root_option(b, #[trigger] options@[m2]) by {
            assert(options@.contains(options@[m2]));
            assert forall|d2: ApiDirection| #[trigger] snake_options(b, b.snakes[0]).contains(d2) implies onto_neck(b, d2) by {
                let q = choose|q: int| 0 <= q < options@.len() && options@[q] == d2;
            }
        }
    }
}

/// Expands one frontier entry: plays every combination of the snakes' (pruned)
/// moves, keeps for each first move of the acting agent the worst surviving
/// outcome, and returns those outcomes as new entries whose score blends the
/// child's heuristic one part to the parent's three. First moves under which
/// the agent can die yield nothing.
#[verifier::spinoff_prover]
fn expand(leader: &FrontierBoard, Ghost(root): Ghost<BoardView>) -> (r: (Vec<FrontierBoard>, Ghost<Seq<Seq<ApiDirection>>>))
    requires
        frontier_ok(*leader, root),
        leader.depth < MAX_EXPANSIONS,
        board_wf(root),
        root.snakes.len() > 0,
    ensures
        forall|k: int| 0 <= k < r.0@.len() ==> frontier_ok(#[trigger] r.0@[k], root) && r.0@[k].root_dir is Some
            && r.0@[k].depth == leader.depth + 1,
        lists_ok(leader.board@, r.1@),
        leader.root_dir is Some ==> forall|k: int| 0 <= k < r.0@.len() ==> (#[trigger] r.0@[k]).root_dir == leader.root_dir,
        leader.root_dir is None ==> forall|k: int| 0 <= k < r.0@.len()
            ==> safe_first(leader.board@, r.1@, (#[trigger] r.0@[k]).root_dir.unwrap()),
        (exists|d: ApiDirection| safe_first(leader.board@, r.1@, d)) ==> r.0@.len() > 0,
        leader.root_dir is None && leader.h_score == SCORE_SCALE ==> forall|k: int| 0 <= k < r.0@.len()
            ==> ((#[trigger] r.0@[k]).h_score == SCORE_SCALE <==> wins_first(leader.board@, r.1@, r.0@[k].root_dir.unwrap())),
        leader.root_dir is None && leader.h_score == SCORE_SCALE && (exists|d: ApiDirection| wins_first(leader.board@, r.1@, d))
            ==> exists|k: int| 0 <= k < r.0@.len() && (#[trigger] r.0@[k]).h_score == SCORE_SCALE,
{
    let board = &leader.board;
    let mut snake_moves = board.enumerate_snake_moves();
    proof {
        assert forall|i: int| 0 <= i < snake_moves@.len() implies (#[trigger] snake_moves@[i])@.len() > 0 by {
            assert(snake_moves@[i]@ == snake_options(board@, board@.snakes[i]));
        }
    }
    prune_moves(board, &mut snake_moves);
    keep_off_neck(board, &mut snake_moves);
    let move_lists = snake_moves.as_slice();
    let move_space = cartesian_product(move_lists);
    let ghost lists = snake_moves@.map_values(|l: Vec<ApiDirection>| l@);
    proof {
        assert(move_lists@ == snake_moves@);
        lemma_product_members(lists, lists.len() as int);
        assert(lists_ok(board@, lists)) by {
            assert forall|i: int, k: int| 0 <= i < lists.len() && 0 <= k < lists[i].len()
                implies snake_options(board@, board@.snakes[i]).contains(#[trigger] lists[i][k]) by {
                assert(lists[i] == snake_moves@[i]@);
                if i == 0 {
                    assert(root_option(board@, snake_moves@[0]@[k]));
                }
            }
            assert forall|k: int| 0 <= k < lists[0].len() implies root_option(board@, #[trigger] lists[0][k]) by {
                assert(lists[0] == snake_moves@[0]@);
            }
        }
        assert forall|j: int| 0 <= j < move_space@.len() implies (#[trigger] move_space@[j])@.len() == board@.snakes.len() by {
            assert(move_space@[j]@ == product(lists)[j]);
        }
    }
    let evaluations = evaluate_all(board, &move_space);
    let mut worst: Vec<Outcome> = Vec::new();
    worst.push(Outcome::Unseen);
    worst.push(Outcome::Unseen);
    worst.push(Outcome::Unseen);
    worst.push(Outcome::Unseen);
    let mut m: usize = 0;
    while m < move_space.len()
        invariant
            frontier_ok(*leader, root),
            board == &leader.board,
            board.wf(),
            evaluations@.len() == move_space@.len(),
            forall|j: int| 0 <= j < move_space@.len() ==> evaluation_ok(*board, #[trigger] move_space@[j], evaluations@[j]),
            forall|j: int| 0 <= j < move_space@.len() ==> (#[trigger] move_space@[j])@.len() == board@.snakes.len(),
            worst@.len() == 4,
            lists == snake_moves@.map_values(|l: Vec<ApiDirection>| l@),
            lists.len() == board@.snakes.len(),
            forall|m2: int| 0 <= m2 < snake_moves@[0]@.len() ==> root_option(board@, #[trigger] snake_moves@[0]@[m2]),
            move_space@.map_values(|v: Vec<ApiDirection>| v@) == product(lists),
            forall|j: int| 0 <= j < product(lists).len() ==> {
                let t = #[trigger] product(lists)[j];
                &&& t.len() == lists.len()
                &&& forall|i: int| 0 <= i < lists.len() ==> lists[i].contains(#[trigger] t[i])
            },
            forall|slot: int| 0 <= slot < 4 ==> match #[trigger] worst@[slot] {
                Outcome::Alive(sc, b) => sc <= SCORE_SCALE && b.wf() && b@.snakes.len() > 0
                    && root_option(board@, dir_at(slot)),
                _ => true,
            },
            m <= move_space@.len(),
            forall|slot: int| 0 <= slot < 4 ==> outcome_upto(board@, lists, #[trigger] worst@[slot], dir_at(slot), m as int),
        decreases move_space@.len() - m,
    {
        let ev = &evaluations[m];
        proof {
            assert(evaluation_ok(*board, move_space@[m as int], *ev));
            assert(move_space@[m as int]@ == product(lists)[m as int]);
            assert(lists[0].contains(move_space@[m as int]@[0]));
            assert(lists[0] == snake_moves@[0]@);
        }
        let you_move = move_space[m][0];
        let slot = you_move.as_index();
        let ghost w_before = worst@;
        proof {
            assert(product(lists)[m as int][0] == you_move);
            assert(dir_at(slot as int) == you_move);
            let q = choose|q: int| 0 <= q < snake_moves@[0]@.len() && snake_moves@[0]@[q] == you_move;
            assert(root_option(board@, snake_moves@[0]@[q]));
        }
        match ev {
            Evaluation::YouDied => {
                worst.set(slot, Outcome::Dead);
            },
            Evaluation::Scored(score, next) => {
                let replace = match &worst[slot] {
                    Outcome::Unseen => true,
                    Outcome::Dead => false,
                    Outcome::Alive(s, _) => *score < *s,
                };
                if replace {
                    worst.set(slot, Outcome::Alive(*score, next.duplicate()));
                }
            },
        }
        proof {
            assert forall|s2: int| 0 <= s2 < 4 implies outcome_upto(board@, lists, #[trigger] worst@[s2], dir_at(s2), m + 1) by {
                assert(outcome_upto(board@, lists, w_before[s2], dir_at(s2), m as int));
                if s2 != slot {
                    assert(dir_at(s2) != you_move);
                    assert(worst@[s2] == w_before[s2]);
                    lemma_outcome_step(board@, lists, worst@[s2], dir_at(s2), m as int);
                } else if worst@[s2] is Dead {
                    lemma_outcome_step_same(board@, lists, w_before[s2], worst@[s2], dir_at(s2), m as int);
                } else {
                    let score = match ev { Evaluation::Scored(sc, _) => sc as int, _ => 0 };
                    lemma_outcome_alive_new(board@, lists, w_before[s2], worst@[s2], dir_at(s2), m as int, score);
                }
            }
        }
        m += 1;
    }
    let ghost w0 = worst@;
    proof {
        assert forall|d: ApiDirection| safe_first(board@, lists, d) implies #[trigger] w0[dir_index(d)] is Alive by {
            assert(dir_at(dir_index(d)) == d);
            assert(outcome_upto(board@, lists, w0[dir_index(d)], d, product(lists).len() as int));
            let j = choose|j: int| 0 <= j < product(lists).len() && (#[trigger] product(lists)[j])[0] == d;
        }
        assert forall|s2: int| 0 <= s2 < 4 && #[trigger] w0[s2] is Alive implies safe_first(board@, lists, dir_at(s2))
            && (outcome_score(w0[s2]) == SCORE_SCALE <==> wins_first(board@, lists, dir_at(s2))) by {
            assert(outcome_upto(board@, lists, w0[s2], dir_at(s2), product(lists).len() as int));
        }
        assert forall|d: ApiDirection| wins_first(board@, lists, d) implies #[trigger] w0[dir_index(d)] is Alive
            && outcome_score(w0[dir_index(d)]) == SCORE_SCALE by {
            assert(dir_at(dir_index(d)) == d);
            assert(w0[dir_index(d)] is Alive);
        }
    }
    let mut children: Vec<FrontierBoard> = Vec::new();
    while worst.len() > 0
        invariant
            frontier_ok(*leader, root),
            board == &leader.board,
            worst@.len() <= 4,
            forall|slot: int| 0 <= slot < worst@.len() ==> match #[trigger] worst@[slot] {
                Outcome::Alive(sc, b) => sc <= SCORE_SCALE && b.wf() && b@.snakes.len() > 0
                    && root_option(board@, dir_at(slot)),
                _ => true,
            },
            leader.depth < MAX_EXPANSIONS,
            forall|k: int| 0 <= k < children@.len() ==> frontier_ok(#[trigger] children@[k], root) && children@[k].root_dir is Some
                && children@[k].depth == leader.depth + 1,
            w0.len() == 4,
            worst@ == w0.subrange(0, worst@.len() as int),
            forall|s2: int| 0 <= s2 < 4 && #[trigger] w0[s2] is Alive ==> safe_first(board@, lists, dir_at(s2))
                && (outcome_score(w0[s2]) == SCORE_SCALE <==> wins_first(board@, lists, dir_at(s2))),
            forall|s2: int| 0 <= s2 < 4 ==> outcome_score(#[trigger] w0[s2]) <= SCORE_SCALE,
            leader.h_score <= SCORE_SCALE,
            leader.root_dir is None && leader.h_score == SCORE_SCALE ==> forall|k: int| 0 <= k < children@.len()
                ==> ((#[trigger] children@[k]).h_score == SCORE_SCALE <==> wins_first(board@, lists, children@[k].root_dir.unwrap())),
            leader.root_dir is None && leader.h_score == SCORE_SCALE
                && (exists|s2: int| worst@.len() <= s2 < 4 && #[trigger] w0[s2] is Alive && outcome_score(w0[s2]) == SCORE_SCALE)
                ==> exists|k: int| 0 <= k < children@.len() && (#[trigger] children@[k]).h_score == SCORE_SCALE,
            (exists|s2: int| worst@.len() <= s2 < 4 && #[trigger] w0[s2] is Alive) ==> children@.len() > 0,
            leader.root_dir is Some ==> forall|k: int| 0 <= k < children@.len() ==> (#[trigger] children@[k]).root_dir == leader.root_dir,
            leader.root_dir is None ==> forall|k: int| 0 <= k < children@.len()
                ==> safe_first(board@, lists, (#[trigger] children@[k]).root_dir.unwrap()),
        decreases worst@.len(),
    {
        let slot = worst.len() - 1;
        let ghost w = worst@;
        let outcome = worst.pop().unwrap();
        assert(outcome == w[slot as int]);
        assert(w[slot as int] == w0[slot as int]);
        assert(worst@ =~= w0.subrange(0, worst@.len() as int));
        match outcome {
            Outcome::Alive(score, b) => {
                let dir = ApiDirection::from_index(slot);
                let root_dir = match leader.root_dir {
                    Some(d) => d,
                    None => dir,
                };
                proof {
                    assert(root_option(board@, dir_at(slot as int)));
                    if leader.root_dir is None {
                        assert(board@ == root);
                        assert(root_option(root, root_dir));
                    }
                }
                let h_score = (score + 3 * leader.h_score) / 4;
                proof {
                    if leader.h_score == SCORE_SCALE {
                        assert((score == SCORE_SCALE) <==> (h_score == SCORE_SCALE)) by (nonlinear_arith)
                            requires h_score == (score + 3 * SCORE_SCALE) / 4, score <= SCORE_SCALE;
                        assert(outcome_score(w0[slot as int]) == score);
                    }
                }
                let ghost kids = children@;
                children.push(FrontierBoard { board: b, root_dir: Some(root_dir), depth: leader.depth + 1, h_score });
                proof {
                    if leader.root_dir is None && leader.h_score == SCORE_SCALE {
                        assert forall|k: int| 0 <= k < children@.len()
                            implies ((#[trigger] children@[k]).h_score == SCORE_SCALE <==> wins_first(board@, lists, children@[k].root_dir.unwrap())) by {
                            if k < kids.len() {
                                assert(children@[k] == kids[k]);
                            }
                        }
                        if exists|s2: int| worst@.len() <= s2 < 4 && #[trigger] w0[s2] is Alive && outcome_score(w0[s2]) == SCORE_SCALE {
                            let s2 = choose|s2: int| worst@.len() <= s2 < 4 && #[trigger] w0[s2] is Alive && outcome_score(w0[s2]) == SCORE_SCALE;
                            if s2 == slot {
                                assert(children@[kids.len() as int].h_score == SCORE_SCALE);
                            } else {
                                assert(exists|s3: int| w.len() <= s3 < 4 && #[trigger] w0[s3] is Alive && outcome_score(w0[s3]) == SCORE_SCALE);
                                let k0 = choose|k: int| 0 <= k < kids.len() && (#[trigger] kids[k]).h_score == SCORE_SCALE;
                                assert(children@[k0] == kids[k0]);
                            }
                        }
                    }
                }
            },
            _ => {
                proof {
                    assert forall|s2: int| worst@.len() <= s2 < 4 && #[trigger] w0[s2] is Alive implies children@.len() > 0 by {
                        if s2 > slot {
                            assert(exists|s3: int| w.len() <= s3 < 4 && #[trigger] w0[s3] is Alive);
                        }
                    }
                    if exists|s2: int| worst@.len() <= s2 < 4 && #[trigger] w0[s2] is Alive && outcome_score(w0[s2]) == SCORE_SCALE {
                        let s2 = choose|s2: int| worst@.len() <= s2 < 4 && #[trigger] w0[s2] is Alive && outcome_score(w0[s2]) == SCORE_SCALE;
                        assert(s2 != slot);
                        assert(exists|s3: int| w.len() <= s3 < 4 && #[trigger] w0[s3] is Alive && outcome_score(w0[s3]) == SCORE_SCALE);
                    }
                }
            },
        }
    }
    proof {
        assert forall|d: ApiDirection| safe_first(board@, lists, d) implies children@.len() > 0 by {
            assert(w0[dir_index(d)] is Alive);
        }
        if leader.root_dir is None && leader.h_score == SCORE_SCALE && (exists|d: ApiDirection| wins_first(board@, lists, d)) {
            let d = choose|d: ApiDirection| wins_first(board@, lists, d);
            assert(w0[dir_index(d)] is Alive && outcome_score(w0[dir_index(d)]) == SCORE_SCALE);
        }
    }
    (children, Ghost(lists))
}

/// Chooses the acting agent's move on `board` by an anytime best-first search
/// over the snakes' joint moves, until `budget` has passed, a board where the
/// agent alone is left of several comes up, or the frontier runs out.
///
/// The current board is always expanded first. With the move lists it weighs
/// there, the answer is a safe first move (one under which no joint move of
/// the others kills the agent) whenever there is one, and the default move
/// otherwise; where some first move leaves the agent alone on a board it
/// shared, the answer is such a move. It is never back onto the agent's own
/// neck unless every move is.
pub fn decide(board: Board, budget: Duration) -> (r: ApiDirection)
    requires
        board.wf(),
        board@.snakes.len() > 0,
    ensures
        r == default_move(board@.snakes[0].body) || root_option(board@, r),
        onto_neck(board@, r) ==> forall|d: ApiDirection| #[trigger] snake_options(board@, board@.snakes[0]).contains(d)
            ==> onto_neck(board@, d),
        exists|lists: Seq<Seq<ApiDirection>>| {
            &&& lists_ok(board@, lists)
            &&& (exists|d: ApiDirection| safe_first(board@, lists, d)) ==> safe_first(board@, lists, r)
            &&& (forall|d: ApiDirection| !safe_first(board@, lists, d)) ==> r == default_move(board@.snakes[0].body)
            &&& board@.snakes.len() > 1 && (exists|d: ApiDirection| wins_first(board@, lists, d)) ==> wins_first(board@, lists, r)
        },
{
    let ghost root = board@;
    proof {
        lemma_default_not_onto_neck(root);
    }
    let start = clock_start();
    let budget_ms = duration_millis(&budget);
    let default = board.you().get_default_move();
    let mut decision = default;
    let contested = board.snakes.len() > 1;
    let root_leader = FrontierBoard { board, root_dir: None, depth: 0, h_score: SCORE_SCALE };
    let (mut frontier, Ghost(lists)) = expand(&root_leader, Ghost(root));
    let ghost initial = frontier@;
    let mut expansions: u64 = 1;
    let mut done = false;
    let mut popped = false;
    while !done && frontier.len() > 0 && expansions < MAX_EXPANSIONS
        invariant
            board_wf(root),
            root.snakes.len() > 0,
            lists_ok(root, lists),
            forall|k: int| 0 <= k < frontier@.len() ==> frontier_ok(#[trigger] frontier@[k], root),
            forall|k: int| 0 <= k < frontier@.len() ==> (#[trigger] frontier@[k]).depth <= expansions,
            forall|k: int| 0 <= k < frontier@.len() ==> (#[trigger] frontier@[k]).root_dir is Some
                && safe_first(root, lists, frontier@[k].root_dir.unwrap()),
            1 <= expansions <= MAX_EXPANSIONS,
            popped ==> safe_first(root, lists, decision),
            !popped ==> decision == default_move(root.snakes[0].body) && !done && expansions == 1 && frontier@ == initial,
            (exists|d: ApiDirection| safe_first(root, lists, d)) ==> initial.len() > 0,
            contested == (root.snakes.len() > 1),
            forall|k: int| 0 <= k < initial.len() ==> ((#[trigger] initial[k]).h_score == SCORE_SCALE
                <==> wins_first(root, lists, initial[k].root_dir.unwrap())),
            (exists|d: ApiDirection| wins_first(root, lists, d)) ==> exists|k: int| 0 <= k < initial.len() && (#[trigger] initial[k]).h_score == SCORE_SCALE,
            popped && contested && (exists|d: ApiDirection| wins_first(root, lists, d)) ==> wins_first(root, lists, decision) && done,
        decreases MAX_EXPANSIONS - expansions,
    {
        let ghost before = frontier@;
        let leader = pop_best(&mut frontier);
        proof {
            let k = choose|k: int| 0 <= k < before.len() && leader == before[k] && frontier@ == before.remove(k);
            assert(frontier_ok(before[k], root));
            assert(before[k].depth <= expansions);
            assert(safe_first(root, lists, before[k].root_dir.unwrap()));
            assert forall|q: int| 0 <= q < frontier@.len() implies frontier_ok(#[trigger] frontier@[q], root)
                && frontier@[q].depth <= expansions && frontier@[q].root_dir is Some
                && safe_first(root, lists, frontier@[q].root_dir.unwrap()) by {
                if q < k {
                    assert(frontier@[q] == before[q]);
                } else {
                    assert(frontier@[q] == before[q + 1]);
                }
            }
        }
        let dir = leader.root_dir.unwrap();
        let ghost was_popped = popped;
        decision = dir;
        popped = true;
        let won = contested && (leader.board.snakes.len() == 1 || leader.h_score == SCORE_SCALE);
        proof {
            if !was_popped && contested && (exists|d: ApiDirection| wins_first(root, lists, d)) {
                let k0 = choose|k: int| 0 <= k < initial.len() && (#[trigger] initial[k]).h_score == SCORE_SCALE;
                assert(before == initial);
                assert(leader.h_score >= before[k0].h_score);
                let k = choose|k: int| 0 <= k < before.len() && leader == before[k] && frontier@ == before.remove(k);
                assert(leader.h_score <= SCORE_SCALE);
                assert(initial[k].h_score == SCORE_SCALE);
            }
        }
        if won || elapsed_millis(&start) >= budget_ms {
            done = true;
        }
        if !done {
            let (mut children, _) = expand(&leader, Ghost(root));
            let ghost added = children@;
            let ghost kept = frontier@;
            frontier.append(&mut children);
            proof {
                assert forall|q: int| 0 <= q < frontier@.len() implies frontier_ok(#[trigger] frontier@[q], root)
                    && frontier@[q].depth <= expansions + 1 && frontier@[q].root_dir is Some
                    && safe_first(root, lists, frontier@[q].root_dir.unwrap()) by {
                    if q >= kept.len() {
                        assert(frontier@[q] == added[q - kept.len()]);
                    } else {
                        assert(frontier@[q] == kept[q]);
                    }
                }
            }
        }
        expansions += 1;
    }
    proof {
        if popped {
            let j = choose|j: int| 0 <= j < product(lists).len() && (#[trigger] product(lists)[j])[0] == decision;
            lemma_product_members(lists, lists.len() as int);
            assert(lists[0].contains(product(lists)[j][0]));
            let k = choose|k: int| 0 <= k < lists[0].len() && lists[0][k] == decision;
            assert(root_option(root, lists[0][k]));
        } else {
            assert(frontier@.len() == 0);
            assert(initial.len() == 0);
        }
        assert(lists_ok(root, lists)
            && ((exists|d: ApiDirection| safe_first(root, lists, d)) ==> safe_first(root, lists, decision))
            && ((forall|d: ApiDirection| !safe_first(root, lists, d)) ==> decision == default_move(root.snakes[0].body)));
    }
    decision
}

/// Chooses the acting agent's move for a decision request (see `decide`):
/// a safe first move whenever the search finds one, else the default move,
/// within `budget`. Fails on a request that describes no board this library
/// can hold.
pub fn get_decision(game_state: &ApiGameState, budget: Duration) -> (r: Result<ApiDirection, &'static str>)
    ensures
        r is Ok <==> api_state_fits(*game_state),
        r matches Ok(d) ==> exists|b: BoardView| board_from_api(b, *game_state) && board_wf(b)
            && (d == default_move(b.snakes[0].body) || root_option(b, d))
            && (onto_neck(b, d) ==> forall|d2: ApiDirection| #[trigger] snake_options(b, b.snakes[0]).contains(d2) ==> onto_neck(b, d2))
            && exists|lists: Seq<Seq<ApiDirection>>| {
                &&& lists_ok(b, lists)
                &&& (exists|d2: ApiDirection| safe_first(b, lists, d2)) ==> safe_first(b, lists, d)
                &&& (forall|d2: ApiDirection| !safe_first(b, lists, d2)) ==> d == default_move(b.snakes[0].body)
                &&& b.snakes.len() > 1 && (exists|d2: ApiDirection| wins_first(b, lists, d2)) ==> wins_first(b, lists, d)
            },
{
    match Board::from_api(game_state) {
        Ok(board) => {
            let ghost b = board@;
            let d = decide(board, budget);
            assert(board_from_api(b, *game_state) && board_wf(b));
            Ok(d)
        },
        Err(e) => Err(e),
    }
}

} // verus!
