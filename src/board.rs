use vstd::prelude::*;
use vstd::string::StringExecFns;
use crate::util::{fmt_int, thousands};
use rand::Rng;
use rand::seq::SliceRandom;
use crate::api::{ApiBoard, ApiCoords, ApiDirection, ApiGame, ApiGameState, ApiSnake, dir_at};
use crate::coord::{Coord, UnitAbs, manhattan};
use crate::offset::dir_offset;
use crate::path::{first_index, lemma_first_index_bounds, lemma_first_index_none};
use crate::snake::{Health, Snake, SnakeView, default_move, fed, slithered};
use crate::path::extended_start;
use crate::territory::{cell_at, num_cells, lemma_cell_index_in_range};

verus! {

/// Health of a new or freshly fed snake.
pub const SNAKE_MAX_HEALTH: Health = 100;

/// Segments of a snake when a game starts.
pub const SNAKE_START_SIZE: usize = 3;

/// Chance, in percent, that food appears on a turn.
pub const FOOD_SPAWN_CHANCE: usize = 15;

/// Largest coordinate a board may have; moves off its edge stay representable.
pub const MAX_BOUND: i8 = 120;

/// Most snakes a board may hold.
pub const MAX_SNAKES: usize = 1000;

/// The mathematical content of a board.
pub ghost struct BoardView {
    pub snakes: Seq<SnakeView>,
    pub food: Seq<Coord>,
    pub bound: Coord,
}

/// `c` is on the board whose top-right corner is `bound`.
pub open spec fn in_bounds(c: Coord, bound: Coord) -> bool {
    0 <= c.x <= bound.x && 0 <= c.y <= bound.y
}

/// A well-formed board: bounded size, non-empty bodies, every body node and food on the board.
pub open spec fn board_wf(b: BoardView) -> bool {
    &&& 0 <= b.bound.x <= MAX_BOUND
    &&& 0 <= b.bound.y <= MAX_BOUND
    &&& b.snakes.len() <= MAX_SNAKES
    &&& forall|i: int| 0 <= i < b.snakes.len() ==> #[trigger] b.snakes[i].body.len() > 0
    &&& forall|i: int, k: int|
        0 <= i < b.snakes.len() && 0 <= k < b.snakes[i].body.len() ==> in_bounds(
            #[trigger] b.snakes[i].body[k],
            b.bound,
        )
    &&& forall|j: int| 0 <= j < b.food.len() ==> in_bounds(#[trigger] b.food[j], b.bound)
}

/// `a - n`, but not below zero.
pub open spec fn sat_sub(a: int, n: int) -> int {
    if a > n { a - n } else { 0 }
}

/// Snake `s` occupies cell `c` in a way that is still there after `n` turns:
/// `c` is near enough to its head, and its first node on `c` does not leave with the tail by then.
pub open spec fn blocks(s: SnakeView, c: Coord, n: int) -> bool {
    manhattan(c, s.body[0]) <= s.body.len() && match first_index(s.body, c, 0) {
        Some(i) => i < sat_sub(s.body.len() as int, n),
        None => false,
    }
}

/// The cell one move `d` away from `from`, where it is on the board.
pub open spec fn step_target(from: Coord, d: ApiDirection) -> Coord {
    Coord { x: (from.x + dir_offset(d).dx) as i8, y: (from.y + dir_offset(d).dy) as i8 }
}

/// Moving from `from` in `d` stays on the board and enters no cell that a snake
/// still holds after `n` turns.
pub open spec fn is_free_move(b: BoardView, from: Coord, d: ApiDirection, n: int) -> bool {
    &&& 0 <= from.x + dir_offset(d).dx <= b.bound.x
    &&& 0 <= from.y + dir_offset(d).dy <= b.bound.y
    &&& forall|i: int| 0 <= i < b.snakes.len() ==> !blocks(#[trigger] b.snakes[i], step_target(from, d), n)
}

/// The free moves among the first `k` directions of the table order.
pub open spec fn free_moves_upto(b: BoardView, from: Coord, n: int, k: int) -> Seq<ApiDirection>
    decreases k,
{
    if k <= 0 {
        Seq::empty()
    } else {
        let prev = free_moves_upto(b, from, n, k - 1);
        if is_free_move(b, from, dir_at(k - 1), n) {
            prev.push(dir_at(k - 1))
        } else {
            prev
        }
    }
}

/// The free moves from `from` with `n` turns elapsed, in table order (down, left, up, right).
pub open spec fn free_moves(b: BoardView, from: Coord, n: int) -> Seq<ApiDirection> {
    free_moves_upto(b, from, n, 4)
}

/// The moves a snake is assumed to choose from: its free moves one turn ahead,
/// or its default move alone where it has none.
pub open spec fn snake_options(b: BoardView, s: SnakeView) -> Seq<ApiDirection> {
    let free = free_moves(b, s.body[0], 1);
    if free.len() == 0 { seq![crate::snake::default_move(s.body)] } else { free }
}

/// A protocol cell lies on a `w` by `h` board.
pub open spec fn api_cell_fits(c: ApiCoords, w: u32, h: u32) -> bool {
    c.x < w && c.y < h
}

/// A protocol snake can stand on a `w` by `h` board.
pub open spec fn api_snake_fits(s: ApiSnake, w: u32, h: u32) -> bool {
    &&& s.body@.len() > 0
    &&& s.health <= 255
    &&& forall|k: int| 0 <= k < s.body@.len() ==> api_cell_fits(#[trigger] s.body@[k], w, h)
}

/// A decision request that describes a board this library can hold.
pub open spec fn api_state_fits(g: ApiGameState) -> bool {
    let w = g.board.width;
    let h = g.board.height;
    &&& 1 <= w <= MAX_BOUND + 1
    &&& 1 <= h <= MAX_BOUND + 1
    &&& g.board.snakes@.len() + 1 <= MAX_SNAKES
    &&& api_snake_fits(g.you, w, h)
    &&& forall|i: int| 0 <= i < g.board.snakes@.len() ==> api_snake_fits(#[trigger] g.board.snakes@[i], w, h)
    &&& forall|j: int| 0 <= j < g.board.food@.len() ==> api_cell_fits(#[trigger] g.board.food@[j], w, h)
}

/// Snake `s` holds what protocol snake `a` describes.
pub open spec fn snake_from_api(s: SnakeView, a: ApiSnake) -> bool {
    &&& s.health == a.health
    &&& s.body.len() == a.body@.len()
    &&& forall|k: int| 0 <= k < a.body@.len() ==> (#[trigger] s.body[k]).x == a.body@[k].x && s.body[k].y == a.body@[k].y
}

/// Why a snake left the board.
#[derive(Copy, Clone, PartialEq, Eq, Debug, Structural)]
pub enum DeathCause {
    Starved,
    OutOfBounds,
    OtherCollision,
    HeadToHead,
    SelfCollision,
}

impl DeathCause {
    /// A short name of the cause.
    pub fn as_str(&self) -> (r: &'static str) {
        match self {
            DeathCause::Starved => "starved",
            DeathCause::OutOfBounds => "out-of-bounds",
            DeathCause::OtherCollision => "other-collision",
            DeathCause::HeadToHead => "head-to-head",
            DeathCause::SelfCollision => "self-collision",
        }
    }
}

/// The move snake `i` makes: the one given for it, else its default move.
pub open spec fn chosen_move(b: BoardView, moves: Seq<ApiDirection>, i: int) -> ApiDirection {
    if i < moves.len() { moves[i] } else { default_move(b.snakes[i].body) }
}

/// Snake `i` after its move, fed where its new head is on food.
pub open spec fn moved_snake(b: BoardView, moves: Seq<ApiDirection>, i: int) -> SnakeView {
    let s = slithered(b.snakes[i], chosen_move(b, moves, i));
    if first_index(b.food, s.body[0], 0) is Some { fed(s, SNAKE_MAX_HEALTH) } else { s }
}

/// Every snake after its move, before any is removed.
pub open spec fn moved_snakes(b: BoardView, moves: Seq<ApiDirection>) -> Seq<SnakeView> {
    Seq::new(b.snakes.len(), |i: int| moved_snake(b, moves, i))
}

/// The first collision of snake `i`'s head with snake `j` or a later one, in index order:
/// another snake's body at a non-zero index; the head of another snake of at
/// least the same size; its own body past the head.
pub open spec fn collision_from(ms: Seq<SnakeView>, i: int, j: int) -> Option<DeathCause>
    decreases ms.len() - j,
{
    if j < 0 || j >= ms.len() {
        None
    } else if j != i {
        if first_index(ms[j].body, ms[i].body[0], 1) is Some {
            Some(DeathCause::OtherCollision)
        } else if ms[j].body[0] == ms[i].body[0] && ms[i].body.len() <= ms[j].body.len() {
            Some(DeathCause::HeadToHead)
        } else {
            collision_from(ms, i, j + 1)
        }
    } else if first_index(ms[j].body, ms[i].body[0], 1) is Some {
        Some(DeathCause::SelfCollision)
    } else {
        collision_from(ms, i, j + 1)
    }
}

/// Why moved snake `i` dies this turn, if it does.
pub open spec fn death_cause(ms: Seq<SnakeView>, bound: Coord, i: int) -> Option<DeathCause> {
    if ms[i].health == 0 {
        Some(DeathCause::Starved)
    } else if !in_bounds(ms[i].body[0], bound) {
        Some(DeathCause::OutOfBounds)
    } else {
        collision_from(ms, i, 0)
    }
}

/// The snakes among the first `k` that live, in order.
pub open spec fn survivors_upto(ms: Seq<SnakeView>, bound: Coord, k: int) -> Seq<SnakeView>
    decreases k,
{
    if k <= 0 {
        Seq::empty()
    } else {
        let prev = survivors_upto(ms, bound, k - 1);
        if death_cause(ms, bound, k - 1) is None { prev.push(ms[k - 1]) } else { prev }
    }
}

/// The indices and causes of the snakes among the first `k` that die, in index order.
pub open spec fn deaths_upto(ms: Seq<SnakeView>, bound: Coord, k: int) -> Seq<(usize, DeathCause)>
    decreases k,
{
    if k <= 0 {
        Seq::empty()
    } else {
        let prev = deaths_upto(ms, bound, k - 1);
        match death_cause(ms, bound, k - 1) {
            Some(c) => prev.push(((k - 1) as usize, c)),
            None => prev,
        }
    }
}

/// Food item `j` lies on the cell of some moved snake's head, so it is eaten
/// (every copy of food on that cell goes).
pub open spec fn food_eaten(food: Seq<Coord>, ms: Seq<SnakeView>, j: int) -> bool {
    exists|i: int| 0 <= i < ms.len() && #[trigger] ms[i].body[0] == food[j]
}

/// The first `k` food items, less those eaten.
pub open spec fn food_left_upto(food: Seq<Coord>, ms: Seq<SnakeView>, k: int) -> Seq<Coord>
    decreases k,
{
    if k <= 0 {
        Seq::empty()
    } else {
        let prev = food_left_upto(food, ms, k - 1);
        if food_eaten(food, ms, k - 1) { prev } else { prev.push(food[k - 1]) }
    }
}

/// The board one turn on, without new food: snakes moved and fed, food eaten, the dead removed.
pub open spec fn advanced(b: BoardView, moves: Seq<ApiDirection>) -> BoardView {
    let ms = moved_snakes(b, moves);
    BoardView {
        snakes: survivors_upto(ms, b.bound, ms.len() as int),
        food: food_left_upto(b.food, ms, b.food.len() as int),
        bound: b.bound,
    }
}

/// The snakes that die in that turn, by their index before it, in index order.
pub open spec fn advance_deaths(b: BoardView, moves: Seq<ApiDirection>) -> Seq<(usize, DeathCause)> {
    let ms = moved_snakes(b, moves);
    deaths_upto(ms, b.bound, ms.len() as int)
}

/// The body of a moved snake keeps every node of the old body but the head position on the board.
proof fn lemma_moved_body_in_bounds(b: BoardView, moves: Seq<ApiDirection>, i: int)
    requires
        board_wf(b),
        0 <= i < b.snakes.len(),
    ensures
        moved_snake(b, moves, i).body.len() > 0,
        forall|k: int| 1 <= k < moved_snake(b, moves, i).body.len() ==> in_bounds(
            #[trigger] moved_snake(b, moves, i).body[k],
            b.bound,
        ),
{
    let s = b.snakes[i];
    assert(s.body.len() > 0);
    let d = chosen_move(b, moves, i);
    let sl = slithered(s, d);
    let ext = extended_start(s.body, dir_offset(d));
    assert(sl.body == ext.drop_last());
    assert forall|k: int| 1 <= k < sl.body.len() implies in_bounds(#[trigger] sl.body[k], b.bound) by {
        assert(sl.body[k] == s.body[k - 1]);
        assert(in_bounds(s.body[k - 1], b.bound));
    }
    if first_index(b.food, sl.body[0], 0) is Some {
        let f = fed(sl, SNAKE_MAX_HEALTH);
        assert forall|k: int| 1 <= k < f.body.len() implies in_bounds(#[trigger] f.body[k], b.bound) by {
            if k < sl.body.len() {
                assert(f.body[k] == sl.body[k]);
            } else {
                assert(f.body[k] == sl.body.last());
                if sl.body.len() == 1 {
                    crate::path::lemma_first_index_bounds(b.food, sl.body[0], 0);
                    let j = first_index(b.food, sl.body[0], 0).unwrap();
                    assert(in_bounds(b.food[j], b.bound));
                }
            }
        }
    }
}

/// One turn changes a snake's health by the rules: a snake that does not eat
/// and is not starved loses exactly one unit; a starved one stays at zero; one
/// that eats is back at the maximum.
pub proof fn lemma_health_after_turn(b: BoardView, moves: Seq<ApiDirection>, i: int)
    requires
        board_wf(b),
        0 <= i < b.snakes.len(),
    ensures
        ({
            let m = moved_snake(b, moves, i);
            let ate = first_index(b.food, m.body[0], 0) is Some;
            &&& !ate && b.snakes[i].health > 0 ==> m.health == b.snakes[i].health - 1
            &&& !ate && b.snakes[i].health == 0 ==> m.health == 0
            &&& ate ==> m.health == SNAKE_MAX_HEALTH
        }),
{
    let s = slithered(b.snakes[i], chosen_move(b, moves, i));
    assert(b.snakes[i].body.len() > 0);
    if first_index(b.food, s.body[0], 0) is Some {
        assert(fed(s, SNAKE_MAX_HEALTH).body[0] == s.body[0]);
    }
}

/// Indices before the turn of the snakes among the first `k` that live, in order.
pub open spec fn survivor_indices_upto(ms: Seq<SnakeView>, bound: Coord, k: int) -> Seq<int>
    decreases k,
{
    if k <= 0 {
        Seq::empty()
    } else {
        let prev = survivor_indices_upto(ms, bound, k - 1);
        if death_cause(ms, bound, k - 1) is None { prev.push(k - 1) } else { prev }
    }
}

proof fn lemma_survivors_indexed(ms: Seq<SnakeView>, bound: Coord, k: int)
    requires
        0 <= k <= ms.len(),
        ms.len() <= usize::MAX,
    ensures
        survivors_upto(ms, bound, k).len() == survivor_indices_upto(ms, bound, k).len(),
        survivors_upto(ms, bound, k).len() + deaths_upto(ms, bound, k).len() == k,
        forall|p: int| 0 <= p < survivor_indices_upto(ms, bound, k).len() ==> {
            let idx = #[trigger] survivor_indices_upto(ms, bound, k)[p];
            &&& 0 <= idx < k
            &&& survivors_upto(ms, bound, k)[p] == ms[idx]
            &&& death_cause(ms, bound, idx) is None
        },
        forall|q: int| 0 <= q < deaths_upto(ms, bound, k).len() ==> {
            let d = #[trigger] deaths_upto(ms, bound, k)[q];
            &&& 0 <= d.0 < k
            &&& death_cause(ms, bound, d.0 as int) == Some(d.1)
        },
    decreases k,
{
    if k > 0 {
        lemma_survivors_indexed(ms, bound, k - 1);
        let si = survivor_indices_upto(ms, bound, k - 1);
        let d = deaths_upto(ms, bound, k - 1);
        assert forall|p: int| 0 <= p < survivor_indices_upto(ms, bound, k).len() implies {
            let idx = #[trigger] survivor_indices_upto(ms, bound, k)[p];
            &&& 0 <= idx < k
            &&& survivors_upto(ms, bound, k)[p] == ms[idx]
            &&& death_cause(ms, bound, idx) is None
        } by {
            if p < si.len() {
                assert(survivor_indices_upto(ms, bound, k)[p] == si[p]);
                assert(survivors_upto(ms, bound, k)[p] == survivors_upto(ms, bound, k - 1)[p]);
            }
        }
        assert forall|q: int| 0 <= q < deaths_upto(ms, bound, k).len() implies {
            let dq = #[trigger] deaths_upto(ms, bound, k)[q];
            &&& 0 <= dq.0 < k
            &&& death_cause(ms, bound, dq.0 as int) == Some(dq.1)
        } by {
            if q < d.len() {
                assert(deaths_upto(ms, bound, k)[q] == d[q]);
            } else {
                assert(((k - 1) as usize) as int == k - 1);
            }
        }
    }
}

/// A turn never adds snakes, and the snakes it reports dead are not on the
/// board after it: the board keeps, in order, exactly the moved snakes that
/// have no cause of death, and every reported death names a snake with one.
pub proof fn lemma_advance_removes_dead(b: BoardView, moves: Seq<ApiDirection>)
    requires
        board_wf(b),
    ensures
        ({
            let ms = moved_snakes(b, moves);
            let after = advanced(b, moves);
            let deaths = advance_deaths(b, moves);
            let kept = survivor_indices_upto(ms, b.bound, ms.len() as int);
            &&& after.snakes.len() <= b.snakes.len()
            &&& after.snakes.len() + deaths.len() == b.snakes.len()
            &&& kept.len() == after.snakes.len()
            &&& forall|p: int| 0 <= p < kept.len() ==> 0 <= #[trigger] kept[p] < b.snakes.len()
                && after.snakes[p] == ms[kept[p]]
            &&& forall|p: int, q: int| 0 <= p < kept.len() && 0 <= q < deaths.len()
                ==> #[trigger] kept[p] != (#[trigger] deaths[q]).0
        }),
{
    let ms = moved_snakes(b, moves);
    lemma_survivors_indexed(ms, b.bound, ms.len() as int);
}

/// Replaying the same moves on an equal board gives the same board and the same deaths.
pub proof fn lemma_advance_deterministic(b1: BoardView, b2: BoardView, moves1: Seq<ApiDirection>, moves2: Seq<ApiDirection>)
    requires
        b1 == b2,
        moves1 == moves2,
    ensures
        advanced(b1, moves1) == advanced(b2, moves2),
        advanced(b1, moves1).snakes == advanced(b2, moves2).snakes,
        advanced(b1, moves1).food == advanced(b2, moves2).food,
        advance_deaths(b1, moves1) == advance_deaths(b2, moves2),
{
}

/// Every free move leads to a cell on the board.
pub proof fn lemma_free_move_in_bounds(b: BoardView, from: Coord, n: int, m: int)
    requires
        board_wf(b),
        0 <= m < free_moves(b, from, n).len(),
    ensures
        is_free_move(b, from, free_moves(b, from, n)[m], n),
        in_bounds(step_target(from, free_moves(b, from, n)[m]), b.bound),
{
    lemma_free_moves_upto(b, from, n, 4);
}

proof fn lemma_free_moves_upto(b: BoardView, from: Coord, n: int, k: int)
    requires
        0 <= k <= 4,
    ensures
        free_moves_upto(b, from, n, k).len() <= k,
        forall|m: int| 0 <= m < free_moves_upto(b, from, n, k).len() ==> is_free_move(b, from, #[trigger] free_moves_upto(b, from, n, k)[m], n),
    decreases k,
{
    if k > 0 {
        lemma_free_moves_upto(b, from, n, k - 1);
        let prev = free_moves_upto(b, from, n, k - 1);
        assert forall|m: int| 0 <= m < free_moves_upto(b, from, n, k).len() implies is_free_move(b, from, #[trigger] free_moves_upto(b, from, n, k)[m], n) by {
            if m < prev.len() {
                assert(free_moves_upto(b, from, n, k)[m] == prev[m]);
            }
        }
    }
}

/// Some entry of `r` names index `i`.
pub open spec fn lists_index(r: Seq<(usize, UnitAbs)>, i: int) -> bool {
    exists|k: int| 0 <= k < r.len() && (#[trigger] r[k]).0 == i
}

/// No snake has a node on `c`.
pub open spec fn unoccupied(b: BoardView, c: Coord) -> bool {
    forall|i: int, k: int| 0 <= i < b.snakes.len() && 0 <= k < b.snakes[i].body.len() ==> #[trigger] b.snakes[i].body[k] != c
}

/// The unoccupied cells among the first `k` cells, in row-by-row order.
pub open spec fn free_cells_upto(b: BoardView, k: int) -> Seq<Coord>
    decreases k,
{
    if k <= 0 {
        Seq::empty()
    } else {
        let prev = free_cells_upto(b, k - 1);
        if unoccupied(b, cell_at(k - 1, b.bound)) { prev.push(cell_at(k - 1, b.bound)) } else { prev }
    }
}

/// The unoccupied cells of the board, row by row.
pub open spec fn free_cells_of(b: BoardView) -> Seq<Coord> {
    free_cells_upto(b, num_cells(b))
}

/// Relies on rand's `Rng::gen_range`, which draws from `[low, high)` and panics when the range is empty.
#[verifier::external_body]
fn random_below(n: usize) -> (r: usize)
    requires
        n > 0,
    ensures
        r < n,
{
    rand::thread_rng().gen_range(0, n)
}

/// Relies on rand's `SliceRandom::shuffle`, which permutes the slice in place.
#[verifier::external_body]
fn shuffle_coords(v: &mut Vec<Coord>)
    ensures
        final(v)@.len() == old(v)@.len(),
        final(v)@.to_multiset() == old(v)@.to_multiset(),
{
    v.as_mut_slice().shuffle(&mut rand::thread_rng())
}

/// Removing item `p` by swapping in the last keeps a sequence free of
/// duplicates and removes exactly that item.
proof fn lemma_swap_remove(s: Seq<Coord>, p: int)
    requires
        s.no_duplicates(),
        0 <= p < s.len(),
    ensures
        s.update(p, s.last()).drop_last().no_duplicates(),
        s.update(p, s.last()).drop_last().len() == s.len() - 1,
        forall|c: Coord| #[trigger] s.update(p, s.last()).drop_last().contains(c) <==> (s.contains(c) && c != s[p]),
{
    let t = s.update(p, s.last()).drop_last();
    assert forall|c: Coord| #[trigger] t.contains(c) <==> (s.contains(c) && c != s[p]) by {
        if t.contains(c) {
            let q = choose|q: int| 0 <= q < t.len() && t[q] == c;
            if q == p {
                assert(c == s[s.len() - 1]);
            } else {
                assert(c == s[q]);
            }
        }
        if s.contains(c) && c != s[p] {
            let q = choose|q: int| 0 <= q < s.len() && s[q] == c;
            if q == s.len() - 1 {
                assert(t[p] == c);
            } else {
                assert(t[q] == c);
            }
        }
    }
}

/// Taking `c`, the removed item, out of `free` and into `taken` keeps the two
/// apart, each free of duplicates, and every on-board cell in one of them.
proof fn lemma_take_one(
    free0: Seq<Coord>,
    free1: Seq<Coord>,
    taken0: Seq<Coord>,
    taken1: Seq<Coord>,
    c: Coord,
    bound: Coord,
)
    requires
        free0.no_duplicates(),
        taken0.no_duplicates(),
        free0.contains(c),
        free1.no_duplicates(),
        forall|x: Coord| #[trigger] free1.contains(x) <==> (free0.contains(x) && x != c),
        free1.len() == free0.len() - 1,
        taken1 == taken0.push(c),
        forall|q: int| 0 <= q < free0.len() ==> in_bounds(#[trigger] free0[q], bound),
        forall|q: int| 0 <= q < taken0.len() ==> in_bounds(#[trigger] taken0[q], bound),
        forall|q: int, m: int| 0 <= q < taken0.len() && 0 <= m < free0.len() ==> #[trigger] taken0[q] != #[trigger] free0[m],
    ensures
        taken1.no_duplicates(),
        forall|q: int| 0 <= q < free1.len() ==> in_bounds(#[trigger] free1[q], bound),
        forall|q: int| 0 <= q < taken1.len() ==> in_bounds(#[trigger] taken1[q], bound),
        forall|q: int, m: int| 0 <= q < taken1.len() && 0 <= m < free1.len() ==> #[trigger] taken1[q] != #[trigger] free1[m],
        (forall|x: Coord| in_bounds(x, bound) && !taken0.contains(x) ==> #[trigger] free0.contains(x))
            ==> forall|x: Coord| in_bounds(x, bound) && !taken1.contains(x) ==> #[trigger] free1.contains(x),
        free1.len() + taken1.len() == free0.len() + taken0.len(),
{
    let pc = choose|q: int| 0 <= q < free0.len() && free0[q] == c;
    assert forall|q: int| 0 <= q < free1.len() implies in_bounds(#[trigger] free1[q], bound) by {
        assert(free1.contains(free1[q]));
        let m = choose|m: int| 0 <= m < free0.len() && free0[m] == free1[q];
    }
    assert forall|q: int| 0 <= q < taken1.len() implies in_bounds(#[trigger] taken1[q], bound) by {
        if q < taken0.len() {
            assert(taken1[q] == taken0[q]);
        }
    }
    assert forall|q: int, m: int| 0 <= q < taken1.len() && 0 <= m < free1.len() implies #[trigger] taken1[q] != #[trigger] free1[m] by {
        assert(free1.contains(free1[m]));
        let m2 = choose|m2: int| 0 <= m2 < free0.len() && free0[m2] == free1[m];
        if q < taken0.len() {
            assert(taken1[q] == taken0[q]);
        }
    }
    assert forall|i: int, j: int| 0 <= i < taken1.len() && 0 <= j < taken1.len() && i != j implies taken1[i] != taken1[j] by {
        if i < taken0.len() && j < taken0.len() {
            assert(taken1[i] == taken0[i] && taken1[j] == taken0[j]);
        } else if i < taken0.len() {
            assert(taken1[i] == taken0[i]);
        } else if j < taken0.len() {
            assert(taken1[j] == taken0[j]);
        }
    }
    if forall|x: Coord| in_bounds(x, bound) && !taken0.contains(x) ==> #[trigger] free0.contains(x) {
        assert forall|x: Coord| in_bounds(x, bound) && !taken1.contains(x) implies #[trigger] free1.contains(x) by {
            assert(!taken0.contains(x)) by {
                if taken0.contains(x) {
                    let q = choose|q: int| 0 <= q < taken0.len() && taken0[q] == x;
                    assert(taken1[q] == x);
                }
            }
            assert(x != c) by {
                assert(taken1[taken0.len() as int] == c);
            }
        }
    }
}

/// The board sizes with fixed starting positions.
pub open spec fn has_fixed_starts(width: int, height: int, num_snakes: int) -> bool {
    (width == height && (width == 7 || width == 11 || width == 19)) && num_snakes <= 8
}

/// `prefix` followed by the decimal digits of `i`.
fn labelled(prefix: &str, i: usize) -> (r: String)
    requires
        i < 1000,
    ensures
        r@ == prefix@ + thousands(i as nat),
{
    let mut r = String::from_str(prefix);
    let digits = fmt_int(i as u128);
    r.append(digits.as_str());
    r
}

/// Protocol snake `a` describes snake `s` on a board.
pub open spec fn api_from_snake(a: ApiSnake, s: SnakeView) -> bool {
    &&& a.health == s.health
    &&& a.body@.len() == s.body.len()
    &&& forall|k: int| 0 <= k < s.body.len() ==> (#[trigger] a.body@[k]).x == s.body[k].x && a.body@[k].y == s.body[k].y
}

/// Whether some snake of `ms` has its head on `c`.
fn any_head_on(ms: &Vec<Snake>, c: Coord) -> (r: bool)
    requires
        forall|k: int| 0 <= k < ms@.len() ==> (#[trigger] ms@[k])@.body.len() > 0,
    ensures
        r == exists|i: int| 0 <= i < ms@.len() && (#[trigger] ms@[i])@.body[0] == c,
{
    let mut i: usize = 0;
    while i < ms.len()
        invariant
            forall|k: int| 0 <= k < ms@.len() ==> (#[trigger] ms@[k])@.body.len() > 0,
            forall|k: int| 0 <= k < i ==> (#[trigger] ms@[k])@.body[0] != c,
        decreases ms@.len() - i,
    {
        if ms[i].head() == c {
            return true;
        }
        i += 1;
    }
    false
}

/// Why snake `i` of `ms` dies, its head on a board with corner `bound`.
fn death_cause_of(ms: &Vec<Snake>, bound: Coord, i: usize) -> (r: Option<DeathCause>)
    requires
        i < ms@.len(),
        forall|k: int| 0 <= k < ms@.len() ==> (#[trigger] ms@[k])@.body.len() > 0,
    ensures
        r == death_cause(ms@.map_values(|s: Snake| s@), bound, i as int),
{
    let ghost v = ms@.map_values(|s: Snake| s@);
    let s = &ms[i];
    assert(v[i as int] == s@);
    if s.starved() {
        return Some(DeathCause::Starved);
    }
    let head = s.head();
    if !(head.x >= 0 && head.x <= bound.x && head.y >= 0 && head.y <= bound.y) {
        return Some(DeathCause::OutOfBounds);
    }
    let mut j: usize = 0;
    while j < ms.len()
        invariant
            i < ms@.len(),
            v == ms@.map_values(|s: Snake| s@),
            v[i as int] == ms@[i as int]@,
            head == v[i as int].body[0],
            v[i as int].health != 0,
            in_bounds(head, bound),
            collision_from(v, i as int, 0) == collision_from(v, i as int, j as int),
            forall|k: int| 0 <= k < ms@.len() ==> (#[trigger] ms@[k])@.body.len() > 0,
        decreases ms@.len() - j,
    {
        let o = &ms[j];
        assert(v[j as int] == o@);
        if j != i {
            if o.find_first_node(head, 1).is_some() {
                return Some(DeathCause::OtherCollision);
            } else if o.head() == head && ms[i].size() <= o.size() {
                return Some(DeathCause::HeadToHead);
            }
        } else if o.find_first_node(head, 1).is_some() {
            return Some(DeathCause::SelfCollision);
        }
        j += 1;
    }
    None
}

/// `b` is the board that decision request `g` describes: its size, the acting
/// agent as snake 0, its opponents after it in order, and its food.
pub open spec fn board_from_api(b: BoardView, g: ApiGameState) -> bool {
    &&& b.bound.x == g.board.width - 1
    &&& b.bound.y == g.board.height - 1
    &&& b.snakes.len() == g.board.snakes@.len() + 1
    &&& snake_from_api(b.snakes[0], g.you)
    &&& forall|i: int| 0 <= i < g.board.snakes@.len()
        ==> snake_from_api(#[trigger] b.snakes[i + 1], g.board.snakes@[i])
    &&& b.food.len() == g.board.food@.len()
    &&& forall|j: int| 0 <= j < g.board.food@.len()
        ==> (#[trigger] b.food[j]).x == g.board.food@[j].x && b.food[j].y == g.board.food@[j].y
}

/// The game-rules engine's state. Snake 0 is the acting agent.
#[derive(Clone, PartialEq, Eq, Debug)]
pub struct Board {
    pub snakes: Vec<Snake>,
    pub food: Vec<Coord>,
    /// Top-right corner; the origin is the bottom-left one.
    pub bound: Coord,
}

impl View for Board {
    type V = BoardView;

    open spec fn view(&self) -> BoardView {
        BoardView {
            snakes: self.snakes@.map_values(|s: Snake| s@),
            food: self.food@,
            bound: self.bound,
        }
    }
}

impl Board {
    pub open spec fn wf(&self) -> bool {
        board_wf(self@)
    }

    /// The board a decision request describes, with the acting agent as snake 0
    /// and its opponents after it in their order. Fails on a request that
    /// describes no board this library can hold.
    pub fn from_api(game_state: &ApiGameState) -> (r: Result<Board, &'static str>)
        ensures
            r is Ok <==> api_state_fits(*game_state),
            r matches Ok(b) ==> b.wf() && board_from_api(b@, *game_state),
    {
        let w = game_state.board.width;
        let h = game_state.board.height;
        if w < 1 || w > 121 || h < 1 || h > 121 {
            return Err("Malformed board: unsupported size");
        }
        if game_state.board.snakes.len() >= MAX_SNAKES {
            return Err("Malformed board: too many snakes");
        }
        let bound = Coord { x: (w - 1) as i8, y: (h - 1) as i8 };
        let mut snakes: Vec<Snake> = Vec::new();
        let you = Self::snake_on_board(&game_state.you, w, h);
        match you {
            Err(e) => {
                return Err(e);
            },
            Ok(s) => {
                snakes.push(s);
            },
        }
        let mut i: usize = 0;
        while i < game_state.board.snakes.len()
            invariant
                1 <= w <= 121,
                1 <= h <= 121,
                bound == (Coord { x: (w - 1) as i8, y: (h - 1) as i8 }),
                w == game_state.board.width,
                h == game_state.board.height,
                i <= game_state.board.snakes@.len(),
                snakes@.len() == i + 1,
                api_snake_fits(game_state.you, w, h),
                snake_from_api(snakes@[0]@, game_state.you),
                forall|j: int| 0 <= j < i ==> api_snake_fits(#[trigger] game_state.board.snakes@[j], w, h),
                forall|j: int| 0 <= j < i ==> snake_from_api(#[trigger] snakes@[j + 1]@, game_state.board.snakes@[j]),
                forall|j: int| 0 <= j < snakes@.len() ==> (#[trigger] snakes@[j]@).body.len() > 0,
                forall|j: int, k: int| 0 <= j < snakes@.len() && 0 <= k < snakes@[j]@.body.len()
                    ==> in_bounds(#[trigger] snakes@[j]@.body[k], bound),
            decreases game_state.board.snakes@.len() - i,
        {
            match Self::snake_on_board(&game_state.board.snakes[i], w, h) {
                Err(e) => {
                    return Err(e);
                },
                Ok(s) => {
                    snakes.push(s);
                },
            }
            i += 1;
        }
        let mut food: Vec<Coord> = Vec::new();
        let mut j: usize = 0;
        while j < game_state.board.food.len()
            invariant
                1 <= w <= 121,
                1 <= h <= 121,
                bound == (Coord { x: (w - 1) as i8, y: (h - 1) as i8 }),
                w == game_state.board.width,
                h == game_state.board.height,
                j <= game_state.board.food@.len(),
                food@.len() == j,
                forall|k: int| 0 <= k < j ==> api_cell_fits(#[trigger] game_state.board.food@[k], w, h),
                forall|k: int| 0 <= k < j ==> (#[trigger] food@[k]).x == game_state.board.food@[k].x
                    && food@[k].y == game_state.board.food@[k].y,
            decreases game_state.board.food@.len() - j,
        {
            let c = game_state.board.food[j];
            if c.x >= w || c.y >= h {
                return Err("Malformed board: food off the board");
            }
            food.push(Coord { x: c.x as i8, y: c.y as i8 });
            j += 1;
        }
        let b = Board { snakes, food, bound };
        assert(b@.snakes.len() == game_state.board.snakes@.len() + 1);
        assert forall|i: int| 0 <= i < game_state.board.snakes@.len()
            implies snake_from_api(#[trigger] b@.snakes[i + 1], game_state.board.snakes@[i]) by {
            assert(b@.snakes[i + 1] == b.snakes@[i + 1]@);
        }
        Ok(b)
    }

    /// One protocol snake, checked to fit a `w` by `h` board.
    fn snake_on_board(a: &ApiSnake, w: u32, h: u32) -> (r: Result<Snake, &'static str>)
        requires
            1 <= w <= 121,
            1 <= h <= 121,
        ensures
            r is Ok <==> api_snake_fits(*a, w, h),
            r matches Ok(s) ==> snake_from_api(s@, *a) && s@.body.len() > 0 && forall|k: int|
                0 <= k < s@.body.len() ==> in_bounds(
                    #[trigger] s@.body[k],
                    Coord { x: (w - 1) as i8, y: (h - 1) as i8 },
                ),
    {
        let mut k: usize = 0;
        while k < a.body.len()
            invariant
                forall|m: int| 0 <= m < k ==> api_cell_fits(#[trigger] a.body@[m], w, h),
            decreases a.body@.len() - k,
        {
            if a.body[k].x >= w || a.body[k].y >= h {
                return Err("Malformed snake: body off the board");
            }
            k += 1;
        }
        Snake::from_api(a)
    }

    /// Whether moving from `from` in `dir` is free with `n_turns` elapsed.
    fn move_is_free(&self, from: Coord, dir: ApiDirection, n_turns: usize) -> (r: bool)
        requires
            self.wf(),
        ensures
            r == is_free_move(self@, from, dir, n_turns as int),
    {
        let o = dir.offset();
        let tx: i16 = from.x as i16 + o.dx as i16;
        let ty: i16 = from.y as i16 + o.dy as i16;
        if tx < 0 || tx > self.bound.x as i16 || ty < 0 || ty > self.bound.y as i16 {
            return false;
        }
        let c = Coord { x: tx as i8, y: ty as i8 };
        assert(c == step_target(from, dir));
        let mut i: usize = 0;
        while i < self.snakes.len()
            invariant
                self.wf(),
                c == step_target(from, dir),
                forall|j: int| 0 <= j < i ==> !blocks(#[trigger] self@.snakes[j], c, n_turns as int),
            decreases self.snakes@.len() - i,
        {
            let s = &self.snakes[i];
            assert(self@.snakes[i as int] == s@);
            assert(s@.body.len() > 0);
            let size = s.size();
            if s.head().dist_to(c) as usize <= size {
                match s.find_first_node(c, 0) {
                    Some(idx) => {
                        if idx < size.saturating_sub(n_turns) {
                            return false;
                        }
                    },
                    None => {},
                }
            }
            i += 1;
        }
        true
    }

    /// The moves from `from` that stay on the board and enter no cell a snake
    /// still holds after `n_turns` turns, in table order.
    pub fn get_free_moves(&self, from: Coord, n_turns: usize) -> (r: Vec<ApiDirection>)
        requires
            self.wf(),
        ensures
            r@ == free_moves(self@, from, n_turns as int),
    {
        let mut r: Vec<ApiDirection> = Vec::new();
        let mut k: usize = 0;
        while k < 4
            invariant
                self.wf(),
                k <= 4,
                r@ == free_moves_upto(self@, from, n_turns as int, k as int),
            decreases 4 - k,
        {
            let d = ApiDirection::from_index(k);
            if self.move_is_free(from, d, n_turns) {
                r.push(d);
            }
            k += 1;
        }
        r
    }

    /// For each snake, the moves it may make next turn: its free moves, or its
    /// default move alone where it has none (snakes must move).
    pub fn enumerate_snake_moves(&self) -> (r: Vec<Vec<ApiDirection>>)
        requires
            self.wf(),
        ensures
            r@.len() == self@.snakes.len(),
            forall|i: int| 0 <= i < r@.len() ==> (#[trigger] r@[i])@ == snake_options(self@, self@.snakes[i]),
    {
        let mut r: Vec<Vec<ApiDirection>> = Vec::new();
        let mut i: usize = 0;
        while i < self.snakes.len()
            invariant
                self.wf(),
                i <= self@.snakes.len(),
                r@.len() == i,
                forall|j: int| 0 <= j < i ==> (#[trigger] r@[j])@ == snake_options(self@, self@.snakes[j]),
            decreases self@.snakes.len() - i,
        {
            let s = &self.snakes[i];
            assert(self@.snakes[i as int] == s@);
            let mut moves = self.get_free_moves(s.head(), 1);
            if moves.len() == 0 {
                moves.push(s.get_default_move());
                assert(moves@ =~= seq![crate::snake::default_move(s@.body)]);
            }
            r.push(moves);
            i += 1;
        }
        r
    }

    /// A new game: `num_snakes` snakes of full health, each a stack of
    /// `SNAKE_START_SIZE` segments on its own start, and one food item per
    /// snake on distinct random free cells, as far as cells remain. On the 7,
    /// 11 and 19 square boards, with at most eight snakes, the starts are a
    /// random choice among eight fixed positions; otherwise they are random
    /// cells. Fails where the size is unsupported or there are fewer cells than
    /// snakes.
    pub fn init(width: UnitAbs, height: UnitAbs, num_snakes: usize) -> (r: Result<Board, &'static str>)
        ensures
            r is Err <==> !(1 <= width <= MAX_BOUND + 1 && 1 <= height <= MAX_BOUND + 1 && num_snakes <= MAX_SNAKES)
                || (!has_fixed_starts(width as int, height as int, num_snakes as int) && width * height < num_snakes),
            r matches Ok(b) ==> {
                &&& b.wf()
                &&& b@.bound == (Coord { x: (width - 1) as i8, y: (height - 1) as i8 })
                &&& b@.snakes.len() == num_snakes
                &&& forall|i: int| 0 <= i < num_snakes ==> (#[trigger] b@.snakes[i]).health == SNAKE_MAX_HEALTH
                    && b@.snakes[i].body.len() == SNAKE_START_SIZE
                    && forall|k: int| 0 <= k < SNAKE_START_SIZE ==> #[trigger] b@.snakes[i].body[k] == b@.snakes[i].body[0]
                &&& forall|i: int, j: int| 0 <= i < num_snakes && 0 <= j < num_snakes && i != j
                    ==> (#[trigger] b@.snakes[i]).body[0] != (#[trigger] b@.snakes[j]).body[0]
                &&& b@.food.len() == if num_snakes <= width * height - num_snakes { num_snakes as int } else { width * height - num_snakes }
                &&& b@.food.no_duplicates()
                &&& forall|f: int, i: int| 0 <= f < b@.food.len() && 0 <= i < num_snakes
                    ==> (#[trigger] b@.food[f]) != (#[trigger] b@.snakes[i]).body[0]
            },
    {
        if width < 1 || width > 121 || height < 1 || height > 121 || num_snakes > MAX_SNAKES {
            return Err("Unsupported board size or snake count");
        }
        let bound = Coord { x: (width - 1) as i8, y: (height - 1) as i8 };
        let mut free_spaces: Vec<Coord> = Vec::new();
        let mut y: i8 = 0;
        while y <= bound.y
            invariant
                0 <= bound.x <= 120,
                0 <= bound.y <= 120,
                0 <= y <= bound.y + 1,
                free_spaces@.len() == y * (bound.x + 1),
                free_spaces@.no_duplicates(),
                forall|k: int| 0 <= k < free_spaces@.len() ==> in_bounds(#[trigger] free_spaces@[k], bound)
                    && free_spaces@[k].y < y,
                forall|c: Coord| in_bounds(c, bound) && c.y < y ==> #[trigger] free_spaces@.contains(c),
            decreases bound.y + 1 - y,
        {
            let mut x: i8 = 0;
            while x <= bound.x
                invariant
                    0 <= bound.x <= 120,
                    0 <= y <= bound.y <= 120,
                    0 <= x <= bound.x + 1,
                    free_spaces@.len() == y * (bound.x + 1) + x,
                    free_spaces@.no_duplicates(),
                    forall|k: int| 0 <= k < free_spaces@.len() ==> in_bounds(#[trigger] free_spaces@[k], bound)
                        && (free_spaces@[k].y < y || (free_spaces@[k].y == y && free_spaces@[k].x < x)),
                    forall|c: Coord| in_bounds(c, bound) && (c.y < y || (c.y == y && c.x < x)) ==> #[trigger] free_spaces@.contains(c),
                decreases bound.x + 1 - x,
            {
                let ghost before = free_spaces@;
                free_spaces.push(Coord { x, y });
                proof {
                    assert(free_spaces@.last() == Coord { x, y });
                    assert forall|c: Coord| in_bounds(c, bound) && (c.y < y || (c.y == y && c.x < x + 1))
                        implies #[trigger] free_spaces@.contains(c) by {
                        if c != (Coord { x, y }) {
                            assert(before.contains(c));
                            let q = choose|q: int| 0 <= q < before.len() && before[q] == c;
                            assert(free_spaces@[q] == c);
                        } else {
                            assert(free_spaces@[free_spaces@.len() - 1] == c);
                        }
                    }
                }
                x += 1;
            }
            proof {
                assert(y * (bound.x + 1) + bound.x + 1 == (y + 1) * (bound.x + 1)) by (nonlinear_arith);
            }
            y += 1;
        }
        assert(free_spaces@.len() == width * height) by (nonlinear_arith)
            requires free_spaces@.len() == (bound.y + 1) * (bound.x + 1), bound.x + 1 == width, bound.y + 1 == height;
        let mut starts: Vec<Coord> = Vec::new();
        if width == height && (width == 7 || width == 11 || width == 19) && num_snakes <= 8 {
            let mn: i8 = 1;
            let md: i8 = ((width - 1) / 2) as i8;
            let mx: i8 = (width - 2) as i8;
            let mut fixed: Vec<Coord> = vec![
                Coord { x: mn, y: mn },
                Coord { x: mn, y: md },
                Coord { x: mn, y: mx },
                Coord { x: md, y: mn },
                Coord { x: md, y: mx },
                Coord { x: mx, y: mn },
                Coord { x: mx, y: md },
                Coord { x: mx, y: mx },
            ];
            let ghost positions = fixed@;
            assert(forall|k: int| 0 <= k < positions.len() ==> in_bounds(#[trigger] positions[k], bound));
            assert(positions.no_duplicates());
            shuffle_coords(&mut fixed);
            proof {
                positions.lemma_multiset_has_no_duplicates();
                assert forall|c: Coord| fixed@.to_multiset().contains(c) implies fixed@.to_multiset().count(c) == 1 by {}
                fixed@.lemma_multiset_has_no_duplicates_conv();
            }
            let mut k: usize = 0;
            while k < num_snakes
                invariant
                    k <= num_snakes <= 8,
                    fixed@.len() == 8,
                    fixed@.to_multiset() == positions.to_multiset(),
                    fixed@.no_duplicates(),
                    forall|q: int| 0 <= q < positions.len() ==> in_bounds(#[trigger] positions[q], bound),
                    starts@ == fixed@.subrange(0, k as int),
                    forall|q: int| 0 <= q < starts@.len() ==> in_bounds(#[trigger] starts@[q], bound),
                    free_spaces@.no_duplicates(),
                    starts@.no_duplicates(),
                    forall|q: int| 0 <= q < free_spaces@.len() ==> in_bounds(#[trigger] free_spaces@[q], bound),
                    forall|q: int, m: int| 0 <= q < starts@.len() && 0 <= m < free_spaces@.len()
                        ==> #[trigger] starts@[q] != #[trigger] free_spaces@[m],
                    forall|c: Coord| in_bounds(c, bound) && !starts@.contains(c) ==> #[trigger] free_spaces@.contains(c),
                    free_spaces@.len() + starts@.len() == width * height,
                decreases num_snakes - k,
            {
                let start = fixed[k];
                proof {
                    vstd::seq_lib::to_multiset_contains(fixed@, start);
                    vstd::seq_lib::to_multiset_contains(positions, start);
                    assert(fixed@.contains(start));
                    let q = choose|q: int| 0 <= q < positions.len() && positions[q] == start;
                    assert(in_bounds(start, bound));
                    assert(!starts@.contains(start)) by {
                        if starts@.contains(start) {
                            let q2 = choose|q2: int| 0 <= q2 < starts@.len() && starts@[q2] == start;
                            assert(fixed@[q2] == fixed@[k as int]);
                        }
                    }
                    assert(free_spaces@.contains(start));
                }
                let mut p: usize = 0;
                while p < free_spaces.len() && free_spaces[p] != start
                    invariant
                        p <= free_spaces@.len(),
                        forall|q: int| 0 <= q < p ==> free_spaces@[q] != start,
                    decreases free_spaces@.len() - p,
                {
                    p += 1;
                }
                proof {
                    if p == free_spaces@.len() {
                        let q = choose|q: int| 0 <= q < free_spaces@.len() && free_spaces@[q] == start;
                    }
                }
                let ghost before = free_spaces@;
                let ghost starts_before = starts@;
                free_spaces.swap_remove(p);
                proof {
                    lemma_swap_remove(before, p as int);
                }
                starts.push(start);
                proof {
                    assert(starts@ =~= fixed@.subrange(0, k as int + 1));
                    lemma_take_one(before, free_spaces@, starts_before, starts@, start, bound);
                }
                k += 1;
            }
        } else {
            if free_spaces.len() < num_snakes {
                return Err("The board is not big enough to contain all requested snakes");
            }
            let mut k: usize = 0;
            while k < num_snakes
                invariant
                    k <= num_snakes <= free_spaces@.len() + k,
                    starts@.len() == k,
                    forall|q: int| 0 <= q < starts@.len() ==> in_bounds(#[trigger] starts@[q], bound),
                    free_spaces@.no_duplicates(),
                    starts@.no_duplicates(),
                    forall|q: int| 0 <= q < free_spaces@.len() ==> in_bounds(#[trigger] free_spaces@[q], bound),
                    forall|q: int, m: int| 0 <= q < starts@.len() && 0 <= m < free_spaces@.len()
                        ==> #[trigger] starts@[q] != #[trigger] free_spaces@[m],
                    forall|c: Coord| in_bounds(c, bound) && !starts@.contains(c) ==> #[trigger] free_spaces@.contains(c),
                    free_spaces@.len() + starts@.len() == width * height,
                decreases num_snakes - k,
            {
                let ghost before = free_spaces@;
                let ghost starts_before = starts@;
                let p = random_below(free_spaces.len());
                let start = free_spaces.swap_remove(p);
                proof {
                    lemma_swap_remove(before, p as int);
                }
                starts.push(start);
                proof {
                    lemma_take_one(before, free_spaces@, starts_before, starts@, start, bound);
                }
                k += 1;
            }
        }
        let mut snakes: Vec<Snake> = Vec::new();
        let mut i: usize = 0;
        while i < starts.len()
            invariant
                i <= starts@.len(),
                snakes@.len() == i,
                forall|q: int| 0 <= q < starts@.len() ==> in_bounds(#[trigger] starts@[q], bound),
                forall|q: int| 0 <= q < i ==> (#[trigger] snakes@[q])@.health == SNAKE_MAX_HEALTH
                    && snakes@[q]@.body == Seq::new(SNAKE_START_SIZE as nat, |m: int| starts@[q]),
            decreases starts@.len() - i,
        {
            snakes.push(Snake::init(SNAKE_MAX_HEALTH, starts[i], SNAKE_START_SIZE));
            i += 1;
        }
        let mut food: Vec<Coord> = Vec::new();
        let mut f: usize = 0;
        let ghost free_at_start = free_spaces@.len();
        while f < num_snakes && free_spaces.len() > 0
            invariant
                f <= num_snakes,
                food@.len() == f,
                f + free_spaces@.len() == free_at_start,
                forall|q: int| 0 <= q < food@.len() ==> in_bounds(#[trigger] food@[q], bound),
                forall|q: int| 0 <= q < free_spaces@.len() ==> in_bounds(#[trigger] free_spaces@[q], bound),
                free_spaces@.no_duplicates(),
                food@.no_duplicates(),
                forall|q: int, m: int| 0 <= q < food@.len() && 0 <= m < free_spaces@.len()
                    ==> #[trigger] food@[q] != #[trigger] free_spaces@[m],
                forall|q: int, m: int| 0 <= q < starts@.len() && 0 <= m < free_spaces@.len()
                    ==> #[trigger] starts@[q] != #[trigger] free_spaces@[m],
                forall|q: int, m: int| 0 <= q < starts@.len() && 0 <= m < food@.len()
                    ==> #[trigger] starts@[q] != #[trigger] food@[m],
            decreases num_snakes - f,
        {
            let ghost before = free_spaces@;
            let ghost food_before = food@;
            let p = random_below(free_spaces.len());
            let c = free_spaces.swap_remove(p);
            proof {
                lemma_swap_remove(before, p as int);
            }
            food.push(c);
            proof {
                lemma_take_one(before, free_spaces@, food_before, food@, c, bound);
                assert forall|q: int, m: int| 0 <= q < starts@.len() && 0 <= m < food@.len()
                    implies #[trigger] starts@[q] != #[trigger] food@[m] by {
                    if m == food_before.len() {
                        assert(before[p as int] == c);
                    } else {
                        assert(food@[m] == food_before[m]);
                    }
                }
                assert forall|q: int, m: int| 0 <= q < starts@.len() && 0 <= m < free_spaces@.len()
                    implies #[trigger] starts@[q] != #[trigger] free_spaces@[m] by {
                    assert(free_spaces@.contains(free_spaces@[m]));
                    assert(before.contains(free_spaces@[m]));
                    let m2 = choose|m2: int| 0 <= m2 < before.len() && before[m2] == free_spaces@[m];
                }
            }
            f += 1;
        }
        let b = Board { snakes, food, bound };
        assert(b@.snakes.len() == num_snakes);
        assert forall|i: int| 0 <= i < num_snakes implies (#[trigger] b@.snakes[i]).health == SNAKE_MAX_HEALTH
            && b@.snakes[i].body.len() == SNAKE_START_SIZE
            && forall|k: int| 0 <= k < SNAKE_START_SIZE ==> #[trigger] b@.snakes[i].body[k] == b@.snakes[i].body[0] by {
            assert(b@.snakes[i] == b.snakes@[i]@);
        }
        assert forall|i: int, k: int| 0 <= i < b@.snakes.len() && 0 <= k < b@.snakes[i].body.len()
            implies in_bounds(#[trigger] b@.snakes[i].body[k], b@.bound) by {
            assert(b@.snakes[i] == b.snakes@[i]@);
            assert(b@.snakes[i].body[k] == starts@[i]);
        }
        assert forall|i: int| 0 <= i < b@.snakes.len() implies #[trigger] b@.snakes[i].body.len() > 0 by {
            assert(b@.snakes[i] == b.snakes@[i]@);
        }
        assert forall|i: int, j: int| 0 <= i < num_snakes && 0 <= j < num_snakes && i != j
            implies (#[trigger] b@.snakes[i]).body[0] != (#[trigger] b@.snakes[j]).body[0] by {
            assert(b@.snakes[i] == b.snakes@[i]@);
            assert(b@.snakes[j] == b.snakes@[j]@);
            assert(b@.snakes[i].body[0] == starts@[i]);
            assert(b@.snakes[j].body[0] == starts@[j]);
        }
        assert forall|f2: int, i: int| 0 <= f2 < b@.food.len() && 0 <= i < num_snakes
            implies (#[trigger] b@.food[f2]) != (#[trigger] b@.snakes[i]).body[0] by {
            assert(b@.snakes[i] == b.snakes@[i]@);
            assert(b@.snakes[i].body[0] == starts@[i]);
        }
        Ok(b)
    }

    /// A copy of this board.
    pub fn duplicate(&self) -> (r: Board)
        ensures
            r@ == self@,
    {
        let mut snakes: Vec<Snake> = Vec::new();
        let mut i: usize = 0;
        while i < self.snakes.len()
            invariant
                i <= self.snakes@.len(),
                snakes@.len() == i,
                forall|k: int| 0 <= k < i ==> (#[trigger] snakes@[k])@ == self.snakes@[k]@,
            decreases self.snakes@.len() - i,
        {
            snakes.push(self.snakes[i].duplicate());
            i += 1;
        }
        let food = self.food.clone();
        assert(food@ =~= self.food@);
        let r = Board { snakes, food, bound: self.bound };
        assert(r@.snakes =~= self@.snakes);
        r
    }

    /// Snake `i` after its move, fed where its new head is on food, with the index of that food.
    fn move_snake(&self, i: usize, snake_moves: &[ApiDirection]) -> (r: (Snake, Option<usize>))
        requires
            self.wf(),
            i < self@.snakes.len(),
        ensures
            r.0@ == moved_snake(self@, snake_moves@, i as int),
            r.1 matches Some(j) ==> first_index(self@.food, r.0@.body[0], 0) == Some(j as int),
            r.1 is None ==> first_index(self@.food, r.0@.body[0], 0) is None,
    {
        let mut s = self.snakes[i].duplicate();
        assert(self@.snakes[i as int] == s@);
        assert(s@.body.len() > 0);
        let dir = if i < snake_moves.len() {
            snake_moves[i]
        } else {
            s.get_default_move()
        };
        s.slither(dir);
        let head = s.head();
        let f = self.find_food(head);
        if f.is_some() {
            s.feed(SNAKE_MAX_HEALTH);
            assert(s@.body[0] == head);
        }
        (s, f)
    }

    /// Plays one turn without new food: every snake makes its move (its default
    /// move where none is given), eats food its new head lands on, and then the
    /// dead are removed with the food that was eaten. Returns who died and why.
    #[verifier::spinoff_prover]
    pub fn resolve_moves(&mut self, snake_moves: &[ApiDirection]) -> (r: Vec<(usize, DeathCause)>)
        requires
            old(self).wf(),
        ensures
            final(self).wf(),
            final(self)@ == advanced(old(self)@, snake_moves@),
            r@ == advance_deaths(old(self)@, snake_moves@),
    {
        let ghost b = self@;
        let ghost ms = moved_snakes(b, snake_moves@);
        let n = self.snakes.len();
        let mut moved: Vec<Snake> = Vec::new();
        let mut i: usize = 0;
        while i < n
            invariant
                self@ == b,
                self.wf(),
                n == b.snakes.len(),
                ms == moved_snakes(b, snake_moves@),
                i <= n,
                moved@.len() == i,
                forall|k: int| 0 <= k < i ==> (#[trigger] moved@[k])@ == ms[k],
            decreases n - i,
        {
            let (s, _) = self.move_snake(i, snake_moves);
            proof {
                assert(ms[i as int] == moved_snake(b, snake_moves@, i as int));
                assert(s@ == ms[i as int]);
            }
            moved.push(s);
            i += 1;
        }
        assert(moved@.map_values(|s: Snake| s@) =~= ms);
        let mut survivors: Vec<Snake> = Vec::new();
        let mut deaths: Vec<(usize, DeathCause)> = Vec::new();
        let mut i: usize = 0;
        while i < n
            invariant
                self@ == b,
                board_wf(b),
                n == b.snakes.len(),
                ms == moved_snakes(b, snake_moves@),
                moved@.map_values(|s: Snake| s@) == ms,
                moved@.len() == n,
                i <= n,
                survivors@.map_values(|s: Snake| s@) == survivors_upto(ms, b.bound, i as int),
                survivors@.len() <= i,
                deaths@ == deaths_upto(ms, b.bound, i as int),
                forall|k: int| 0 <= k < n ==> (#[trigger] moved@[k])@.body.len() > 0,
                forall|k: int| 0 <= k < survivors@.len() ==> (#[trigger] survivors@[k])@.body.len() > 0,
                forall|k: int, m: int| 0 <= k < survivors@.len() && 0 <= m < survivors@[k]@.body.len()
                    ==> in_bounds(#[trigger] survivors@[k]@.body[m], b.bound),
            decreases n - i,
        {
            proof {
                assert forall|k: int| 0 <= k < n implies (#[trigger] moved@[k])@.body.len() > 0 by {
                    assert(moved@[k]@ == ms[k]);
                    lemma_moved_body_in_bounds(b, snake_moves@, k);
                }
            }
            let cause = death_cause_of(&moved, self.bound, i);
            match cause {
                Some(c) => {
                    deaths.push((i, c));
                },
                None => {
                    let s = moved[i].duplicate();
                    proof {
                        assert(s@ == ms[i as int]);
                        lemma_moved_body_in_bounds(b, snake_moves@, i as int);
                    }
                    let ghost old_surv = survivors@;
                    survivors.push(s);
                    proof {
                        assert(survivors@.map_values(|s: Snake| s@) =~= old_surv.map_values(|s: Snake| s@).push(ms[i as int]));
                        assert forall|m: int| 0 <= m < s@.body.len() implies in_bounds(#[trigger] s@.body[m], b.bound) by {
                            if m > 0 {
                                assert(in_bounds(moved_snake(b, snake_moves@, i as int).body[m], b.bound));
                            }
                        }
                        assert forall|k: int, m: int| 0 <= k < survivors@.len() && 0 <= m < survivors@[k]@.body.len()
                            implies in_bounds(#[trigger] survivors@[k]@.body[m], b.bound) by {
                            if k < old_surv.len() {
                                assert(survivors@[k] == old_surv[k]);
                            }
                        }
                    }
                },
            }
            i += 1;
        }
        let mut food: Vec<Coord> = Vec::new();
        let mut j: usize = 0;
        while j < self.food.len()
            invariant
                self@ == b,
                board_wf(b),
                ms == moved_snakes(b, snake_moves@),
                ms.len() == n,
                moved@.map_values(|s: Snake| s@) == ms,
                moved@.len() == n,
                forall|k: int| 0 <= k < n ==> (#[trigger] moved@[k])@.body.len() > 0,
                j <= b.food.len(),
                food@ == food_left_upto(b.food, ms, j as int),
                forall|k: int| 0 <= k < food@.len() ==> in_bounds(#[trigger] food@[k], b.bound),
                food@.len() <= j,
            decreases b.food.len() - j,
        {
            let on_head = any_head_on(&moved, self.food[j]);
            proof {
                if on_head {
                    let i2 = choose|i2: int| 0 <= i2 < moved@.len() && (#[trigger] moved@[i2])@.body[0] == b.food[j as int];
                    assert(ms[i2] == moved@[i2]@);
                } else {
                    assert forall|i2: int| 0 <= i2 < ms.len() implies #[trigger] ms[i2].body[0] != b.food[j as int] by {
                        assert(ms[i2] == moved@[i2]@);
                    }
                }
            }
            if !on_head {
                food.push(self.food[j]);
            }
            j += 1;
        }
        self.snakes = survivors;
        self.food = food;
        deaths
    }

    /// Whether no snake has a node on `c`.
    fn cell_unoccupied(&self, c: Coord) -> (r: bool)
        requires
            self.wf(),
        ensures
            r == unoccupied(self@, c),
    {
        let mut i: usize = 0;
        while i < self.snakes.len()
            invariant
                forall|i2: int, k: int| 0 <= i2 < i && 0 <= k < self@.snakes[i2].body.len()
                    ==> #[trigger] self@.snakes[i2].body[k] != c,
            decreases self.snakes@.len() - i,
        {
            let s = &self.snakes[i];
            assert(self@.snakes[i as int] == s@);
            match s.find_first_node(c, 0) {
                Some(idx) => {
                    proof {
                        lemma_first_index_bounds(s@.body, c, 0);
                        assert(self@.snakes[i as int].body[idx as int] == c);
                    }
                    return false;
                },
                None => {
                    proof {
                        lemma_first_index_none(s@.body, c, 0);
                    }
                },
            }
            i += 1;
        }
        true
    }

    /// The cells of the board that no snake occupies, row by row.
    pub fn free_cells(&self) -> (r: Vec<Coord>)
        requires
            self.wf(),
        ensures
            forall|k: int| 0 <= k < r@.len() ==> in_bounds(#[trigger] r@[k], self@.bound) && unoccupied(self@, r@[k]),
            forall|c: Coord| in_bounds(c, self@.bound) && #[trigger] unoccupied(self@, c) ==> r@.contains(c),
            r@ == free_cells_of(self@),
    {
        let ghost w = self@.bound.x + 1;
        let mut r: Vec<Coord> = Vec::new();
        let mut y: i8 = 0;
        while y <= self.bound.y
            invariant
                self.wf(),
                0 <= y <= self.bound.y + 1,
                forall|k: int| 0 <= k < r@.len() ==> in_bounds(#[trigger] r@[k], self@.bound) && unoccupied(self@, r@[k]),
                forall|c: Coord| in_bounds(c, self@.bound) && #[trigger] unoccupied(self@, c) && c.y < y ==> r@.contains(c),
                w == self@.bound.x + 1,
                r@ == free_cells_upto(self@, y * w),
            decreases self.bound.y + 1 - y,
        {
            let mut x: i8 = 0;
            while x <= self.bound.x
                invariant
                    self.wf(),
                    0 <= y <= self.bound.y,
                    0 <= x <= self.bound.x + 1,
                    forall|k: int| 0 <= k < r@.len() ==> in_bounds(#[trigger] r@[k], self@.bound) && unoccupied(self@, r@[k]),
                    forall|c: Coord| in_bounds(c, self@.bound) && #[trigger] unoccupied(self@, c) && (c.y < y || (c.y == y && c.x < x))
                        ==> r@.contains(c),
                    w == self@.bound.x + 1,
                    r@ == free_cells_upto(self@, y * w + x),
                decreases self.bound.x + 1 - x,
            {
                let c = Coord { x, y };
                proof {
                    lemma_cell_index_in_range(self@, c);
                    assert(cell_at(y * w + x, self@.bound) == c);
                }
                let ghost before = r@;
                if self.cell_unoccupied(c) {
                    r.push(c);
                    assert(r@[r@.len() - 1] == c);
                }
                proof {
                    assert forall|c2: Coord| in_bounds(c2, self@.bound) && #[trigger] unoccupied(self@, c2) && (c2.y < y || (c2.y == y && c2.x < x + 1))
                        implies r@.contains(c2) by {
                        if c2 != c {
                            assert(before.contains(c2));
                            let q = choose|q: int| 0 <= q < before.len() && before[q] == c2;
                            assert(r@[q] == c2);
                        }
                    }
                }
                x += 1;
            }
            proof {
                assert(y * w + w == (y + 1) * w) by (nonlinear_arith);
            }
            y += 1;
        }
        proof {
            assert(y * w == num_cells(self@)) by (nonlinear_arith)
                requires y == self@.bound.y + 1, w == self@.bound.x + 1, num_cells(self@) == (self@.bound.x + 1) * (self@.bound.y + 1);
        }
        r
    }

    /// Adds food where the draws say so: when `roll` is below the spawn chance
    /// and `pick` indexes a free cell (see `free_cells`), that cell gets food;
    /// otherwise nothing changes.
    pub fn place_food(&mut self, roll: usize, pick: usize)
        requires
            old(self).wf(),
        ensures
            final(self).wf(),
            final(self)@.snakes == old(self)@.snakes,
            final(self)@.bound == old(self)@.bound,
            roll < FOOD_SPAWN_CHANCE && pick < free_cells_of(old(self)@).len()
                ==> final(self)@.food == old(self)@.food.push(free_cells_of(old(self)@)[pick as int]),
            !(roll < FOOD_SPAWN_CHANCE && pick < free_cells_of(old(self)@).len()) ==> final(self)@.food == old(self)@.food,
    {
        if roll < FOOD_SPAWN_CHANCE {
            let free = self.free_cells();
            if pick < free.len() {
                let c = free[pick];
                assert(in_bounds(c, self@.bound) && unoccupied(self@, c));
                self.food.push(c);
                assert(self@.food == old(self)@.food.push(c));
            }
        }
    }

    /// With the spawn chance, adds one food item on a random cell that no snake
    /// occupies: the draws are handed to `place_food`.
    pub fn spawn_food(&mut self)
        requires
            old(self).wf(),
        ensures
            final(self).wf(),
            final(self)@.snakes == old(self)@.snakes,
            final(self)@.bound == old(self)@.bound,
            final(self)@.food == old(self)@.food || exists|k: int| 0 <= k < free_cells_of(old(self)@).len()
                && final(self)@.food == old(self)@.food.push(#[trigger] free_cells_of(old(self)@)[k]),
    {
        let roll = random_below(100);
        let count = self.free_cells().len();
        let pick = if count > 0 {
            random_below(count)
        } else {
            0
        };
        self.place_food(roll, pick);
    }

    /// Plays one turn (see `resolve_moves`), then, where `spawn_food` is set,
    /// may add food (see `spawn_food`). Returns who died and why, by index before the turn.
    pub fn advance(&mut self, spawn_food: bool, snake_moves: &[ApiDirection]) -> (r: Vec<(usize, DeathCause)>)
        requires
            old(self).wf(),
        ensures
            final(self).wf(),
            r@ == advance_deaths(old(self)@, snake_moves@),
            final(self)@.snakes == advanced(old(self)@, snake_moves@).snakes,
            final(self)@.bound == old(self)@.bound,
            !spawn_food ==> final(self)@ == advanced(old(self)@, snake_moves@),
            spawn_food ==> final(self)@.food == advanced(old(self)@, snake_moves@).food || exists|k: int|
                0 <= k < free_cells_of(advanced(old(self)@, snake_moves@)).len()
                && final(self)@.food == advanced(old(self)@, snake_moves@).food.push(
                    #[trigger] free_cells_of(advanced(old(self)@, snake_moves@))[k],
                ),
    {
        let deaths = self.resolve_moves(snake_moves);
        if spawn_food {
            self.spawn_food();
        }
        deaths
    }

    /// Every snake index with the Manhattan distance from `coord` to that
    /// snake's head, nearest first; equal distances keep index order.
    pub fn get_closest_snakes_by_manhattan(&self, coord: Coord) -> (r: Vec<(usize, UnitAbs)>)
        requires
            self.wf(),
        ensures
            r@.len() == self@.snakes.len(),
            forall|k: int| 0 <= k < r@.len() ==> (#[trigger] r@[k]).0 < self@.snakes.len()
                && r@[k].1 == manhattan(coord, self@.snakes[r@[k].0 as int].body[0]),
            forall|k: int, m: int| 0 <= k < m < r@.len() ==> (#[trigger] r@[k]).1 <= (#[trigger] r@[m]).1,
            forall|k: int, m: int| 0 <= k < m < r@.len() && (#[trigger] r@[k]).1 == (#[trigger] r@[m]).1 ==> r@[k].0 < r@[m].0,
            forall|i: int| 0 <= i < self@.snakes.len() ==> #[trigger] lists_index(r@, i),
    {
        let mut r: Vec<(usize, UnitAbs)> = Vec::new();
        let mut i: usize = 0;
        while i < self.snakes.len()
            invariant
                self.wf(),
                i <= self@.snakes.len(),
                r@.len() == i,
                forall|k: int| 0 <= k < r@.len() ==> (#[trigger] r@[k]).0 < i
                    && r@[k].1 == manhattan(coord, self@.snakes[r@[k].0 as int].body[0]),
                forall|k: int, m: int| 0 <= k < m < r@.len() ==> (#[trigger] r@[k]).1 <= (#[trigger] r@[m]).1,
                forall|k: int, m: int| 0 <= k < m < r@.len() && (#[trigger] r@[k]).1 == (#[trigger] r@[m]).1 ==> r@[k].0 < r@[m].0,
                forall|j: int| 0 <= j < i ==> #[trigger] lists_index(r@, j),
            decreases self@.snakes.len() - i,
        {
            let s = &self.snakes[i];
            assert(self@.snakes[i as int] == s@);
            assert(s@.body.len() > 0);
            let d = s.head().dist_to(coord);
            assert(manhattan(s@.body[0], coord) == manhattan(coord, s@.body[0]));
            let mut pos: usize = r.len();
            while pos > 0 && r[pos - 1].1 > d
                invariant
                    pos <= r@.len(),
                    forall|k: int| pos <= k < r@.len() ==> (#[trigger] r@[k]).1 > d,
                decreases pos,
            {
                pos -= 1;
            }
            let ghost old_r = r@;
            r.insert(pos, (i, d));
            proof {
                assert(r@ == old_r.insert(pos as int, (i, d)));
                assert forall|k: int| 0 <= k < r@.len() implies (#[trigger] r@[k]).0 < i + 1
                    && r@[k].1 == manhattan(coord, self@.snakes[r@[k].0 as int].body[0]) by {
                    if k < pos {
                        assert(r@[k] == old_r[k]);
                    } else if k > pos {
                        assert(r@[k] == old_r[k - 1]);
                    }
                }
                assert forall|k: int, m: int| 0 <= k < m < r@.len() implies (#[trigger] r@[k]).1 <= (#[trigger] r@[m]).1 by {
                    if k < pos && m < pos {
                        assert(r@[k] == old_r[k] && r@[m] == old_r[m]);
                    } else if k < pos && m == pos {
                        assert(r@[k] == old_r[k]);
                        if pos > 0 {
                            assert(old_r[pos - 1].1 <= d);
                            assert(old_r[k].1 <= old_r[pos - 1].1 || k == pos - 1);
                        }
                    } else if k < pos {
                        assert(r@[k] == old_r[k] && r@[m] == old_r[m - 1]);
                    } else if k == pos {
                        assert(r@[m] == old_r[m - 1]);
                    } else {
                        assert(r@[k] == old_r[k - 1] && r@[m] == old_r[m - 1]);
                    }
                }
                assert forall|k: int, m: int| 0 <= k < m < r@.len() && (#[trigger] r@[k]).1 == (#[trigger] r@[m]).1
                    implies r@[k].0 < r@[m].0 by {
                    if k < pos && m < pos {
                        assert(r@[k] == old_r[k] && r@[m] == old_r[m]);
                    } else if k < pos && m == pos {
                        assert(r@[k] == old_r[k]);
                    } else if k < pos {
                        assert(r@[k] == old_r[k] && r@[m] == old_r[m - 1]);
                    } else if k == pos {
                        assert(r@[m] == old_r[m - 1]);
                    } else {
                        assert(r@[k] == old_r[k - 1] && r@[m] == old_r[m - 1]);
                    }
                }
                assert forall|j: int| 0 <= j < i + 1 implies #[trigger] lists_index(r@, j) by {
                    if j == i {
                        assert(r@[pos as int].0 == j);
                    } else {
                        assert(lists_index(old_r, j));
                        let k0 = choose|k: int| 0 <= k < old_r.len() && (#[trigger] old_r[k]).0 == j;
                        if k0 < pos {
                            assert(r@[k0] == old_r[k0]);
                        } else {
                            assert(r@[k0 + 1] == old_r[k0]);
                        }
                    }
                }
            }
            i += 1;
        }
        r
    }

    /// The acting agent.
    pub fn you(&self) -> (r: &Snake)
        requires
            self@.snakes.len() > 0,
        ensures
            r@ == self@.snakes[0],
    {
        &self.snakes[0]
    }

    /// The opponents: every snake but the first.
    pub fn enemies(&self) -> (r: &[Snake])
        ensures
            r@.map_values(|s: Snake| s@) == (if self@.snakes.len() > 1 {
                self@.snakes.drop_first()
            } else {
                Seq::<SnakeView>::empty()
            }),
    {
        if self.snakes.len() > 1 {
            let (_, rest) = self.snakes.as_slice().split_at(1);
            assert(rest@.map_values(|s: Snake| s@) =~= self@.snakes.drop_first());
            rest
        } else {
            let (none, _) = self.snakes.as_slice().split_at(0);
            assert(none@.map_values(|s: Snake| s@) =~= Seq::<SnakeView>::empty());
            none
        }
    }

    pub fn width(&self) -> (r: UnitAbs)
        requires
            self.wf(),
        ensures
            r == self@.bound.x + 1,
    {
        (self.bound.x + 1) as UnitAbs
    }

    pub fn height(&self) -> (r: UnitAbs)
        requires
            self.wf(),
        ensures
            r == self@.bound.y + 1,
    {
        (self.bound.y + 1) as UnitAbs
    }

    /// Number of cells of the board.
    pub fn area(&self) -> (r: UnitAbs)
        requires
            self.wf(),
        ensures
            r == (self@.bound.x + 1) * (self@.bound.y + 1),
    {
        let w = self.width();
        let h = self.height();
        proof {
            assert(w * h <= 121 * 121) by (nonlinear_arith)
                requires w <= 121, h <= 121;
        }
        w * h
    }

    /// Index of the first food item on `coord`.
    pub fn find_food(&self, coord: Coord) -> (r: Option<usize>)
        ensures
            r matches Some(i) ==> first_index(self@.food, coord, 0) == Some(i as int),
            r is None ==> first_index(self@.food, coord, 0) is None,
    {
        let mut i: usize = 0;
        while i < self.food.len()
            invariant
                first_index(self@.food, coord, 0) == first_index(self@.food, coord, i as int),
            decreases self@.food.len() - i,
        {
            if self.food[i] == coord {
                return Some(i);
            }
            i += 1;
        }
        None
    }
}

/// The protocol form of snake `snake`, whose cells must have no negative coordinate.
pub fn build_api_snake(snake: &Snake, id: &str, name: &str) -> (r: ApiSnake)
    requires
        forall|k: int| 0 <= k < snake@.body.len() ==> (#[trigger] snake@.body[k]).x >= 0 && snake@.body[k].y >= 0,
    ensures
        api_from_snake(r, snake@),
        r.id@ == id@,
        r.name@ == name@,
{
    let nodes = snake.body.nodes();
    let mut body: Vec<ApiCoords> = Vec::new();
    let mut k: usize = 0;
    while k < nodes.len()
        invariant
            nodes@ == snake@.body,
            forall|q: int| 0 <= q < snake@.body.len() ==> (#[trigger] snake@.body[q]).x >= 0 && snake@.body[q].y >= 0,
            k <= nodes@.len(),
            body@.len() == k,
            forall|q: int| 0 <= q < k ==> (#[trigger] body@[q]).x == snake@.body[q].x && body@[q].y == snake@.body[q].y,
        decreases nodes@.len() - k,
    {
        let c = nodes[k];
        assert(snake@.body[k as int].x >= 0);
        body.push(ApiCoords { x: c.x as u32, y: c.y as u32 });
        k += 1;
    }
    ApiSnake { id: id.to_owned(), name: name.to_owned(), health: snake.health as u32, body }
}

/// The decision request that `board` poses to snake `snake_index`: that
/// snake as the acting agent, every other snake as an opponent, in order.
pub fn build_api_game_state(board: &Board, snake_index: usize, turn: u32, game_id: &str) -> (r: ApiGameState)
    requires
        board.wf(),
        snake_index < board@.snakes.len(),
    ensures
        r.game.id@ == game_id@,
        r.turn == turn,
        r.board.width == board@.bound.x + 1,
        r.board.height == board@.bound.y + 1,
        api_from_snake(r.you, board@.snakes[snake_index as int]),
        r.board.snakes@.len() == board@.snakes.len() - 1,
        forall|i: int| 0 <= i < r.board.snakes@.len() ==> api_from_snake(
            #[trigger] r.board.snakes@[i],
            board@.snakes[if i < snake_index { i } else { i + 1 }],
        ),
        r.board.food@.len() == board@.food.len(),
        forall|j: int| 0 <= j < board@.food.len() ==> (#[trigger] r.board.food@[j]).x == board@.food[j].x
            && r.board.food@[j].y == board@.food[j].y,
{
    let mut food: Vec<ApiCoords> = Vec::new();
    let mut j: usize = 0;
    while j < board.food.len()
        invariant
            board.wf(),
            j <= board@.food.len(),
            food@.len() == j,
            forall|q: int| 0 <= q < j ==> (#[trigger] food@[q]).x == board@.food[q].x && food@[q].y == board@.food[q].y,
        decreases board@.food.len() - j,
    {
        let c = board.food[j];
        assert(in_bounds(board@.food[j as int], board@.bound));
        food.push(ApiCoords { x: c.x as u32, y: c.y as u32 });
        j += 1;
    }
    let mut snakes: Vec<ApiSnake> = Vec::new();
    let mut i: usize = 0;
    while i < board.snakes.len()
        invariant
            board.wf(),
            snake_index < board@.snakes.len(),
            i <= board@.snakes.len(),
            snakes@.len() == if i <= snake_index { i as int } else { i - 1 },
            forall|q: int| 0 <= q < snakes@.len() ==> api_from_snake(
                #[trigger] snakes@[q],
                board@.snakes[if q < snake_index { q } else { q + 1 }],
            ),
        decreases board@.snakes.len() - i,
    {
        if i != snake_index {
            let s = &board.snakes[i];
            assert(board@.snakes[i as int] == s@);
            assert forall|k: int| 0 <= k < s@.body.len() implies in_bounds(#[trigger] s@.body[k], board@.bound) by {
                assert(in_bounds(board@.snakes[i as int].body[k], board@.bound));
            }
            let id = labelled("id_", i);
            let name = labelled("name_", i);
            snakes.push(build_api_snake(s, id.as_str(), name.as_str()));
        }
        i += 1;
    }
    let me = &board.snakes[snake_index];
    assert(board@.snakes[snake_index as int] == me@);
    assert forall|k: int| 0 <= k < me@.body.len() implies in_bounds(#[trigger] me@.body[k], board@.bound) by {
        assert(in_bounds(board@.snakes[snake_index as int].body[k], board@.bound));
    }
    let id = labelled("id_", snake_index);
    let name = labelled("name_", snake_index);
    let you = build_api_snake(me, id.as_str(), name.as_str());
    ApiGameState {
        game: ApiGame { id: game_id.to_owned() },
        turn,
        board: ApiBoard {
            height: (board.bound.y + 1) as u32,
            width: (board.bound.x + 1) as u32,
            food,
            snakes,
        },
        you,
    }
}

} // verus!
