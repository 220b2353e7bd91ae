use vstd::prelude::*;
use crate::api::ApiDirection;
use crate::board::{Board, BoardView, board_wf, free_moves, in_bounds, is_free_move, step_target};
use crate::coord::{Coord, manhattan};
use crate::path::first_index;
use crate::pathfind::free_step;

verus! {

/// Who a cell belongs to in the territory estimate.
#[derive(Copy, Clone, PartialEq, Eq, Debug, Structural)]
pub enum Claim {
    /// No snake reaches it.
    Free,
    /// Snake `i` reaches it strictly first.
    Owned(usize),
    /// Two or more snakes reach it at the same time.
    Contested,
}

/// What one snake controls: its cells, the food among them and the distance
/// from its head to the nearest such food.
#[derive(Copy, Clone, PartialEq, Eq, Debug, Structural)]
pub struct Territory {
    pub area: u32,
    pub num_food: usize,
    pub nearest_food: Option<u32>,
}

/// Number of cells of a board.
pub open spec fn num_cells(b: BoardView) -> int {
    (b.bound.x + 1) * (b.bound.y + 1)
}

/// Index of an on-board cell, row by row.
pub open spec fn cell_index(c: Coord, bound: Coord) -> int {
    c.y * (bound.x + 1) + c.x
}

/// The cell with index `k`, row by row.
pub open spec fn cell_at(k: int, bound: Coord) -> Coord {
    Coord { x: (k % (bound.x + 1)) as i8, y: (k / (bound.x + 1)) as i8 }
}

/// Number of the first `k` cells that snake `i` owns.
pub open spec fn owned_count(owners: Seq<Claim>, i: int, k: int) -> int
    decreases k,
{
    if k <= 0 {
        0
    } else {
        owned_count(owners, i, k - 1) + if owners[k - 1] == Claim::Owned(i as usize) { 1int } else { 0int }
    }
}

/// Cell `k` holds food and belongs to snake `i`.
pub open spec fn owned_food_at(b: BoardView, owners: Seq<Claim>, i: int, k: int) -> bool {
    owners[k] == Claim::Owned(i as usize) && first_index(b.food, cell_at(k, b.bound), 0) is Some
}

/// Number of the first `k` cells that hold food and belong to snake `i`.
pub open spec fn owned_food_count(b: BoardView, owners: Seq<Claim>, i: int, k: int) -> int
    decreases k,
{
    if k <= 0 {
        0
    } else {
        owned_food_count(b, owners, i, k - 1) + if owned_food_at(b, owners, i, k - 1) { 1int } else { 0int }
    }
}

/// Smallest distance from snake `i`'s head to a food cell it owns among the first `k` cells.
pub open spec fn nearest_owned_food(b: BoardView, owners: Seq<Claim>, i: int, k: int) -> Option<int>
    decreases k,
{
    if k <= 0 {
        None
    } else {
        let prev = nearest_owned_food(b, owners, i, k - 1);
        if owned_food_at(b, owners, i, k - 1) {
            let d = manhattan(b.snakes[i].body[0], cell_at(k - 1, b.bound));
            match prev {
                Some(p) => if p <= d { Some(p) } else { Some(d) },
                None => Some(d),
            }
        } else {
            prev
        }
    }
}

/// The territory of snake `i` under the ownership `owners`.
pub open spec fn territory_of(b: BoardView, owners: Seq<Claim>, i: int) -> Territory {
    Territory {
        area: owned_count(owners, i, owners.len() as int) as u32,
        num_food: owned_food_count(b, owners, i, owners.len() as int) as usize,
        nearest_food: match nearest_owned_food(b, owners, i, owners.len() as int) {
            Some(d) => Some(d as u32),
            None => None,
        },
    }
}

/// An ownership of the board's cells: one claim per cell, naming only existing snakes.
pub open spec fn valid_owners(b: BoardView, owners: Seq<Claim>) -> bool {
    &&& owners.len() == num_cells(b)
    &&& forall|k: int| 0 <= k < owners.len() ==> (#[trigger] owners[k] matches Claim::Owned(o) ==> o < b.snakes.len())
}

/// Snake `o` reaches cell `k` in ring `ring[k]`: it is `o`'s head, or it is
/// one move, free after `ring[k]` turns, from a cell `o` claimed in an
/// earlier ring.
pub open spec fn reached_by(b: BoardView, claims: Seq<Claim>, ring: Seq<usize>, k: int, o: int) -> bool {
    cell_at(k, b.bound) == b.snakes[o].body[0] || exists|c2: Coord|
        in_bounds(c2, b.bound) && claims[cell_index(c2, b.bound)] == Claim::Owned(o as usize)
            && ring[cell_index(c2, b.bound)] < ring[k]
            && #[trigger] free_step(b, c2, cell_at(k, b.bound), ring[k] as int)
}

/// Cell `k` is claimed with good reason: a cell owned by snake `o` is reached
/// by `o`; a contested cell is reached by two different snakes in the same ring.
pub open spec fn claim_supported(b: BoardView, claims: Seq<Claim>, ring: Seq<usize>, k: int) -> bool {
    match claims[k] {
        Claim::Owned(o) => reached_by(b, claims, ring, k, o as int),
        Claim::Contested => exists|o1: int, o2: int| 0 <= o1 < b.snakes.len() && 0 <= o2 < b.snakes.len() && o1 != o2
            && #[trigger] reached_by(b, claims, ring, k, o1) && #[trigger] reached_by(b, claims, ring, k, o2),
        Claim::Free => true,
    }
}

/// Reaching survives a change of the claim or ring of cell `kc`, where `kc`
/// cannot have been a witness: it was not `o`'s in an earlier ring than `k`.
proof fn lemma_reached_kept(
    b: BoardView,
    c0: Seq<Claim>,
    r0: Seq<usize>,
    c1: Seq<Claim>,
    r1: Seq<usize>,
    k: int,
    o: int,
    kc: int,
)
    requires
        board_wf(b),
        reached_by(b, c0, r0, k, o),
        0 <= kc < c0.len(),
        c0.len() == c1.len() == r0.len() == r1.len() == num_cells(b),
        0 <= o,
        forall|j: int| 0 <= j < c0.len() && j != kc ==> c1[j] == c0[j] && r1[j] == r0[j],
        0 <= k < c0.len(),
        r1[k] == r0[k],
        !(c0[kc] == Claim::Owned(o as usize) && r0[kc] < r0[k]),
    ensures
        reached_by(b, c1, r1, k, o),
{
    if cell_at(k, b.bound) != b.snakes[o].body[0] {
        let c2 = choose|c2: Coord| in_bounds(c2, b.bound) && c0[cell_index(c2, b.bound)] == Claim::Owned(o as usize)
            && r0[cell_index(c2, b.bound)] < r0[k]
            && #[trigger] free_step(b, c2, cell_at(k, b.bound), r0[k] as int);
        lemma_cell_index_in_range(b, c2);
        assert(cell_index(c2, b.bound) != kc);
        assert(in_bounds(c2, b.bound) && c1[cell_index(c2, b.bound)] == Claim::Owned(o as usize)
            && r1[cell_index(c2, b.bound)] < r1[k]
            && free_step(b, c2, cell_at(k, b.bound), r1[k] as int));
    }
}

/// Every claim of `claims`, made in rings up to `turn`, is supported.
pub open spec fn claims_supported(b: BoardView, claims: Seq<Claim>, ring: Seq<usize>, turn: int) -> bool {
    &&& ring.len() == claims.len()
    &&& forall|k: int| 0 <= k < claims.len() && #[trigger] claims[k] != Claim::Free ==> ring[k] <= turn
    &&& forall|k: int| 0 <= k < claims.len() ==> #[trigger] claim_supported(b, claims, ring, k)
}

/// Every cell that `owners` gives a snake is that snake's head or is reached
/// from it, ring by ring, through moves free at the time; every contested cell
/// is reached so by two different snakes in the same ring; and no cell that an
/// owned cell reaches by a move free in the next ring is left unclaimed.
pub open spec fn owners_justified(b: BoardView, owners: Seq<Claim>) -> bool {
    exists|ring: Seq<usize>| ring.len() == owners.len() && (forall|k: int| 0 <= k < owners.len() ==> #[trigger] claim_supported(b, owners, ring, k))
        && expanded_before(b, owners, ring, usize::MAX as int)
}

/// The snake a claim names, zero for none.
pub open spec fn owner_of(c: Claim) -> usize {
    match c {
        Claim::Owned(o) => o,
        _ => 0,
    }
}

/// One claim step in ring `turn` (a free cell `kc` claimed in ring `turn`, or
/// left as it was, or contested) keeps claims made, the expansion of cells
/// owned before ring `turn`, and the lists of cells of earlier rings.
proof fn lemma_claim_step(b: BoardView, c0: Seq<Claim>, r0: Seq<usize>, c1: Seq<Claim>, r1: Seq<usize>, kc: int, turn: int)
    requires
        board_wf(b),
        c0.len() == num_cells(b),
        c0.len() == c1.len() == r0.len() == r1.len(),
        0 <= kc < c0.len(),
        forall|k: int| 0 <= k < c0.len() && k != kc ==> c1[k] == c0[k] && r1[k] == r0[k],
        (c0[kc] == Claim::Free && c1[kc] is Owned && r1[kc] == turn) || (c1[kc] == c0[kc] && r1[kc] == r0[kc])
            || (c1[kc] == Claim::Contested && r1[kc] == r0[kc] && c0[kc] != Claim::Free),
    ensures
        forall|k: int| 0 <= k < c0.len() && c0[k] != Claim::Free ==> #[trigger] c1[k] != Claim::Free,
        forall|t: int| t <= turn && #[trigger] expanded_before(b, c0, r0, t) ==> expanded_before(b, c1, r1, t),
        forall|l: Seq<(Coord, usize)>, t: int| t < turn && #[trigger] listed(b, c0, r0, l, t) ==> listed(b, c1, r1, l, t),
        forall|k: int| 0 <= k < c0.len() && k != kc && #[trigger] c1[k] is Owned ==> c1[k] == c0[k] && r1[k] == r0[k],
{
    assert forall|t: int| t <= turn && #[trigger] expanded_before(b, c0, r0, t) implies expanded_before(b, c1, r1, t) by {
        assert forall|k: int, c2: Coord| 0 <= k < c1.len() && c1[k] is Owned && r1[k] < t
            && #[trigger] free_step(b, cell_at(k, b.bound), c2, r1[k] + 1) implies c1[cell_index(c2, b.bound)] != Claim::Free by {
            assert(c0[k] == c1[k] && r0[k] == r1[k]);
            lemma_step_in_bounds(b, cell_at(k, b.bound), c2, r1[k] + 1);
            lemma_cell_index_in_range(b, c2);
            let kk = cell_index(c2, b.bound);
            assert(c0[kk] != Claim::Free);
        }
    }
    assert forall|l: Seq<(Coord, usize)>, t: int| t < turn && #[trigger] listed(b, c0, r0, l, t) implies listed(b, c1, r1, l, t) by {
        assert forall|k: int| 0 <= k < c1.len() && r1[k] == t && #[trigger] c1[k] is Owned
            implies exists|j: int| 0 <= j < l.len() && #[trigger] l[j] == (cell_at(k, b.bound), owner_of(c1[k])) by {
            assert(c0[k] == c1[k] && r0[k] == r1[k]);
            assert(c0[k] is Owned);
        }
    }
}

proof fn lemma_step_in_bounds(b: BoardView, from: Coord, to: Coord, n: int)
    requires
        free_step(b, from, to, n),
    ensures
        in_bounds(to, b.bound),
{
    let d = choose|d: ApiDirection| #[trigger] is_free_move(b, from, d, n) && step_target(from, d) == to;
}

/// Settling a list of ring `t` keeps every cell that is still its snake's.
proof fn lemma_settled_listed(
    b: BoardView,
    claims: Seq<Claim>,
    ring: Seq<usize>,
    next: Seq<(Coord, usize)>,
    slots: Seq<usize>,
    r: Seq<(Coord, usize)>,
    t: int,
)
    requires
        board_wf(b),
        claims.len() == num_cells(b),
        listed(b, claims, ring, next, t),
        next.len() == slots.len(),
        forall|j: int| 0 <= j < next.len() ==> in_bounds((#[trigger] next[j]).0, b.bound) && slots[j] == cell_index(next[j].0, b.bound),
        forall|j: int| 0 <= j < next.len() && claims[slots[j] as int] == Claim::Owned(next[j].1)
            ==> exists|q: int| 0 <= q < r.len() && #[trigger] r[q] == #[trigger] next[j],
    ensures
        listed(b, claims, ring, r, t),
{
    assert forall|k: int| 0 <= k < claims.len() && ring[k] == t && #[trigger] claims[k] is Owned
        implies exists|q: int| 0 <= q < r.len() && #[trigger] r[q] == (cell_at(k, b.bound), owner_of(claims[k])) by {
        let j = choose|j: int| 0 <= j < next.len() && #[trigger] next[j] == (cell_at(k, b.bound), owner_of(claims[k]));
        lemma_cell_at_in_bounds(b, k);
        assert(slots[j] == k);
        let q = choose|q: int| 0 <= q < r.len() && #[trigger] r[q] == #[trigger] next[j];
    }
}

/// Every cell claimed for a snake in ring `t` stands, with its snake, in `list`.
pub open spec fn listed(b: BoardView, claims: Seq<Claim>, ring: Seq<usize>, list: Seq<(Coord, usize)>, t: int) -> bool {
    forall|k: int| 0 <= k < claims.len() && ring[k] == t && #[trigger] claims[k] is Owned
        ==> exists|j: int| 0 <= j < list.len() && #[trigger] list[j] == (cell_at(k, b.bound), owner_of(claims[k]))
}

/// Every cell owned since a ring before `t` has had the cells one move away,
/// free in the next ring, claimed: nothing it reaches in time is left unclaimed.
pub open spec fn expanded_before(b: BoardView, claims: Seq<Claim>, ring: Seq<usize>, t: int) -> bool {
    forall|k: int, c2: Coord| 0 <= k < claims.len() && claims[k] is Owned && ring[k] < t
        && #[trigger] free_step(b, cell_at(k, b.bound), c2, ring[k] + 1) ==> claims[cell_index(c2, b.bound)] != Claim::Free
}

/// No other snake has its head on snake `i`'s head.
pub open spec fn head_unique(b: BoardView, i: int) -> bool {
    forall|j: int| 0 <= j < b.snakes.len() && j != i ==> #[trigger] b.snakes[j].body[0] != b.snakes[i].body[0]
}

/// Every snake whose head no other snake shares owns its head's cell.
pub open spec fn heads_owned(b: BoardView, owners: Seq<Claim>) -> bool {
    forall|i: int| 0 <= i < b.snakes.len() && #[trigger] head_unique(b, i)
        ==> owners[cell_index(b.snakes[i].body[0], b.bound)] == Claim::Owned(i as usize)
}

/// A frontier entry: an on-board cell claimed for its snake in ring `r`.
pub open spec fn entry_ok(b: BoardView, claims: Seq<Claim>, ring: Seq<usize>, e: (Coord, usize), r: int) -> bool {
    &&& in_bounds(e.0, b.bound)
    &&& e.1 < b.snakes.len()
    &&& claims[cell_index(e.0, b.bound)] == Claim::Owned(e.1)
    &&& ring[cell_index(e.0, b.bound)] == r
}

/// Sum of the areas of the first `m` territories.
pub open spec fn total_area(t: Seq<Territory>, m: int) -> int
    decreases m,
{
    if m <= 0 { 0 } else { total_area(t, m - 1) + t[m - 1].area }
}

/// Sum over the first `m` snakes of the cells each owns among the first `k`.
pub open spec fn owned_sum(owners: Seq<Claim>, m: int, k: int) -> int
    decreases m,
{
    if m <= 0 { 0 } else { owned_sum(owners, m - 1, k) + owned_count(owners, m - 1, k) }
}

/// Number of the first `k` cells owned by one of the first `m` snakes.
pub open spec fn owned_by_any(owners: Seq<Claim>, m: int, k: int) -> int
    decreases k,
{
    if k <= 0 {
        0
    } else {
        owned_by_any(owners, m, k - 1) + match owners[k - 1] {
            Claim::Owned(o) => if o < m { 1int } else { 0int },
            _ => 0int,
        }
    }
}

proof fn lemma_owned_sum_step(owners: Seq<Claim>, m: int, k: int)
    requires
        0 <= m <= usize::MAX,
        0 < k <= owners.len(),
    ensures
        owned_sum(owners, m, k) == owned_sum(owners, m, k - 1) + match owners[k - 1] {
            Claim::Owned(o) => if o < m { 1int } else { 0int },
            _ => 0int,
        },
    decreases m,
{
    if m > 0 {
        lemma_owned_sum_step(owners, m - 1, k);
        match owners[k - 1] {
            Claim::Owned(o) => {
                assert((o == ((m - 1) as usize)) == (o == m - 1));
            },
            _ => {},
        }
    }
}

proof fn lemma_owned_sum_is_owned_by_any(owners: Seq<Claim>, m: int, k: int)
    requires
        0 <= m <= usize::MAX,
        0 <= k <= owners.len(),
    ensures
        owned_sum(owners, m, k) == owned_by_any(owners, m, k),
        owned_by_any(owners, m, k) <= k,
    decreases k,
{
    if k > 0 {
        lemma_owned_sum_is_owned_by_any(owners, m, k - 1);
        lemma_owned_sum_step(owners, m, k);
    } else {
        lemma_owned_sum_zero(owners, m);
    }
}

proof fn lemma_owned_sum_zero(owners: Seq<Claim>, m: int)
    requires
        0 <= m,
    ensures
        owned_sum(owners, m, 0) == 0,
    decreases m,
{
    if m > 0 {
        lemma_owned_sum_zero(owners, m - 1);
    }
}

proof fn lemma_owned_count_le(owners: Seq<Claim>, i: int, k: int)
    requires
        0 <= k <= owners.len(),
    ensures
        0 <= owned_count(owners, i, k) <= k,
    decreases k,
{
    if k > 0 {
        lemma_owned_count_le(owners, i, k - 1);
    }
}

proof fn lemma_owned_food_count_le(b: BoardView, owners: Seq<Claim>, i: int, k: int)
    requires
        0 <= k <= owners.len(),
    ensures
        0 <= owned_food_count(b, owners, i, k) <= k,
    decreases k,
{
    if k > 0 {
        lemma_owned_food_count_le(b, owners, i, k - 1);
    }
}

/// Number of unclaimed cells among the first `k`.
pub open spec fn free_count(claims: Seq<Claim>, k: int) -> int
    decreases k,
{
    if k <= 0 { 0 } else { free_count(claims, k - 1) + if claims[k - 1] == Claim::Free { 1int } else { 0int } }
}

proof fn lemma_free_count_update(claims: Seq<Claim>, j: int, v: Claim, k: int)
    requires
        0 <= j < claims.len(),
        0 <= k <= claims.len(),
    ensures
        free_count(claims.update(j, v), k) == free_count(claims, k) + if j < k {
            (if v == Claim::Free { 1int } else { 0int }) - (if claims[j] == Claim::Free { 1int } else { 0int })
        } else {
            0int
        },
        0 <= free_count(claims, k) <= k,
    decreases k,
{
    if k > 0 {
        lemma_free_count_update(claims, j, v, k - 1);
    }
}

/// The territory of snake `i` counted over the first `k` cells.
pub open spec fn territory_upto(b: BoardView, owners: Seq<Claim>, i: int, k: int) -> Territory {
    Territory {
        area: owned_count(owners, i, k) as u32,
        num_food: owned_food_count(b, owners, i, k) as usize,
        nearest_food: match nearest_owned_food(b, owners, i, k) {
            Some(d) => Some(d as u32),
            None => None,
        },
    }
}

proof fn lemma_nearest_bounded(b: BoardView, owners: Seq<Claim>, i: int, k: int)
    requires
        board_wf(b),
        0 <= i < b.snakes.len(),
        0 <= k <= owners.len(),
        owners.len() == num_cells(b),
    ensures
        nearest_owned_food(b, owners, i, k) matches Some(d) ==> 0 <= d <= 1000,
    decreases k,
{
    if k > 0 {
        lemma_nearest_bounded(b, owners, i, k - 1);
        if owned_food_at(b, owners, i, k - 1) {
            lemma_cell_at_in_bounds(b, k - 1);
            assert(in_bounds(b.snakes[i].body[0], b.bound));
        }
    }
}

proof fn lemma_cell_at_in_bounds(b: BoardView, k: int)
    requires
        board_wf(b),
        0 <= k < num_cells(b),
    ensures
        in_bounds(cell_at(k, b.bound), b.bound),
        cell_index(cell_at(k, b.bound), b.bound) == k,
        0 <= k % (b.bound.x + 1) <= b.bound.x,
        0 <= k / (b.bound.x + 1) <= b.bound.y,
{
    let w = b.bound.x + 1;
    let h = b.bound.y + 1;
    assert(0 <= k / w < h) by (nonlinear_arith)
        requires 0 <= k < w * h, w > 0, h > 0;
    assert(0 <= k % w < w) by (nonlinear_arith)
        requires w > 0, k >= 0;
    assert((k / w) * w + k % w == k) by (nonlinear_arith)
        requires w > 0;
}

pub proof fn lemma_cell_index_in_range(b: BoardView, c: Coord)
    requires
        board_wf(b),
        in_bounds(c, b.bound),
    ensures
        0 <= cell_index(c, b.bound) < num_cells(b),
        cell_at(cell_index(c, b.bound), b.bound) == c,
{
    let w = b.bound.x + 1;
    let h = b.bound.y + 1;
    let x = c.x as int;
    let y = c.y as int;
    assert(0 <= y * w + x < w * h) by (nonlinear_arith)
        requires 0 <= x < w, 0 <= y < h;
    assert((y * w + x) / w == y && (y * w + x) % w == x) by (nonlinear_arith)
        requires 0 <= x < w, 0 <= y;
}

/// Territories are disjoint: since every cell has a single claim, the areas of
/// all snakes together never exceed the number of cells.
pub proof fn lemma_territories_disjoint(b: BoardView, owners: Seq<Claim>)
    requires
        board_wf(b),
        valid_owners(b, owners),
    ensures
        owned_sum(owners, b.snakes.len() as int, owners.len() as int) <= num_cells(b),
{
    lemma_owned_sum_is_owned_by_any(owners, b.snakes.len() as int, owners.len() as int);
}

impl Board {
    /// Index of an on-board cell in row-by-row order.
    pub(crate) fn cell_slot(&self, c: Coord) -> (r: usize)
        requires
            self.wf(),
            in_bounds(c, self@.bound),
        ensures
            r == cell_index(c, self@.bound),
            r < num_cells(self@),
    {
        proof {
            lemma_cell_index_in_range(self@, c);
        }
        let w = (self.bound.x as usize) + 1;
        let y = c.y as usize;
        let x = c.x as usize;
        proof {
            assert(y * w <= 120 * 121) by (nonlinear_arith)
                requires y <= 120, w <= 121;
        }
        y * w + x
    }

    /// Number of cells.
    pub(crate) fn cell_count(&self) -> (r: usize)
        requires
            self.wf(),
        ensures
            r == num_cells(self@),
            1 <= r <= 121 * 121,
    {
        let w = (self.bound.x as usize) + 1;
        let h = (self.bound.y as usize) + 1;
        proof {
            assert(1 <= w * h <= 121 * 121) by (nonlinear_arith)
                requires 1 <= w <= 121, 1 <= h <= 121;
        }
        w * h
    }

    /// Claims `c` for snake `owner` in ring `turn`: a free cell becomes its own, and a
    /// cell another snake claimed in the same ring becomes contested.
    #[verifier::spinoff_prover]
    fn claim_cell(
        &self,
        claims: &mut Vec<Claim>,
        ring: &mut Vec<usize>,
        c: Coord,
        owner: usize,
        turn: usize,
        Ghost(parent): Ghost<Option<Coord>>,
    ) -> (r: bool)
        requires
            self.wf(),
            in_bounds(c, self@.bound),
            owner < self@.snakes.len(),
            old(claims)@.len() == num_cells(self@),
            old(ring)@.len() == num_cells(self@),
            valid_owners(self@, old(claims)@),
            claims_supported(self@, old(claims)@, old(ring)@, turn as int),
            parent is None ==> c == self@.snakes[owner as int].body[0],
            parent matches Some(p) ==> in_bounds(p, self@.bound)
                && old(claims)@[cell_index(p, self@.bound)] == Claim::Owned(owner)
                && old(ring)@[cell_index(p, self@.bound)] < turn
                && free_step(self@, p, c, turn as int),
        ensures
            claims_supported(self@, final(claims)@, final(ring)@, turn as int),
            forall|k: int| 0 <= k < num_cells(self@) && old(claims)@[k] != Claim::Free ==> #[trigger] final(ring)@[k] == old(ring)@[k],
            forall|k: int| 0 <= k < num_cells(self@) && old(ring)@[k] < turn && old(claims)@[k] != Claim::Free ==> #[trigger] final(claims)@[k] == old(claims)@[k],
            r ==> final(ring)@[cell_index(c, self@.bound)] == turn,
            !r ==> final(claims)@[cell_index(c, self@.bound)] == old(claims)@[cell_index(c, self@.bound)]
                || final(claims)@[cell_index(c, self@.bound)] == Claim::Contested,
            !r ==> final(ring)@[cell_index(c, self@.bound)] == old(ring)@[cell_index(c, self@.bound)],
            forall|k: int| 0 <= k < num_cells(self@) && k != cell_index(c, self@.bound) ==> #[trigger] final(ring)@[k] == old(ring)@[k],
            forall|k: int| 0 <= k < num_cells(self@) && old(claims)@[k] != Claim::Free ==> #[trigger] final(claims)@[k] != Claim::Free,
            final(claims)@.len() == num_cells(self@),
            final(ring)@.len() == num_cells(self@),
            valid_owners(self@, final(claims)@),
            r == (old(claims)@[cell_index(c, self@.bound)] == Claim::Free),
            r ==> final(claims)@[cell_index(c, self@.bound)] == Claim::Owned(owner),
            r ==> free_count(final(claims)@, num_cells(self@)) == free_count(old(claims)@, num_cells(self@)) - 1,
            !r ==> free_count(final(claims)@, num_cells(self@)) == free_count(old(claims)@, num_cells(self@)),
            forall|k: int| 0 <= k < num_cells(self@) && k != cell_index(c, self@.bound)
                ==> final(claims)@[k] == old(claims)@[k],
    {
        let ghost b = self@;
        let k = self.cell_slot(c);
        let n = self.cell_count();
        proof {
            lemma_free_count_update(claims@, k as int, Claim::Owned(owner), n as int);
            lemma_free_count_update(claims@, k as int, Claim::Contested, n as int);
            lemma_cell_index_in_range(b, c);
            if let Some(p) = parent {
                lemma_cell_index_in_range(b, p);
            }
        }
        let ghost c0 = claims@;
        let ghost r0 = ring@;
        match claims[k] {
            Claim::Free => {
                claims.set(k, Claim::Owned(owner));
                ring.set(k, turn);
                proof {
                    assert forall|k2: int| 0 <= k2 < claims@.len() implies #[trigger] claim_supported(b, claims@, ring@, k2) by {
                        if k2 == k {
                            assert(cell_at(k2, b.bound) == c);
                            if let Some(p) = parent {
                                assert(cell_index(p, b.bound) != k);
                                assert(free_step(b, p, cell_at(k2, b.bound), ring@[k2] as int));
                                assert(in_bounds(p, b.bound) && claims@[cell_index(p, b.bound)] == Claim::Owned(owner)
                                    && ring@[cell_index(p, b.bound)] < ring@[k2]
                                    && free_step(b, p, cell_at(k2, b.bound), ring@[k2] as int));
                            }
                            assert(reached_by(b, claims@, ring@, k2, owner as int));
                        } else {
                            assert(claim_supported(b, c0, r0, k2));
                            assert(claims@[k2] == c0[k2] && ring@[k2] == r0[k2]);
                            match c0[k2] {
                                Claim::Owned(o) => {
                                    lemma_reached_kept(b, c0, r0, claims@, ring@, k2, o as int, k as int);
                                },
                                Claim::Contested => {
                                    let (o1, o2) = choose|o1: int, o2: int| 0 <= o1 < b.snakes.len() && 0 <= o2 < b.snakes.len() && o1 != o2
                                        && #[trigger] reached_by(b, c0, r0, k2, o1) && #[trigger] reached_by(b, c0, r0, k2, o2);
                                    lemma_reached_kept(b, c0, r0, claims@, ring@, k2, o1, k as int);
                                    lemma_reached_kept(b, c0, r0, claims@, ring@, k2, o2, k as int);
                                },
                                Claim::Free => {},
                            }
                        }
                    }
                }
                true
            },
            Claim::Owned(o) => {
                if o != owner && ring[k] == turn {
                    claims.set(k, Claim::Contested);
                    proof {
                        assert forall|k2: int| 0 <= k2 < claims@.len() implies #[trigger] claim_supported(b, claims@, ring@, k2) by {
                            assert(claim_supported(b, c0, r0, k2));
                            if k2 != k {
                                assert(claims@[k2] == c0[k2] && ring@[k2] == r0[k2]);
                                match c0[k2] {
                                    Claim::Owned(o3) => {
                                        lemma_reached_kept(b, c0, r0, claims@, ring@, k2, o3 as int, k as int);
                                    },
                                    Claim::Contested => {
                                        let (o1, o2) = choose|o1: int, o2: int| 0 <= o1 < b.snakes.len() && 0 <= o2 < b.snakes.len() && o1 != o2
                                            && #[trigger] reached_by(b, c0, r0, k2, o1) && #[trigger] reached_by(b, c0, r0, k2, o2);
                                        lemma_reached_kept(b, c0, r0, claims@, ring@, k2, o1, k as int);
                                        lemma_reached_kept(b, c0, r0, claims@, ring@, k2, o2, k as int);
                                    },
                                    Claim::Free => {},
                                }
                            } else {
                                lemma_reached_kept(b, c0, r0, claims@, ring@, k2, o as int, k as int);
                                if let Some(p) = parent {
                                    assert(cell_index(p, b.bound) != k);
                                    assert(in_bounds(p, b.bound) && claims@[cell_index(p, b.bound)] == Claim::Owned(owner)
                                        && ring@[cell_index(p, b.bound)] < ring@[k2]
                                        && free_step(b, p, cell_at(k2, b.bound), ring@[k2] as int));
                                } else {
                                    assert(cell_at(k2, b.bound) == c);
                                }
                                assert(reached_by(b, claims@, ring@, k2, owner as int));
                                assert(reached_by(b, claims@, ring@, k2, o as int));
                            }
                        }
                    }
                }
                false
            },
            Claim::Contested => false,
        }
    }

    /// The entries of `next` whose cell is still claimed by that entry's snake.
    fn settled(
        &self,
        claims: &Vec<Claim>,
        next: &Vec<(Coord, usize)>,
        slots: &Vec<usize>,
        Ghost(ring): Ghost<Seq<usize>>,
        Ghost(turn): Ghost<int>,
    ) -> (r: Vec<(Coord, usize)>)
        requires
            next@.len() == slots@.len(),
            forall|j: int| 0 <= j < slots@.len() ==> #[trigger] slots@[j] < claims@.len(),
            forall|j: int| 0 <= j < next@.len() ==> in_bounds((#[trigger] next@[j]).0, self@.bound) && next@[j].1 < self@.snakes.len()
                && slots@[j] == cell_index(next@[j].0, self@.bound) && ring[slots@[j] as int] == turn,
        ensures
            r@.len() <= next@.len(),
            forall|j: int| 0 <= j < r@.len() ==> in_bounds((#[trigger] r@[j]).0, self@.bound) && r@[j].1 < self@.snakes.len(),
            forall|j: int| 0 <= j < r@.len() ==> entry_ok(self@, claims@, ring, #[trigger] r@[j], turn),
            forall|j: int| 0 <= j < next@.len() && claims@[slots@[j] as int] == Claim::Owned(next@[j].1)
                ==> exists|q: int| 0 <= q < r@.len() && #[trigger] r@[q] == #[trigger] next@[j],
    {
        let mut r: Vec<(Coord, usize)> = Vec::new();
        let mut j: usize = 0;
        while j < next.len()
            invariant
                j <= next@.len(),
                next@.len() == slots@.len(),
                forall|m: int| 0 <= m < slots@.len() ==> #[trigger] slots@[m] < claims@.len(),
                forall|m: int| 0 <= m < next@.len() ==> in_bounds((#[trigger] next@[m]).0, self@.bound) && next@[m].1 < self@.snakes.len()
                    && slots@[m] == cell_index(next@[m].0, self@.bound) && ring[slots@[m] as int] == turn,
                r@.len() <= j,
                forall|q: int| 0 <= q < r@.len() ==> in_bounds((#[trigger] r@[q]).0, self@.bound) && r@[q].1 < self@.snakes.len(),
                forall|q: int| 0 <= q < r@.len() ==> entry_ok(self@, claims@, ring, #[trigger] r@[q], turn),
                forall|j2: int| 0 <= j2 < j && claims@[slots@[j2] as int] == Claim::Owned(next@[j2].1)
                    ==> exists|q: int| 0 <= q < r@.len() && #[trigger] r@[q] == #[trigger] next@[j2],
            decreases next@.len() - j,
        {
            let (c, o) = next[j];
            let ghost r_before = r@;
            if claims[slots[j]] == Claim::Owned(o) {
                r.push((c, o));
                assert(r@[r@.len() - 1] == next@[j as int]);
            }
            proof {
                assert forall|j2: int| 0 <= j2 < j + 1 && claims@[slots@[j2] as int] == Claim::Owned(next@[j2].1)
                    implies exists|q: int| 0 <= q < r@.len() && #[trigger] r@[q] == #[trigger] next@[j2] by {
                    if j2 < j {
                        let q = choose|q: int| 0 <= q < r_before.len() && #[trigger] r_before[q] == #[trigger] next@[j2];
                        assert(r@[q] == r_before[q]);
                    }
                }
            }
            j += 1;
        }
        r
    }

    /// Splits the board among the snakes, ring by ring: from the heads outward,
    /// each ring `t` extends every snake's cells through the moves free after `t`
    /// turns. A cell goes to the snake that reaches it first; a cell two snakes
    /// reach in the same ring goes to neither.
    #[verifier::spinoff_prover]
    pub fn get_territory_owners(&self) -> (r: Vec<Claim>)
        requires
            self.wf(),
        ensures
            valid_owners(self@, r@),
            owners_justified(self@, r@),
            heads_owned(self@, r@),
    {
        let ghost b = self@;
        let n = self.cell_count();
        let mut claims: Vec<Claim> = Vec::new();
        let mut ring: Vec<usize> = Vec::new();
        let mut k: usize = 0;
        while k < n
            invariant
                k <= n,
                claims@.len() == k,
                ring@.len() == k,
                forall|m: int| 0 <= m < k ==> #[trigger] claims@[m] == Claim::Free,
                forall|m: int| 0 <= m < k ==> #[trigger] ring@[m] == 0,
            decreases n - k,
        {
            claims.push(Claim::Free);
            ring.push(0);
            k += 1;
        }
        proof {
            assert forall|k2: int| 0 <= k2 < claims@.len() implies #[trigger] claim_supported(b, claims@, ring@, k2) by {}
            assert forall|i3: int| 0 <= i3 < b.snakes.len() implies claims@[cell_index(#[trigger] b.snakes[i3].body[0], b.bound)] == Claim::Free by {
                assert(in_bounds(b.snakes[i3].body[0], b.bound));
                lemma_cell_index_in_range(b, b.snakes[i3].body[0]);
            }
        }
        let mut heads: Vec<(Coord, usize)> = Vec::new();
        let mut head_slots: Vec<usize> = Vec::new();
        let mut i: usize = 0;
        while i < self.snakes.len()
            invariant
                self.wf(),
                b == self@,
                n == num_cells(b),
                claims@.len() == n,
                ring@.len() == n,
                valid_owners(b, claims@),
                claims_supported(b, claims@, ring@, 0),
                forall|m: int| 0 <= m < n ==> #[trigger] ring@[m] == 0,
                heads@.len() == head_slots@.len(),
                i <= b.snakes.len(),
                forall|j: int| 0 <= j < heads@.len() ==> in_bounds((#[trigger] heads@[j]).0, b.bound) && heads@[j].1 < b.snakes.len()
                    && head_slots@[j] == cell_index(heads@[j].0, b.bound) && ring@[head_slots@[j] as int] == 0,
                forall|i2: int| 0 <= i2 < i && #[trigger] head_unique(b, i2)
                    ==> claims@[cell_index(b.snakes[i2].body[0], b.bound)] == Claim::Owned(i2 as usize),
                forall|i3: int| i <= i3 < b.snakes.len() && (forall|i2: int| 0 <= i2 < i ==> #[trigger] b.snakes[i2].body[0] != b.snakes[i3].body[0])
                    ==> claims@[cell_index(#[trigger] b.snakes[i3].body[0], b.bound)] == Claim::Free,
                forall|j: int| 0 <= j < head_slots@.len() ==> #[trigger] head_slots@[j] < n,
                listed(b, claims@, ring@, heads@, 0),
            decreases self@.snakes.len() - i,
        {
            let s = &self.snakes[i];
            assert(self@.snakes[i as int] == s@);
            let head = s.head();
            assert(in_bounds(head, self@.bound));
            let ghost c0 = claims@;
            proof {
                lemma_cell_index_in_range(b, head);
            }
            let ghost r0 = ring@;
            let ghost heads0 = heads@;
            let claimed_head = self.claim_cell(&mut claims, &mut ring, head, i, 0, Ghost(None));
            proof {
                lemma_cell_at_in_bounds(b, cell_index(head, b.bound));
                lemma_claim_step(b, c0, r0, claims@, ring@, cell_index(head, b.bound), 0);
            }
            proof {
                assert forall|i2: int| 0 <= i2 < i + 1 && #[trigger] head_unique(b, i2)
                    implies claims@[cell_index(b.snakes[i2].body[0], b.bound)] == Claim::Owned(i2 as usize) by {
                    assert(in_bounds(b.snakes[i2].body[0], b.bound));
                    lemma_cell_index_in_range(b, b.snakes[i2].body[0]);
                    if i2 < i {
                        assert(b.snakes[i as int].body[0] != b.snakes[i2].body[0]);
                        assert(cell_index(b.snakes[i2].body[0], b.bound) != cell_index(head, b.bound));
                    } else {
                        assert forall|j: int| 0 <= j < i implies #[trigger] b.snakes[j].body[0] != b.snakes[i as int].body[0] by {
                            assert(b.snakes[j].body[0] != b.snakes[i2].body[0]);
                        }
                    }
                }
                assert forall|i3: int| i + 1 <= i3 < b.snakes.len() && (forall|i2: int| 0 <= i2 < i + 1 ==> #[trigger] b.snakes[i2].body[0] != b.snakes[i3].body[0])
                    implies claims@[cell_index(#[trigger] b.snakes[i3].body[0], b.bound)] == Claim::Free by {
                    assert(in_bounds(b.snakes[i3].body[0], b.bound));
                    lemma_cell_index_in_range(b, b.snakes[i3].body[0]);
                    assert(b.snakes[i as int].body[0] != b.snakes[i3].body[0]);
                    assert(cell_index(b.snakes[i3].body[0], b.bound) != cell_index(head, b.bound));
                    assert(forall|i2: int| 0 <= i2 < i ==> #[trigger] b.snakes[i2].body[0] != b.snakes[i3].body[0]);
                }
            }
            heads.push((head, i));
            head_slots.push(self.cell_slot(head));
            proof {
                assert forall|k: int| 0 <= k < claims@.len() && ring@[k] == 0 && #[trigger] claims@[k] is Owned
                    implies exists|j: int| 0 <= j < heads@.len() && #[trigger] heads@[j] == (cell_at(k, b.bound), owner_of(claims@[k])) by {
                    if k == cell_index(head, b.bound) {
                        if claimed_head {
                            assert(heads@[heads0.len() as int] == (cell_at(k, b.bound), owner_of(claims@[k])));
                        } else {
                            assert(claims@[k] == c0[k]);
                            let j = choose|j: int| 0 <= j < heads0.len() && #[trigger] heads0[j] == (cell_at(k, b.bound), owner_of(c0[k]));
                            assert(heads@[j] == heads0[j]);
                        }
                    } else {
                        assert(claims@[k] == c0[k] && r0[k] == 0);
                        let j = choose|j: int| 0 <= j < heads0.len() && #[trigger] heads0[j] == (cell_at(k, b.bound), owner_of(c0[k]));
                        assert(heads@[j] == heads0[j]);
                    }
                }
            }
            i += 1;
        }
        let mut frontier = self.settled(&claims, &heads, &head_slots, Ghost(ring@), Ghost(0));
        proof {
            lemma_settled_listed(b, claims@, ring@, heads@, head_slots@, frontier@, 0);
        }
        proof {
            assert forall|i2: int| 0 <= i2 < b.snakes.len() && #[trigger] head_unique(b, i2)
                implies claims@[cell_index(b.snakes[i2].body[0], b.bound)] == Claim::Owned(i2 as usize)
                    && ring@[cell_index(b.snakes[i2].body[0], b.bound)] == 0 by {
                assert(in_bounds(b.snakes[i2].body[0], b.bound));
                lemma_cell_index_in_range(b, b.snakes[i2].body[0]);
            }
        }
        proof {
            lemma_free_count_update(claims@, 0, Claim::Free, n as int);
        }
        let mut turn: usize = 1;
        while frontier.len() > 0
            invariant
                self.wf(),
                b == self@,
                n == num_cells(b),
                1 <= n <= 121 * 121,
                claims@.len() == n,
                ring@.len() == n,
                valid_owners(b, claims@),
                claims_supported(b, claims@, ring@, turn - 1),
                forall|j: int| 0 <= j < frontier@.len() ==> in_bounds((#[trigger] frontier@[j]).0, b.bound) && frontier@[j].1 < b.snakes.len(),
                forall|j: int| 0 <= j < frontier@.len() ==> entry_ok(b, claims@, ring@, #[trigger] frontier@[j], turn - 1),
                forall|i2: int| 0 <= i2 < b.snakes.len() && #[trigger] head_unique(b, i2)
                    ==> claims@[cell_index(b.snakes[i2].body[0], b.bound)] == Claim::Owned(i2 as usize)
                        && ring@[cell_index(b.snakes[i2].body[0], b.bound)] == 0,
                1 <= turn <= n + 2,
                frontier@.len() > 0 ==> turn + free_count(claims@, n as int) <= n + 1,
                expanded_before(b, claims@, ring@, turn - 1),
                listed(b, claims@, ring@, frontier@, turn - 1),
            decreases free_count(claims@, n as int), frontier@.len(),
        {
            let ghost free_before = free_count(claims@, n as int);
            let mut next: Vec<(Coord, usize)> = Vec::new();
            let mut next_slots: Vec<usize> = Vec::new();
            let mut f: usize = 0;
            while f < frontier.len()
                invariant
                    self.wf(),
                    b == self@,
                    n == num_cells(b),
                    1 <= turn <= n + 2,
                    claims@.len() == n,
                    ring@.len() == n,
                    valid_owners(b, claims@),
                    claims_supported(b, claims@, ring@, turn as int),
                    forall|j: int| 0 <= j < frontier@.len() ==> in_bounds((#[trigger] frontier@[j]).0, b.bound) && frontier@[j].1 < b.snakes.len(),
                    forall|j: int| 0 <= j < frontier@.len() ==> entry_ok(b, claims@, ring@, #[trigger] frontier@[j], turn - 1),
                    forall|i2: int| 0 <= i2 < b.snakes.len() && #[trigger] head_unique(b, i2)
                        ==> claims@[cell_index(b.snakes[i2].body[0], b.bound)] == Claim::Owned(i2 as usize)
                            && ring@[cell_index(b.snakes[i2].body[0], b.bound)] == 0,
                    next@.len() == next_slots@.len(),
                    forall|j: int| 0 <= j < next@.len() ==> in_bounds((#[trigger] next@[j]).0, b.bound) && next@[j].1 < b.snakes.len()
                        && next_slots@[j] == cell_index(next@[j].0, b.bound) && ring@[next_slots@[j] as int] == turn
                        && claims@[next_slots@[j] as int] != Claim::Free,
                    forall|j: int| 0 <= j < next_slots@.len() ==> #[trigger] next_slots@[j] < n,
                    free_count(claims@, n as int) + next@.len() <= free_before,
                    f <= frontier@.len(),
                    expanded_before(b, claims@, ring@, turn - 1),
                    listed(b, claims@, ring@, frontier@, turn - 1),
                    listed(b, claims@, ring@, next@, turn as int),
                    forall|j: int, c2: Coord| 0 <= j < f && #[trigger] free_step(b, (#[trigger] frontier@[j]).0, c2, turn as int)
                        ==> claims@[cell_index(c2, b.bound)] != Claim::Free,
                decreases frontier@.len() - f,
            {
                let (c, o) = frontier[f];
                assert(entry_ok(b, claims@, ring@, frontier@[f as int], turn - 1));
                let moves = self.get_free_moves(c, turn);
                let mut m: usize = 0;
                while m < moves.len()
                    invariant
                        self.wf(),
                        b == self@,
                        n == num_cells(b),
                        1 <= turn <= n + 2,
                        claims@.len() == n,
                        ring@.len() == n,
                        valid_owners(b, claims@),
                        claims_supported(b, claims@, ring@, turn as int),
                        o < b.snakes.len(),
                        entry_ok(b, claims@, ring@, (c, o), turn - 1),
                        forall|j: int| 0 <= j < frontier@.len() ==> entry_ok(b, claims@, ring@, #[trigger] frontier@[j], turn - 1),
                        forall|i2: int| 0 <= i2 < b.snakes.len() && #[trigger] head_unique(b, i2)
                            ==> claims@[cell_index(b.snakes[i2].body[0], b.bound)] == Claim::Owned(i2 as usize)
                                && ring@[cell_index(b.snakes[i2].body[0], b.bound)] == 0,
                        moves@ == free_moves(b, c, turn as int),
                        next@.len() == next_slots@.len(),
                        forall|j: int| 0 <= j < next@.len() ==> in_bounds((#[trigger] next@[j]).0, b.bound) && next@[j].1 < b.snakes.len()
                            && next_slots@[j] == cell_index(next@[j].0, b.bound) && ring@[next_slots@[j] as int] == turn
                            && claims@[next_slots@[j] as int] != Claim::Free,
                        forall|j: int| 0 <= j < next_slots@.len() ==> #[trigger] next_slots@[j] < n,
                        free_count(claims@, n as int) + next@.len() <= free_before,
                        f < frontier@.len(),
                        c == frontier@[f as int].0,
                        expanded_before(b, claims@, ring@, turn - 1),
                        listed(b, claims@, ring@, frontier@, turn - 1),
                        listed(b, claims@, ring@, next@, turn as int),
                        forall|j: int, c2: Coord| 0 <= j < f && #[trigger] free_step(b, (#[trigger] frontier@[j]).0, c2, turn as int)
                            ==> claims@[cell_index(c2, b.bound)] != Claim::Free,
                        m <= moves@.len(),
                        forall|m2: int| 0 <= m2 < m ==> claims@[cell_index(step_target(c, #[trigger] moves@[m2]), b.bound)] != Claim::Free,
                    decreases moves@.len() - m,
                {
                    let d = moves[m];
                    proof {
                        crate::board::lemma_free_move_in_bounds(b, c, turn as int, m as int);
                        lemma_cell_index_in_range(b, c);
                    }
                    let o2 = d.offset();
                    let nb = Coord { x: c.x + o2.dx, y: c.y + o2.dy };
                    assert(free_step(b, c, nb, turn as int));
                    let ghost c0 = claims@;
                    let ghost r0 = ring@;
                    let ghost next0 = next@;
                    let claimed = self.claim_cell(&mut claims, &mut ring, nb, o, turn, Ghost(Some(c)));
                    proof {
                        lemma_cell_index_in_range(b, nb);
                        lemma_claim_step(b, c0, r0, claims@, ring@, cell_index(nb, b.bound), turn as int);
                        assert(expanded_before(b, c0, r0, turn - 1));
                        assert(listed(b, c0, r0, frontier@, turn - 1));
                        assert forall|j: int, c2: Coord| 0 <= j < f && #[trigger] free_step(b, (#[trigger] frontier@[j]).0, c2, turn as int)
                            implies claims@[cell_index(c2, b.bound)] != Claim::Free by {
                            lemma_step_in_bounds(b, frontier@[j].0, c2, turn as int);
                            lemma_cell_index_in_range(b, c2);
                        }
                        assert forall|m2: int| 0 <= m2 < m + 1 implies claims@[cell_index(step_target(c, #[trigger] moves@[m2]), b.bound)] != Claim::Free by {
                            crate::board::lemma_free_move_in_bounds(b, c, turn as int, m2);
                            lemma_cell_index_in_range(b, step_target(c, moves@[m2]));
                        }
                        assert forall|j: int| 0 <= j < frontier@.len() implies entry_ok(b, claims@, ring@, #[trigger] frontier@[j], turn - 1) by {
                            let e = frontier@[j];
                            assert(entry_ok(b, c0, r0, e, turn - 1));
                            lemma_cell_index_in_range(b, e.0);
                        }
                        assert forall|i2: int| 0 <= i2 < b.snakes.len() && #[trigger] head_unique(b, i2)
                            implies claims@[cell_index(b.snakes[i2].body[0], b.bound)] == Claim::Owned(i2 as usize)
                                && ring@[cell_index(b.snakes[i2].body[0], b.bound)] == 0 by {
                            assert(in_bounds(b.snakes[i2].body[0], b.bound));
                            lemma_cell_index_in_range(b, b.snakes[i2].body[0]);
                        }
                        assert forall|j: int| 0 <= j < next@.len() implies ring@[next_slots@[j] as int] == turn
                            && claims@[next_slots@[j] as int] != Claim::Free by {
                            lemma_cell_index_in_range(b, next@[j].0);
                            assert(c0[next_slots@[j] as int] != Claim::Free);
                        }
                    }
                    if claimed {
                        next.push((nb, o));
                        next_slots.push(self.cell_slot(nb));
                    }
                    proof {
                        let kn = cell_index(nb, b.bound);
                        assert(cell_at(kn, b.bound) == nb);
                        assert forall|k: int| 0 <= k < claims@.len() && ring@[k] == turn && #[trigger] claims@[k] is Owned
                            implies exists|j: int| 0 <= j < next@.len() && #[trigger] next@[j] == (cell_at(k, b.bound), owner_of(claims@[k])) by {
                            if k == kn && claimed {
                                assert(next@[next0.len() as int] == (cell_at(k, b.bound), owner_of(claims@[k])));
                            } else {
                                if k == kn {
                                    assert(claims@[k] == c0[k]);
                                } else {
                                    assert(claims@[k] == c0[k] && ring@[k] == r0[k]);
                                }
                                let j = choose|j: int| 0 <= j < next0.len() && #[trigger] next0[j] == (cell_at(k, b.bound), owner_of(c0[k]));
                                assert(next@[j] == next0[j]);
                            }
                        }
                    }
                    m += 1;
                }
                proof {
                    assert forall|j: int, c2: Coord| 0 <= j < f + 1 && #[trigger] free_step(b, (#[trigger] frontier@[j]).0, c2, turn as int)
                        implies claims@[cell_index(c2, b.bound)] != Claim::Free by {
                        if j == f {
                            let d = choose|d: ApiDirection| #[trigger] is_free_move(b, c, d, turn as int) && step_target(c, d) == c2;
                            crate::pathfind::lemma_free_moves_complete(b, c, turn as int, d, 4);
                            let m2 = choose|m2: int| 0 <= m2 < moves@.len() && moves@[m2] == d;
                            assert(claims@[cell_index(step_target(c, moves@[m2]), b.bound)] != Claim::Free);
                        }
                    }
                }
                f += 1;
            }
            proof {
                assert forall|k: int, c2: Coord| 0 <= k < claims@.len() && claims@[k] is Owned && ring@[k] < turn
                    && #[trigger] free_step(b, cell_at(k, b.bound), c2, ring@[k] + 1) implies claims@[cell_index(c2, b.bound)] != Claim::Free by {
                    if ring@[k] == turn - 1 {
                        let j = choose|j: int| 0 <= j < frontier@.len() && #[trigger] frontier@[j] == (cell_at(k, b.bound), owner_of(claims@[k]));
                        assert(free_step(b, frontier@[j].0, c2, turn as int));
                    }
                }
            }
            let ghost next_final = next@;
            frontier = self.settled(&claims, &next, &next_slots, Ghost(ring@), Ghost(turn as int));
            proof {
                lemma_settled_listed(b, claims@, ring@, next_final, next_slots@, frontier@, turn as int);
            }
            proof {
                lemma_free_count_update(claims@, 0, Claim::Free, n as int);
            }
            turn += 1;
        }
        proof {
            assert(ring@.len() == claims@.len() && forall|k: int| 0 <= k < claims@.len() ==> #[trigger] claim_supported(b, claims@, ring@, k));
            assert forall|k: int, c2: Coord| 0 <= k < claims@.len() && claims@[k] is Owned && ring@[k] < usize::MAX as int
                && #[trigger] free_step(b, cell_at(k, b.bound), c2, ring@[k] + 1) implies claims@[cell_index(c2, b.bound)] != Claim::Free by {
                assert(claims@[k] != Claim::Free);
                assert(ring@[k] <= turn - 1);
                if ring@[k] == turn - 1 {
                    assert(listed(b, claims@, ring@, frontier@, turn - 1));
                }
            }
        }
        claims
    }

    /// Each snake's territory under the ownership `owners`: the cells it owns,
    /// the food on them, and the distance from its head to the nearest such food.
    pub fn territories_from_owners(&self, owners: &Vec<Claim>) -> (r: Vec<Territory>)
        requires
            self.wf(),
            valid_owners(self@, owners@),
        ensures
            r@.len() == self@.snakes.len(),
            forall|i: int| 0 <= i < r@.len() ==> #[trigger] r@[i] == territory_of(self@, owners@, i),
    {
        let n = self.cell_count();
        let w = (self.bound.x as usize) + 1;
        let mut r: Vec<Territory> = Vec::new();
        let mut i: usize = 0;
        while i < self.snakes.len()
            invariant
                i <= self@.snakes.len(),
                r@.len() == i,
                forall|j: int| 0 <= j < i ==> #[trigger] r@[j] == territory_upto(self@, owners@, j, 0),
            decreases self@.snakes.len() - i,
        {
            r.push(Territory { area: 0, num_food: 0, nearest_food: None });
            i += 1;
        }
        let mut k: usize = 0;
        while k < n
            invariant
                self.wf(),
                n == num_cells(self@),
                n <= 121 * 121,
                w == self@.bound.x + 1,
                valid_owners(self@, owners@),
                k <= n,
                r@.len() == self@.snakes.len(),
                forall|j: int| 0 <= j < r@.len() ==> #[trigger] r@[j] == territory_upto(self@, owners@, j, k as int),
            decreases n - k,
        {
            let ghost b = self@;
            proof {
                lemma_cell_at_in_bounds(b, k as int);
            }
            match owners[k] {
                Claim::Owned(o) => {
                    let cell = Coord { x: (k % w) as i8, y: (k / w) as i8 };
                    assert(cell == cell_at(k as int, b.bound));
                    let t = r[o];
                    proof {
                        lemma_owned_count_le(owners@, o as int, k as int);
                        lemma_owned_food_count_le(b, owners@, o as int, k as int);
                        lemma_nearest_bounded(b, owners@, o as int, k as int);
                        assert(t == territory_upto(b, owners@, o as int, k as int));
                    }
                    let mut nt = Territory { area: t.area + 1, num_food: t.num_food, nearest_food: t.nearest_food };
                    if self.find_food(cell).is_some() {
                        assert(self@.snakes[o as int] == self.snakes@[o as int]@);
                        assert(self@.snakes[o as int].body.len() > 0);
                        let head = self.snakes[o].head();
                        let d = head.dist_to(cell) as u32;
                        nt.num_food = t.num_food + 1;
                        nt.nearest_food = match t.nearest_food {
                            Some(p) => if p <= d { Some(p) } else { Some(d) },
                            None => Some(d),
                        };
                    }
                    r.set(o, nt);
                    proof {
                        assert forall|j: int| 0 <= j < r@.len() implies #[trigger] r@[j] == territory_upto(b, owners@, j, k + 1) by {
                            if j != o as int {
                                assert(owners@[k as int] != Claim::Owned(j as usize));
                            }
                        }
                    }
                },
                _ => {
                    proof {
                        assert forall|j: int| 0 <= j < r@.len() implies #[trigger] r@[j] == territory_upto(b, owners@, j, k + 1) by {
                            assert(owners@[k as int] != Claim::Owned(j as usize));
                        }
                    }
                },
            }
            k += 1;
        }
        r
    }

    /// Each snake's territory (see `get_territory_owners`). No cell counts
    /// toward two snakes, so the areas sum to at most the number of cells.
    pub fn get_territories(&self) -> (r: Vec<Territory>)
        requires
            self.wf(),
        ensures
            r@.len() == self@.snakes.len(),
            exists|owners: Seq<Claim>| valid_owners(self@, owners) && owners_justified(self@, owners)
                && heads_owned(self@, owners) && forall|i: int|
                0 <= i < r@.len() ==> #[trigger] r@[i] == territory_of(self@, owners, i),
            total_area(r@, r@.len() as int) <= num_cells(self@),
    {
        let owners = self.get_territory_owners();
        let r = self.territories_from_owners(&owners);
        proof {
            lemma_territories_disjoint(self@, owners@);
            lemma_total_area(self@, owners@, r@, r@.len() as int);
        }
        r
    }
}

proof fn lemma_total_area(b: BoardView, owners: Seq<Claim>, t: Seq<Territory>, m: int)
    requires
        board_wf(b),
        valid_owners(b, owners),
        0 <= m <= t.len() == b.snakes.len(),
        forall|i: int| 0 <= i < t.len() ==> #[trigger] t[i] == territory_of(b, owners, i),
    ensures
        total_area(t, m) == owned_sum(owners, m, owners.len() as int),
    decreases m,
{
    if m > 0 {
        lemma_total_area(b, owners, t, m - 1);
        lemma_owned_count_le(owners, m - 1, owners.len() as int);
        assert(owners.len() <= 121 * 121) by (nonlinear_arith)
            requires owners.len() == (b.bound.x + 1) * (b.bound.y + 1), 0 <= b.bound.x <= 120, 0 <= b.bound.y <= 120;
        assert(t[m - 1] == territory_of(b, owners, m - 1));
    }
}

} // verus!
