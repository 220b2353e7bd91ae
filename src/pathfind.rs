use vstd::prelude::*;
use crate::api::ApiDirection;
use crate::board::{Board, BoardView, board_wf, free_moves, in_bounds, is_free_move, step_target};
use crate::coord::{Coord, manhattan};
use crate::path::{Path, seq_dist};
use crate::territory::{cell_at, cell_index, num_cells};

verus! {

/// Weight of the distance estimate in the path search; above one, it trades
/// optimality for speed.
pub const PATHFINDING_HEURISTIC_WEIGHT: u32 = 3;

/// Cell `to` is one free move away from `from` with `n` turns elapsed.
pub open spec fn free_step(b: BoardView, from: Coord, to: Coord, n: int) -> bool {
    exists|d: ApiDirection| #[trigger] is_free_move(b, from, d, n) && step_target(from, d) == to
}

/// Read from its last node back to its first, `p` is a walk on `b` whose k-th
/// step is a free move with k turns elapsed.
pub open spec fn walk_back(b: BoardView, p: Seq<Coord>) -> bool {
    &&& p.len() >= 1
    &&& forall|j: int| 0 <= j < p.len() - 1 ==> #[trigger] free_step(b, p[j + 1], p[j], p.len() - 2 - j)
}

/// Some walk leads from `from` to `to`, each step free with as many turns
/// elapsed as steps taken before it.
pub open spec fn timed_reachable(b: BoardView, from: Coord, to: Coord) -> bool {
    exists|p: Seq<Coord>| #[trigger] walk_back(b, p) && p[0] == to && p.last() == from
}

/// A walk starting at its first node whose every step is free right now,
/// before any snake moves.
pub open spec fn static_walk(b: BoardView, w: Seq<Coord>) -> bool {
    &&& w.len() >= 1
    &&& forall|j: int| 0 <= j < w.len() - 1 ==> #[trigger] free_step(b, w[j], w[j + 1], 0)
}

/// Some walk of moves that are free right now leads from `from` to `to`.
pub open spec fn static_reachable(b: BoardView, from: Coord, to: Coord) -> bool {
    exists|w: Seq<Coord>| #[trigger] static_walk(b, w) && w[0] == from && w.last() == to
}

/// A move free now stays free as turns pass.
proof fn lemma_free_later(b: BoardView, from: Coord, d: ApiDirection, n: int)
    requires
        n >= 0,
        is_free_move(b, from, d, 0),
    ensures
        is_free_move(b, from, d, n),
{
    assert forall|i: int| 0 <= i < b.snakes.len() implies !crate::board::blocks(#[trigger] b.snakes[i], step_target(from, d), n) by {
        assert(!crate::board::blocks(b.snakes[i], step_target(from, d), 0));
    }
}

/// Every free move is listed among the free moves.
pub proof fn lemma_free_moves_complete(b: BoardView, from: Coord, n: int, d: ApiDirection, k: int)
    requires
        0 <= k <= 4,
        is_free_move(b, from, d, n),
        crate::api::dir_index(d) < k,
    ensures
        crate::board::free_moves_upto(b, from, n, k).contains(d),
    decreases k,
{
    let prev = crate::board::free_moves_upto(b, from, n, k - 1);
    if crate::api::dir_index(d) < k - 1 {
        lemma_free_moves_complete(b, from, n, d, k - 1);
        if is_free_move(b, from, crate::api::dir_at(k - 1), n) {
            let q = choose|q: int| 0 <= q < prev.len() && prev[q] == d;
            assert(prev.push(crate::api::dir_at(k - 1))[q] == d);
        }
    } else {
        assert(crate::api::dir_at(k - 1) == d);
        assert(prev.push(d)[prev.len() as int] == d);
    }
}

/// Every on-board cell has an index in range, and the index leads back to it.
spec fn cells_indexed(b: BoardView) -> bool {
    forall|c: Coord| in_bounds(c, b.bound) ==> 0 <= #[trigger] cell_index(c, b.bound) < num_cells(b)
        && cell_at(cell_index(c, b.bound), b.bound) == c
}

proof fn lemma_cells_indexed(b: BoardView)
    requires
        board_wf(b),
    ensures
        cells_indexed(b),
{
    assert forall|c: Coord| in_bounds(c, b.bound) implies 0 <= #[trigger] cell_index(c, b.bound) < num_cells(b)
        && cell_at(cell_index(c, b.bound), b.bound) == c by {
        crate::territory::lemma_cell_index_in_range(b, c);
    }
}

/// `d` is the length of a path, without repeated cells, that runs from `to`
/// back to `from` as a timed walk (see `walk_back`).
pub open spec fn found_path(b: BoardView, from: Coord, to: Coord, d: int) -> bool {
    exists|p: Seq<Coord>| #[trigger] walk_back(b, p) && p[0] == to && p.last() == from && p.no_duplicates() && d == seq_dist(p)
}

/// The search's record of the cells reached so far.
struct Search {
    seen: Vec<bool>,
    closed: Vec<bool>,
    g: Vec<u32>,
    prev: Vec<Coord>,
}

impl Search {
    /// Turns elapsed on reaching `c`, where `from` is the start.
    spec fn gval(&self, b: BoardView, from: Coord, c: Coord) -> int {
        if c == from { 0 } else { self.g@[cell_index(c, b.bound)] as int }
    }

    /// Expansion of `c` is over.
    spec fn done(&self, b: BoardView, from: Coord, c: Coord) -> bool {
        c == from || (in_bounds(c, b.bound) && self.closed@[cell_index(c, b.bound)])
    }

    spec fn inv(&self, b: BoardView, from: Coord, closed_count: int) -> bool {
        let n = num_cells(b);
        &&& self.seen@.len() == n
        &&& self.closed@.len() == n
        &&& self.g@.len() == n
        &&& self.prev@.len() == n
        &&& in_bounds(from, b.bound) ==> self.g@[cell_index(from, b.bound)] == 0
        &&& 0 <= closed_count <= n + 1
        &&& forall|k: int| 0 <= k < n && #[trigger] self.closed@[k] ==> self.seen@[k]
        &&& forall|k: int| 0 <= k < n && #[trigger] self.seen@[k] ==> self.g@[k] <= closed_count
        &&& forall|k: int| 0 <= k < n && #[trigger] self.seen@[k] && cell_at(k, b.bound) != from ==> {
            let p = self.prev@[k];
            &&& self.done(b, from, p)
            &&& (p != from ==> self.seen@[cell_index(p, b.bound)])
            &&& self.g@[k] == self.gval(b, from, p) + 1
            &&& free_step(b, p, cell_at(k, b.bound), self.gval(b, from, p))
        }
    }
}

/// `c` is the start or a cell reached so far.
spec fn is_seen(s: Search, b: BoardView, from: Coord, c: Coord) -> bool {
    c == from || (in_bounds(c, b.bound) && s.seen@[cell_index(c, b.bound)])
}

/// `c` has been expanded.
spec fn expanded(s: Search, b: BoardView, from: Coord, from_done: bool, c: Coord) -> bool {
    if c == from { from_done } else { in_bounds(c, b.bound) && s.closed@[cell_index(c, b.bound)] }
}

/// Every cell one move, free right now, from an expanded cell other than `skip` has been reached.
spec fn closed_ok(s: Search, b: BoardView, from: Coord, from_done: bool, skip: Option<Coord>) -> bool {
    forall|c: Coord, c2: Coord| expanded(s, b, from, from_done, c) && skip != Some(c) && #[trigger] free_step(b, c, c2, 0)
        ==> is_seen(s, b, from, c2)
}

/// Every reached cell other than `skip` that is not expanded yet waits in the open list.
spec fn pending_ok(s: Search, b: BoardView, from: Coord, from_done: bool, open: Seq<(Coord, u32)>, skip: Option<Coord>) -> bool {
    forall|c: Coord| #[trigger] is_seen(s, b, from, c) && !expanded(s, b, from, from_done, c) && skip != Some(c)
        ==> exists|j: int| 0 <= j < open.len() && (#[trigger] open[j]).0 == c
}

proof fn lemma_walk_seen(s: Search, b: BoardView, from: Coord, from_done: bool, w: Seq<Coord>, j: int)
    requires
        closed_ok(s, b, from, from_done, None),
        forall|c: Coord| #[trigger] is_seen(s, b, from, c) ==> expanded(s, b, from, from_done, c),
        static_walk(b, w),
        w[0] == from,
        0 <= j < w.len(),
    ensures
        is_seen(s, b, from, w[j]),
    decreases j,
{
    if j > 0 {
        lemma_walk_seen(s, b, from, from_done, w, j - 1);
        assert(free_step(b, w[j - 1], w[(j - 1) + 1], 0));
        assert(expanded(s, b, from, from_done, w[j - 1]));
    }
}

/// Every entry of the open list is the start or a reached cell.
spec fn open_ok(open: Seq<(Coord, u32)>, s: Search, b: BoardView, from: Coord) -> bool {
    forall|j: int| 0 <= j < open.len() ==> {
        let c = (#[trigger] open[j]).0;
        c == from || (in_bounds(c, b.bound) && s.seen@[cell_index(c, b.bound)])
    }
}

/// Number of `false` entries among the first `k`.
spec fn open_count(s: Seq<bool>, k: int) -> int
    decreases k,
{
    if k <= 0 { 0 } else { open_count(s, k - 1) + if !s[k - 1] { 1int } else { 0int } }
}

proof fn lemma_open_count_set(s: Seq<bool>, j: int, k: int)
    requires
        0 <= j < s.len(),
        0 <= k <= s.len(),
    ensures
        open_count(s.update(j, true), k) == open_count(s, k) - if j < k && !s[j] { 1int } else { 0int },
        0 <= open_count(s, k) <= k,
    decreases k,
{
    if k > 0 {
        lemma_open_count_set(s, j, k - 1);
    }
}

impl Board {
    /// A weighted A* search for a walk from `from` to `to`, where each step may
    /// enter a cell that a snake's tail has left by the time the walk gets
    /// there. The path runs from `to` back to `from`; `pathfind(a, a)` is the
    /// single node `a`. Nothing is returned where no such walk is found, in
    /// particular where none exists.
    #[verifier::rlimit(100)]
    #[verifier::spinoff_prover]
    pub fn pathfind(&self, from: Coord, to: Coord) -> (r: Option<Path>)
        requires
            self.wf(),
        ensures
            from == to ==> (r matches Some(p) && p@ == seq![from]),
            r matches Some(p) ==> p@[0] == to && p@.last() == from && walk_back(self@, p@)
                && p@.len() <= 121 * 121 + 2 && p@.no_duplicates(),
            !timed_reachable(self@, from, to) ==> r is None,
            r is None ==> !static_reachable(self@, from, to),
    {
        if from == to {
            let mut v: Vec<Coord> = Vec::new();
            v.push(from);
            assert(v@ =~= seq![from]);
            proof {
                assert(walk_back(self@, v@));
                assert(v@.no_duplicates());
            }
            return Some(Path::from_vec(v));
        }
        let ghost b = self@;
        proof {
            lemma_cells_indexed(b);
        }
        let n = self.cell_count();
        let mut s = Search { seen: vec![false; n], closed: vec![false; n], g: vec![0u32; n], prev: vec![from; n] };
        let from_in = from.x >= 0 && from.x <= self.bound.x && from.y >= 0 && from.y <= self.bound.y;
        if from_in {
            let k = self.cell_slot(from);
            s.seen.set(k, true);
        }
        let mut open: Vec<(Coord, u32)> = Vec::new();
        open.push((from, 0));
        let mut from_done = false;
        let ghost mut cc: int = 0;
        proof {
            assert forall|c3: Coord| #[trigger] is_seen(s, b, from, c3) && !expanded(s, b, from, from_done, c3) && None::<Coord> != Some(c3)
                implies exists|j: int| 0 <= j < open@.len() && (#[trigger] open@[j]).0 == c3 by {
                if c3 != from {
                    if from_in {
                        assert(cell_index(c3, b.bound) == cell_index(from, b.bound));
                    }
                }
                assert(open@[0].0 == from);
            }
            assert forall|c3: Coord, c4: Coord| expanded(s, b, from, from_done, c3) && None::<Coord> != Some(c3) && #[trigger] free_step(b, c3, c4, 0)
                implies is_seen(s, b, from, c4) by {
            }
        }
        proof {
            lemma_open_count_set(s.closed@, 0, n as int);
            assert(s.closed@ =~= Seq::new(n as nat, |i: int| false));
            lemma_open_count_all(s.closed@, n as int);
        }
        while open.len() > 0
            invariant
                self.wf(),
                b == self@,
                n == num_cells(b),
                1 <= n <= 121 * 121,
                from != to,
                from_in == in_bounds(from, b.bound),
                cells_indexed(b),
                s.inv(b, from, cc),
                from_in ==> s.seen@[cell_index(from, b.bound)],
                cc == (n - open_count(s.closed@, n as int)) + if from_done && !from_in { 1int } else { 0int },
                !from_done ==> cc == 0,
                from_in && !from_done ==> !s.closed@[cell_index(from, b.bound)],
                from_in && from_done ==> s.closed@[cell_index(from, b.bound)],
                open_ok(open@, s, b, from),
                closed_ok(s, b, from, from_done, None),
                pending_ok(s, b, from, from_done, open@, None),
                !expanded(s, b, from, from_done, to),
            decreases open_count(s.closed@, n as int) + if from_done { 0int } else { 1int }, open@.len(),
        {
            let mut best: usize = 0;
            let mut q: usize = 1;
            while q < open.len()
                invariant
                    best < open@.len(),
                    1 <= q <= open@.len(),
                decreases open@.len() - q,
            {
                if open[q].1 < open[best].1 {
                    best = q;
                }
                q += 1;
            }
            let ghost open_before = open@;
            let (c, _) = open.remove(best);
            proof {
                assert(open_before[best as int].0 == c);
                assert forall|c3: Coord| #[trigger] is_seen(s, b, from, c3) && !expanded(s, b, from, from_done, c3) && Some(c) != Some(c3)
                    implies exists|j: int| 0 <= j < open@.len() && (#[trigger] open@[j]).0 == c3 by {
                    let j0 = choose|j: int| 0 <= j < open_before.len() && (#[trigger] open_before[j]).0 == c3;
                    if j0 < best {
                        assert(open@[j0] == open_before[j0]);
                    } else {
                        assert(j0 != best);
                        assert(open@[j0 - 1] == open_before[j0]);
                    }
                }
                assert forall|j: int| 0 <= j < open@.len() implies {
                    let c2 = (#[trigger] open@[j]).0;
                    c2 == from || (in_bounds(c2, b.bound) && s.seen@[cell_index(c2, b.bound)])
                } by {
                    assert(open_ok(open_before, s, b, from));
                    if j < best {
                        assert(open@[j] == open_before[j]);
                    } else {
                        assert(open@[j] == open_before[j + 1]);
                    }
                }
            }
            if c == to {
                proof {
                    assert(cc <= n + 1);
                }
                return Some(self.trace_back(&s, from, to, Ghost(cc)));
            }
            let stale = if c == from {
                from_done
            } else {
                s.closed[self.cell_slot(c)]
            };
            if !stale {
                let gc: u32 = if c == from {
                    0
                } else {
                    s.g[self.cell_slot(c)]
                };
                proof {
                    if c != from {
                        assert(s.seen@[cell_index(c, b.bound)]);
                    }
                    assert(gc == s.gval(b, from, c));
                    assert(gc <= cc) by {
                        if c != from {
                            assert(s.seen@[cell_index(c, b.bound)]);
                        }
                    }
                }
                let ghost open_before = open@;
                let ghost s_before = s;
                let ghost done_before = from_done;
                if c != from || from_in {
                    proof {
                        let j = cell_index(c, b.bound);
                        lemma_open_count_set(s.closed@, j, n as int);
                        lemma_open_count_set(s.closed@.update(j, true), j, n as int);
                    }
                    self.close(&mut s, from, c, Ghost(cc));
                } else {
                    proof {
                        lemma_inv_grow(&s, b, from, cc);
                    }
                }
                if c == from {
                    from_done = true;
                }
                proof {
                    cc = cc + 1;
                    assert(open_ok(open@, s, b, from)) by {
                        assert(open_ok(open_before, s, b, from));
                    }
                    assert(expanded(s, b, from, from_done, c));
                    assert forall|c3: Coord| #[trigger] is_seen(s, b, from, c3) == is_seen(s_before, b, from, c3) by {}
                    assert forall|c3: Coord| c3 != c implies #[trigger] expanded(s, b, from, from_done, c3) == expanded(s_before, b, from, done_before, c3) by {
                        if c3 != from && in_bounds(c3, b.bound) && c != from {
                            assert(cell_index(c3, b.bound) != cell_index(c, b.bound));
                        }
                        if c3 != from && in_bounds(c3, b.bound) && c == from && from_in {
                            assert(cell_index(c3, b.bound) != cell_index(c, b.bound));
                        }
                    }
                    assert(closed_ok(s, b, from, from_done, Some(c)));
                    assert(pending_ok(s, b, from, from_done, open@, None)) by {
                        assert forall|c3: Coord| #[trigger] is_seen(s, b, from, c3) && !expanded(s, b, from, from_done, c3) && None::<Coord> != Some(c3)
                            implies exists|j: int| 0 <= j < open@.len() && (#[trigger] open@[j]).0 == c3 by {
                            assert(is_seen(s_before, b, from, c3));
                        }
                    }
                    assert(!expanded(s, b, from, from_done, to));
                }
                let moves = self.get_free_moves(c, gc as usize);
                let mut m: usize = 0;
                while m < moves.len()
                    invariant
                        self.wf(),
                        b == self@,
                        n == num_cells(b),
                        1 <= n <= 121 * 121,
                        from_in == in_bounds(from, b.bound),
                        cells_indexed(b),
                        s.inv(b, from, cc),
                        from_in ==> s.seen@[cell_index(from, b.bound)],
                        in_bounds(c, b.bound) || c == from,
                        s.done(b, from, c),
                        c != from ==> s.seen@[cell_index(c, b.bound)],
                        gc == s.gval(b, from, c),
                        gc + 1 <= cc,
                        cc <= n + 1,
                        moves@ == free_moves(b, c, gc as int),
                        cc == (n - open_count(s.closed@, n as int)) + if from_done && !from_in { 1int } else { 0int },
                        from_in && !from_done ==> !s.closed@[cell_index(from, b.bound)],
                        from_in && from_done ==> s.closed@[cell_index(from, b.bound)],
                        open_ok(open@, s, b, from),
                        expanded(s, b, from, from_done, c),
                        closed_ok(s, b, from, from_done, Some(c)),
                        pending_ok(s, b, from, from_done, open@, None),
                        !expanded(s, b, from, from_done, to),
                        m <= moves@.len(),
                        forall|m2: int| 0 <= m2 < m ==> is_seen(s, b, from, step_target(c, #[trigger] moves@[m2])),
                    decreases moves@.len() - m,
                {
                    let d = moves[m];
                    proof {
                        crate::board::lemma_free_move_in_bounds(b, c, gc as int, m as int);
                    }
                    let o = d.offset();
                    let nb = Coord { x: c.x + o.dx, y: c.y + o.dy };
                    assert(nb == step_target(c, d));
                    let ghost s_before = s;
                    let ghost open_before = open@;
                    if nb != from {
                        proof {
                            assert(free_step(b, c, nb, gc as int));
                        }
                        self.relax(&mut s, &mut open, from, to, c, gc, nb, Ghost(cc), Ghost(from_done));
                        proof {
                            assert forall|m2: int| 0 <= m2 < m implies is_seen(s, b, from, step_target(c, #[trigger] moves@[m2])) by {
                                assert(is_seen(s_before, b, from, step_target(c, moves@[m2])));
                            }
                        }
                    }
                    m += 1;
                }
                proof {
                    assert(closed_ok(s, b, from, from_done, None)) by {
                        assert forall|c3: Coord, c4: Coord| expanded(s, b, from, from_done, c3) && None::<Coord> != Some(c3) && #[trigger] free_step(b, c3, c4, 0)
                            implies is_seen(s, b, from, c4) by {
                            if c3 == c {
                                let d = choose|d: ApiDirection| #[trigger] is_free_move(b, c3, d, 0) && step_target(c3, d) == c4;
                                lemma_free_later(b, c, d, gc as int);
                                lemma_free_moves_complete(b, c, gc as int, d, 4);
                                let m2 = choose|m2: int| 0 <= m2 < moves@.len() && moves@[m2] == d;
                                assert(is_seen(s, b, from, step_target(c, moves@[m2])));
                            }
                        }
                    }
                }
            }
        }
        proof {
            assert(!static_reachable(b, from, to)) by {
                if static_reachable(b, from, to) {
                    let w = choose|w: Seq<Coord>| #[trigger] static_walk(b, w) && w[0] == from && w.last() == to;
                    assert forall|c3: Coord| #[trigger] is_seen(s, b, from, c3) implies expanded(s, b, from, from_done, c3) by {
                        if !expanded(s, b, from, from_done, c3) {
                            assert(pending_ok(s, b, from, from_done, open@, None));
                        }
                    }
                    lemma_walk_seen(s, b, from, from_done, w, w.len() - 1);
                }
            }
        }
        None
    }

    /// Marks the reached cell `c` as expanded.
    fn close(&self, s: &mut Search, from: Coord, c: Coord, Ghost(cc): Ghost<int>)
        requires
            self.wf(),
            cells_indexed(self@),
            old(s).inv(self@, from, cc),
            in_bounds(c, self@.bound),
            old(s).seen@[cell_index(c, self@.bound)],
            !old(s).closed@[cell_index(c, self@.bound)],
            cc + 1 <= num_cells(self@) + 1,
        ensures
            final(s).inv(self@, from, cc + 1),
            final(s).seen@ == old(s).seen@,
            final(s).g@ == old(s).g@,
            final(s).prev@ == old(s).prev@,
            final(s).closed@ == old(s).closed@.update(cell_index(c, self@.bound), true),
            final(s).done(self@, from, c),
            forall|c2: Coord| old(s).done(self@, from, c2) ==> #[trigger] final(s).done(self@, from, c2),
    {
        let ghost b = self@;
        let k = self.cell_slot(c);
        let ghost before = *s;
        s.closed.set(k, true);
        proof {
            assert forall|k2: int| 0 <= k2 < num_cells(b) && #[trigger] s.closed@[k2] implies s.seen@[k2] by {
                if k2 != k {
                    assert(before.closed@[k2]);
                }
            }
            assert forall|k2: int| 0 <= k2 < num_cells(b) && #[trigger] s.seen@[k2] implies s.g@[k2] <= cc + 1 by {
                assert(before.seen@[k2]);
            }
            assert forall|k2: int| 0 <= k2 < num_cells(b) && #[trigger] s.seen@[k2] && cell_at(k2, b.bound) != from implies {
                let p = s.prev@[k2];
                &&& s.done(b, from, p)
                &&& (p != from ==> s.seen@[cell_index(p, b.bound)])
                &&& s.g@[k2] == s.gval(b, from, p) + 1
                &&& free_step(b, p, cell_at(k2, b.bound), s.gval(b, from, p))
            } by {
                assert(before.seen@[k2]);
                let p = s.prev@[k2];
                if p != from {
                    assert(before.closed@[cell_index(p, b.bound)]);
                }
            }
            assert forall|c2: Coord| before.done(b, from, c2) implies #[trigger] s.done(b, from, c2) by {
                if c2 != from {
                    assert(before.closed@[cell_index(c2, b.bound)]);
                }
            }
        }
    }

    /// Records that `nb`, a free step from the expanded cell `c`, is reached in
    /// `gc + 1` turns, unless it is expanded already or known to be reached sooner.
    fn relax(
        &self,
        s: &mut Search,
        open: &mut Vec<(Coord, u32)>,
        from: Coord,
        to: Coord,
        c: Coord,
        gc: u32,
        nb: Coord,
        Ghost(cc): Ghost<int>,
        Ghost(from_done): Ghost<bool>,
    )
        requires
            closed_ok(*old(s), self@, from, from_done, Some(c)),
            pending_ok(*old(s), self@, from, from_done, old(open)@, None),
            self.wf(),
            cells_indexed(self@),
            num_cells(self@) <= 121 * 121,
            old(s).inv(self@, from, cc),
            in_bounds(from, self@.bound) ==> old(s).seen@[cell_index(from, self@.bound)],
            old(s).done(self@, from, c),
            c != from ==> old(s).seen@[cell_index(c, self@.bound)],
            gc == old(s).gval(self@, from, c),
            gc + 1 <= cc <= 121 * 121 + 1,
            free_step(self@, c, nb, gc as int),
            in_bounds(nb, self@.bound),
            nb != from,
            open_ok(old(open)@, *old(s), self@, from),
        ensures
            final(s).inv(self@, from, cc),
            final(s).closed@ == old(s).closed@,
            is_seen(*final(s), self@, from, nb),
            forall|c2: Coord| #[trigger] is_seen(*old(s), self@, from, c2) ==> is_seen(*final(s), self@, from, c2),
            forall|c2: Coord| #[trigger] is_seen(*final(s), self@, from, c2) ==> is_seen(*old(s), self@, from, c2) || c2 == nb,
            forall|j: int| 0 <= j < old(open)@.len() ==> #[trigger] final(open)@[j] == old(open)@[j],
            final(open)@.len() >= old(open)@.len(),
            !is_seen(*old(s), self@, from, nb) ==> exists|j: int| 0 <= j < final(open)@.len() && (#[trigger] final(open)@[j]).0 == nb,
            closed_ok(*final(s), self@, from, from_done, Some(c)),
            pending_ok(*final(s), self@, from, from_done, final(open)@, None),
            forall|c3: Coord| #[trigger] expanded(*final(s), self@, from, from_done, c3) == expanded(*old(s), self@, from, from_done, c3),
            in_bounds(from, self@.bound) ==> final(s).seen@[cell_index(from, self@.bound)],
            c != from ==> final(s).seen@[cell_index(c, self@.bound)],
            final(s).gval(self@, from, c) == gc,
            open_ok(final(open)@, *final(s), self@, from),
    {
        let ghost b = self@;
        let k = self.cell_slot(nb);
        proof {
            if s.closed@[k as int] {
                assert(s.seen@[k as int]);
            }
        }
        let ghost s0 = *s;
        let ghost open0 = open@;
        if !s.closed[k] && (!s.seen[k] || gc + 1 < s.g[k]) {
            let ghost before = *s;
            let ghost open_before = open@;
            s.seen.set(k, true);
            s.g.set(k, gc + 1);
            s.prev.set(k, c);
            proof {
                assert(cell_at(k as int, b.bound) == nb);
                if c != from {
                    assert(before.closed@[cell_index(c, b.bound)]);
                    assert(cell_index(c, b.bound) != k as int);
                }
                assert(s.gval(b, from, c) == gc);
                assert forall|k2: int| 0 <= k2 < num_cells(b) && #[trigger] s.seen@[k2] implies s.g@[k2] <= cc by {
                    if k2 != k {
                        assert(before.seen@[k2]);
                    }
                }
                assert forall|k2: int| 0 <= k2 < num_cells(b) && #[trigger] s.closed@[k2] implies s.seen@[k2] by {
                    assert(before.closed@[k2]);
                }
                assert forall|k2: int| 0 <= k2 < num_cells(b) && #[trigger] s.seen@[k2] && cell_at(k2, b.bound) != from implies {
                    let p = s.prev@[k2];
                    &&& s.done(b, from, p)
                    &&& (p != from ==> s.seen@[cell_index(p, b.bound)])
                    &&& s.g@[k2] == s.gval(b, from, p) + 1
                    &&& free_step(b, p, cell_at(k2, b.bound), s.gval(b, from, p))
                } by {
                    if k2 != k {
                        let p = s.prev@[k2];
                        assert(before.seen@[k2]);
                        assert(p == before.prev@[k2]);
                        if p != from {
                            assert(before.done(b, from, p));
                            assert(before.closed@[cell_index(p, b.bound)]);
                            assert(cell_index(p, b.bound) != k);
                            assert(s.gval(b, from, p) == before.gval(b, from, p));
                        }
                    }
                }
                if in_bounds(from, b.bound) {
                    assert(cell_index(from, b.bound) != k);
                }
                assert(s.inv(b, from, cc));
            }
            let f = gc + 1 + PATHFINDING_HEURISTIC_WEIGHT * (nb.dist_to(to) as u32);
            open.push((nb, f));
            proof {
                assert(open@[open@.len() - 1].0 == nb);
                assert forall|c2: Coord| #[trigger] is_seen(before, b, from, c2) implies is_seen(*s, b, from, c2) by {
                    if c2 != from {
                        if cell_index(c2, b.bound) != k {
                            assert(before.seen@[cell_index(c2, b.bound)]);
                        }
                    }
                }
                assert forall|c2: Coord| #[trigger] is_seen(*s, b, from, c2) implies is_seen(before, b, from, c2) || c2 == nb by {
                    if c2 != from && cell_index(c2, b.bound) != k {
                        assert(s.seen@[cell_index(c2, b.bound)]);
                    }
                }
            }
            proof {
                assert forall|j: int| 0 <= j < open@.len() implies {
                    let c2 = (#[trigger] open@[j]).0;
                    c2 == from || (in_bounds(c2, b.bound) && s.seen@[cell_index(c2, b.bound)])
                } by {
                    assert(open_ok(open_before, before, b, from));
                    if j < open_before.len() {
                        assert(open@[j] == open_before[j]);
                    }
                }
            }
        }
        proof {
            assert forall|c3: Coord| #[trigger] expanded(*s, b, from, from_done, c3) == expanded(s0, b, from, from_done, c3) by {}
            assert forall|c3: Coord, c4: Coord| expanded(*s, b, from, from_done, c3) && Some(c) != Some(c3) && #[trigger] free_step(b, c3, c4, 0)
                implies is_seen(*s, b, from, c4) by {
                assert(is_seen(s0, b, from, c4));
            }
            assert forall|c3: Coord| #[trigger] is_seen(*s, b, from, c3) && !expanded(*s, b, from, from_done, c3) && None::<Coord> != Some(c3)
                implies exists|j: int| 0 <= j < open@.len() && (#[trigger] open@[j]).0 == c3 by {
                if is_seen(s0, b, from, c3) {
                    let j0 = choose|j: int| 0 <= j < open0.len() && (#[trigger] open0[j]).0 == c3;
                    assert(open@[j0] == open0[j0]);
                }
            }
        }
    }

    /// The path from `to` back to `from` along the recorded predecessors.
    fn trace_back(&self, s: &Search, from: Coord, to: Coord, Ghost(cc): Ghost<int>) -> (r: Path)
        requires
            self.wf(),
            s.inv(self@, from, cc),
            from != to,
            in_bounds(to, self@.bound),
            s.seen@[cell_index(to, self@.bound)],
        ensures
            r@[0] == to && r@.last() == from && walk_back(self@, r@),
            r@.len() <= cc + 1,
            r@.no_duplicates(),
    {
        let ghost b = self@;
        proof {
            lemma_cells_indexed(b);
        }
        let mut nodes: Vec<Coord> = Vec::new();
        nodes.push(to);
        let mut cur = to;
        assert(s.gval(b, from, to) <= cc);
        while cur != from
            invariant
                self.wf(),
                b == self@,
                cells_indexed(b),
                s.inv(b, from, cc),
                nodes@.len() >= 1,
                nodes@[0] == to,
                nodes@.last() == cur,
                cur != from ==> in_bounds(cur, b.bound) && s.seen@[cell_index(cur, b.bound)],
                s.gval(b, from, cur) >= 0,
                nodes@.len() + s.gval(b, from, cur) <= cc + 1,
                forall|j: int| 0 <= j < nodes@.len() ==> #[trigger] s.gval(b, from, nodes@[j]) == s.gval(b, from, cur) + nodes@.len() - 1 - j,
                forall|j: int| 0 <= j < nodes@.len() - 1 ==> #[trigger] free_step(
                    b,
                    nodes@[j + 1],
                    nodes@[j],
                    s.gval(b, from, cur) + nodes@.len() - 2 - j,
                ),
            decreases s.gval(b, from, cur),
        {
            let k = self.cell_slot(cur);
            let p = s.prev[k];
            proof {
                lemma_cell_at_index(b, cur);
                assert(cell_at(k as int, b.bound) == cur);
                if p != from {
                    assert(s.closed@[cell_index(p, b.bound)]);
                }
            }
            let ghost old_nodes = nodes@;
            let ghost old_cur = cur;
            let ghost old_g = s.gval(b, from, cur);
            proof {
                assert(s.seen@[k as int]);
                assert(old_g == s.g@[k as int]);
                assert(s.g@[k as int] == s.gval(b, from, p) + 1);
                assert(free_step(b, p, old_cur, s.gval(b, from, p)));
            }
            nodes.push(p);
            cur = p;
            proof {
                assert forall|j: int| 0 <= j < nodes@.len() implies #[trigger] s.gval(b, from, nodes@[j]) == s.gval(b, from, cur) + nodes@.len() - 1 - j by {
                    if j < old_nodes.len() {
                        assert(nodes@[j] == old_nodes[j]);
                    }
                }
                assert forall|j: int| 0 <= j < nodes@.len() - 1 implies #[trigger] free_step(
                    b,
                    nodes@[j + 1],
                    nodes@[j],
                    s.gval(b, from, cur) + nodes@.len() - 2 - j,
                ) by {
                    if j < old_nodes.len() - 1 {
                        assert(nodes@[j] == old_nodes[j] && nodes@[j + 1] == old_nodes[j + 1]);
                        assert(free_step(b, old_nodes[j + 1], old_nodes[j], old_g + old_nodes.len() - 2 - j));
                        assert(old_g + old_nodes.len() - 2 - j == s.gval(b, from, cur) + nodes@.len() - 2 - j);
                    } else {
                        assert(nodes@[j] == old_cur);
                        assert(nodes@[j + 1] == p);
                        assert(s.gval(b, from, cur) + nodes@.len() - 2 - j == s.gval(b, from, p));
                    }
                }
            }
        }
        proof {
            assert forall|i: int, j: int| 0 <= i < nodes@.len() && 0 <= j < nodes@.len() && i != j implies nodes@[i] != nodes@[j] by {
                assert(s.gval(b, from, nodes@[i]) != s.gval(b, from, nodes@[j]));
            }
            assert forall|j: int| 0 <= j < nodes@.len() - 1 implies #[trigger] free_step(b, nodes@[j + 1], nodes@[j], nodes@.len() - 2 - j) by {
                assert(free_step(b, nodes@[j + 1], nodes@[j], s.gval(b, from, cur) + nodes@.len() - 2 - j));
            }
        }
        Path::from_vec(nodes)
    }
}

proof fn lemma_cell_at_index(b: BoardView, c: Coord)
    requires
        board_wf(b),
        in_bounds(c, b.bound),
    ensures
        0 <= cell_index(c, b.bound) < num_cells(b),
        cell_at(cell_index(c, b.bound), b.bound) == c,
{
    crate::territory::lemma_cell_index_in_range(b, c);
}

proof fn lemma_inv_grow(s: &Search, b: BoardView, from: Coord, cc: int)
    requires
        s.inv(b, from, cc),
        cc + 1 <= num_cells(b) + 1,
    ensures
        s.inv(b, from, cc + 1),
{
}

proof fn lemma_open_count_all(s: Seq<bool>, k: int)
    requires
        0 <= k <= s.len(),
        forall|i: int| 0 <= i < s.len() ==> !s[i],
    ensures
        open_count(s, k) == k,
    decreases k,
{
    if k > 0 {
        lemma_open_count_all(s, k - 1);
    }
}

impl Board {
    /// The snake whose head has the shortest path (see `pathfind`) to `coord`,
    /// with that path's length. Snakes are tried nearest first, and the search
    /// stops once no farther snake can do better.
    pub fn get_closest_snake_by_pathfind(&self, coord: Coord) -> (r: Option<(usize, u32)>)
        requires
            self.wf(),
        ensures
            r matches Some((i, d)) ==> i < self@.snakes.len() && found_path(self@, self@.snakes[i as int].body[0], coord, d as int),
            (exists|i: int| 0 <= i < self@.snakes.len() && #[trigger] self@.snakes[i].body[0] == coord) ==> r is Some,
            r is None ==> forall|i: int| 0 <= i < self@.snakes.len() ==> !static_reachable(self@, #[trigger] self@.snakes[i].body[0], coord),
    {
        let mut best: Option<(usize, u32)> = None;
        let sorted = self.get_closest_snakes_by_manhattan(coord);
        let mut k: usize = 0;
        let mut stop = false;
        while k < sorted.len() && !stop
            invariant
                self.wf(),
                sorted@.len() == self@.snakes.len(),
                forall|q: int| 0 <= q < sorted@.len() ==> (#[trigger] sorted@[q]).0 < self@.snakes.len()
                    && sorted@[q].1 == manhattan(coord, self@.snakes[sorted@[q].0 as int].body[0]),
                forall|q: int, m: int| 0 <= q < m < sorted@.len() ==> (#[trigger] sorted@[q]).1 <= (#[trigger] sorted@[m]).1,
                best matches Some((i, d)) ==> i < self@.snakes.len() && found_path(self@, self@.snakes[i as int].body[0], coord, d as int),
                forall|q: int| 0 <= q < k && self@.snakes[sorted@[q].0 as int].body[0] == coord ==> best is Some,
                best is None ==> forall|q: int| 0 <= q < k ==> !static_reachable(self@, self@.snakes[(#[trigger] sorted@[q]).0 as int].body[0], coord),
                k <= sorted@.len(),
                stop ==> best is Some,
            decreases sorted@.len() - k,
        {
            let (i, dist) = sorted[k];
            let head = self.snakes[i].head();
            proof {
                assert(self@.snakes[i as int] == self.snakes@[i as int]@);
            }
            let mut skip = false;
            match best {
                Some((_, best_dist)) => {
                    if dist as u32 > best_dist {
                        stop = true;
                        skip = true;
                    }
                },
                None => {},
            }
            if !skip {
                match self.pathfind(head, coord) {
                    Some(path) => {
                        let d = path.dist();
                        assert(found_path(self@, head, coord, d as int));
                        let better = match best {
                            Some((_, best_dist)) => d < best_dist,
                            None => true,
                        };
                        if better {
                            best = Some((i, d));
                        }
                    },
                    None => {},
                }
            }
            k += 1;
        }
        proof {
            if best is None {
                assert forall|i: int| 0 <= i < self@.snakes.len() implies !static_reachable(self@, #[trigger] self@.snakes[i].body[0], coord) by {
                    assert(crate::board::lists_index(sorted@, i));
                    let q = choose|q: int| 0 <= q < sorted@.len() && (#[trigger] sorted@[q]).0 == i;
                    assert(q < k);
                }
            }
            assert forall|i: int| 0 <= i < self@.snakes.len() && #[trigger] self@.snakes[i].body[0] == coord implies best is Some by {
                assert(crate::board::lists_index(sorted@, i));
                let q = choose|q: int| 0 <= q < sorted@.len() && (#[trigger] sorted@[q]).0 == i;
                if !stop {
                    assert(q < k);
                }
            }
        }
        best
    }
}

} // verus!
