use vstd::prelude::*;
use crate::api::ApiCoords;
use crate::coord::{Coord, in_rect, manhattan};
use crate::offset::Offset;

verus! {

/// `c` moved by `o`, read as integers.
pub open spec fn shifted(c: Coord, o: Offset) -> Coord {
    Coord { x: (c.x + o.dx) as i8, y: (c.y + o.dy) as i8 }
}

/// `c` can be moved by `o` without leaving the coordinate type.
pub open spec fn can_shift(c: Coord, o: Offset) -> bool {
    i8::MIN <= c.x + o.dx <= i8::MAX && i8::MIN <= c.y + o.dy <= i8::MAX
}

/// Sum of the Manhattan distances between consecutive nodes.
pub open spec fn seq_dist(s: Seq<Coord>) -> int
    decreases s.len(),
{
    if s.len() < 2 {
        0
    } else {
        seq_dist(s.drop_last()) + manhattan(s[s.len() - 2], s[s.len() - 1])
    }
}

/// Index of the first node at or after `from` that equals `c`.
pub open spec fn first_index(s: Seq<Coord>, c: Coord, from: int) -> Option<int>
    decreases s.len() - from,
{
    if from < 0 || from >= s.len() {
        None
    } else if s[from] == c {
        Some(from)
    } else {
        first_index(s, c, from + 1)
    }
}

/// Some straight segment between consecutive nodes, from node `from` on, covers `c`.
pub open spec fn segment_covers(s: Seq<Coord>, c: Coord, from: int) -> bool {
    exists|i: int| from <= i && i + 1 < s.len() && #[trigger] in_rect(c, s[i], s[i + 1])
}

/// Sequence with a new first node `o` away from the old one.
pub open spec fn extended_start(s: Seq<Coord>, o: Offset) -> Seq<Coord> {
    if s.len() == 0 { s } else { seq![shifted(s[0], o)] + s }
}

/// Sequence with a new last node `o` away from the old one.
pub open spec fn extended_end(s: Seq<Coord>, o: Offset) -> Seq<Coord> {
    if s.len() == 0 { s } else { s.push(shifted(s.last(), o)) }
}

/// Sequence whose first node moved by `o`, the rest following and the last dropped.
pub open spec fn slid_start(s: Seq<Coord>, o: Offset) -> Seq<Coord> {
    if s.len() == 0 { s } else { extended_start(s, o).drop_last() }
}

/// Sequence whose last node moved by `o`, the rest following and the first dropped.
pub open spec fn slid_end(s: Seq<Coord>, o: Offset) -> Seq<Coord> {
    if s.len() == 0 { s } else { extended_end(s, o).drop_first() }
}

pub proof fn lemma_first_index_bounds(s: Seq<Coord>, c: Coord, from: int)
    ensures
        first_index(s, c, from) matches Some(i) ==> from <= i < s.len() && s[i] == c,
    decreases s.len() - from,
{
    if 0 <= from < s.len() && s[from] != c {
        lemma_first_index_bounds(s, c, from + 1);
    }
}

pub proof fn lemma_first_index_none(s: Seq<Coord>, c: Coord, from: int)
    requires
        0 <= from,
        first_index(s, c, from) is None,
    ensures
        forall|k: int| from <= k < s.len() ==> s[k] != c,
    decreases s.len() - from,
{
    if from < s.len() {
        lemma_first_index_none(s, c, from + 1);
    }
}

/// A sequence of cells, first node to last; consecutive nodes that are not
/// neighbours stand for a straight run between them.
#[derive(Clone, PartialEq, Eq, Debug)]
pub struct Path {
    nodes: Vec<Coord>,
}

impl View for Path {
    type V = Seq<Coord>;

    closed spec fn view(&self) -> Seq<Coord> {
        self.nodes@
    }
}

impl Path {
    pub fn new() -> (r: Path)
        ensures
            r@ == Seq::<Coord>::empty(),
    {
        Path { nodes: Vec::new() }
    }

    pub fn from_slice(nodes: &[Coord]) -> (r: Path)
        ensures
            r@ == nodes@,
    {
        let mut v: Vec<Coord> = Vec::new();
        let mut i: usize = 0;
        while i < nodes.len()
            invariant
                i <= nodes@.len(),
                v@ == nodes@.subrange(0, i as int),
            decreases nodes@.len() - i,
        {
            v.push(nodes[i]);
            i += 1;
        }
        assert(v@ =~= nodes@);
        Path { nodes: v }
    }

    pub fn from_vec(nodes: Vec<Coord>) -> (r: Path)
        ensures
            r@ == nodes@,
    {
        Path { nodes }
    }

    /// Path over protocol cells, which must fit the coordinate type.
    pub fn from_api(coords: &[ApiCoords]) -> (r: Path)
        requires
            forall|i: int| 0 <= i < coords@.len() ==> coords@[i].x <= 127 && coords@[i].y <= 127,
        ensures
            r@.len() == coords@.len(),
            forall|i: int|
                0 <= i < coords@.len() ==> r@[i].x == coords@[i].x && r@[i].y == coords@[i].y,
    {
        let mut v: Vec<Coord> = Vec::new();
        let mut i: usize = 0;
        while i < coords.len()
            invariant
                i <= coords@.len(),
                v@.len() == i,
                forall|j: int| 0 <= j < coords@.len() ==> coords@[j].x <= 127 && coords@[j].y <= 127,
                forall|j: int| 0 <= j < i ==> v@[j].x == coords@[j].x && v@[j].y == coords@[j].y,
            decreases coords@.len() - i,
        {
            let c = coords[i];
            v.push(Coord { x: c.x as i8, y: c.y as i8 });
            i += 1;
        }
        Path { nodes: v }
    }

    /// A copy of this path.
    pub fn duplicate(&self) -> (r: Path)
        ensures
            r@ == self@,
    {
        let v = self.nodes.clone();
        assert(v@ =~= self.nodes@);
        Path { nodes: v }
    }

    /// Moves the first node by `offset` and drops the last one.
    pub fn slide_start(&mut self, offset: Offset)
        requires
            old(self)@.len() > 0 ==> can_shift(old(self)@[0], offset),
        ensures
            final(self)@ == slid_start(old(self)@, offset),
    {
        self.extend_start(offset);
        self.pop_end();
    }

    /// Moves the last node by `offset` and drops the first one.
    pub fn slide_end(&mut self, offset: Offset)
        requires
            old(self)@.len() > 0 ==> can_shift(old(self)@.last(), offset),
        ensures
            final(self)@ == slid_end(old(self)@, offset),
    {
        self.extend_end(offset);
        self.pop_start();
    }

    /// Adds a first node `offset` away from the current one; an empty path stays empty.
    pub fn extend_start(&mut self, offset: Offset)
        requires
            old(self)@.len() > 0 ==> can_shift(old(self)@[0], offset),
        ensures
            final(self)@ == extended_start(old(self)@, offset),
    {
        if !self.nodes.is_empty() {
            let curr_start = self.nodes[0];
            let new_start = curr_start + offset;
            self.nodes.insert(0, new_start);
            assert(self.nodes@ =~= extended_start(old(self)@, offset));
        }
    }

    /// Adds a last node `offset` away from the current one; an empty path stays empty.
    pub fn extend_end(&mut self, offset: Offset)
        requires
            old(self)@.len() > 0 ==> can_shift(old(self)@.last(), offset),
        ensures
            final(self)@ == extended_end(old(self)@, offset),
    {
        if !self.nodes.is_empty() {
            let curr_end = self.nodes[self.nodes.len() - 1];
            let new_end = curr_end + offset;
            self.nodes.push(new_end);
        }
    }

    pub fn pop_start(&mut self) -> (r: Option<Coord>)
        ensures
            old(self)@.len() == 0 ==> r.is_none() && final(self)@ == old(self)@,
            old(self)@.len() > 0 ==> r == Some(old(self)@[0]) && final(self)@ == old(self)@.drop_first(),
    {
        if self.nodes.is_empty() {
            None
        } else {
            let c = self.nodes.remove(0);
            assert(self.nodes@ =~= old(self)@.drop_first());
            Some(c)
        }
    }

    pub fn pop_end(&mut self) -> (r: Option<Coord>)
        ensures
            old(self)@.len() == 0 ==> r.is_none() && final(self)@ == old(self)@,
            old(self)@.len() > 0 ==> r == Some(old(self)@.last()) && final(self)@ == old(self)@.drop_last(),
    {
        self.nodes.pop()
    }

    /// Length of the path: the Manhattan distances between consecutive nodes, summed.
    pub fn dist(&self) -> (r: u32)
        requires
            self@.len() <= 0x100000,
        ensures
            r == seq_dist(self@),
    {
        let n = self.nodes.len();
        if n < 2 {
            return 0;
        }
        let mut total: u32 = 0;
        let mut i: usize = 1;
        while i < n
            invariant
                1 <= i <= n,
                n == self@.len(),
                n <= 0x100000,
                total == seq_dist(self@.subrange(0, i as int)),
                total <= 512 * i,
            decreases n - i,
        {
            let step = self.nodes[i - 1].dist_to(self.nodes[i]);
            proof {
                let pre = self@.subrange(0, i as int + 1);
                assert(pre.drop_last() =~= self@.subrange(0, i as int));
            }
            total = total + step as u32;
            i += 1;
        }
        assert(self@.subrange(0, n as int) =~= self@);
        total
    }

    /// Number of nodes.
    pub fn num_nodes(&self) -> (r: usize)
        ensures
            r == self@.len(),
    {
        self.nodes.len()
    }

    pub fn start(&self) -> (r: Option<Coord>)
        ensures
            r == (if self@.len() > 0 { Some(self@[0]) } else { None::<Coord> }),
    {
        if self.nodes.is_empty() {
            None
        } else {
            Some(self.nodes[0])
        }
    }

    pub fn end(&self) -> (r: Option<Coord>)
        ensures
            r == (if self@.len() > 0 { Some(self@.last()) } else { None::<Coord> }),
    {
        if self.nodes.is_empty() {
            None
        } else {
            Some(self.nodes[self.nodes.len() - 1])
        }
    }

    pub fn get_node(&self, index: usize) -> (r: Option<Coord>)
        ensures
            r == (if index < self@.len() { Some(self@[index as int]) } else { None::<Coord> }),
    {
        if index < self.nodes.len() {
            Some(self.nodes[index])
        } else {
            None
        }
    }

    /// The nodes, first to last.
    pub fn nodes(&self) -> (r: &Vec<Coord>)
        ensures
            r@ == self@,
    {
        &self.nodes
    }

    /// Whether `coord` lies on the path: on an end, or on a straight run between two nodes.
    pub fn intersects(&self, coord: Coord) -> (r: bool)
        ensures
            r == (self@.len() > 0 && (self@[0] == coord || self@.last() == coord
                || segment_covers(self@, coord, 0))),
    {
        if self.nodes.is_empty() {
            return false;
        }
        if self.nodes[0] == coord || self.nodes[self.nodes.len() - 1] == coord {
            return true;
        }
        self.any_segment_covers(coord, 0)
    }

    /// Whether a run between consecutive nodes, from node `from` on, covers `coord`.
    fn any_segment_covers(&self, coord: Coord, from: usize) -> (r: bool)
        ensures
            r == segment_covers(self@, coord, from as int),
    {
        let mut i: usize = from;
        while i < self.nodes.len() && i + 1 < self.nodes.len()
            invariant
                from <= i,
                forall|j: int| from <= j < i && j + 1 < self@.len() ==> !#[trigger] in_rect(coord, self@[j], self@[j + 1]),
            decreases self@.len() - i,
        {
            if coord.bounded_by(self.nodes[i], self.nodes[i + 1]) {
                return true;
            }
            i += 1;
        }
        false
    }

    pub fn contains_node(&self, coord: Coord) -> (r: bool)
        ensures
            r == self@.contains(coord),
    {
        let mut i: usize = 0;
        while i < self.nodes.len()
            invariant
                forall|j: int| 0 <= j < i ==> self@[j] != coord,
            decreases self@.len() - i,
        {
            if self.nodes[i] == coord {
                return true;
            }
            i += 1;
        }
        false
    }

    /// Index of the first node at or after `min_index` that equals `coord`.
    pub fn find_node(&self, coord: Coord, min_index: usize) -> (r: Option<usize>)
        ensures
            r matches Some(i) ==> first_index(self@, coord, min_index as int) == Some(i as int),
            r is None ==> first_index(self@, coord, min_index as int) is None,
    {
        let mut i: usize = min_index;
        while i < self.nodes.len()
            invariant
                min_index <= i,
                first_index(self@, coord, min_index as int) == first_index(self@, coord, i as int),
            decreases self@.len() - i,
        {
            if self.nodes[i] == coord {
                return Some(i);
            }
            i += 1;
        }
        None
    }

    /// Whether the first node lies on a run of the path that does not touch it.
    pub fn start_self_intersects(&self) -> (r: bool)
        ensures
            r == (self@.len() > 0 && segment_covers(self@, self@[0], 1)),
    {
        if self.nodes.is_empty() {
            false
        } else {
            self.any_segment_covers(self.nodes[0], 1)
        }
    }
}

} // verus!
