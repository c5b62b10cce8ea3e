//! The grid index and belt state: which segment occupies which cell, and
//! each segment's entry and exit.
use vstd::prelude::*;
use crate::belt::Belt;
use crate::events::ModifyError;
use crate::geometry::{Direction, Position};

verus! {

/// One belt segment: its identity, the cell it occupies and its directions.
#[derive(Clone, Copy, Debug, PartialEq, Eq, Structural)]
pub struct Segment {
    pub id: u64,
    pub position: Position,
    pub belt: Belt,
}

/// Every segment is stored under its own position, has all four
/// neighbours representable, and no two segments share an identity.
pub open spec fn well_keyed(m: Map<Position, Segment>) -> bool {
    &&& forall|p: Position| #[trigger] m.contains_key(p) ==> m[p].position == p && p.has_neighbors()
    &&& forall|p: Position, q: Position|
        #![trigger m[p], m[q]]
        m.contains_key(p) && m.contains_key(q) && m[p].id == m[q].id ==> p == q
}

/// Some segment of `m` has identity `id`.
pub open spec fn has_id(m: Map<Position, Segment>, id: u64) -> bool {
    exists|p: Position| #[trigger] m.contains_key(p) && m[p].id == id
}

/// The cell of the segment with identity `id`.
pub open spec fn position_of(m: Map<Position, Segment>, id: u64) -> Position {
    choose|p: Position| #[trigger] m.contains_key(p) && m[p].id == id
}

/// A fresh straight segment at `p` discharging towards `exit`.
pub open spec fn fresh_segment(id: u64, p: Position, exit: Direction) -> Segment {
    Segment { id, position: p, belt: Belt { start: exit.reversed(), end: exit } }
}

/// `m` with the entry direction of the segment at `p` set to `d`.
pub open spec fn with_start(m: Map<Position, Segment>, p: Position, d: Direction) -> Map<
    Position,
    Segment,
> {
    m.insert(p, Segment { belt: Belt { start: d, ..m[p].belt }, ..m[p] })
}

/// `m` with the exit direction of the segment at `p` set to `d`.
pub open spec fn with_end(m: Map<Position, Segment>, p: Position, d: Direction) -> Map<
    Position,
    Segment,
> {
    m.insert(p, Segment { belt: Belt { end: d, ..m[p].belt }, ..m[p] })
}

/// In a well-keyed map, the identity of the segment at `p` leads back to `p`.
pub proof fn lemma_position_of(m: Map<Position, Segment>, p: Position)
    requires
        well_keyed(m),
        m.contains_key(p),
    ensures
        has_id(m, m[p].id),
        position_of(m, m[p].id) == p,
{
    assert(m.contains_key(p) && m[p].id == m[p].id);
}

/// The grid: at most one segment per cell, each with a unique identity.
pub struct BeltGrid {
    segments: Vec<Segment>,
    next_id: u64,
    cells: Ghost<Map<Position, Segment>>,
}

impl View for BeltGrid {
    type V = Map<Position, Segment>;

    closed spec fn view(&self) -> Map<Position, Segment> {
        self.cells@
    }
}

impl BeltGrid {
    /// The identity the next created segment receives.
    pub closed spec fn next_issued(&self) -> u64 {
        self.next_id
    }

    /// The segments in storage order.
    pub closed spec fn stored(&self) -> Seq<Segment> {
        self.segments@
    }

    pub closed spec fn storage_matches(&self) -> bool {
        &&& forall|i: int|
            0 <= i < self.segments@.len() ==> #[trigger] self.cells@.contains_key(
                self.segments@[i].position,
            ) && self.cells@[self.segments@[i].position] == self.segments@[i]
        &&& forall|p: Position| #[trigger]
            self.cells@.contains_key(p) ==> exists|i: int|
                0 <= i < self.segments@.len() && #[trigger] self.segments@[i].position == p
    }

    /// The grid's invariant.
    pub open spec fn wf(&self) -> bool {
        &&& self.storage_matches()
        &&& forall|i: int, j: int|
            0 <= i < j < self.stored().len() ==> #[trigger] self.stored()[i].position
                != #[trigger] self.stored()[j].position
        &&& well_keyed(self@)
        &&& forall|p: Position| #[trigger] self@.contains_key(p) ==> self@[p].id < self.next_issued()
    }

    pub fn new() -> (r: BeltGrid)
        ensures
            r.wf(),
            r@ == Map::<Position, Segment>::empty(),
            r.next_issued() == 0,
    {
        BeltGrid { segments: Vec::new(), next_id: 0, cells: Ghost(Map::empty()) }
    }

    /// The number of segments.
    pub fn len(&self) -> (r: usize)
        requires
            self.wf(),
        ensures
            r == self@.len(),
    {
        proof { self.lemma_len(); }
        self.segments.len()
    }

    proof fn lemma_len(&self)
        requires
            self.wf(),
        ensures
            self@.len() == self.segments@.len(),
            self@.dom().finite(),
    {
        let ps = self.segments@.map_values(|s: Segment| s.position);
        assert(self@.dom() =~= ps.to_set()) by {
            assert forall|p: Position| self@.contains_key(p) implies ps.to_set().contains(p) by {
                let i = choose|i: int|
                    0 <= i < self.segments@.len() && #[trigger] self.segments@[i].position == p;
                assert(ps[i] == p);
            }
            assert forall|p: Position| ps.to_set().contains(p) implies self@.contains_key(p) by {
                let i = choose|i: int| 0 <= i < ps.len() && ps[i] == p;
                assert(self.segments@[i].position == p);
            }
        }
        assert(ps.no_duplicates()) by {
            assert forall|i: int, j: int| 0 <= i < ps.len() && 0 <= j < ps.len() && i != j
                implies ps[i] != ps[j] by {
                if i < j {
                    assert(self.stored()[i].position != self.stored()[j].position);
                } else {
                    assert(self.stored()[j].position != self.stored()[i].position);
                }
            }
        }
        ps.unique_seq_to_set();
    }

    /// The storage index of the segment at `p`.
    fn find(&self, p: &Position) -> (r: Option<usize>)
        requires
            self.wf(),
        ensures
            r matches Some(i) ==> i < self.segments@.len() && self.segments@[i as int].position
                == *p,
            r is None <==> !self@.contains_key(*p),
    {
        let mut i: usize = 0;
        while i < self.segments.len()
            invariant
                self.wf(),
                i <= self.segments@.len(),
                forall|j: int| 0 <= j < i ==> self.segments@[j].position != *p,
            decreases self.segments@.len() - i,
        {
            if self.segments[i].position == *p {
                return Some(i);
            }
            i += 1;
        }
        proof {
            if self@.contains_key(*p) {
                let j = choose|j: int|
                    0 <= j < self.segments@.len() && #[trigger] self.segments@[j].position == *p;
            }
        }
        None
    }

    /// The storage index of the segment with identity `id`.
    fn find_id(&self, id: u64) -> (r: Option<usize>)
        requires
            self.wf(),
        ensures
            r matches Some(i) ==> i < self.segments@.len() && self.segments@[i as int].id == id,
            r is None <==> !has_id(self@, id),
    {
        let mut i: usize = 0;
        while i < self.segments.len()
            invariant
                self.wf(),
                i <= self.segments@.len(),
                forall|j: int| 0 <= j < i ==> self.segments@[j].id != id,
            decreases self.segments@.len() - i,
        {
            if self.segments[i].id == id {
                proof {
                    let s = self.segments@[i as int];
                    assert(self@.contains_key(s.position));
                }
                return Some(i);
            }
            i += 1;
        }
        proof {
            if has_id(self@, id) {
                let p = choose|p: Position| #[trigger] self@.contains_key(p) && self@[p].id == id;
                let j = choose|j: int|
                    0 <= j < self.segments@.len() && #[trigger] self.segments@[j].position == p;
            }
        }
        None
    }

    /// Another segment can still receive a fresh identity.
    pub fn can_issue(&self) -> (r: bool)
        ensures
            r == (self.next_issued() < u64::MAX),
    {
        self.next_id < u64::MAX
    }

    /// The identity of the segment at `position`, if any.
    pub fn locate(&self, position: &Position) -> (r: Option<u64>)
        requires
            self.wf(),
        ensures
            r == (if self@.contains_key(*position) {
                Some(self@[*position].id)
            } else {
                None
            }),
    {
        match self.find(position) {
            Some(i) => Some(self.segments[i].id),
            None => None,
        }
    }

    /// The segment with identity `id`, if it is live.
    pub fn segment(&self, id: u64) -> (r: Option<Segment>)
        requires
            self.wf(),
        ensures
            r is Some <==> has_id(self@, id),
            r matches Some(s) ==> s.id == id && self@.contains_key(s.position) && self@[s.position]
                == s && position_of(self@, id) == s.position,
    {
        match self.find_id(id) {
            Some(i) => {
                let s = self.segments[i];
                proof {
                    lemma_position_of(self@, s.position);
                }
                Some(s)
            },
            None => None,
        }
    }

    /// Creates a straight segment at `p` discharging towards `exit`, with a
    /// fresh identity; refused when `p` is occupied.
    pub fn create(&mut self, p: Position, exit: Direction) -> (r: Result<u64, ModifyError>)
        requires
            old(self).wf(),
            !old(self)@.contains_key(p) ==> p.has_neighbors() && old(self).next_issued() < u64::MAX,
        ensures
            final(self).wf(),
            old(self)@.contains_key(p) ==> r == Err::<u64, ModifyError>(ModifyError::PositionOccupied)
                && *final(self) == *old(self),
            !old(self)@.contains_key(p) ==> r == Ok::<u64, ModifyError>(old(self).next_issued())
                && final(self)@ == old(self)@.insert(p, fresh_segment(old(self).next_issued(), p, exit))
                && final(self).next_issued() == old(self).next_issued() + 1,
    {
        if self.find(&p).is_some() {
            return Err(ModifyError::PositionOccupied);
        }
        let id = self.next_id;
        let seg = Segment { id, position: p, belt: Belt::new(exit.opposite(), exit) };
        let ghost old_cells = self.cells@;
        let ghost old_segments = self.segments@;
        self.segments.push(seg);
        self.next_id = id + 1;
        self.cells = Ghost(old_cells.insert(p, seg));
        proof {
            assert forall|i: int| 0 <= i < self.segments@.len() implies #[trigger] self.cells@.contains_key(
                self.segments@[i].position,
            ) && self.cells@[self.segments@[i].position] == self.segments@[i] by {
                if i < old_segments.len() {
                    assert(old_cells.contains_key(old_segments[i].position));
                }
            }
            assert forall|q: Position| #[trigger] self.cells@.contains_key(q) implies exists|i: int|
                0 <= i < self.segments@.len() && #[trigger] self.segments@[i].position == q by {
                if q == p {
                    assert(self.segments@[old_segments.len() as int].position == q);
                } else {
                    let i = choose|i: int|
                        0 <= i < old_segments.len() && #[trigger] old_segments[i].position == q;
                    assert(self.segments@[i].position == q);
                }
            }
            assert forall|i: int, j: int| 0 <= i < j < self.stored().len() implies #[trigger] self.stored()[i].position
                != #[trigger] self.stored()[j].position by {
                if j == old_segments.len() {
                    assert(old_cells.contains_key(old_segments[i].position));
                } else {
                    assert(old_segments[i].position != old_segments[j].position);
                }
            }
            assert forall|a: Position, b: Position|
                #![trigger self@[a], self@[b]]
                self@.contains_key(a) && self@.contains_key(b) && self@[a].id == self@[b].id implies a == b by {
                if a != p && b != p {
                    assert(old_cells[a].id == old_cells[b].id);
                } else if a != p {
                    assert(old_cells.contains_key(a) && old_cells[a].id < id);
                } else if b != p {
                    assert(old_cells.contains_key(b) && old_cells[b].id < id);
                }
            }
        }
        Ok(id)
    }

    /// Removes the segment at `p` and returns its identity; refused when `p`
    /// is empty.
    pub fn delete(&mut self, p: &Position) -> (r: Result<u64, ModifyError>)
        requires
            old(self).wf(),
        ensures
            final(self).wf(),
            !old(self)@.contains_key(*p) ==> r == Err::<u64, ModifyError>(ModifyError::PositionEmpty)
                && *final(self) == *old(self),
            old(self)@.contains_key(*p) ==> r == Ok::<u64, ModifyError>(old(self)@[*p].id)
                && final(self)@ == old(self)@.remove(*p)
                && final(self).next_issued() == old(self).next_issued(),
    {
        let k = match self.find(p) {
            Some(k) => k,
            None => return Err(ModifyError::PositionEmpty),
        };
        let ghost old_cells = self.cells@;
        let ghost old_segments = self.segments@;
        let seg = self.segments.remove(k);
        self.cells = Ghost(old_cells.remove(*p));
        proof {
            assert(old_cells.contains_key(old_segments[k as int].position));
            assert forall|i: int| 0 <= i < self.segments@.len() implies #[trigger] self.cells@.contains_key(
                self.segments@[i].position,
            ) && self.cells@[self.segments@[i].position] == self.segments@[i] by {
                let o = if i < k { i } else { i + 1 };
                assert(self.segments@[i] == old_segments[o]);
                assert(old_cells.contains_key(old_segments[o].position));
                if i < k {
                    assert(old_segments[o].position != old_segments[k as int].position);
                } else {
                    assert(old_segments[k as int].position != old_segments[o].position);
                }
            }
            assert forall|q: Position| #[trigger] self.cells@.contains_key(q) implies exists|i: int|
                0 <= i < self.segments@.len() && #[trigger] self.segments@[i].position == q by {
                let o = choose|o: int|
                    0 <= o < old_segments.len() && #[trigger] old_segments[o].position == q;
                if o < k {
                    assert(self.segments@[o].position == q);
                } else {
                    assert(o != k);
                    assert(self.segments@[o - 1].position == q);
                }
            }
            assert forall|i: int, j: int| 0 <= i < j < self.stored().len() implies #[trigger] self.stored()[i].position
                != #[trigger] self.stored()[j].position by {
                let oi = if i < k { i } else { i + 1 };
                let oj = if j < k { j } else { j + 1 };
                assert(old_segments[oi].position != old_segments[oj].position);
            }
            assert forall|a: Position, b: Position|
                #![trigger self@[a], self@[b]]
                self@.contains_key(a) && self@.contains_key(b) && self@[a].id == self@[b].id implies a == b by {
                assert(old_cells[a].id == old_cells[b].id);
            }
        }
        Ok(seg.id)
    }

    /// Replaces the segment stored at index `k` by `seg`, which keeps its
    /// identity and position.
    fn replace(&mut self, k: usize, seg: Segment)
        requires
            old(self).wf(),
            k < old(self).segments@.len(),
            seg.id == old(self).segments@[k as int].id,
            seg.position == old(self).segments@[k as int].position,
        ensures
            final(self).wf(),
            final(self)@ == old(self)@.insert(seg.position, seg),
            final(self).next_issued() == old(self).next_issued(),
    {
        let ghost old_cells = self.cells@;
        let ghost old_segments = self.segments@;
        self.segments.set(k, seg);
        self.cells = Ghost(old_cells.insert(seg.position, seg));
        proof {
            assert(old_cells.contains_key(old_segments[k as int].position));
            assert forall|i: int| 0 <= i < self.segments@.len() implies #[trigger] self.cells@.contains_key(
                self.segments@[i].position,
            ) && self.cells@[self.segments@[i].position] == self.segments@[i] by {
                if i != k {
                    assert(old_cells.contains_key(old_segments[i].position));
                    if i < k {
                        assert(old_segments[i].position != old_segments[k as int].position);
                    } else {
                        assert(old_segments[k as int].position != old_segments[i].position);
                    }
                }
            }
            assert forall|q: Position| #[trigger] self.cells@.contains_key(q) implies exists|i: int|
                0 <= i < self.segments@.len() && #[trigger] self.segments@[i].position == q by {
                let o = choose|o: int|
                    0 <= o < old_segments.len() && #[trigger] old_segments[o].position == q;
                assert(self.segments@[o].position == q);
            }
            assert forall|i: int, j: int| 0 <= i < j < self.stored().len() implies #[trigger] self.stored()[i].position
                != #[trigger] self.stored()[j].position by {
                assert(old_segments[i].position != old_segments[j].position);
            }
            assert forall|a: Position, b: Position|
                #![trigger self@[a], self@[b]]
                self@.contains_key(a) && self@.contains_key(b) && self@[a].id == self@[b].id implies a == b by {
                assert(old_cells[a].id == old_cells[b].id);
            }
        }
    }

    /// Sets the exit direction of the live segment `id`.
    pub fn set_exit(&mut self, id: u64, direction: Direction)
        requires
            old(self).wf(),
            has_id(old(self)@, id),
        ensures
            final(self).wf(),
            final(self)@ == with_end(old(self)@, position_of(old(self)@, id), direction),
            final(self).next_issued() == old(self).next_issued(),
    {
        let k = match self.find_id(id) {
            Some(k) => k,
            // not reached: the segment is live
            None => return,
        };
        let old_seg = self.segments[k];
        proof {
            lemma_position_of(self@, old_seg.position);
        }
        let seg = Segment { belt: Belt::new(old_seg.belt.start, direction), ..old_seg };
        self.replace(k, seg);
    }

    /// Sets the entry direction of the live segment `id`.
    pub fn set_entry(&mut self, id: u64, direction: Direction)
        requires
            old(self).wf(),
            has_id(old(self)@, id),
        ensures
            final(self).wf(),
            final(self)@ == with_start(old(self)@, position_of(old(self)@, id), direction),
            final(self).next_issued() == old(self).next_issued(),
    {
        let k = match self.find_id(id) {
            Some(k) => k,
            // not reached: the segment is live
            None => return,
        };
        let old_seg = self.segments[k];
        proof {
            lemma_position_of(self@, old_seg.position);
        }
        let seg = Segment { belt: Belt::new(direction, old_seg.belt.end), ..old_seg };
        self.replace(k, seg);
    }
}

/// No two stored segments occupy the same cell.
pub proof fn lemma_one_segment_per_cell(g: BeltGrid, i: int, j: int)
    requires
        g.wf(),
        0 <= i < g.stored().len(),
        0 <= j < g.stored().len(),
        g.stored()[i].position == g.stored()[j].position,
    ensures
        i == j,
{
    if i < j {
        assert(g.stored()[i].position != g.stored()[j].position);
    } else if j < i {
        assert(g.stored()[j].position != g.stored()[i].position);
    }
}

} // verus!
