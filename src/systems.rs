//! The modification pipeline: handle a request, find the affected
//! segments, resolve each one's entry direction from its neighbours, and
//! apply the results.
use vstd::prelude::*;
use crate::belt::Belt;
use crate::events::{FindEdgesEvent, InputEvent, ModifiedEvent, ModifyError, UpdateEdgesEvent};
use crate::geometry::{
    Direction, Position, scan_order, lemma_direction_to_adjacent, lemma_step_back,
};
use crate::grid::{
    BeltGrid, Segment, fresh_segment, has_id, lemma_position_of, position_of, well_keyed,
    with_end, with_start,
};

verus! {

/// The neighbour of `p` in direction `d` feeds the segment at `p`: it is not
/// the cell the segment discharges into, and its own exit points straight
/// at `p`.
pub open spec fn feeds(m: Map<Position, Segment>, p: Position, d: Direction) -> bool {
    let n = p.step(d);
    &&& d != m[p].belt.end
    &&& m.contains_key(n)
    &&& m[n].belt.end == d.reversed()
}

/// The feed candidates found among the first `n` neighbours in scan order,
/// each recorded as the direction from the feeding neighbour to `p`.
pub open spec fn candidates_upto(m: Map<Position, Segment>, p: Position, n: nat) -> Seq<Direction>
    decreases n,
{
    if n == 0 {
        seq![]
    } else {
        let prev = candidates_upto(m, p, (n - 1) as nat);
        let d = scan_order()[n - 1];
        if feeds(m, p, d) {
            prev.push(d.reversed())
        } else {
            prev
        }
    }
}

/// All feed candidates of the segment at `p`.
pub open spec fn feed_candidates(m: Map<Position, Segment>, p: Position) -> Seq<Direction> {
    candidates_upto(m, p, 4)
}

/// The entry direction the segment at `p` should have: a turn when exactly
/// one neighbour feeds it from a side other than its exit, straight
/// otherwise.
pub open spec fn resolved_entry(m: Map<Position, Segment>, p: Position) -> Direction {
    let c = feed_candidates(m, p);
    let e = m[p].belt.end;
    if c.len() == 1 && c[0] != e {
        c[0].reversed()
    } else {
        e.reversed()
    }
}

/// Both maps hold segments on the same cells with the same exits.
pub open spec fn same_exits(m1: Map<Position, Segment>, m2: Map<Position, Segment>) -> bool {
    &&& m1.dom() == m2.dom()
    &&& forall|q: Position| #[trigger] m1.contains_key(q) ==> m1[q].belt.end == m2[q].belt.end
}

proof fn lemma_candidates_read_exits(
    m1: Map<Position, Segment>,
    m2: Map<Position, Segment>,
    p: Position,
    n: nat,
)
    requires
        same_exits(m1, m2),
        m1.contains_key(p),
    ensures
        candidates_upto(m1, p, n) == candidates_upto(m2, p, n),
    decreases n,
{
    if n > 0 {
        lemma_candidates_read_exits(m1, m2, p, (n - 1) as nat);
        let d = scan_order()[n - 1];
        assert(m1.contains_key(p.step(d)) == m2.contains_key(p.step(d)));
    }
}

/// The resolved entry depends on which cells are occupied and on their
/// exits only, never on any entry; so resolving after other entries were
/// rewritten, in any order, gives the same result.
pub proof fn lemma_resolution_reads_only_exits(
    m1: Map<Position, Segment>,
    m2: Map<Position, Segment>,
    p: Position,
)
    requires
        same_exits(m1, m2),
        m1.contains_key(p),
    ensures
        resolved_entry(m1, p) == resolved_entry(m2, p),
{
    lemma_candidates_read_exits(m1, m2, p, 4);
}

/// Resolving a segment, writing the result, and resolving it again gives
/// the same entry direction: the result is a fixed point.
pub proof fn lemma_resolution_idempotent(m: Map<Position, Segment>, p: Position)
    requires
        m.contains_key(p),
    ensures
        resolved_entry(with_start(m, p, resolved_entry(m, p)), p) == resolved_entry(m, p),
{
    let m2 = with_start(m, p, resolved_entry(m, p));
    assert(m2.dom() =~= m.dom());
    lemma_resolution_reads_only_exits(m, m2, p);
}

/// How many of the four sides feed the segment at `p`.
pub open spec fn feeder_count(m: Map<Position, Segment>, p: Position) -> nat {
    (if feeds(m, p, Direction::Up) { 1nat } else { 0nat }) + (if feeds(m, p, Direction::Down) {
        1nat
    } else {
        0nat
    }) + (if feeds(m, p, Direction::Left) { 1nat } else { 0nat }) + (if feeds(
        m,
        p,
        Direction::Right,
    ) {
        1nat
    } else {
        0nat
    })
}

/// The resolved entry does not depend on the order in which the neighbours
/// are scanned: when exactly one side feeds the segment and that side is
/// not straight behind it, the entry is that side; otherwise the segment is
/// straight.
pub proof fn lemma_resolution_order_free(m: Map<Position, Segment>, p: Position)
    requires
        m.contains_key(p),
    ensures
        resolved_entry(m, p) == if feeder_count(m, p) == 1 && exists|d: Direction|
            feeds(m, p, d) && d != m[p].belt.end.reversed() {
            choose|d: Direction| feeds(m, p, d)
        } else {
            m[p].belt.end.reversed()
        },
{
    reveal_with_fuel(candidates_upto, 5);
    let e = m[p].belt.end;
    assert(scan_order()[0] == Direction::Up);
    assert(scan_order()[1] == Direction::Down);
    assert(scan_order()[2] == Direction::Left);
    assert(scan_order()[3] == Direction::Right);
    if feeder_count(m, p) == 1 {
        let d = if feeds(m, p, Direction::Up) {
            Direction::Up
        } else if feeds(m, p, Direction::Down) {
            Direction::Down
        } else if feeds(m, p, Direction::Left) {
            Direction::Left
        } else {
            Direction::Right
        };
        assert(feeds(m, p, d));
        assert(forall|d2: Direction| feeds(m, p, d2) ==> d2 == d);
        assert(feed_candidates(m, p) =~= seq![d.reversed()]);
        let c = choose|d2: Direction| feeds(m, p, d2);
        assert(c == d);
    }
}

/// Recomputes the entry direction of the live segment `event.entity` from
/// the exits of its neighbours.
pub fn find_edges(grid: &BeltGrid, event: &FindEdgesEvent) -> (r: UpdateEdgesEvent)
    requires
        grid.wf(),
        has_id(grid@, event.entity),
    ensures
        r.entity == event.entity,
        r.new_start == resolved_entry(grid@, position_of(grid@, event.entity)),
{
    let center = match grid.segment(event.entity) {
        Some(s) => s,
        // not reached: the segment is live
        None => return UpdateEdgesEvent::new(event.entity, Direction::Up),
    };
    let center_position = center.position;
    let center_end = center.belt.end;
    let ghost m = grid@;
    let adjacent = center_position.adjacent();
    let mut ends: Vec<Direction> = Vec::new();
    let mut i: usize = 0;
    while i < 4
        invariant
            grid.wf(),
            m == grid@,
            m.contains_key(center_position),
            m[center_position] == center,
            center_end == center.belt.end,
            center_position.has_neighbors(),
            adjacent@ == center_position.neighbors(),
            i <= 4,
            ends@ == candidates_upto(m, center_position, i as nat),
        decreases 4 - i,
    {
        let adj_position = adjacent[i];
        let ghost d0 = scan_order()[i as int];
        proof {
            assert(adj_position == center_position.step(d0));
            lemma_step_back(center_position, d0);
        }
        if let Some(adj_id) = grid.locate(&adj_position) {
            proof {
                lemma_position_of(m, adj_position);
            }
            if let Some(adj) = grid.segment(adj_id) {
                if let Some(d) = center_position.direction_to(&adj_position) {
                    if d != center_end {
                        if let Some(back) = adj_position.direction_to(&center_position) {
                            if back == adj.belt.end {
                                ends.push(back);
                            }
                        }
                    }
                }
            }
        }
        i += 1;
    }
    if ends.len() == 1 {
        let end = ends[0];
        if end != center_end {
            return UpdateEdgesEvent::new(event.entity, end.opposite());
        }
    }
    UpdateEdgesEvent::new(event.entity, center_end.opposite())
}

/// The identities of the segments on the first `n` neighbours of `p`, in
/// scan order.
pub open spec fn neighbor_ids_upto(m: Map<Position, Segment>, p: Position, n: nat) -> Seq<u64>
    decreases n,
{
    if n == 0 {
        seq![]
    } else {
        let prev = neighbor_ids_upto(m, p, (n - 1) as nat);
        let q = p.step(scan_order()[n - 1]);
        if m.contains_key(q) {
            prev.push(m[q].id)
        } else {
            prev
        }
    }
}

/// The work-list for a change at `event.position`: the touched segment, if
/// any, then every segment on an occupied neighbour.
pub open spec fn affected_ids(m: Map<Position, Segment>, event: ModifiedEvent) -> Seq<u64> {
    let touched = match event.entity {
        Some(id) => seq![id],
        None => Seq::<u64>::empty(),
    };
    touched + neighbor_ids_upto(m, event.position, 4)
}

/// Builds the recomputation requests that a change at `event.position`
/// causes.
pub fn handle_modifications(grid: &BeltGrid, event: &ModifiedEvent) -> (r: Vec<FindEdgesEvent>)
    requires
        grid.wf(),
        event.position.has_neighbors(),
    ensures
        r@.len() == affected_ids(grid@, *event).len(),
        forall|i: int| 0 <= i < r@.len() ==> #[trigger] r@[i].entity == affected_ids(grid@, *event)[i],
        forall|i: int|
            0 <= i < r@.len() ==> event.entity == Some(#[trigger] r@[i].entity) || (has_id(
                grid@,
                r@[i].entity,
            ) && event.position.direction_toward(position_of(grid@, r@[i].entity)) is Some),
{
    let mut out: Vec<FindEdgesEvent> = Vec::new();
    if let Some(entity) = event.entity {
        out.push(FindEdgesEvent::new(entity));
    }
    let ghost touched = match event.entity {
        Some(id) => seq![id],
        None => Seq::<u64>::empty(),
    };
    let adjacent = event.position.adjacent();
    let mut i: usize = 0;
    while i < 4
        invariant
            grid.wf(),
            adjacent@ == event.position.neighbors(),
            i <= 4,
            out@.len() == touched.len() + neighbor_ids_upto(grid@, event.position, i as nat).len(),
            forall|j: int|
                0 <= j < out@.len() ==> #[trigger] out@[j].entity == (touched + neighbor_ids_upto(
                    grid@,
                    event.position,
                    i as nat,
                ))[j],
        decreases 4 - i,
    {
        let adj_position = adjacent[i];
        assert(adj_position == event.position.step(scan_order()[i as int]));
        if let Some(adj_entity) = grid.locate(&adj_position) {
            out.push(FindEdgesEvent::new(adj_entity));
        }
        i += 1;
    }
    proof {
        let m = grid@;
        let p = event.position;
        let nb = neighbor_ids_upto(m, p, 4);
        assert forall|i: int| 0 <= i < out@.len() implies event.entity == Some(#[trigger] out@[i].entity)
            || (has_id(m, out@[i].entity) && p.direction_toward(position_of(m, out@[i].entity)) is Some) by {
            let x = out@[i].entity;
            if i >= touched.len() {
                assert(nb[i - touched.len()] == x);
                assert(nb.contains(x));
                lemma_neighbor_ids(m, p, 4, x);
                let k = choose|k: int|
                    0 <= k < 4 && m.contains_key(#[trigger] p.step(scan_order()[k])) && m[p.step(
                        scan_order()[k],
                    )].id == x;
                let q = p.step(scan_order()[k]);
                lemma_position_of(m, q);
                lemma_near_step(p, q);
            } else {
                assert(touched[i] == x);
            }
        }
    }
    out
}

/// Writes the entry direction that the resolver computed.
pub fn update_edges(grid: &mut BeltGrid, event: &UpdateEdgesEvent)
    requires
        old(grid).wf(),
        has_id(old(grid)@, event.entity),
    ensures
        final(grid).wf(),
        final(grid)@ == with_start(old(grid)@, position_of(old(grid)@, event.entity), event.new_start),
        final(grid).next_issued() == old(grid).next_issued(),
{
    grid.set_entry(event.entity, event.new_start);
}

/// What handling `event` does to the cells `m`, with `next` the identity a
/// new segment would receive and `exit` the exit a new segment starts with:
/// the new cells and the change notice, or why it was refused.
pub open spec fn handled(
    m: Map<Position, Segment>,
    next: u64,
    event: InputEvent,
    exit: Direction,
) -> Result<(Map<Position, Segment>, ModifiedEvent), ModifyError> {
    match event {
        InputEvent::Rotate(p) => if m.contains_key(p) {
            Ok(
                (
                    with_end(m, p, m[p].belt.end.turned()),
                    ModifiedEvent { position: p, entity: Some(m[p].id) },
                ),
            )
        } else {
            Err(ModifyError::PositionEmpty)
        },
        InputEvent::Create(p) => if m.contains_key(p) {
            Err(ModifyError::PositionOccupied)
        } else {
            Ok(
                (
                    m.insert(p, fresh_segment(next, p, exit)),
                    ModifiedEvent { position: p, entity: Some(next) },
                ),
            )
        },
        InputEvent::Delete(p) => if m.contains_key(p) {
            Ok((m.remove(p), ModifiedEvent { position: p, entity: None }))
        } else {
            Err(ModifyError::PositionEmpty)
        },
    }
}

/// Handles one request: rotates the exit of the segment at the position
/// clockwise, creates a segment there with exit `default_exit`, or deletes
/// it. A refused request changes nothing.
pub fn handle_inputs(grid: &mut BeltGrid, event: &InputEvent, default_exit: Direction) -> (r: Result<
    ModifiedEvent,
    ModifyError,
>)
    requires
        old(grid).wf(),
        event is Create && !old(grid)@.contains_key(event.target()) ==> event.target().has_neighbors()
            && old(grid).next_issued() < u64::MAX,
    ensures
        final(grid).wf(),
        match handled(old(grid)@, old(grid).next_issued(), *event, default_exit) {
            Ok((m, notice)) => r == Ok::<ModifiedEvent, ModifyError>(notice) && final(grid)@ == m,
            Err(e) => r == Err::<ModifiedEvent, ModifyError>(e) && *final(grid) == *old(grid),
        },
        final(grid).next_issued() == if event is Create && r is Ok {
            old(grid).next_issued() + 1
        } else {
            old(grid).next_issued() as int
        },
{
    match event {
        InputEvent::Create(position) => match grid.create(*position, default_exit) {
            Ok(id) => Ok(ModifiedEvent::new(*position, Some(id))),
            Err(e) => Err(e),
        },
        InputEvent::Delete(position) => match grid.delete(position) {
            Ok(_) => Ok(ModifiedEvent::new(*position, None)),
            Err(e) => Err(e),
        },
        InputEvent::Rotate(position) => match grid.locate(position) {
            Some(entity) => {
                let belt = match grid.segment(entity) {
                    Some(s) => s.belt,
                    // not reached: `locate` found it
                    None => return Err(ModifyError::PositionEmpty),
                };
                proof {
                    lemma_position_of(grid@, *position);
                }
                let new_end = belt.end.rotate_clockwise();
                grid.set_exit(entity, new_end);
                Ok(ModifiedEvent::new(*position, Some(entity)))
            },
            None => Err(ModifyError::PositionEmpty),
        },
    }
}

/// `q` is the cell `p` itself or one of its four neighbours.
pub open spec fn near(p: Position, q: Position) -> bool {
    q == p || p.direction_toward(q) is Some
}

/// The cells `m` after every segment on `p` or on a neighbour of `p` has had
/// its entry direction re-resolved; nothing else changes.
pub open spec fn settled(m: Map<Position, Segment>, p: Position) -> Map<Position, Segment> {
    Map::new(
        |q: Position| m.contains_key(q),
        |q: Position|
            if near(p, q) {
                Segment { belt: Belt { start: resolved_entry(m, q), ..m[q].belt }, ..m[q] }
            } else {
                m[q]
            },
    )
}

proof fn lemma_neighbor_ids(m: Map<Position, Segment>, p: Position, n: nat, x: u64)
    requires
        n <= 4,
    ensures
        neighbor_ids_upto(m, p, n).contains(x) <==> exists|k: int|
            0 <= k < n && m.contains_key(#[trigger] p.step(scan_order()[k])) && m[p.step(
                scan_order()[k],
            )].id == x,
    decreases n,
{
    if n > 0 {
        lemma_neighbor_ids(m, p, (n - 1) as nat, x);
        let prev = neighbor_ids_upto(m, p, (n - 1) as nat);
        let q = p.step(scan_order()[n - 1]);
        if m.contains_key(q) {
            assert(prev.push(m[q].id).contains(x) <==> prev.contains(x) || m[q].id == x) by {
                if prev.push(m[q].id).contains(x) && m[q].id != x {
                    let j = choose|j: int| 0 <= j < prev.len() + 1 && prev.push(m[q].id)[j] == x;
                    assert(prev[j] == x);
                }
                if prev.contains(x) {
                    let j = choose|j: int| 0 <= j < prev.len() && prev[j] == x;
                    assert(prev.push(m[q].id)[j] == x);
                }
                if m[q].id == x {
                    assert(prev.push(m[q].id)[prev.len() as int] == x);
                }
            }
        }
    }
}

/// For a cell with representable neighbours, `q` is a neighbour exactly when
/// it is one step from `p` in one of the four directions.
proof fn lemma_near_step(p: Position, q: Position)
    requires
        p.has_neighbors(),
    ensures
        p.direction_toward(q) is Some <==> exists|k: int| 0 <= k < 4 && q == #[trigger] p.step(scan_order()[k]),
{
    lemma_direction_to_adjacent(p, q);
    let n = p.neighbors();
    if p.direction_toward(q) is Some {
        let i = choose|i: int| 0 <= i < n.len() && n[i] == q;
        assert(q == p.step(scan_order()[i]));
    }
    if exists|k: int| 0 <= k < 4 && q == #[trigger] p.step(scan_order()[k]) {
        let k = choose|k: int| 0 <= k < 4 && q == #[trigger] p.step(scan_order()[k]);
        assert(n[k] == q);
    }
}

/// The work-list of a successful change names live segments only, and
/// names a segment exactly when it lies on the changed cell or next to it.
proof fn lemma_affected(
    m: Map<Position, Segment>,
    next: u64,
    event: InputEvent,
    exit: Direction,
    m1: Map<Position, Segment>,
    notice: ModifiedEvent,
)
    requires
        well_keyed(m1),
        notice.position.has_neighbors(),
        handled(m, next, event, exit) == Ok::<(Map<Position, Segment>, ModifiedEvent), ModifyError>((m1, notice)),
    ensures
        forall|j: int|
            0 <= j < affected_ids(m1, notice).len() ==> has_id(m1, #[trigger] affected_ids(m1, notice)[j]),
        forall|q: Position|
            #[trigger] m1.contains_key(q) ==> (affected_ids(m1, notice).contains(m1[q].id) <==> near(
                notice.position,
                q,
            )),
{
    let p = notice.position;
    let ids = affected_ids(m1, notice);
    let touched = match notice.entity {
        Some(id) => seq![id],
        None => Seq::<u64>::empty(),
    };
    let nb = neighbor_ids_upto(m1, p, 4);
    assert(notice.entity matches Some(id) ==> m1.contains_key(p) && m1[p].id == id);
    assert(notice.entity is None ==> !m1.contains_key(p));
    assert forall|j: int| 0 <= j < ids.len() implies has_id(m1, #[trigger] ids[j]) by {
        if j < touched.len() {
            assert(m1.contains_key(p) && m1[p].id == ids[j]);
        } else {
            let x = ids[j];
            assert(nb[j - touched.len()] == x);
            assert(nb.contains(x));
            lemma_neighbor_ids(m1, p, 4, x);
            let k = choose|k: int|
                0 <= k < 4 && m1.contains_key(#[trigger] p.step(scan_order()[k])) && m1[p.step(
                    scan_order()[k],
                )].id == x;
            assert(m1.contains_key(p.step(scan_order()[k])) && m1[p.step(scan_order()[k])].id == x);
        }
    }
    assert forall|q: Position| #[trigger] m1.contains_key(q) implies (ids.contains(m1[q].id) <==> near(p, q)) by {
        let x = m1[q].id;
        lemma_neighbor_ids(m1, p, 4, x);
        lemma_near_step(p, q);
        assert(ids.contains(x) <==> touched.contains(x) || nb.contains(x)) by {
            if ids.contains(x) {
                let j = choose|j: int| 0 <= j < ids.len() && ids[j] == x;
                if j < touched.len() {
                    assert(touched[j] == x);
                } else {
                    assert(nb[j - touched.len()] == x);
                }
            }
            if touched.contains(x) {
                let j = choose|j: int| 0 <= j < touched.len() && touched[j] == x;
                assert(ids[j] == x);
            }
            if nb.contains(x) {
                let j = choose|j: int| 0 <= j < nb.len() && nb[j] == x;
                assert(ids[j + touched.len()] == x);
            }
        }
        if touched.contains(x) {
            let j = choose|j: int| 0 <= j < touched.len() && touched[j] == x;
            assert(m1[p].id == x);
        }
        if q == p {
            if notice.entity is Some {
                assert(touched[0] == x);
            }
        }
        if nb.contains(x) {
            let k = choose|k: int|
                0 <= k < 4 && m1.contains_key(#[trigger] p.step(scan_order()[k])) && m1[p.step(
                    scan_order()[k],
                )].id == x;
            assert(m1[p.step(scan_order()[k])].id == m1[q].id);
        }
        if p.direction_toward(q) is Some {
            let k = choose|k: int| 0 <= k < 4 && q == #[trigger] p.step(scan_order()[k]);
            assert(m1.contains_key(p.step(scan_order()[k])) && m1[p.step(scan_order()[k])].id == x);
        }
    }
}

/// The cell a successful request names stays representable with all its
/// neighbours.
proof fn lemma_handled_target(
    m: Map<Position, Segment>,
    next: u64,
    event: InputEvent,
    exit: Direction,
)
    requires
        well_keyed(m),
        event is Create && !m.contains_key(event.target()) ==> event.target().has_neighbors(),
        handled(m, next, event, exit) is Ok,
    ensures
        handled(m, next, event, exit) matches Ok((m1, notice)) ==> notice.position == event.target()
            && notice.position.has_neighbors(),
{
    let p = event.target();
    if m.contains_key(p) {
        assert(p.has_neighbors());
    }
}

/// Runs one request through the whole pipeline: handle it, collect the
/// touched segment and its occupied neighbours, resolve each one's entry
/// direction, and apply the results, which are returned in work-list order.
pub fn process_input(grid: &mut BeltGrid, event: &InputEvent, default_exit: Direction) -> (r: Result<
    Vec<UpdateEdgesEvent>,
    ModifyError,
>)
    requires
        old(grid).wf(),
        event is Create && !old(grid)@.contains_key(event.target()) ==> event.target().has_neighbors()
            && old(grid).next_issued() < u64::MAX,
    ensures
        final(grid).wf(),
        match handled(old(grid)@, old(grid).next_issued(), *event, default_exit) {
            Ok((m, notice)) => {
                &&& final(grid)@ == settled(m, event.target())
                &&& r matches Ok(updates) && updates@.len() == affected_ids(m, notice).len()
                    && forall|i: int|
                    0 <= i < updates@.len() ==> (#[trigger] updates@[i]).entity == affected_ids(
                        m,
                        notice,
                    )[i] && updates@[i].new_start == resolved_entry(
                        m,
                        position_of(m, affected_ids(m, notice)[i]),
                    )
            },
            Err(e) => r == Err::<Vec<UpdateEdgesEvent>, ModifyError>(e) && *final(grid) == *old(grid),
        },
        final(grid).next_issued() == if event is Create && r is Ok {
            old(grid).next_issued() + 1
        } else {
            old(grid).next_issued() as int
        },
        forall|q: Position|
            !near(event.target(), q) ==> (#[trigger] final(grid)@.contains_key(q) == old(grid)@.contains_key(q))
                && (old(grid)@.contains_key(q) ==> final(grid)@[q] == old(grid)@[q]),
        r matches Ok(updates) ==> forall|i: int|
            0 <= i < updates@.len() ==> has_id(final(grid)@, #[trigger] updates@[i].entity)
                && final(grid)@[position_of(final(grid)@, updates@[i].entity)].belt.start
                == updates@[i].new_start,
{
    let ghost m0 = grid@;
    let ghost n0 = grid.next_issued();
    let notice = match handle_inputs(grid, event, default_exit) {
        Ok(notice) => notice,
        Err(e) => return Err(e),
    };
    let ghost m1 = grid@;
    let ghost n1 = grid.next_issued();
    proof {
        lemma_handled_target(m0, n0, *event, default_exit);
        lemma_affected(m0, n0, *event, default_exit, m1, notice);
    }
    let work = handle_modifications(grid, &notice);
    let ghost ids = affected_ids(m1, notice);
    let mut updates: Vec<UpdateEdgesEvent> = Vec::new();
    let mut i: usize = 0;
    while i < work.len()
        invariant
            grid.wf(),
            grid.next_issued() == n1,
            work@.len() == ids.len(),
            forall|j: int| 0 <= j < work@.len() ==> #[trigger] work@[j].entity == ids[j],
            forall|j: int| 0 <= j < ids.len() ==> has_id(m1, #[trigger] ids[j]),
            well_keyed(m1),
            i <= work@.len(),
            same_exits(m1, grid@),
            forall|q: Position|
                #[trigger] m1.contains_key(q) ==> grid@[q].id == m1[q].id && grid@[q].position
                    == m1[q].position && grid@[q].belt.start == if ids.subrange(0, i as int).contains(
                    m1[q].id,
                ) {
                    resolved_entry(m1, q)
                } else {
                    m1[q].belt.start
                },
            updates@.len() == i,
            forall|j: int|
                0 <= j < i ==> (#[trigger] updates@[j]).entity == ids[j] && updates@[j].new_start
                    == resolved_entry(m1, position_of(m1, ids[j])),
        decreases work@.len() - i,
    {
        let ghost g = grid@;
        let ghost id = ids[i as int];
        let ghost q = position_of(m1, id);
        proof {
            assert(has_id(m1, id));
            assert(m1.contains_key(q) && m1[q].id == id);
            assert(g.contains_key(q) && g[q].id == id);
            lemma_position_of(g, q);
            lemma_resolution_reads_only_exits(m1, g, q);
        }
        let upd = find_edges(grid, &work[i]);
        update_edges(grid, &upd);
        updates.push(upd);
        proof {
            let before = ids.subrange(0, i as int);
            let after = ids.subrange(0, i + 1);
            assert(after =~= before.push(id));
            assert forall|q2: Position| #[trigger] m1.contains_key(q2) implies (after.contains(m1[q2].id)
                <==> before.contains(m1[q2].id) || q2 == q) by {
                if after.contains(m1[q2].id) && !before.contains(m1[q2].id) {
                    let j = choose|j: int| 0 <= j < after.len() && after[j] == m1[q2].id;
                    assert(j == i);
                }
                if before.contains(m1[q2].id) {
                    let j = choose|j: int| 0 <= j < before.len() && before[j] == m1[q2].id;
                    assert(after[j] == m1[q2].id);
                }
                if q2 == q {
                    assert(after[i as int] == id);
                }
            }
            assert(grid@.dom() =~= m1.dom());
        }
        i += 1;
    }
    proof {
        assert(ids.subrange(0, ids.len() as int) =~= ids);
        let target = settled(m1, event.target());
        assert(grid@ =~= target) by {
            assert(grid@.dom() =~= target.dom());
            assert forall|q: Position| #[trigger] grid@.contains_key(q) implies grid@[q] == target[q] by {
                assert(m1.contains_key(q));
            }
        }
        assert forall|q: Position| !near(event.target(), q) implies (#[trigger] grid@.contains_key(q)
            == m0.contains_key(q)) && (m0.contains_key(q) ==> grid@[q] == m0[q]) by {
            lemma_isolation(m0, n0, *event, default_exit, q);
        }
        assert forall|j: int| 0 <= j < updates@.len() implies has_id(grid@, #[trigger] updates@[j].entity)
            && grid@[position_of(grid@, updates@[j].entity)].belt.start == updates@[j].new_start by {
            let id = ids[j];
            let q = position_of(m1, id);
            assert(has_id(m1, id));
            assert(m1.contains_key(q) && m1[q].id == id);
            assert(grid@.contains_key(q) && grid@[q].id == id);
            lemma_position_of(grid@, q);
            assert(ids.contains(id)) by {
                assert(ids[j] == id);
            }
        }
    }
    Ok(updates)
}

/// A modification at `p` never changes, adds or removes a segment on a cell
/// other than `p` and its four neighbours.
pub proof fn lemma_isolation(
    m: Map<Position, Segment>,
    next: u64,
    event: InputEvent,
    exit: Direction,
    q: Position,
)
    requires
        !near(event.target(), q),
    ensures
        handled(m, next, event, exit) matches Ok((m1, notice)) ==> {
            let m2 = settled(m1, event.target());
            &&& m2.contains_key(q) == m.contains_key(q)
            &&& m.contains_key(q) ==> m2[q] == m[q]
        },
{
}

/// Deleting the segment at `p` succeeds, after which creating one at `p`
/// succeeds too, and the new segment's identity is held by no segment that
/// was on the grid before the deletion.
pub proof fn lemma_delete_then_create(g: BeltGrid, p: Position, exit: Direction)
    requires
        g.wf(),
        g@.contains_key(p),
    ensures
        handled(g@, g.next_issued(), InputEvent::Delete(p), exit) matches Ok((m1, n1)) && handled(
            m1,
            g.next_issued(),
            InputEvent::Create(p),
            exit,
        ) matches Ok((m2, n2)) && n2.entity == Some(g.next_issued()) && m2.contains_key(p)
            && m2[p].id == g.next_issued(),
        forall|q: Position| #[trigger] g@.contains_key(q) ==> g@[q].id != g.next_issued(),
{
}

} // verus!
