use belts::events::{FindEdgesEvent, InputEvent, ModifiedEvent, ModifyError, UpdateEdgesEvent};
use belts::geometry::{Direction, Position};
use belts::grid::BeltGrid;
use belts::systems::{find_edges, handle_inputs, handle_modifications, process_input, update_edges};

fn pos(x: i32, y: i32) -> Position {
    Position::new(x, y)
}

fn create(grid: &mut BeltGrid, x: i32, y: i32, exit: Direction) -> u64 {
    let notice = handle_inputs(grid, &InputEvent::Create(pos(x, y)), exit).expect("cell is free");
    notice.entity.expect("a new segment")
}

#[test]
fn two_in_a_row_resolve_straight() {
    let mut grid = BeltGrid::new();
    let _a = create(&mut grid, 0, 0, Direction::Right);
    let b = create(&mut grid, 1, 0, Direction::Right);
    let upd = find_edges(&grid, &FindEdgesEvent::new(b));
    assert_eq!(upd, UpdateEdgesEvent::new(b, Direction::Left));
    update_edges(&mut grid, &upd);
    let seg = grid.segment(b).unwrap();
    assert_eq!(seg.belt.start, Direction::Left);
    assert_eq!(seg.belt.end, Direction::Right);
    assert!(seg.belt.is_straight());
}

#[test]
fn rotating_the_middle_makes_a_turn() {
    let mut grid = BeltGrid::new();
    let a = create(&mut grid, 0, 0, Direction::Right);
    let b = create(&mut grid, 1, 0, Direction::Right);
    let c = create(&mut grid, 1, 1, Direction::Down);
    let notice = handle_inputs(&mut grid, &InputEvent::Rotate(pos(1, 0)), Direction::Right).unwrap();
    assert_eq!(notice, ModifiedEvent::new(pos(1, 0), Some(b)));
    assert_eq!(grid.segment(b).unwrap().belt.end, Direction::Down);
    let work = handle_modifications(&grid, &notice);
    let ids: Vec<u64> = work.iter().map(|e| e.entity).collect();
    // itself, then the occupied neighbours in the order up, down, left, right
    assert_eq!(ids, vec![b, c, a]);
    let updates: Vec<UpdateEdgesEvent> = work.iter().map(|e| find_edges(&grid, e)).collect();
    for u in &updates {
        update_edges(&mut grid, u);
    }
    let middle = grid.segment(b).unwrap().belt;
    assert_eq!(middle.start, Direction::Left);
    assert_eq!(middle.end, Direction::Down);
    assert!(!middle.is_straight());
    assert!(middle.is_clockwise());
    assert_eq!(grid.segment(a).unwrap().belt.start, Direction::Left);
    assert_eq!(grid.segment(c).unwrap().belt.start, Direction::Up);
}

#[test]
fn rotating_through_the_whole_pipeline() {
    let mut grid = BeltGrid::new();
    let a = create(&mut grid, 0, 0, Direction::Right);
    let b = create(&mut grid, 1, 0, Direction::Right);
    let c = create(&mut grid, 1, 1, Direction::Down);
    let far = create(&mut grid, 5, 5, Direction::Up);
    let updates = process_input(&mut grid, &InputEvent::Rotate(pos(1, 0)), Direction::Right).unwrap();
    assert_eq!(
        updates,
        vec![
            UpdateEdgesEvent::new(b, Direction::Left),
            UpdateEdgesEvent::new(c, Direction::Up),
            UpdateEdgesEvent::new(a, Direction::Left),
        ]
    );
    assert_eq!(grid.segment(b).unwrap().belt.start, Direction::Left);
    assert_eq!(grid.segment(far).unwrap().belt.start, Direction::Down);
}

#[test]
fn resolving_twice_gives_the_same_entry() {
    let mut grid = BeltGrid::new();
    create(&mut grid, 0, 0, Direction::Right);
    let b = create(&mut grid, 1, 0, Direction::Down);
    create(&mut grid, 1, 1, Direction::Down);
    let first = find_edges(&grid, &FindEdgesEvent::new(b));
    update_edges(&mut grid, &first);
    let second = find_edges(&grid, &FindEdgesEvent::new(b));
    assert_eq!(first, second);
    assert_eq!(first.new_start, Direction::Left);
}

#[test]
fn feeder_behind_keeps_straight() {
    let mut grid = BeltGrid::new();
    create(&mut grid, 0, 0, Direction::Down);
    let b = create(&mut grid, 0, 1, Direction::Down);
    let upd = find_edges(&grid, &FindEdgesEvent::new(b));
    assert_eq!(upd.new_start, Direction::Up);
}

#[test]
fn two_feeders_resolve_straight() {
    let mut grid = BeltGrid::new();
    let b = create(&mut grid, 0, 0, Direction::Down);
    create(&mut grid, -1, 0, Direction::Right);
    create(&mut grid, 1, 0, Direction::Left);
    let upd = find_edges(&grid, &FindEdgesEvent::new(b));
    assert_eq!(upd.new_start, Direction::Up);
}

#[test]
fn a_single_side_feeder_makes_a_turn() {
    let mut grid = BeltGrid::new();
    let b = create(&mut grid, 0, 0, Direction::Down);
    create(&mut grid, 1, 0, Direction::Left);
    let upd = find_edges(&grid, &FindEdgesEvent::new(b));
    assert_eq!(upd.new_start, Direction::Right);
}

#[test]
fn create_on_occupied_cell_changes_nothing() {
    let mut grid = BeltGrid::new();
    let a = create(&mut grid, 2, 3, Direction::Up);
    let before = grid.segment(a).unwrap();
    let r = handle_inputs(&mut grid, &InputEvent::Create(pos(2, 3)), Direction::Left);
    assert_eq!(r, Err(ModifyError::PositionOccupied));
    assert_eq!(grid.len(), 1);
    assert_eq!(grid.segment(a).unwrap(), before);
    assert_eq!(grid.locate(&pos(2, 3)), Some(a));
    let r = process_input(&mut grid, &InputEvent::Create(pos(2, 3)), Direction::Left);
    assert_eq!(r, Err(ModifyError::PositionOccupied));
    assert_eq!(grid.len(), 1);
}

#[test]
fn rotate_or_delete_on_empty_cell_is_refused() {
    let mut grid = BeltGrid::new();
    assert_eq!(
        handle_inputs(&mut grid, &InputEvent::Rotate(pos(0, 0)), Direction::Up),
        Err(ModifyError::PositionEmpty)
    );
    assert_eq!(
        process_input(&mut grid, &InputEvent::Delete(pos(0, 0)), Direction::Up),
        Err(ModifyError::PositionEmpty)
    );
    assert_eq!(grid.len(), 0);
}

#[test]
fn delete_then_create_gets_a_fresh_identity() {
    let mut grid = BeltGrid::new();
    let a = create(&mut grid, 0, 0, Direction::Right);
    let other = create(&mut grid, 4, 0, Direction::Right);
    let notice = handle_inputs(&mut grid, &InputEvent::Delete(pos(0, 0)), Direction::Up).unwrap();
    assert_eq!(notice, ModifiedEvent::new(pos(0, 0), None));
    assert_eq!(grid.locate(&pos(0, 0)), None);
    assert_eq!(grid.segment(a), None);
    let b = create(&mut grid, 0, 0, Direction::Up);
    assert_ne!(b, a);
    assert_ne!(b, other);
    assert_eq!(grid.locate(&pos(0, 0)), Some(b));
    let seg = grid.segment(b).unwrap();
    assert_eq!(seg.belt.end, Direction::Up);
    assert_eq!(seg.belt.start, Direction::Down);
}

#[test]
fn interleaved_creates_and_deletes_keep_one_segment_per_cell() {
    let mut grid = BeltGrid::new();
    let cells = [(0, 0), (1, 0), (0, 0), (2, 2), (1, 0), (0, 0)];
    for (i, (x, y)) in cells.iter().enumerate() {
        let p = pos(*x, *y);
        let r = process_input(&mut grid, &InputEvent::Create(p), Direction::Right);
        if r.is_err() {
            assert_eq!(r, Err(ModifyError::PositionOccupied));
            if i % 2 == 0 {
                process_input(&mut grid, &InputEvent::Delete(p), Direction::Right).unwrap();
            }
        }
    }
    let mut seen = Vec::new();
    for (x, y) in cells {
        if let Some(id) = grid.locate(&pos(x, y)) {
            assert_eq!(grid.segment(id).unwrap().position, pos(x, y));
            if !seen.contains(&(x, y)) {
                seen.push((x, y));
            }
        }
    }
    assert_eq!(grid.len(), seen.len());
}

#[test]
fn deleting_a_neighbour_straightens_the_turn() {
    let mut grid = BeltGrid::new();
    create(&mut grid, 0, 0, Direction::Right);
    let b = create(&mut grid, 1, 0, Direction::Down);
    process_input(&mut grid, &InputEvent::Rotate(pos(1, 0)), Direction::Right).unwrap();
    process_input(&mut grid, &InputEvent::Rotate(pos(1, 0)), Direction::Right).unwrap();
    process_input(&mut grid, &InputEvent::Rotate(pos(1, 0)), Direction::Right).unwrap();
    process_input(&mut grid, &InputEvent::Rotate(pos(1, 0)), Direction::Right).unwrap();
    assert_eq!(grid.segment(b).unwrap().belt.start, Direction::Left);
    let updates = process_input(&mut grid, &InputEvent::Delete(pos(0, 0)), Direction::Right).unwrap();
    assert_eq!(updates, vec![UpdateEdgesEvent::new(b, Direction::Up)]);
    assert_eq!(grid.segment(b).unwrap().belt.start, Direction::Up);
}

#[test]
fn work_list_stays_one_hop_away() {
    let mut grid = BeltGrid::new();
    let centre = create(&mut grid, 0, 0, Direction::Right);
    let near = create(&mut grid, 0, 1, Direction::Right);
    create(&mut grid, 0, 2, Direction::Right);
    create(&mut grid, 1, 1, Direction::Right);
    let notice = ModifiedEvent::new(pos(0, 0), Some(centre));
    let ids: Vec<u64> = handle_modifications(&grid, &notice).iter().map(|e| e.entity).collect();
    assert_eq!(ids, vec![centre, near]);
}
