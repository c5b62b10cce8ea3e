use belts::belt::Belt;
use belts::geometry::Direction;
use belts::sprites::{AnimationIndices, SpriteSelector};

#[test]
fn belt_classification() {
    let straight = Belt::new(Direction::Left, Direction::Right);
    assert!(straight.is_straight());
    assert!(!straight.is_clockwise());
    let cw = Belt::new(Direction::Left, Direction::Down);
    assert!(!cw.is_straight());
    assert!(cw.is_clockwise());
    let acw = Belt::new(Direction::Left, Direction::Up);
    assert!(!acw.is_straight());
    assert!(!acw.is_clockwise());
    for (s, e) in [
        (Direction::Up, Direction::Left),
        (Direction::Down, Direction::Right),
        (Direction::Left, Direction::Down),
        (Direction::Right, Direction::Up),
    ] {
        assert!(Belt::new(s, e).is_clockwise());
    }
}

#[test]
fn belt_rotate_sets_only_the_exit() {
    let mut b = Belt::new(Direction::Left, Direction::Down);
    b.rotate(Direction::Up);
    assert_eq!(b.end, Direction::Up);
    assert_eq!(b.start, Direction::Left);
    assert!(!b.is_straight());
}

fn selector() -> SpriteSelector {
    let mut table = [None; 12];
    for (slot, row) in [2usize, 3, 1, 0, 4, 11, 7, 8, 6, 9, 10, 5].iter().enumerate() {
        table[slot] = Some((row * 16, (row + 1) * 16 - 1));
    }
    SpriteSelector::from_indecies(table)
}

#[test]
fn sprite_slots_by_shape() {
    let s = selector();
    // straight, exit right: slot 3
    assert_eq!(s.get_indecies(&Belt::new(Direction::Left, Direction::Right)), (0, 15));
    // straight, exit up: slot 0
    assert_eq!(s.get_indecies(&Belt::new(Direction::Down, Direction::Up)), (32, 47));
    // clockwise, exit down: slot 5
    assert_eq!(s.get_indecies(&Belt::new(Direction::Left, Direction::Down)), (176, 191));
    // anticlockwise, exit up: slot 8
    assert_eq!(s.get_indecies(&Belt::new(Direction::Left, Direction::Up)), (96, 111));
    // anticlockwise, exit right: slot 11
    assert_eq!(s.get_indecies(&Belt::new(Direction::Up, Direction::Right)), (80, 95));
}

#[test]
fn animation_wraps_around() {
    let mut a = AnimationIndices::new(4, 6);
    assert_eq!(a.first(), 4);
    assert_eq!(a.next(), 5);
    assert_eq!(a.next(), 6);
    assert_eq!(a.next(), 4);
    let mut single = AnimationIndices::new(9, 9);
    assert_eq!(single.next(), 9);
}

#[test]
fn animation_update_keeps_offset() {
    let mut a = AnimationIndices::new(0, 15);
    a.next();
    a.next();
    a.update((32, 47));
    assert_eq!(a.first(), 32);
    assert_eq!(a.next(), 35);
}

#[test]
fn animation_accepts_any_range() {
    let mut a = AnimationIndices::new(5, 3);
    assert_eq!(a.first(), 5);
    assert_eq!(a.next(), 6);
    a.update((10, 11));
    assert_eq!(a.first(), 10);
    assert_eq!(a.next(), 10);
    let mut b = AnimationIndices::new(0, 15);
    b.next();
    b.next();
    b.next();
    b.update((20, 21));
    assert_eq!(b.next(), 24);
}
