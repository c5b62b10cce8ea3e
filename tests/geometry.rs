use belts::geometry::{Direction, Position};

const ALL: [Direction; 4] = [Direction::Up, Direction::Down, Direction::Left, Direction::Right];

#[test]
fn opposite_is_an_involution() {
    for d in ALL {
        assert_eq!(d.opposite().opposite(), d);
        assert_ne!(d.opposite(), d);
    }
    assert_eq!(Direction::Up.opposite(), Direction::Down);
    assert_eq!(Direction::Left.opposite(), Direction::Right);
}

#[test]
fn rotate_clockwise_has_order_four() {
    assert_eq!(Direction::Up.rotate_clockwise(), Direction::Right);
    assert_eq!(Direction::Right.rotate_clockwise(), Direction::Down);
    assert_eq!(Direction::Down.rotate_clockwise(), Direction::Left);
    assert_eq!(Direction::Left.rotate_clockwise(), Direction::Up);
    for d in ALL {
        let twice = d.rotate_clockwise().rotate_clockwise();
        assert_eq!(twice, d.opposite());
        assert_ne!(twice.rotate_clockwise(), d);
        assert_eq!(twice.rotate_clockwise().rotate_clockwise(), d);
    }
}

#[test]
fn adjacent_lists_up_down_left_right() {
    let p = Position::new(3, -2);
    let adj = p.adjacent();
    assert_eq!(adj[0], Position::new(3, -3));
    assert_eq!(adj[1], Position::new(3, -1));
    assert_eq!(adj[2], Position::new(2, -2));
    assert_eq!(adj[3], Position::new(4, -2));
}

#[test]
fn direction_to_defined_exactly_on_neighbours() {
    let a = Position::new(0, 0);
    for (i, b) in a.adjacent().iter().enumerate() {
        let d = a.direction_to(b).expect("a neighbour has a direction");
        assert_eq!(d, ALL[i]);
        assert_eq!(a.in_direction(&d), *b);
        assert_eq!(b.direction_to(&a), Some(d.opposite()));
    }
    assert_eq!(a.direction_to(&a), None);
    assert_eq!(a.direction_to(&Position::new(1, 1)), None);
    assert_eq!(a.direction_to(&Position::new(2, 0)), None);
    assert_eq!(a.direction_to(&Position::new(0, -2)), None);
}

#[test]
fn direction_to_at_the_edge_of_the_coordinate_range() {
    let a = Position::new(i32::MIN, i32::MAX);
    let b = Position::new(i32::MAX, i32::MAX);
    assert_eq!(a.direction_to(&b), None);
    let c = Position::new(i32::MIN + 1, i32::MAX);
    assert_eq!(a.direction_to(&c), Some(Direction::Right));
    assert_eq!(c.direction_to(&a), Some(Direction::Left));
}

#[test]
fn single_steps() {
    let p = Position::new(5, 7);
    assert_eq!(p.up(), Position::new(5, 6));
    assert_eq!(p.down(), Position::new(5, 8));
    assert_eq!(p.left(), Position::new(4, 7));
    assert_eq!(p.right(), Position::new(6, 7));
    assert_eq!(p.in_direction(&Direction::Up), p.up());
}

#[test]
fn step_and_back_at_the_edge() {
    let edge = Position::new(i32::MAX, i32::MIN);
    let inside = edge.in_direction(&Direction::Left);
    assert_eq!(inside, Position::new(i32::MAX - 1, i32::MIN));
    assert_eq!(inside.in_direction(&Direction::Right), edge);
    let below = edge.in_direction(&Direction::Down);
    assert_eq!(below.in_direction(&Direction::Up), edge);
}
