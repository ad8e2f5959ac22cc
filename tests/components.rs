use travelers::components::{Dead, Direction, Health};

#[test]
fn opposite_directions() {
    assert_eq!(Direction::Up.opposite(), Direction::Down);
    assert_eq!(Direction::Down.opposite(), Direction::Up);
    assert_eq!(Direction::Left.opposite(), Direction::Right);
    assert_eq!(Direction::Right.opposite(), Direction::Left);
}

#[test]
fn death_at_zero_health() {
    let h = Health { current: 0, max: 10 };
    assert!(h.is_depleted());
    assert_eq!(h.check_death(), Some(Dead));
    let alive = Health { current: 3, max: 10 };
    assert!(!alive.is_depleted());
    assert_eq!(alive.check_death(), None);
}
