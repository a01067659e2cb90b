use intcode::eleven::{CardDirection, Point, Robot, Rotation};
use intcode::four::{
    adjacent_double_digits, get_next_password, only_ascending_digits, Password,
};
use intcode::one::{fuel_mass, start as fuel_start};

#[test]
fn robot_turns_and_steps() {
    let mut robot = Robot::new();
    assert_eq!(robot.dir, CardDirection::Up);
    robot.change_direction(&Rotation::Left);
    assert_eq!(robot.dir, CardDirection::Left);
    let at = robot.forward();
    assert_eq!(at, Point { x: -1, y: 0 });
    robot.change_direction(&Rotation::Right);
    assert_eq!(robot.dir, CardDirection::Up);
    robot.forward();
    assert_eq!(robot.loc, Point { x: -1, y: 1 });
}

#[test]
fn password_rules() {
    assert!(only_ascending_digits(&Password::from_u32(111111)));
    assert!(!adjacent_double_digits(&Password::from_u32(111111)));
    assert!(adjacent_double_digits(&Password::from_u32(112233)));
    assert!(!adjacent_double_digits(&Password::from_u32(123444)));
    assert!(adjacent_double_digits(&Password::from_u32(111122)));
    assert!(!only_ascending_digits(&Password::from_u32(223450)));
}

#[test]
fn password_round_trip() {
    let p = Password::from_u32(256310);
    assert_eq!(p.repr, [2, 5, 6, 3, 1, 0]);
    assert_eq!(p.get_u32(), 256310);
}

#[test]
fn next_password_ascends() {
    let next = get_next_password(&Password::from_u32(123499));
    assert!(only_ascending_digits(&next));
}

#[test]
fn fuel_for_modules() {
    assert_eq!(fuel_mass(2), 0);
    assert_eq!(fuel_start("12"), Some(2));
    assert_eq!(fuel_start("14"), Some(2));
    assert_eq!(fuel_start("1969"), Some(966));
    assert_eq!(fuel_start("100756"), Some(50346));
    assert_eq!(fuel_start("12\n14\n"), Some(4));
    assert_eq!(fuel_start("12\nx"), None);
}
