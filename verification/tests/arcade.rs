use intcode::fifteen::{add_points, find_unexplored, map_get_ex, map_set, DroidMovement, DroidStatus};
use intcode::thirteen::{get_block_count, joystick, parse_output, screen_get_ex};

#[test]
fn screen_from_output() {
    let out = vec![1, 2, 3, 6, 5, 4, 1, 2, 7, 99];
    let screen = parse_output(&out);
    // the trailing 99 is an incomplete group; newer triples shadow older
    assert_eq!(screen.len(), 3);
    assert_eq!(screen_get_ex(&screen, 1, 2), Some(7));
    assert_eq!(screen_get_ex(&screen, 6, 5), Some(4));
    assert_eq!(screen_get_ex(&screen, 9, 9), None);
}

#[test]
fn joystick_follows_ball() {
    let right = parse_output(&vec![0, 0, 3, 5, 0, 4]);
    assert_eq!(joystick(&right), 1);
    let left = parse_output(&vec![7, 0, 3, 5, 0, 4]);
    assert_eq!(joystick(&left), -1);
    let level = parse_output(&vec![5, 0, 3, 5, 1, 4]);
    assert_eq!(joystick(&level), 0);
}

#[test]
fn block_counting() {
    let screen = parse_output(&vec![0, 0, 2, 1, 0, 2, 2, 0, 1, 3, 0, 2]);
    assert_eq!(get_block_count(&screen), 3);
}

#[test]
fn droid_movements() {
    assert_eq!(DroidMovement::North.get_instr(), 1);
    assert_eq!(DroidMovement::West.rev(), DroidMovement::East);
    assert_eq!(DroidMovement::South.get_direction(), [0, -1]);
    assert_eq!(DroidMovement::from_direction([1, 0]), Some(DroidMovement::East));
    assert_eq!(DroidMovement::from_direction([2, 0]), None);
    let p = add_points(&[3, -4], &[1, 2]);
    assert_eq!(p, [4, -2]);
}

#[test]
fn droid_map_records() {
    let mut map = Vec::new();
    map_set(&mut map, &[0, 0], DroidStatus::Blank);
    map_set(&mut map, &[0, 1], DroidStatus::Wall);
    map_set(&mut map, &[0, 0], DroidStatus::OxSys);
    assert_eq!(map_get_ex(&map, &[0, 0]), Some(DroidStatus::OxSys));
    assert_eq!(map_get_ex(&map, &[0, 1]), Some(DroidStatus::Wall));
    assert_eq!(map_get_ex(&map, &[5, 5]), None);
    // north is recorded, so the probe order falls through to south
    assert_eq!(find_unexplored(&map, &[0, 0]), Some(DroidMovement::South));
}
