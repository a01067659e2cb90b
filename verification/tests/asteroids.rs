use intcode::ten::{generate_map, is_spottable, process_map, Point, Quadrant, Vector};

#[test]
fn ten_test_one() {
    let input = "#####\n.....\n.####\n....#\n...##";
    let set = generate_map(input).unwrap();
    let (max, _) = process_map(&set);
    assert_eq!(max, 10);
}

#[test]
fn ten_test_two() {
    let input = ".#..#\n.....\n#####\n....#\n...##";
    let set = generate_map(input).unwrap();
    let (max, _) = process_map(&set);
    assert_eq!(max, 8);
}

#[test]
fn test_three() {
    let input = "......#.#.\n#..#.#....\n..#######.\n.#.#.###..\n.#..#.....\n\
                 ..#....#.#\n#..#....#.\n.##.#..###\n##...#..#.\n.#....####";
    let set = generate_map(input).unwrap();
    let (max, _) = process_map(&set);
    assert_eq!(max, 33);
}

#[test]
fn test_four() {
    let input = "#.#...#.#.\n.###....#.\n.#....#...\n##.#.#.#.#\n....#.#.#.\n\
                 .##..###.#\n..#...##..\n..##....##\n......#...\n.####.###.";
    let set = generate_map(input).unwrap();
    let (max, _) = process_map(&set);
    assert_eq!(max, 35);
}

#[test]
fn test_five() {
    let input = ".#..#..###\n####.###.#\n....###.#.\n..###.##.#\n##.##.#.#.\n\
                 ....###..#\n..#.#..#.#\n#..#.#.###\n.##...##.#\n.....#.#..";
    let set = generate_map(input).unwrap();
    let (max, _) = process_map(&set);
    assert_eq!(max, 41);
}

#[test]
fn best_station_position() {
    let input = ".#..#\n.....\n#####\n....#\n...##";
    let set = generate_map(input).unwrap();
    let (_, best) = process_map(&set);
    assert_eq!((best.x, best.y), (3, 4));
}

#[test]
fn vectors_reduce_and_rank() {
    // from (4, 4) towards (1, 2): difference (3, 2) reduced by gcd 1 and
    // flipped
    let v = Vector::new(&Point::new(4, 4), &Point::new(1, 2));
    assert_eq!(v, Vector { x: -3, y: -2 });
    let w = Vector::new(&Point::new(6, 0), &Point::new(0, 3));
    assert_eq!(w, Vector { x: -2, y: 1 });
    assert_eq!(Vector::gcd(6, 3), 3);
    assert_eq!(w.get_quadrant(), Quadrant::Three);
    assert_eq!(v.get_quadrant(), Quadrant::Four);
    assert_eq!(w.cmp_quadrant(&v), std::cmp::Ordering::Less);
}

#[test]
fn blocked_sight_line() {
    // three in a row: the middle one blocks the ends from each other
    let input = "###";
    let set = generate_map(input).unwrap();
    let a = Point::new(0, 0);
    let c = Point::new(2, 0);
    assert!(!is_spottable(&set, &a, &c));
    let b = Point::new(1, 0);
    assert!(is_spottable(&set, &a, &b));
}
