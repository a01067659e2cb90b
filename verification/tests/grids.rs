use intcode::eight::{into_layers, process_input, validate_image};
use intcode::six::start as orbits_start;
use intcode::three::start as wires_start;

#[test]
fn layers_split_and_validate() {
    let raw = process_input("123456789012").unwrap();
    let layers = into_layers(&raw, 3, 2).unwrap();
    assert_eq!(layers.len(), 2);
    assert_eq!(layers[0], vec![vec![1, 2, 3], vec![4, 5, 6]]);
    assert_eq!(layers[1], vec![vec![7, 8, 9], vec![0, 1, 2]]);
    // digits beyond 2 refuse the check number
    assert_eq!(validate_image(&layers), None);
    assert!(into_layers(&raw, 5, 2).is_none());

    let coded = process_input("011222001122").unwrap();
    let coded_layers = into_layers(&coded, 3, 2).unwrap();
    // the first layer has one zero, two ones and three twos
    assert_eq!(validate_image(&coded_layers), Some(6));
}

#[test]
fn orbit_counting() {
    let input = "COM)B\nB)C\nC)D\nD)E\nE)F\nB)G\nG)H\nD)I\nE)J\nJ)K\nK)L";
    // the worked example counts 42 direct and indirect orbits, but has no
    // travellers, so no transfer route exists
    let r = orbits_start(input, 1000).unwrap();
    assert_eq!(r.0, 42);
    assert_eq!(r.1, None);
}

#[test]
fn orbit_transfers() {
    let input = "COM)B\nB)C\nC)D\nD)E\nE)F\nB)G\nG)H\nD)I\nE)J\nJ)K\nK)L\nK)YOU\nI)SAN";
    let r = orbits_start(input, 1000).unwrap();
    assert_eq!(r.1, Some(4));
}

#[test]
fn crossed_wires() {
    let input = "R8,U5,L5,D3\nU7,R6,D4,L4";
    let (min_mh, min_steps) = wires_start(input).unwrap();
    assert_eq!(min_mh, 6);
    assert_eq!(min_steps, Some(30));
}

#[test]
fn crossed_wires_larger() {
    let input = "R75,D30,R83,U83,L12,D49,R71,U7,L72\nU62,R66,U55,R34,D71,R55,D58,R83";
    let (min_mh, min_steps) = wires_start(input).unwrap();
    assert_eq!(min_mh, 159);
    assert_eq!(min_steps, Some(610));
}
