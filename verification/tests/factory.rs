use intcode::fourteen::{bin_search, ore_for_fuel, parse_input, Formula, Order};

const STEPS: usize = 1_000_000;

#[test]
fn fourteen_test_one() {
    let input = "9 ORE => 2 A\n8 ORE => 3 B\n7 ORE => 5 C\n3 A, 4 B => 1 AB\n\
                 5 B, 7 C => 1 BC\n4 C, 1 A => 1 CA\n2 AB, 3 BC, 4 CA => 1 FUEL";

    let formulae = parse_input(&input).unwrap();
    let ore_count = ore_for_fuel(&formulae, vec![Order::from_str("1 FUEL").unwrap()], STEPS);

    assert_eq!(165, ore_count.unwrap());
}

#[test]
fn fourteen_test_two() {
    let input = "157 ORE => 5 NZVS\n165 ORE => 6 DCFZ\n\
                 44 XJWVT, 5 KHKGT, 1 QDVJ, 29 NZVS, 9 GPVTF, 48 HKGWZ => 1 FUEL\n\
                 12 HKGWZ, 1 GPVTF, 8 PSHF => 9 QDVJ\n179 ORE => 7 PSHF\n\
                 177 ORE => 5 HKGWZ\n7 DCFZ, 7 PSHF => 2 XJWVT\n165 ORE => 2 GPVTF\n\
                 3 DCFZ, 7 NZVS, 5 HKGWZ, 10 PSHF => 8 KHKGT";

    let formulae = parse_input(&input).unwrap();
    let ore_count = ore_for_fuel(&formulae, vec![Order::from_str("1 FUEL").unwrap()], STEPS);

    assert_eq!(13312, ore_count.unwrap());
}

#[test]
fn orders_parse() {
    let o = Order::from_str(" 44 XJWVT ").unwrap();
    assert_eq!(o.kind, b"XJWVT".to_vec());
    assert_eq!(o.quantity, 44);
    assert!(Order::from_str("FUEL").is_none());
    assert!(Order::from_str("x FUEL").is_none());
}

#[test]
fn formulas_parse() {
    let f = Formula::from_str("3 A, 4 B => 1 AB").unwrap();
    assert_eq!(f.output.kind, b"AB".to_vec());
    assert_eq!(f.output.quantity, 1);
    assert_eq!(f.input.len(), 2);
    assert_eq!(f.input[0].kind, b"A".to_vec());
    assert_eq!(f.input[1].quantity, 4);
    assert!(Formula::from_str("3 A, 4 B").is_none());
}

#[test]
fn duplicate_outputs_are_refused() {
    assert!(parse_input("9 ORE => 2 A\n8 ORE => 3 A").is_none());
}

#[test]
fn bin_search_returns_zero() {
    let formulae = parse_input("9 ORE => 2 A").unwrap();
    assert_eq!(bin_search(&formulae, 1_000_000_000_000), 0);
}
