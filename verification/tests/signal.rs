use intcode::sixteen::{parse, run_fft};

#[test]
fn sixteen_test_one() {
    let parsed = parse("12345678").unwrap();
    let result = run_fft(&parsed, 4);
    assert_eq!("01029498", &result[..8]);
}

#[test]
fn single_pass() {
    let parsed = parse("12345678").unwrap();
    assert_eq!(run_fft(&parsed, 1), "48226158");
}

#[test]
fn parse_refuses_non_digits() {
    assert!(parse("123a5678").is_none());
    assert_eq!(parse(" 907 \n").unwrap(), vec![9, 0, 7]);
}
