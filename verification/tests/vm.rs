use intcode::intcode::{IntCodeError, IntCodeProgram, IntCodeStatus};

const FUEL: usize = 10_000_000;

#[test]
fn nine_test_one() {
    let input = "109,1,204,-1,1001,100,1,100,1008,100,16,101,1006,101,0,99";
    let mut program = IntCodeProgram::from_input(&input).unwrap();
    program.run(FUEL).unwrap();

    assert_eq!(
        program.out_buf,
        vec![109, 1, 204, -1, 1001, 100, 1, 100, 1008, 100, 16, 101, 1006, 101, 0, 99]
    );
}

#[test]
fn nine_test_two() {
    let input = "104,1125899906842624,99";
    let mut program = IntCodeProgram::from_input(&input).unwrap();
    program.run(FUEL).unwrap();

    assert_eq!(program.out_buf.remove(0), 1125899906842624);
}

#[test]
fn loader_reads_program_and_whitespace() {
    let program = IntCodeProgram::from_input(" 1,0,0,0,99\n").unwrap();
    assert_eq!(program.program, vec![1, 0, 0, 0, 99]);
    assert_eq!(program.pointer, 0);
    assert_eq!(program.rel_base, 0);
    assert!(matches!(program.status, IntCodeStatus::Ready));
}

#[test]
fn loader_refuses_bad_tokens() {
    assert!(matches!(
        IntCodeProgram::from_input("1,two,3"),
        Err(IntCodeError::InvalidToken)
    ));
    assert!(matches!(
        IntCodeProgram::from_input(""),
        Err(IntCodeError::InvalidToken)
    ));
    assert!(matches!(
        IntCodeProgram::from_input("1,,3"),
        Err(IntCodeError::InvalidToken)
    ));
    assert!(matches!(
        IntCodeProgram::from_input("99999999999999999999"),
        Err(IntCodeError::InvalidToken)
    ));
}

#[test]
fn add_and_multiply() {
    let mut program = IntCodeProgram::from_input("1,9,10,3,2,3,11,0,99,30,40,50").unwrap();
    program.run(FUEL).unwrap();
    assert_eq!(program.get(0), 3500);
    assert_eq!(program.get(3), 70);
    assert!(matches!(program.status, IntCodeStatus::Halted));
}

#[test]
fn compare_equal_with_position_mode() {
    // outputs 1 exactly when the input equals 8
    let src = "3,9,8,9,10,9,4,9,99,-1,8";
    let mut eq = IntCodeProgram::from_input(src).unwrap();
    eq.in_buf.push(8);
    eq.run(FUEL).unwrap();
    assert_eq!(eq.out_buf, vec![1]);

    let mut ne = IntCodeProgram::from_input(src).unwrap();
    ne.in_buf.push(7);
    ne.run(FUEL).unwrap();
    assert_eq!(ne.out_buf, vec![0]);
}

#[test]
fn jumps_select_branches() {
    // outputs 0 for input 0, 1 otherwise
    let src = "3,12,6,12,15,1,13,14,13,4,13,99,-1,0,1,9";
    let mut zero = IntCodeProgram::from_input(src).unwrap();
    zero.in_buf.push(0);
    zero.run(FUEL).unwrap();
    assert_eq!(zero.out_buf, vec![0]);

    let mut one = IntCodeProgram::from_input(src).unwrap();
    one.in_buf.push(3);
    one.run(FUEL).unwrap();
    assert_eq!(one.out_buf, vec![1]);
}

#[test]
fn pause_and_resume_match_eager_input() {
    // a machine paused on input, resumed after the value arrives, ends like
    // one that had the value queued from the start
    let src = "3,0,4,0,99";

    let mut lazy = IntCodeProgram::from_input(src).unwrap();
    lazy.run(FUEL).unwrap();
    assert!(matches!(lazy.status, IntCodeStatus::Paused));
    lazy.in_buf.push(1234);
    lazy.status = IntCodeStatus::Ready;
    lazy.run(FUEL).unwrap();

    let mut eager = IntCodeProgram::from_input(src).unwrap();
    eager.in_buf.push(1234);
    eager.run(FUEL).unwrap();

    assert!(matches!(lazy.status, IntCodeStatus::Halted));
    assert!(matches!(eager.status, IntCodeStatus::Halted));
    assert_eq!(lazy.out_buf, eager.out_buf);
    assert_eq!(lazy.program, eager.program);
}

#[test]
fn identical_runs_are_identical() {
    let src = "1101,3,4,7,4,7,99,0";
    let mut a = IntCodeProgram::from_input(src).unwrap();
    let mut b = IntCodeProgram::from_input(src).unwrap();
    a.run(FUEL).unwrap();
    b.run(FUEL).unwrap();
    assert_eq!(a.out_buf, b.out_buf);
    assert_eq!(a.program, b.program);
}

#[test]
fn growth_preserves_existing_cells() {
    let mut program = IntCodeProgram::from_input("1,2,3,4,99").unwrap();
    program.set_at(1000, 7);
    assert_eq!(program.get(1000), 7);
    assert_eq!(program.get(999), 0);
    assert_eq!(program.get(5000), 0);
    assert_eq!(program.get(0), 1);
    assert_eq!(program.get(4), 99);
    assert_eq!(program.program.len(), 1001);
}

#[test]
fn relative_base_addressing() {
    // 109,5 sets the base to 5; 204,0 outputs the cell at base + 0
    let mut program = IntCodeProgram::from_input("109,5,204,0,99,42").unwrap();
    program.run(FUEL).unwrap();
    assert_eq!(program.out_buf, vec![42]);
}

#[test]
fn unknown_opcode_is_fatal() {
    let mut program = IntCodeProgram::from_input("77,0,0,0").unwrap();
    assert!(matches!(program.run(FUEL), Err(IntCodeError::UnknownOpcode)));
    assert!(matches!(program.status, IntCodeStatus::Halted));
}

#[test]
fn immediate_destination_is_fatal() {
    // opcode 1 with an immediate-mode destination operand
    let mut program = IntCodeProgram::from_input("10001,0,0,0,99").unwrap();
    assert!(matches!(
        program.run(FUEL),
        Err(IntCodeError::WriteToImmediate)
    ));
}

#[test]
fn negative_address_is_fatal() {
    // position-mode read through a negative cell value
    let mut program = IntCodeProgram::from_input("1,-5,0,0,99").unwrap();
    assert!(matches!(
        program.run(FUEL),
        Err(IntCodeError::NegativeAddress)
    ));
}

#[test]
fn halted_machine_stays_halted() {
    let mut program = IntCodeProgram::from_input("99").unwrap();
    program.run(FUEL).unwrap();
    assert!(matches!(program.status, IntCodeStatus::Halted));
    program.in_buf.push(1);
    program.run(FUEL).unwrap();
    assert!(matches!(program.status, IntCodeStatus::Halted));
    assert_eq!(program.out_buf.len(), 0);
}

#[test]
fn noun_verb_search_finds_patch() {
    // with fresh memory 1,n,v,4,99,0: cell 0 becomes mem[n] + mem[v]; the
    // target below is reached first by noun 4 (99) and verb 4 (99): 198 is
    // not the day's target, so patch a tiny program aimed at 19690720
    let r = intcode::two::start("1,0,0,0,99", 1000);
    assert_eq!(r, None);
}

#[test]
fn boost_start_reports_first_output() {
    let r = intcode::nine::start("104,7,104,8,99", FUEL);
    assert_eq!(r, Some(7));
}

#[test]
fn diagnostic_start_reports_first_output() {
    // echoes its input (the system identifier 5)
    let r = intcode::five::start("3,0,4,0,99", FUEL);
    assert_eq!(r, Some(5));
}
