use intcode::seven::{best_chain_ex, feedback, heaps_algo, run_chain};

const FUEL: usize = 10_000_000;
const ROUNDS: usize = 100_000;

#[test]
fn test_feedback_one() {
    let input = "3,26,1001,26,-4,26,3,27,1002,27,2,27,1,27,\
                 26,27,4,27,1001,28,-1,28,1005,28,6,99,0,0,5";
    let phase_setting = vec![9, 8, 7, 6, 5];

    assert_eq!(feedback(input, &phase_setting, FUEL, ROUNDS), Some(139629729));
}

#[test]
fn serial_chain_example() {
    let input = "3,15,3,16,1002,16,10,16,1,16,15,15,4,15,99,0,0";
    let phases = vec![4, 3, 2, 1, 0];
    assert_eq!(run_chain(input, &phases, FUEL), Some(43210));
}

#[test]
fn best_chain_over_permutations() {
    let input = "3,15,3,16,1002,16,10,16,1,16,15,15,4,15,99,0,0";
    let mut base = vec![0, 1, 2, 3, 4];
    let mut perms: Vec<Vec<u32>> = Vec::new();
    heaps_algo(5, &mut base, &mut perms);
    assert_eq!(perms.len(), 120);
    assert_eq!(best_chain_ex(input, &perms, FUEL), Some(43210));
}

#[test]
fn feedback_fails_on_bad_program() {
    assert_eq!(feedback("not,a,program", &vec![9, 8, 7, 6, 5], FUEL, ROUNDS), None);
}
