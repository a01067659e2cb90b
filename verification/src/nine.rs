//! Boost program runs: load, queue one input value, run to a halt and
//! report the first output.

use crate::intcode::{parse_program, step_n, IntCodeProgram, IntCodeStatus, VmState, VmStatus};
use vstd::prelude::*;
use vstd::string::StringSliceAdditionalSpecFns;

verus! {

/// The first output of the program run with the single input value, or
/// nothing when the text is malformed, the machine does not halt cleanly
/// within the budget, or it emits no output.
pub open spec fn spec_first_output(bytes: Seq<u8>, value: i64, fuel: nat) -> Option<i64> {
    match parse_program(bytes) {
        None => None,
        Some(prog) => {
            let s0 = VmState {
                mem: prog,
                ip: 0,
                rel: 0,
                input: seq![value],
                output: Seq::empty(),
                status: VmStatus::Ready,
            };
            let s = step_n(s0, fuel);
            if s.status is Halted && s.output.len() > 0 {
                Some(s.output[0])
            } else {
                None
            }
        },
    }
}

/// Run the program with `value` queued and hand back its first output.
pub fn run_with_input(input: &str, value: i64, fuel: usize) -> (r: Option<i64>)
    ensures
        r == spec_first_output(input.spec_bytes(), value, fuel as nat),
{
    let mut program = match IntCodeProgram::from_input(input) {
        Ok(p) => p,
        Err(_) => { return None; },
    };
    program.in_buf.push(value);
    proof {
        assert(program@.input =~= seq![value]);
    }
    let run_result = program.run(fuel);
    if run_result.is_err() {
        return None;
    }
    if program.status == IntCodeStatus::Halted && program.out_buf.len() > 0 {
        let first = program.out_buf.remove(0);
        Some(first)
    } else {
        None
    }
}

/// The boost run: input value 1.
pub fn start(input: &str, fuel: usize) -> (r: Option<i64>)
    ensures
        r == spec_first_output(input.spec_bytes(), 1, fuel as nat),
{
    run_with_input(input, 1, fuel)
}

} // verus!
