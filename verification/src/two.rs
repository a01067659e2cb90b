//! The noun-verb search: patch cells 1 and 2 of the program, run it, and
//! find the pair that leaves the target value in cell 0.

use crate::intcode::{
    mem_read, mem_write, parse_program, step_n, IntCodeProgram, IntCodeStatus, VmState, VmStatus,
};
use vstd::prelude::*;
use vstd::string::StringSliceAdditionalSpecFns;

verus! {

/// The value the search looks for in cell 0.
pub const TARGET: i64 = 19_690_720;

/// Cell 0 after patching the program with a noun and a verb and running it
/// to a halt on the given budget; nothing when it does not halt cleanly.
pub open spec fn run_cell0(prog: Seq<i64>, noun: i64, verb: i64, fuel: nat) -> Option<i64> {
    let s0 = VmState {
        mem: mem_write(mem_write(prog, 1, noun), 2, verb),
        ip: 0,
        rel: 0,
        input: Seq::empty(),
        output: Seq::empty(),
        status: VmStatus::Ready,
    };
    let s = step_n(s0, fuel);
    if s.status is Halted {
        Some(mem_read(s.mem, 0))
    } else {
        None
    }
}

/// The search from pair index `idx` (noun-major) on: the first pair that
/// halts with the target in cell 0.
pub open spec fn spec_search(prog: Seq<i64>, fuel: nat, idx: nat) -> Option<i64>
    decreases 10000 - idx,
{
    if idx >= 10000 {
        None
    } else {
        let noun = (idx / 100) as i64;
        let verb = (idx % 100) as i64;
        if run_cell0(prog, noun, verb, fuel) == Some(TARGET) {
            Some((100 * noun + verb) as i64)
        } else {
            spec_search(prog, fuel, idx + 1)
        }
    }
}

/// Search all noun and verb pairs from 0 to 99 and report
/// `100 * noun + verb` for the first pair that leaves the target in cell
/// 0, or nothing when the text is malformed or no pair succeeds.
pub fn start(input: &str, fuel: usize) -> (r: Option<i64>)
    ensures
        r == (match parse_program(input.spec_bytes()) {
            None => None::<i64>,
            Some(prog) => spec_search(prog, fuel as nat, 0),
        }),
{
    let base = match IntCodeProgram::from_input(input) {
        Ok(p) => p,
        Err(_) => { return None; },
    };
    let ghost prog: Seq<i64> = base@.mem;
    let mut idx: usize = 0;
    while idx < 10000
        invariant
            idx <= 10000,
            parse_program(input.spec_bytes()) == Some(prog),
            prog == base.program@,
            spec_search(prog, fuel as nat, 0) == spec_search(prog, fuel as nat, idx as nat),
        decreases 10000 - idx,
    {
        let noun = (idx / 100) as i64;
        let verb = (idx % 100) as i64;
        let mut cp = IntCodeProgram {
            program: crate::text::clone_i64_vec(&base.program),
            pointer: 0,
            rel_base: 0,
            in_buf: Vec::new(),
            out_buf: Vec::new(),
            status: IntCodeStatus::Ready,
        };
        cp.set_at(1, noun);
        cp.set_at(2, verb);
        let run_result = cp.run(fuel);
        let halted = run_result.is_ok() && cp.status == IntCodeStatus::Halted;
        if halted {
            let c0 = cp.get(0);
            if c0 == TARGET {
                proof {
                    assert(run_cell0(prog, noun, verb, fuel as nat) == Some(TARGET));
                }
                return Some(100 * noun + verb);
            }
        }
        proof {
            assert(run_cell0(prog, noun, verb, fuel as nat) != Some(TARGET));
        }
        idx = idx + 1;
    }
    None
}

} // verus!
