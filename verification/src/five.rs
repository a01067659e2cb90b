//! The diagnostic run: load the program, queue the system identifier, run
//! to a halt and report the first output.

use vstd::prelude::*;
use vstd::string::StringSliceAdditionalSpecFns;

verus! {

/// The thermal radiator controller's system identifier.
pub const SYSTEM_ID: i64 = 5;

/// Run the diagnostic program with the system identifier queued.
pub fn start(input: &str, fuel: usize) -> (r: Option<i64>)
    ensures
        r == crate::nine::spec_first_output(input.spec_bytes(), SYSTEM_ID, fuel as nat),
{
    crate::nine::run_with_input(input, SYSTEM_ID, fuel)
}

} // verus!
