//! Amplifier chains: several machine instances run the same program with
//! different phase settings, each instance's output feeding the next one's
//! input — serially, or as a feedback loop that wraps the last instance's
//! output back to the first until the pipeline halts.

use crate::intcode::{parse_program, step_n, IntCodeProgram, IntCodeStatus, VmState, VmStatus};
use vstd::prelude::*;
use vstd::string::StringSliceAdditionalSpecFns;

verus! {

/// Step budget handed to every single machine run that [`start`] makes.
pub const RUN_FUEL: usize = 4_000_000;

/// Round budget for the feedback loop in [`start`].
pub const LOOP_ROUNDS: usize = 100_000;

/// One amplifier activation: queue the incoming signal, set the machine
/// ready, and let it run on the given step budget.
pub open spec fn amp_run(s: VmState, signal: i64, fuel: nat) -> VmState {
    step_n(VmState { status: VmStatus::Ready, input: s.input.push(signal), ..s }, fuel)
}

/// Freshly loaded amplifiers, each with its phase setting as first input.
pub open spec fn init_states(prog: Seq<i64>, phases: Seq<u32>) -> Seq<VmState> {
    Seq::new(
        phases.len(),
        |i: int|
            VmState {
                mem: prog,
                ip: 0,
                rel: 0,
                input: seq![phases[i] as i64],
                output: Seq::empty(),
                status: VmStatus::Ready,
            },
    )
}

/// One pass of the signal through every remaining amplifier, each consuming
/// the previous one's first queued output.  `None` when an amplifier fails,
/// runs out of budget, or produces no output.
pub open spec fn feedback_round(states: Seq<VmState>, signal: i64, fuel: nat) -> Option<
    (Seq<VmState>, i64),
>
    decreases states.len(),
{
    if states.len() == 0 {
        Some((states, signal))
    } else {
        let s2 = amp_run(states[0], signal, fuel);
        if !(s2.status is Paused || s2.status is Halted) {
            None
        } else if s2.output.len() == 0 {
            None
        } else {
            let s3 = VmState { output: s2.output.drop_first(), ..s2 };
            match feedback_round(states.drop_first(), s2.output[0], fuel) {
                None => None,
                Some((rest, sig)) => Some((seq![s3] + rest, sig)),
            }
        }
    }
}

/// The feedback loop: rounds of [`feedback_round`] until the last amplifier
/// halts; the signal leaving the last amplifier in that round is the final
/// one.
pub open spec fn feedback_loop(states: Seq<VmState>, signal: i64, fuel: nat, rounds: nat) -> Option<
    i64,
>
    decreases rounds,
{
    match feedback_round(states, signal, fuel) {
        None => None,
        Some((sts, sig)) => {
            if sts.len() > 0 && sts[sts.len() - 1].status is Halted {
                Some(sig)
            } else if rounds == 0 {
                None
            } else {
                feedback_loop(sts, sig, fuel, (rounds - 1) as nat)
            }
        },
    }
}

/// What [`feedback`] computes, from the program text down.
pub open spec fn spec_feedback(bytes: Seq<u8>, phases: Seq<u32>, fuel: nat, rounds: nat) -> Option<
    i64,
> {
    match parse_program(bytes) {
        None => None,
        Some(prog) => feedback_loop(init_states(prog, phases), 0, fuel, rounds),
    }
}

impl vstd::view::DeepView for IntCodeProgram {
    type V = VmState;

    open spec fn deep_view(&self) -> VmState {
        self@
    }
}

/// With no amplifiers at all, no round ever halts a last machine, so the
/// loop exhausts any budget.
proof fn lemma_feedback_loop_empty(states: Seq<VmState>, signal: i64, fuel: nat, rounds: nat)
    requires
        states.len() == 0,
    ensures
        feedback_loop(states, signal, fuel, rounds) is None,
    decreases rounds,
{
    if rounds > 0 {
        lemma_feedback_loop_empty(states, signal, fuel, (rounds - 1) as nat);
    }
}

/// Wire up one amplifier per phase setting, run the feedback loop and
/// report the final signal, exactly as [`spec_feedback`] lays it out.
#[verifier::rlimit(100)]
pub fn feedback(input: &str, phase_setting: &Vec<u32>, fuel: usize, rounds: usize) -> (r: Option<
    i64,
>)
    ensures
        r == spec_feedback(input.spec_bytes(), phase_setting@, fuel as nat, rounds as nat),
{
    let ghost bytes: Seq<u8> = input.spec_bytes();
    match IntCodeProgram::from_input(input) {
        Ok(_) => {},
        Err(_) => { return None; },
    }
    let mut amps: Vec<IntCodeProgram> = Vec::new();
    let n = phase_setting.len();
    let mut i: usize = 0;
    while i < n
        invariant
            i <= n,
            n == phase_setting@.len(),
            bytes == input.spec_bytes(),
            parse_program(bytes) is Some,
            amps.deep_view() == init_states(
                parse_program(bytes)->0,
                phase_setting@.subrange(0, i as int),
            ),
        decreases n - i,
    {
        let mut amp = match IntCodeProgram::from_input(input) {
            Ok(p) => p,
            Err(_) => {
                proof {
                    assert(false);
                }
                return None;
            },
        };
        let phase = phase_setting[i];
        amp.in_buf.push(phase as i64);
        let ghost before: Seq<VmState> = amps.deep_view();
        amps.push(amp);
        proof {
            let prog = parse_program(bytes)->0;
            let goal = init_states(prog, phase_setting@.subrange(0, i as int + 1));
            assert(before.len() == i);
            assert(amps@.len() == i + 1);
            assert(amps.deep_view().len() == i + 1);
            assert(goal.len() == i + 1);
            assert(amp@.mem == prog);
            assert(amp@.input =~= seq![phase_setting@[i as int] as i64]);
            assert(amp@ =~~= goal[i as int]);
            assert(forall|k: int| 0 <= k < i ==> amps.deep_view()[k] == before[k]);
            assert(forall|k: int|
                0 <= k < i ==> before[k] == #[trigger] init_states(
                    prog,
                    phase_setting@.subrange(0, i as int),
                )[k]);
            assert(forall|k: int|
                0 <= k < i ==> init_states(prog, phase_setting@.subrange(0, i as int))[k]
                    == #[trigger] goal[k]);
            assert(amps.deep_view()[i as int] == amp@);
            assert(amps.deep_view() =~~= goal);
        }
        i = i + 1;
    }
    proof {
        assert(phase_setting@.subrange(0, n as int) =~= phase_setting@);
    }
    if amps.len() == 0 {
        proof {
            lemma_feedback_loop_empty(
                init_states(parse_program(bytes)->0, phase_setting@),
                0,
                fuel as nat,
                rounds as nat,
            );
        }
        return None;
    }
    let mut signal: i64 = 0;
    let mut rounds_left: usize = rounds;
    loop
        invariant
            amps.len() > 0,
            bytes == input.spec_bytes(),
            spec_feedback(bytes, phase_setting@, fuel as nat, rounds as nat) == feedback_loop(
                amps.deep_view(),
                signal,
                fuel as nat,
                rounds_left as nat,
            ),
        decreases rounds_left,
    {
        let ghost round_start: Seq<VmState> = amps.deep_view();
        let ghost sig0: i64 = signal;
        let mut processed: Vec<IntCodeProgram> = Vec::new();
        while amps.len() > 0
            invariant
                processed.len() + amps.len() > 0,
                bytes == input.spec_bytes(),
                spec_feedback(bytes, phase_setting@, fuel as nat, rounds as nat) == feedback_loop(
                    round_start,
                    sig0,
                    fuel as nat,
                    rounds_left as nat,
                ),
                feedback_round(round_start, sig0, fuel as nat) == (match feedback_round(
                    amps.deep_view(),
                    signal,
                    fuel as nat,
                ) {
                    None => None::<(Seq<VmState>, i64)>,
                    Some((rest, sig)) => Some((processed.deep_view() + rest, sig)),
                }),
            decreases amps.len(),
        {
            let ghost pending: Seq<VmState> = amps.deep_view();
            let mut amp = amps.remove(0);
            let ghost amp0: VmState = amp@;
            proof {
                assert(pending[0] == amp0);
                assert(amps.deep_view() =~= pending.drop_first());
            }
            amp.in_buf.push(signal);
            amp.status = IntCodeStatus::Ready;
            proof {
                assert(amp@ == (VmState {
                    status: VmStatus::Ready,
                    input: amp0.input.push(signal),
                    ..amp0
                }));
            }
            let run_result = amp.run(fuel);
            let ghost s2: VmState = amp_run(amp0, signal, fuel as nat);
            if run_result.is_err() {
                proof {
                    assert(s2.status is Failed);
                    assert(feedback_round(pending, signal, fuel as nat) is None);
                    assert(feedback_round(round_start, sig0, fuel as nat) is None);
                }
                return None;
            }
            proof {
                assert(amp@ == s2);
            }
            if amp.status == IntCodeStatus::Ready {
                proof {
                    assert(feedback_round(pending, signal, fuel as nat) is None);
                }
                return None;
            }
            if amp.out_buf.len() == 0 {
                proof {
                    assert(feedback_round(pending, signal, fuel as nat) is None);
                }
                return None;
            }
            let next_signal = amp.out_buf.remove(0);
            proof {
                assert(amp@.output =~= s2.output.drop_first());
                assert(amp@ == (VmState { output: s2.output.drop_first(), ..s2 }));
            }
            let ghost processed0: Seq<VmState> = processed.deep_view();
            let ghost s3: VmState = amp@;
            let ghost sig_in: i64 = signal;
            processed.push(amp);
            signal = next_signal;
            proof {
                assert(processed.deep_view() =~= processed0.push(s3));
                assert(next_signal == s2.output[0]);
                assert(feedback_round(pending, sig_in, fuel as nat) == (
                match feedback_round(pending.drop_first(), s2.output[0], fuel as nat) {
                    None => None::<(Seq<VmState>, i64)>,
                    Some((rest, sig)) => Some((seq![s3] + rest, sig)),
                }));
                assert(forall|rest: Seq<VmState>|
                    processed0 + (seq![s3] + rest) =~= #[trigger] (processed.deep_view() + rest));
            }
        }
        proof {
            assert(amps.deep_view().len() == 0);
            assert(feedback_round(amps.deep_view(), signal, fuel as nat) == Some(
                (amps.deep_view(), signal),
            ));
            assert(feedback_round(round_start, sig0, fuel as nat) == Some(
                (processed.deep_view(), signal),
            )) by {
                assert(processed.deep_view() + amps.deep_view() =~= processed.deep_view());
            }
        }
        amps = processed;
        proof {
            assert(feedback_round(round_start, sig0, fuel as nat) == Some(
                (amps.deep_view(), signal),
            ));
            assert(amps.deep_view()[amps.deep_view().len() - 1] == amps@[amps@.len() - 1]@);
        }
        let last_halted = amps[amps.len() - 1].status == IntCodeStatus::Halted;
        if last_halted {
            return Some(signal);
        }
        if rounds_left == 0 {
            return None;
        }
        rounds_left = rounds_left - 1;
    }
}

/// One serially chained amplifier: a fresh machine with the phase and the
/// incoming signal queued, run on the given budget; its first output is the
/// outgoing signal.
pub open spec fn serial_step(prog: Seq<i64>, phase: u32, signal: i64, fuel: nat) -> Option<i64> {
    let s0 = VmState {
        mem: prog,
        ip: 0,
        rel: 0,
        input: seq![phase as i64, signal],
        output: Seq::empty(),
        status: VmStatus::Ready,
    };
    let s2 = step_n(s0, fuel);
    if !(s2.status is Paused || s2.status is Halted) {
        None
    } else if s2.output.len() == 0 {
        None
    } else {
        Some(s2.output[0])
    }
}

/// The signal after passing once through the whole chain.
pub open spec fn serial_chain(prog: Seq<i64>, phases: Seq<u32>, signal: i64, fuel: nat) -> Option<
    i64,
>
    decreases phases.len(),
{
    if phases.len() == 0 {
        Some(signal)
    } else {
        match serial_step(prog, phases[0], signal, fuel) {
            None => None,
            Some(sig) => serial_chain(prog, phases.drop_first(), sig, fuel),
        }
    }
}

/// What [`run_chain`] computes, from the program text down.
pub open spec fn spec_chain(bytes: Seq<u8>, phases: Seq<u32>, fuel: nat) -> Option<i64> {
    match parse_program(bytes) {
        None => None,
        Some(prog) => serial_chain(prog, phases, 0, fuel),
    }
}

/// Drive the signal 0 through one amplifier per phase setting, serially.
pub fn run_chain(input: &str, phases: &Vec<u32>, fuel: usize) -> (r: Option<i64>)
    ensures
        r == spec_chain(input.spec_bytes(), phases@, fuel as nat),
{
    let ghost bytes: Seq<u8> = input.spec_bytes();
    match IntCodeProgram::from_input(input) {
        Ok(_) => {},
        Err(_) => { return None; },
    }
    let mut signal: i64 = 0;
    let n = phases.len();
    proof {
        assert(phases@.subrange(0, n as int) =~= phases@);
    }
    let mut i: usize = 0;
    while i < n
        invariant
            i <= n,
            n == phases@.len(),
            bytes == input.spec_bytes(),
            parse_program(bytes) is Some,
            spec_chain(bytes, phases@, fuel as nat) == serial_chain(
                parse_program(bytes)->0,
                phases@.subrange(i as int, n as int),
                signal,
                fuel as nat,
            ),
        decreases n - i,
    {
        let ghost rest: Seq<u32> = phases@.subrange(i as int, n as int);
        let mut amp = match IntCodeProgram::from_input(input) {
            Ok(p) => p,
            Err(_) => {
                proof {
                    assert(false);
                }
                return None;
            },
        };
        let phase = phases[i];
        amp.in_buf.push(phase as i64);
        amp.in_buf.push(signal);
        proof {
            assert(amp@.input =~= seq![phase as i64, signal]);
            assert(rest[0] == phase);
        }
        let run_result = amp.run(fuel);
        if run_result.is_err() {
            proof {
                assert(serial_step(parse_program(bytes)->0, phase, signal, fuel as nat) is None);
            }
            return None;
        }
        if amp.status == IntCodeStatus::Ready {
            return None;
        }
        if amp.out_buf.len() == 0 {
            return None;
        }
        let next_signal = amp.out_buf.remove(0);
        proof {
            assert(serial_step(parse_program(bytes)->0, phase, signal, fuel as nat) == Some(
                next_signal,
            ));
            assert(rest.drop_first() =~= phases@.subrange(i as int + 1, n as int));
        }
        signal = next_signal;
        i = i + 1;
    }
    proof {
        assert(phases@.subrange(n as int, n as int) =~= Seq::<u32>::empty());
    }
    Some(signal)
}

/// Largest signal of the serial chain over a list of phase orders, from a
/// floor of 0; `None` as soon as any chain fails.
pub open spec fn best_chain(bytes: Seq<u8>, perms: Seq<Seq<u32>>, fuel: nat) -> Option<i64>
    decreases perms.len(),
{
    if perms.len() == 0 {
        Some(0)
    } else {
        match best_chain(bytes, perms.drop_last(), fuel) {
            None => None,
            Some(best) => match spec_chain(bytes, perms.last(), fuel) {
                None => None,
                Some(sig) => Some(
                    if sig > best {
                        sig
                    } else {
                        best
                    },
                ),
            },
        }
    }
}

/// Largest signal of the feedback loop over a list of phase orders, from a
/// floor of 0; `None` as soon as any loop fails.
pub open spec fn best_feedback(bytes: Seq<u8>, perms: Seq<Seq<u32>>, fuel: nat, rounds: nat) -> Option<
    i64,
>
    decreases perms.len(),
{
    if perms.len() == 0 {
        Some(0)
    } else {
        match best_feedback(bytes, perms.drop_last(), fuel, rounds) {
            None => None,
            Some(best) => match spec_feedback(bytes, perms.last(), fuel, rounds) {
                None => None,
                Some(sig) => Some(
                    if sig > best {
                        sig
                    } else {
                        best
                    },
                ),
            },
        }
    }
}

/// Every row of `perms` rearranges exactly the values of `base`.
pub open spec fn all_rearrangements_of(perms: Seq<Seq<u32>>, base: Seq<u32>) -> bool {
    forall|i: int|
        0 <= i < perms.len() ==> (#[trigger] perms[i]).to_multiset() == base.to_multiset()
}

/// Exchange two cells; the contents as a multiset do not change.
fn swap_cells(a: &mut Vec<u32>, i: usize, j: usize)
    requires
        i < old(a)@.len(),
        j < old(a)@.len(),
    ensures
        final(a)@ == old(a)@.update(i as int, old(a)@[j as int]).update(
            j as int,
            old(a)@[i as int],
        ),
        final(a)@.len() == old(a)@.len(),
        final(a)@.to_multiset() == old(a)@.to_multiset(),
{
    let ghost s: Seq<u32> = a@;
    let x = a[i];
    let y = a[j];
    a[i] = y;
    a[j] = x;
    proof {
        let s1 = s.update(i as int, s[j as int]);
        vstd::seq_lib::to_multiset_update(s, i as int, s[j as int]);
        vstd::seq_lib::to_multiset_update(s1, j as int, s[i as int]);
        s.to_multiset_ensures();
        if i == j {
            assert(a@ =~= s);
        } else {
            assert(s1[j as int] == s[j as int]);
            assert(s.contains(s[i as int]));
            assert(s.contains(s[j as int]));
            assert(a@.to_multiset() =~= s.to_multiset());
        }
    }
}

/// Heap's algorithm: appends rearrangements of `a`'s first `k` cells (with
/// the rest fixed) to `v`.  Rows already in `v` stay; every appended row
/// holds exactly the values that `a` held on entry, and `a` itself is left
/// with those same values, possibly reordered.
pub fn heaps_algo(k: u8, a: &mut Vec<u32>, v: &mut Vec<Vec<u32>>)
    requires
        1 <= k as int <= old(a)@.len(),
    ensures
        final(a)@.len() == old(a)@.len(),
        final(a)@.to_multiset() == old(a)@.to_multiset(),
        final(v)@.len() >= old(v)@.len(),
        forall|i: int| 0 <= i < old(v)@.len() ==> final(v)@[i] == old(v)@[i],
        forall|i: int|
            old(v)@.len() <= i < final(v)@.len() ==> (#[trigger] final(v)@[i])@.to_multiset()
                == old(a)@.to_multiset(),
    decreases k,
{
    if k == 1 {
        let mut permutation: Vec<u32> = Vec::new();
        let n = a.len();
        let mut idx: usize = 0;
        while idx < n
            invariant
                idx <= n,
                n == a@.len(),
                permutation@ == a@.subrange(0, idx as int),
            decreases n - idx,
        {
            permutation.push(a[idx]);
            proof {
                assert(permutation@ =~= a@.subrange(0, idx as int + 1));
            }
            idx = idx + 1;
        }
        proof {
            assert(a@.subrange(0, n as int) =~= a@);
        }
        v.push(permutation);
    } else {
        heaps_algo(k - 1, a, v);
        let mut i: u8 = 0;
        while i < k - 1
            invariant
                1 < k as int <= a@.len(),
                i < k,
                a@.len() == old(a)@.len(),
                a@.to_multiset() == old(a)@.to_multiset(),
                v@.len() >= old(v)@.len(),
                forall|m: int| 0 <= m < old(v)@.len() ==> v@[m] == old(v)@[m],
                forall|m: int|
                    old(v)@.len() <= m < v@.len() ==> (#[trigger] v@[m])@.to_multiset() == old(
                        a,
                    )@.to_multiset(),
            decreases k - i,
        {
            if k % 2 == 0 {
                swap_cells(a, i as usize, (k - 1) as usize);
            } else {
                swap_cells(a, 0, (k - 1) as usize);
            }
            heaps_algo(k - 1, a, v);
            i = i + 1;
        }
    }
}

/// Both halves of the amplifier search: the best serial signal over the
/// phase orders 0–4 that Heap's algorithm enumerates, and the best feedback
/// signal over the phase orders 5–9.
pub fn start(input: &str) -> (r: (Option<i64>, Option<i64>))
    ensures
        exists|perms: Seq<Seq<u32>>|
            all_rearrangements_of(perms, seq![0u32, 1u32, 2u32, 3u32, 4u32]) && r.0 == best_chain(
                input.spec_bytes(),
                perms,
                RUN_FUEL as nat,
            ),
        exists|perms: Seq<Seq<u32>>|
            all_rearrangements_of(perms, seq![5u32, 6u32, 7u32, 8u32, 9u32]) && r.1
                == best_feedback(
                input.spec_bytes(),
                perms,
                RUN_FUEL as nat,
                LOOP_ROUNDS as nat,
            ),
{
    let mut base1: Vec<u32> = Vec::new();
    base1.push(0);
    base1.push(1);
    base1.push(2);
    base1.push(3);
    base1.push(4);
    proof {
        assert(base1@ =~= seq![0u32, 1u32, 2u32, 3u32, 4u32]);
    }
    let mut perms1: Vec<Vec<u32>> = Vec::new();
    heaps_algo(5, &mut base1, &mut perms1);
    let best1 = best_chain_ex(input, &perms1, RUN_FUEL);
    proof {
        assert forall|m: int| 0 <= m < perms1.deep_view().len() implies (#[trigger] perms1.deep_view()[m]).to_multiset() == seq![0u32, 1u32, 2u32, 3u32, 4u32].to_multiset() by {
            assert(perms1@[m]@.to_multiset() == seq![0u32, 1u32, 2u32, 3u32, 4u32].to_multiset());
            assert(perms1.deep_view()[m] == perms1@[m]@);
        }
    }
    let mut base2: Vec<u32> = Vec::new();
    base2.push(5);
    base2.push(6);
    base2.push(7);
    base2.push(8);
    base2.push(9);
    proof {
        assert(base2@ =~= seq![5u32, 6u32, 7u32, 8u32, 9u32]);
    }
    let mut perms2: Vec<Vec<u32>> = Vec::new();
    heaps_algo(5, &mut base2, &mut perms2);
    let best2 = best_feedback_ex(input, &perms2, RUN_FUEL, LOOP_ROUNDS);
    proof {
        assert forall|m: int| 0 <= m < perms2.deep_view().len() implies (#[trigger] perms2.deep_view()[m]).to_multiset() == seq![5u32, 6u32, 7u32, 8u32, 9u32].to_multiset() by {
            assert(perms2@[m]@.to_multiset() == seq![5u32, 6u32, 7u32, 8u32, 9u32].to_multiset());
            assert(perms2.deep_view()[m] == perms2@[m]@);
        }
    }
    (best1, best2)
}

/// Largest serial-chain signal over the given phase orders.
pub fn best_chain_ex(input: &str, perms: &Vec<Vec<u32>>, fuel: usize) -> (r: Option<i64>)
    ensures
        r == best_chain(input.spec_bytes(), perms.deep_view(), fuel as nat),
{
    let mut best: i64 = 0;
    let n = perms.len();
    let mut i: usize = 0;
    while i < n
        invariant
            i <= n,
            n == perms@.len(),
            best_chain(input.spec_bytes(), perms.deep_view().subrange(0, i as int), fuel as nat)
                == Some(best),
        decreases n - i,
    {
        let ghost prefix: Seq<Seq<u32>> = perms.deep_view().subrange(0, i as int);
        proof {
            assert(perms.deep_view()[i as int] == perms@[i as int]@);
        }
        let sig = match run_chain(input, &perms[i], fuel) {
            Some(s) => s,
            None => {
                proof {
                    lemma_best_chain_none(
                        input.spec_bytes(),
                        perms.deep_view(),
                        fuel as nat,
                        i as int,
                    );
                }
                return None;
            },
        };
        proof {
            let longer = perms.deep_view().subrange(0, i as int + 1);
            assert(longer.drop_last() =~= prefix);
            assert(longer.last() == perms.deep_view()[i as int]);
        }
        if sig > best {
            best = sig;
        }
        i = i + 1;
    }
    proof {
        assert(perms.deep_view().subrange(0, n as int) =~= perms.deep_view());
    }
    Some(best)
}

/// Largest feedback-loop signal over the given phase orders.
pub fn best_feedback_ex(input: &str, perms: &Vec<Vec<u32>>, fuel: usize, rounds: usize) -> (r:
    Option<i64>)
    ensures
        r == best_feedback(
            input.spec_bytes(),
            perms.deep_view(),
            fuel as nat,
            rounds as nat,
        ),
{
    let mut best: i64 = 0;
    let n = perms.len();
    let mut i: usize = 0;
    while i < n
        invariant
            i <= n,
            n == perms@.len(),
            best_feedback(
                input.spec_bytes(),
                perms.deep_view().subrange(0, i as int),
                fuel as nat,
                rounds as nat,
            ) == Some(best),
        decreases n - i,
    {
        let ghost prefix: Seq<Seq<u32>> = perms.deep_view().subrange(0, i as int);
        proof {
            assert(perms.deep_view()[i as int] == perms@[i as int]@);
        }
        let sig = match feedback(input, &perms[i], fuel, rounds) {
            Some(s) => s,
            None => {
                proof {
                    lemma_best_feedback_none(
                        input.spec_bytes(),
                        perms.deep_view(),
                        fuel as nat,
                        rounds as nat,
                        i as int,
                    );
                }
                return None;
            },
        };
        proof {
            let longer = perms.deep_view().subrange(0, i as int + 1);
            assert(longer.drop_last() =~= prefix);
            assert(longer.last() == perms.deep_view()[i as int]);
        }
        if sig > best {
            best = sig;
        }
        i = i + 1;
    }
    proof {
        assert(perms.deep_view().subrange(0, n as int) =~= perms.deep_view());
    }
    Some(best)
}

/// A failing chain anywhere in the list makes the whole search fail.
proof fn lemma_best_chain_none(bytes: Seq<u8>, perms: Seq<Seq<u32>>, fuel: nat, i: int)
    requires
        0 <= i < perms.len(),
        spec_chain(bytes, perms[i], fuel) is None,
    ensures
        best_chain(bytes, perms, fuel) is None,
    decreases perms.len(),
{
    if perms.len() > 0 {
        if i == perms.len() - 1 {
        } else {
            lemma_best_chain_none(bytes, perms.drop_last(), fuel, i);
        }
    }
}

/// A failing feedback loop anywhere in the list makes the whole search fail.
proof fn lemma_best_feedback_none(bytes: Seq<u8>, perms: Seq<Seq<u32>>, fuel: nat, rounds: nat, i: int)
    requires
        0 <= i < perms.len(),
        spec_feedback(bytes, perms[i], fuel, rounds) is None,
    ensures
        best_feedback(bytes, perms, fuel, rounds) is None,
    decreases perms.len(),
{
    if perms.len() > 0 {
        if i == perms.len() - 1 {
        } else {
            lemma_best_feedback_none(bytes, perms.drop_last(), fuel, rounds, i);
        }
    }
}

} // verus!
