//! The integer-code virtual machine.
//!
//! A program is a flat sequence of signed 64-bit integers.  The machine owns
//! a growable linear memory, an instruction pointer, a relative-base register
//! and two FIFO queues (input and output), and executes instructions in a
//! tight loop until it halts, pauses on an empty input queue, or hits a fatal
//! decode or addressing error.
//!
//! The whole behaviour is pinned down by a specification-level transition
//! function [`step`] over the abstract machine state [`VmState`]; `run`
//! ensures that the executable machine lands exactly on a stopped state of
//! the `step` trajectory.

use vstd::prelude::*;
use vstd::string::StrSliceExecFns;
use vstd::string::StringSliceAdditionalSpecFns;

verus! {

/// ASCII whitespace ignored around the program text.
pub open spec fn is_space(b: u8) -> bool {
    b == 32 || b == 9 || b == 10 || b == 13
}

/// Program text with surrounding whitespace removed.
pub open spec fn trim_spec(s: Seq<u8>) -> Seq<u8>
    decreases s.len(),
{
    if s.len() == 0 {
        s
    } else if is_space(s[0]) {
        trim_spec(s.subrange(1, s.len() as int))
    } else if is_space(s[s.len() - 1]) {
        trim_spec(s.subrange(0, s.len() - 1))
    } else {
        s
    }
}

/// Index of the first occurrence of `sep` in `s`, or -1 when there is none.
pub open spec fn find_byte(s: Seq<u8>, sep: u8) -> int
    decreases s.len(),
{
    if s.len() == 0 {
        -1
    } else if s[0] == sep {
        0
    } else {
        let r = find_byte(s.subrange(1, s.len() as int), sep);
        if r < 0 {
            -1
        } else {
            r + 1
        }
    }
}

/// A found separator lies in bounds, is the separator, and is the first
/// one; -1 means the separator does not occur at all.
pub proof fn lemma_find_byte_spec(s: Seq<u8>, sep: u8)
    ensures
        find_byte(s, sep) < 0 ==> forall|k: int| 0 <= k < s.len() ==> s[k] != sep,
        find_byte(s, sep) >= 0 ==> 0 <= find_byte(s, sep) < s.len() && s[find_byte(s, sep)] == sep
            && (forall|k: int| 0 <= k < find_byte(s, sep) ==> s[k] != sep),
    decreases s.len(),
{
    if s.len() != 0 && s[0] != sep {
        let t = s.subrange(1, s.len() as int);
        lemma_find_byte_spec(t, sep);
        assert(forall|k: int| 1 <= k < s.len() ==> s[k] == #[trigger] t[k - 1]);
        if find_byte(t, sep) < 0 {
            assert forall|k: int| 0 <= k < s.len() implies s[k] != sep by {
                if k >= 1 {
                    assert(t[k - 1] != sep);
                }
            }
        } else {
            let r = find_byte(t, sep);
            assert(s[r + 1] == t[r]);
            assert forall|k: int| 0 <= k < r + 1 implies s[k] != sep by {
                if k >= 1 {
                    assert(t[k - 1] != sep);
                }
            }
        }
    }
}

/// The tokens of `s` between occurrences of `sep`; an empty text is one
/// empty token.
pub open spec fn split_on(s: Seq<u8>, sep: u8) -> Seq<Seq<u8>>
    decreases s.len(),
    via split_on_decreases
{
    let c = find_byte(s, sep);
    if c < 0 {
        seq![s]
    } else {
        seq![s.subrange(0, c)] + split_on(s.subrange(c + 1, s.len() as int), sep)
    }
}

#[via_fn]
proof fn split_on_decreases(s: Seq<u8>, sep: u8) {
    lemma_find_byte_spec(s, sep);
}

/// Numeric value of a string of decimal digits, most significant first.
pub open spec fn digits_val(s: Seq<u8>) -> int
    decreases s.len(),
{
    if s.len() == 0 {
        0
    } else {
        digits_val(s.drop_last()) * 10 + (s.last() - 48)
    }
}

pub open spec fn all_digits(s: Seq<u8>) -> bool {
    forall|i: int| 0 <= i < s.len() ==> 48 <= #[trigger] s[i] <= 57
}

/// Value of one token as a signed 64-bit integer, if it is one: an optional
/// sign, then one or more decimal digits, with the value in range.
pub open spec fn parse_i64(s: Seq<u8>) -> Option<i64> {
    let ds = if s.len() > 0 && (s[0] == 45 || s[0] == 43) {
        s.subrange(1, s.len() as int)
    } else {
        s
    };
    let neg = s.len() > 0 && s[0] == 45;
    if ds.len() == 0 || !all_digits(ds) {
        None
    } else {
        let v = if neg {
            -digits_val(ds)
        } else {
            digits_val(ds)
        };
        if i64::MIN <= v <= i64::MAX {
            Some(v as i64)
        } else {
            None
        }
    }
}

/// All tokens parsed in order; `None` as soon as any token is malformed.
pub open spec fn parse_tokens(toks: Seq<Seq<u8>>) -> Option<Seq<i64>>
    decreases toks.len(),
{
    if toks.len() == 0 {
        Some(Seq::empty())
    } else {
        match parse_i64(toks[0]) {
            None => None,
            Some(v) => match parse_tokens(toks.subrange(1, toks.len() as int)) {
                None => None,
                Some(rest) => Some(seq![v] + rest),
            },
        }
    }
}

/// The memory image encoded by program text `bytes`, if it is well formed:
/// comma-separated signed decimal integers with optional surrounding
/// whitespace.
pub open spec fn parse_program(bytes: Seq<u8>) -> Option<Seq<i64>> {
    parse_tokens(split_on(trim_spec(bytes), 44))
}

/// A digit string's value never shrinks: every digit appended multiplies by
/// ten first.
pub proof fn lemma_digits_val_bounds(s: Seq<u8>)
    requires
        all_digits(s),
    ensures
        digits_val(s) >= 0,
    decreases s.len(),
{
    if s.len() > 0 {
        assert(all_digits(s.drop_last()));
        lemma_digits_val_bounds(s.drop_last());
    }
}

/// The value of a prefix never exceeds the value of the whole digit string.
pub proof fn lemma_digits_val_prefix(s: Seq<u8>, k: int)
    requires
        all_digits(s),
        0 <= k <= s.len(),
    ensures
        digits_val(s.subrange(0, k)) <= digits_val(s),
    decreases s.len() - k,
{
    if k == s.len() {
        assert(s.subrange(0, k) =~= s);
    } else {
        lemma_digits_val_prefix(s, k + 1);
        let p = s.subrange(0, k);
        let q = s.subrange(0, k + 1);
        assert(q.drop_last() =~= p);
        assert(q.last() == s[k]);
        assert(all_digits(p));
        lemma_digits_val_bounds(p);
        assert(digits_val(q) == digits_val(p) * 10 + (s[k] - 48));
    }
}

/// Externally observable execution status of a machine.
///
/// A machine is created `Ready`, moves to `Paused` only when an input
/// instruction finds the input queue empty, and moves to `Halted` on the halt
/// instruction or on a fatal error.  `Paused` is left only by the caller
/// explicitly setting the status back to `Ready` after supplying input.
#[derive(Clone, Copy, Debug, PartialEq, Eq, Structural)]
pub enum IntCodeStatus {
    Paused,
    Halted,
    Ready,
}

/// The fatal conditions: each aborts the run for good.
#[derive(Clone, Copy, Debug, PartialEq, Eq, Structural)]
pub enum IntCodeError {
    /// Program text holds a token that is not a valid signed 64-bit integer.
    InvalidToken,
    /// The two low decimal digits of the instruction word select no
    /// operation, the word is negative, or it has more than five digits.
    UnknownOpcode,
    /// An operand's addressing-mode digit is outside {0, 1, 2}.
    UnknownMode,
    /// A destination operand uses immediate mode.
    WriteToImmediate,
    /// An effective memory address (or jump target) is negative.
    NegativeAddress,
    /// An effective address, jump target or advanced instruction pointer is
    /// beyond what this machine can address.
    AddressOverflow,
    /// An arithmetic result or the relative base leaves the signed 64-bit
    /// range.
    ValueOverflow,
}

/// Status of the abstract machine: the executable statuses plus the fatal
/// outcome, which the executable machine reports as an `Err` while parking
/// itself `Halted`.
pub ghost enum VmStatus {
    Ready,
    Paused,
    Halted,
    Failed(IntCodeError),
}

/// The abstract machine state: memory as the sequence of cells written so
/// far (cells beyond `mem.len()` read as 0), instruction pointer, relative
/// base, the two queues and the status.
#[verifier::ext_equal]
pub ghost struct VmState {
    pub mem: Seq<i64>,
    pub ip: int,
    pub rel: int,
    pub input: Seq<i64>,
    pub output: Seq<i64>,
    pub status: VmStatus,
}

/// Largest usable memory address / instruction pointer: bounded both by the
/// address space and by the signed 64-bit cells that addresses come from.
pub open spec fn addr_limit() -> int {
    if (usize::MAX as int) < (i64::MAX as int) {
        usize::MAX as int
    } else {
        i64::MAX as int
    }
}

/// Reading past the end of memory yields 0; memory is conceptually an
/// infinite zero-filled tape of which `m` is the materialised prefix.
pub open spec fn mem_read(m: Seq<i64>, a: int) -> i64 {
    if 0 <= a < m.len() {
        m[a]
    } else {
        0
    }
}

/// Writing past the end of memory first extends it with zero-filled cells up
/// to and including the written address.
pub open spec fn mem_write(m: Seq<i64>, a: int, v: i64) -> Seq<i64>
    recommends
        0 <= a,
{
    if a < m.len() {
        m.update(a, v)
    } else {
        (m + Seq::new((a + 1 - m.len()) as nat, |i: int| 0i64)).update(a, v)
    }
}

/// Addressing-mode digit for operand `k` (1-based), packed in the
/// instruction word's upper digits right to left.
pub open spec fn mode_of(instr: i64, k: int) -> int
    recommends
        0 <= instr,
        1 <= k <= 3,
{
    if k == 1 {
        ((instr as int) / 100) % 10
    } else if k == 2 {
        ((instr as int) / 1000) % 10
    } else {
        ((instr as int) / 10000) % 10
    }
}

/// `s` with the fatal outcome `e` recorded; nothing else changes.
pub open spec fn fail(s: VmState, e: IntCodeError) -> VmState {
    VmState { status: VmStatus::Failed(e), ..s }
}

/// Value of operand `k` when read: position mode dereferences, immediate
/// mode is the raw cell, relative mode dereferences at relative base plus
/// raw.
#[verifier::opaque]
pub open spec fn src_operand(s: VmState, k: int) -> Result<i64, IntCodeError> {
    let instr = mem_read(s.mem, s.ip);
    let m = mode_of(instr, k);
    let raw = mem_read(s.mem, s.ip + k);
    if m == 0 {
        if raw < 0 {
            Err(IntCodeError::NegativeAddress)
        } else if raw as int > addr_limit() {
            Err(IntCodeError::AddressOverflow)
        } else {
            Ok(mem_read(s.mem, raw as int))
        }
    } else if m == 1 {
        Ok(raw)
    } else if m == 2 {
        let a = s.rel + raw as int;
        if a < 0 {
            Err(IntCodeError::NegativeAddress)
        } else if a > addr_limit() {
            Err(IntCodeError::AddressOverflow)
        } else {
            Ok(mem_read(s.mem, a))
        }
    } else {
        Err(IntCodeError::UnknownMode)
    }
}

/// Effective address of operand `k` when written: immediate mode is refused
/// for destinations.
#[verifier::opaque]
pub open spec fn dst_operand(s: VmState, k: int) -> Result<int, IntCodeError> {
    let instr = mem_read(s.mem, s.ip);
    let m = mode_of(instr, k);
    let raw = mem_read(s.mem, s.ip + k);
    if m == 0 {
        if raw < 0 {
            Err(IntCodeError::NegativeAddress)
        } else if raw as int > addr_limit() {
            Err(IntCodeError::AddressOverflow)
        } else {
            Ok(raw as int)
        }
    } else if m == 1 {
        Err(IntCodeError::WriteToImmediate)
    } else if m == 2 {
        let a = s.rel + raw as int;
        if a < 0 {
            Err(IntCodeError::NegativeAddress)
        } else if a > addr_limit() {
            Err(IntCodeError::AddressOverflow)
        } else {
            Ok(a)
        }
    } else {
        Err(IntCodeError::UnknownMode)
    }
}

/// Write `v` to address `a` and advance the instruction pointer by `w`.
pub open spec fn finish_write(s: VmState, a: int, v: i64, w: int) -> VmState {
    if s.ip + w > addr_limit() {
        fail(s, IntCodeError::AddressOverflow)
    } else {
        VmState { mem: mem_write(s.mem, a, v), ip: s.ip + w, ..s }
    }
}

/// Add (`is_add`) or multiply: three operands, width 4.
#[verifier::opaque]
pub open spec fn step_arith(s: VmState, is_add: bool) -> VmState {
    match src_operand(s, 1) {
        Err(e) => fail(s, e),
        Ok(v1) => match src_operand(s, 2) {
            Err(e) => fail(s, e),
            Ok(v2) => match dst_operand(s, 3) {
                Err(e) => fail(s, e),
                Ok(a) => {
                    let v = if is_add {
                        v1 as int + v2 as int
                    } else {
                        v1 as int * v2 as int
                    };
                    if v < i64::MIN as int || v > i64::MAX as int {
                        fail(s, IntCodeError::ValueOverflow)
                    } else {
                        finish_write(s, a, v as i64, 4)
                    }
                },
            },
        },
    }
}

/// Less-than (`is_lt`) or equals: writes 1 or 0, width 4.
#[verifier::opaque]
pub open spec fn step_compare(s: VmState, is_lt: bool) -> VmState {
    match src_operand(s, 1) {
        Err(e) => fail(s, e),
        Ok(v1) => match src_operand(s, 2) {
            Err(e) => fail(s, e),
            Ok(v2) => match dst_operand(s, 3) {
                Err(e) => fail(s, e),
                Ok(a) => {
                    let hit = if is_lt {
                        v1 < v2
                    } else {
                        v1 == v2
                    };
                    finish_write(s, a, if hit { 1i64 } else { 0i64 }, 4)
                },
            },
        },
    }
}

/// Input: with an empty queue the machine pauses without consuming the
/// instruction; otherwise the queue's head goes to the destination.
#[verifier::opaque]
pub open spec fn step_input(s: VmState) -> VmState {
    match dst_operand(s, 1) {
        Err(e) => fail(s, e),
        Ok(a) => {
            if s.input.len() == 0 {
                VmState { status: VmStatus::Paused, ..s }
            } else if s.ip + 2 > addr_limit() {
                fail(s, IntCodeError::AddressOverflow)
            } else {
                VmState {
                    mem: mem_write(s.mem, a, s.input[0]),
                    input: s.input.subrange(1, s.input.len() as int),
                    ip: s.ip + 2,
                    ..s
                }
            }
        },
    }
}

/// Output: pushes the operand's value onto the output queue, width 2.
#[verifier::opaque]
pub open spec fn step_output(s: VmState) -> VmState {
    match src_operand(s, 1) {
        Err(e) => fail(s, e),
        Ok(v) => {
            if s.ip + 2 > addr_limit() {
                fail(s, IntCodeError::AddressOverflow)
            } else {
                VmState { output: s.output.push(v), ip: s.ip + 2, ..s }
            }
        },
    }
}

/// Jump-if-true (`on_nonzero`) or jump-if-false: sets the instruction
/// pointer to the target on the taken branch, else advances by 3.
#[verifier::opaque]
pub open spec fn step_jump(s: VmState, on_nonzero: bool) -> VmState {
    match src_operand(s, 1) {
        Err(e) => fail(s, e),
        Ok(c) => match src_operand(s, 2) {
            Err(e) => fail(s, e),
            Ok(t) => {
                let taken = if on_nonzero {
                    c != 0
                } else {
                    c == 0
                };
                if taken {
                    if t < 0 {
                        fail(s, IntCodeError::NegativeAddress)
                    } else if t as int > addr_limit() {
                        fail(s, IntCodeError::AddressOverflow)
                    } else {
                        VmState { ip: t as int, ..s }
                    }
                } else {
                    if s.ip + 3 > addr_limit() {
                        fail(s, IntCodeError::AddressOverflow)
                    } else {
                        VmState { ip: s.ip + 3, ..s }
                    }
                }
            },
        },
    }
}

/// Adjust-relative-base: adds the operand to the relative base, width 2.
#[verifier::opaque]
pub open spec fn step_adjust(s: VmState) -> VmState {
    match src_operand(s, 1) {
        Err(e) => fail(s, e),
        Ok(v) => {
            let r2 = s.rel + v as int;
            if r2 < i64::MIN as int || r2 > i64::MAX as int {
                fail(s, IntCodeError::ValueOverflow)
            } else if s.ip + 2 > addr_limit() {
                fail(s, IntCodeError::AddressOverflow)
            } else {
                VmState { rel: r2, ip: s.ip + 2, ..s }
            }
        },
    }
}

/// One transition of the abstract machine.  Stopped states (anything but
/// `Ready`) are fixed points, so iterating `step` past the first stopped
/// state changes nothing.
pub open spec fn step(s: VmState) -> VmState {
    if !(s.status is Ready) {
        s
    } else {
        let instr = mem_read(s.mem, s.ip);
        if instr < 0 || instr > 99999 {
            fail(s, IntCodeError::UnknownOpcode)
        } else {
            let op = (instr as int) % 100;
            if op == 1 {
                step_arith(s, true)
            } else if op == 2 {
                step_arith(s, false)
            } else if op == 3 {
                step_input(s)
            } else if op == 4 {
                step_output(s)
            } else if op == 5 {
                step_jump(s, true)
            } else if op == 6 {
                step_jump(s, false)
            } else if op == 7 {
                step_compare(s, true)
            } else if op == 8 {
                step_compare(s, false)
            } else if op == 9 {
                step_adjust(s)
            } else if op == 99 {
                VmState { status: VmStatus::Halted, ..s }
            } else {
                fail(s, IntCodeError::UnknownOpcode)
            }
        }
    }
}

/// `n` transitions of the abstract machine.
pub open spec fn step_n(s: VmState, n: nat) -> VmState
    decreases n,
{
    if n == 0 {
        s
    } else {
        step(step_n(s, (n - 1) as nat))
    }
}

/// A stopped state: the machine will not move again on its own.
pub open spec fn stopped(s: VmState) -> bool {
    !(s.status is Ready)
}

/// A stopped state is a fixed point of [`step`].
pub proof fn lemma_stopped_fixed(s: VmState)
    requires
        stopped(s),
    ensures
        step(s) == s,
{
}

/// Once a trajectory stops it never moves again: iterating past the first
/// stopped state changes nothing.
pub proof fn lemma_stopped_stable(s: VmState, n: nat, m: nat)
    requires
        n <= m,
        stopped(step_n(s, n)),
    ensures
        step_n(s, m) == step_n(s, n),
    decreases m,
{
    if m > n {
        lemma_stopped_stable(s, n, (m - 1) as nat);
        assert(step_n(s, m) == step(step_n(s, (m - 1) as nat)));
        lemma_stopped_fixed(step_n(s, n));
    }
}

/// Determinism: from one starting state, a trajectory has exactly one
/// stopped state, whatever step counts two runs took to reach it — identical
/// programs fed identical inputs in identical order yield identical output
/// queues and identical final memories.
pub proof fn lemma_run_deterministic(s: VmState, n: nat, m: nat)
    requires
        stopped(step_n(s, n)),
        stopped(step_n(s, m)),
    ensures
        step_n(s, n) == step_n(s, m),
{
    if n <= m {
        lemma_stopped_stable(s, n, m);
    } else {
        lemma_stopped_stable(s, m, n);
    }
}

/// Growth correctness: a write, however far beyond the materialised end of
/// memory, lands on its own cell and leaves the value of every other
/// address exactly as it was.
pub proof fn lemma_growth_preserves(m: Seq<i64>, a: int, v: i64, j: int)
    requires
        0 <= a,
        0 <= j,
    ensures
        mem_read(mem_write(m, a, v), a) == v,
        j != a ==> mem_read(mem_write(m, a, v), j) == mem_read(m, j),
{
    if a >= m.len() {
        let w = mem_write(m, a, v);
        assert(w.len() == a + 1);
        if j != a && j < m.len() {
            assert(w[j] == m[j]);
        }
    }
}

/// Trajectories compose: `a` steps and then `b` steps is `a + b` steps.
pub proof fn lemma_step_n_add(s: VmState, a: nat, b: nat)
    ensures
        step_n(s, a + b) == step_n(step_n(s, a), b),
    decreases b,
{
    if b > 0 {
        lemma_step_n_add(s, a, (b - 1) as nat);
        assert(step_n(s, a + b) == step(step_n(s, (a + b - 1) as nat)));
        assert(step_n(step_n(s, a), b) == step(step_n(step_n(s, a), (b - 1) as nat)));
    }
}

/// The same machine with more values queued on its input.
pub open spec fn with_more_input(s: VmState, extra: Seq<i64>) -> VmState {
    VmState { input: s.input + extra, ..s }
}

/// The suspension protocol's resume operation on the abstract state: queue
/// the new input and set the machine `Ready` again.
pub open spec fn resume(s: VmState, extra: Seq<i64>) -> VmState {
    VmState { status: VmStatus::Ready, input: s.input + extra, ..s }
}

/// A machine pauses only at an input instruction with an empty queue, and
/// pausing changes nothing but the status.
pub proof fn lemma_pause_shape(s: VmState)
    requires
        s.status is Ready,
        step(s).status is Paused,
    ensures
        s.input.len() == 0,
        step(s) == (VmState { status: VmStatus::Paused, ..s }),
{
    reveal(src_operand);
    reveal(dst_operand);
    reveal(step_arith);
    reveal(step_compare);
    reveal(step_input);
    reveal(step_output);
    reveal(step_jump);
    reveal(step_adjust);
}

/// Queued input that the machine has not yet asked for does not influence a
/// step: stepping commutes with appending input, as long as the step is not
/// the pause itself.
pub proof fn lemma_step_extend_input(s: VmState, extra: Seq<i64>)
    requires
        s.status is Ready,
        !(step(s).status is Paused),
    ensures
        step(with_more_input(s, extra)) == with_more_input(step(s), extra),
{
    reveal(src_operand);
    reveal(dst_operand);
    reveal(step_arith);
    reveal(step_compare);
    reveal(step_input);
    reveal(step_output);
    reveal(step_jump);
    reveal(step_adjust);
    let s2 = with_more_input(s, extra);
    let instr = mem_read(s.mem, s.ip);
    if 0 <= instr <= 99999 && (instr as int) % 100 == 3 {
        match dst_operand(s, 1) {
            Err(e) => {},
            Ok(a) => {
                assert(s.input.len() > 0);
                assert(s2.input[0] == s.input[0]);
                assert(s2.input.subrange(1, s2.input.len() as int) =~= s.input.subrange(
                    1,
                    s.input.len() as int,
                ) + extra);
            },
        }
    }
}

/// Pause/resume correctness, one half: when a run pauses for input, feeding
/// the missing input and resuming puts the machine on exactly the trajectory
/// of a machine that had that input queued from the start.
#[verifier::rlimit(100)]
#[verifier::spinoff_prover]
pub proof fn lemma_pause_resume(s: VmState, extra: Seq<i64>, n: nat)
    requires
        s.status is Ready,
        step_n(s, n).status is Paused,
    ensures
        exists|k: nat|
            k <= n && step_n(with_more_input(s, extra), k) == resume(step_n(s, n), extra),
    decreases n,
{
    assert(n > 0);
    lemma_step_n_add(s, 1, (n - 1) as nat);
    assert(step_n(s, 0) == s);
    assert(step_n(s, 1) == step(s));
    assert(step_n(s, n) == step_n(step(s), (n - 1) as nat));
    if step(s).status is Paused {
        lemma_pause_shape(s);
        lemma_stopped_stable(step(s), 0, (n - 1) as nat);
        assert(step_n(s, n) == step(s));
        assert(resume(step(s), extra) == with_more_input(s, extra));
        assert(step_n(with_more_input(s, extra), 0) == resume(step_n(s, n), extra));
    } else if step(s).status is Ready {
        lemma_pause_resume(step(s), extra, (n - 1) as nat);
        let k0 = choose|k: nat|
            k <= n - 1 && step_n(with_more_input(step(s), extra), k) == resume(
                step_n(step(s), (n - 1) as nat),
                extra,
            );
        lemma_step_extend_input(s, extra);
        lemma_step_n_add(with_more_input(s, extra), 1, k0);
        assert(step_n(with_more_input(s, extra), 1) == step(with_more_input(s, extra)));
        assert(step_n(with_more_input(s, extra), 1 + k0) == resume(step_n(s, n), extra));
    } else {
        lemma_stopped_stable(step(s), 0, (n - 1) as nat);
        assert(false);
    }
}

/// Pause/resume correctness, whole: a machine that pauses for input, is
/// given the missing input, resumed, and then runs to any stopped state,
/// lands on the very state — same output queue, same memory — that a
/// machine with all of that input queued from the start reaches.
pub proof fn lemma_pause_resume_runs_equal(s: VmState, extra: Seq<i64>, n: nat, m: nat)
    requires
        s.status is Ready,
        step_n(s, n).status is Paused,
        stopped(step_n(resume(step_n(s, n), extra), m)),
    ensures
        exists|k: nat|
            stopped(step_n(with_more_input(s, extra), k)) && step_n(with_more_input(s, extra), k)
                == step_n(resume(step_n(s, n), extra), m),
{
    lemma_pause_resume(s, extra, n);
    let k0 = choose|k: nat|
        k <= n && step_n(with_more_input(s, extra), k) == resume(step_n(s, n), extra);
    lemma_step_n_add(with_more_input(s, extra), k0, m);
    assert(step_n(with_more_input(s, extra), k0 + m) == step_n(resume(step_n(s, n), extra), m));
}

/// The executable machine.  `in_buf`, `out_buf` and `status` are the caller's
/// surface for the suspend/resume protocol: push input, run, drain output,
/// and set a `Paused` machine back to `Ready` to resume it.  The remaining
/// fields are exposed so that contracts and drivers can speak about the full
/// abstract state.
#[derive(Clone, Debug)]
pub struct IntCodeProgram {
    pub program: Vec<i64>,
    pub pointer: usize,
    pub rel_base: i64,
    pub in_buf: Vec<i64>,
    pub out_buf: Vec<i64>,
    pub status: IntCodeStatus,
}

fn is_space_ex(b: u8) -> (r: bool)
    ensures
        r == is_space(b),
{
    b == 32 || b == 9 || b == 10 || b == 13
}

/// Parse the token `bs[from..to]` as a signed 64-bit integer, exactly as
/// [`parse_i64`] reads it.
pub fn parse_token(bs: &Vec<u8>, from: usize, to: usize) -> (r: Option<i64>)
    requires
        from <= to <= bs@.len(),
    ensures
        r == parse_i64(bs@.subrange(from as int, to as int)),
{
    let ghost tok: Seq<u8> = bs@.subrange(from as int, to as int);
    let mut p: usize = from;
    let mut neg = false;
    if p < to && (bs[p] == 45 || bs[p] == 43) {
        neg = bs[p] == 45;
        p = p + 1;
    }
    let ghost sgn: int = p - from;
    let ghost ds: Seq<u8> = tok.subrange(sgn, tok.len() as int);
    proof {
        assert(neg == (tok.len() > 0 && tok[0] == 45));
        if sgn == 0 {
            assert(ds =~= tok);
        }
    }
    if p == to {
        assert(ds.len() == 0);
        return None;
    }
    let mut acc: i64 = 0;
    while p < to
        invariant
            from <= to <= bs@.len(),
            from as int + sgn <= p as int <= to as int,
            0 <= sgn <= 1,
            tok == bs@.subrange(from as int, to as int),
            ds == tok.subrange(sgn, tok.len() as int),
            neg == (tok.len() > 0 && tok[0] == 45),
            (sgn == 1) == (tok.len() > 0 && (tok[0] == 45 || tok[0] == 43)),
            sgn == 0 ==> ds == tok,
            all_digits(ds.subrange(0, p - from - sgn)),
            acc as int == -digits_val(ds.subrange(0, p - from - sgn)),
        decreases to - p,
    {
        let ghost j: int = p - from - sgn;
        let ghost pref: Seq<u8> = ds.subrange(0, j);
        proof {
            assert(ds[j] == tok[j + sgn] == bs@[p as int]);
            assert(ds.subrange(0, j + 1).drop_last() =~= pref);
            assert(ds.subrange(0, j + 1).last() == ds[j]);
        }
        let c = bs[p];
        if c < 48 || c > 57 {
            proof {
                assert(!all_digits(ds));
            }
            return None;
        }
        proof {
            lemma_digits_val_bounds(pref);
            if all_digits(ds) {
                lemma_digits_val_prefix(ds, j + 1);
            }
        }
        let acc10 = match acc.checked_mul(10) {
            Some(a) => a,
            None => {
                proof {
                    assert(digits_val(pref) * 10 > i64::MAX as int + 1);
                    if all_digits(ds) {
                        assert(digits_val(ds.subrange(0, j + 1)) == digits_val(pref) * 10 + (
                        ds[j] - 48));
                        assert(digits_val(ds) > i64::MAX as int);
                        assert(-digits_val(ds) < i64::MIN as int);
                    }
                }
                return None;
            },
        };
        let d = (c - 48) as i64;
        let acc2 = match acc10.checked_sub(d) {
            Some(a) => a,
            None => {
                proof {
                    if all_digits(ds) {
                        assert(digits_val(ds.subrange(0, j + 1)) == digits_val(pref) * 10 + (
                        ds[j] - 48));
                        assert(digits_val(ds) > i64::MAX as int);
                        assert(-digits_val(ds) < i64::MIN as int);
                    }
                }
                return None;
            },
        };
        proof {
            assert(digits_val(ds.subrange(0, j + 1)) == digits_val(pref) * 10 + (ds[j] - 48));
            assert(all_digits(ds.subrange(0, j + 1)));
        }
        acc = acc2;
        p = p + 1;
    }
    proof {
        assert(ds.subrange(0, p - from - sgn) =~= ds);
        assert(ds.len() >= 1);
    }
    if neg {
        Some(acc)
    } else {
        if acc == i64::MIN {
            proof {
                assert(digits_val(ds) > i64::MAX as int);
            }
            None
        } else {
            Some(-acc)
        }
    }
}

impl IntCodeProgram {
    /// Load a program from its textual form: comma-separated signed decimal
    /// integers, optional surrounding whitespace.  The machine starts
    /// `Ready`, with empty queues, instruction pointer 0 and relative base
    /// 0.  Any malformed token refuses the whole program.
    #[verifier::rlimit(100)]
    pub fn from_input(input: &str) -> (r: Result<IntCodeProgram, IntCodeError>)
        ensures
            r matches Ok(p) ==> parse_program(input.spec_bytes()) == Some(p@.mem) && p@.ip == 0
                && p@.rel == 0 && p@.input == Seq::<i64>::empty() && p@.output == Seq::<
            i64,
            >::empty() && p@.status is Ready,
            r matches Err(e) ==> parse_program(input.spec_bytes()) is None && e
                == IntCodeError::InvalidToken,
    {
        let bs: Vec<u8> = input.as_bytes_vec();
        let n: usize = bs.len();
        proof {
            assert(bs@.subrange(0, n as int) =~= bs@);
        }
        let mut lo: usize = 0;
        while lo < n && is_space_ex(bs[lo])
            invariant
                lo <= n,
                n == bs@.len(),
                trim_spec(bs@) == trim_spec(bs@.subrange(lo as int, n as int)),
            decreases n - lo,
        {
            proof {
                let s = bs@.subrange(lo as int, n as int);
                assert(s[0] == bs@[lo as int]);
                assert(s.subrange(1, s.len() as int) =~= bs@.subrange(lo as int + 1, n as int));
            }
            lo = lo + 1;
        }
        let mut hi: usize = n;
        while hi > lo && is_space_ex(bs[hi - 1])
            invariant
                lo <= hi <= n,
                n == bs@.len(),
                lo == n || !is_space(bs@[lo as int]),
                trim_spec(bs@) == trim_spec(bs@.subrange(lo as int, hi as int)),
            decreases hi,
        {
            proof {
                let s = bs@.subrange(lo as int, hi as int);
                assert(s[0] == bs@[lo as int]);
                assert(s[s.len() - 1] == bs@[hi as int - 1]);
                assert(s.subrange(0, s.len() - 1) =~= bs@.subrange(lo as int, hi as int - 1));
            }
            hi = hi - 1;
        }
        let ghost t: Seq<u8> = bs@.subrange(lo as int, hi as int);
        proof {
            if t.len() > 0 {
                assert(t[0] == bs@[lo as int]);
                assert(t[t.len() - 1] == bs@[hi as int - 1]);
            }
            assert(trim_spec(bs@) == t);
        }
        let mut vals: Vec<i64> = Vec::new();
        let mut pos: usize = lo;
        let mut done = false;
        while !done
            invariant
                lo <= pos <= hi,
                lo <= hi <= n,
                n == bs@.len(),
                bs@ == input.spec_bytes(),
                t == bs@.subrange(lo as int, hi as int),
                trim_spec(bs@) == t,
                !done ==> (forall|vs: Seq<i64>|
                    parse_tokens(split_on(bs@.subrange(pos as int, hi as int), 44)) == Some(vs)
                        ==> parse_program(bs@) == Some(vals@ + vs)),
                !done ==> (parse_tokens(
                    split_on(bs@.subrange(pos as int, hi as int), 44),
                ) is None ==> parse_program(bs@) is None),
                done ==> parse_program(bs@) == Some(vals@),
            decreases hi as int - pos as int + (if done {
                0int
            } else {
                1int
            }),
        {
            let mut j: usize = pos;
            while j < hi && bs[j] != 44
                invariant
                    pos <= j <= hi,
                    hi <= n,
                    n == bs@.len(),
                    forall|k: int| pos <= k < j ==> bs@[k] != 44,
                decreases hi - j,
            {
                j = j + 1;
            }
            let ghost rem: Seq<u8> = bs@.subrange(pos as int, hi as int);
            let ghost tok: Seq<u8> = bs@.subrange(pos as int, j as int);
            proof {
                lemma_find_byte_spec(rem, 44);
                assert(forall|k: int|
                    0 <= k < rem.len() ==> rem[k] == #[trigger] bs@[pos as int + k]);
                if j < hi {
                    assert(rem[j - pos] == 44);
                    assert(forall|k: int| 0 <= k < j - pos ==> rem[k] != 44);
                    assert(find_byte(rem, 44) == j - pos);
                    assert(rem.subrange(0, j - pos) =~= tok);
                    assert(rem.subrange(j - pos + 1, rem.len() as int) =~= bs@.subrange(
                        j as int + 1,
                        hi as int,
                    ));
                    assert(split_on(rem, 44) == seq![tok] + split_on(
                        bs@.subrange(j as int + 1, hi as int),
                        44,
                    ));
                } else {
                    assert(forall|k: int| 0 <= k < rem.len() ==> rem[k] != 44);
                    assert(find_byte(rem, 44) == -1);
                    assert(rem =~= tok);
                    assert(split_on(rem, 44) == seq![tok]);
                }
            }
            match parse_token(&bs, pos, j) {
                None => {
                    proof {
                        let toks = split_on(rem, 44);
                        assert(toks[0] == tok);
                        assert(parse_tokens(toks) is None);
                    }
                    return Err(IntCodeError::InvalidToken);
                },
                Some(v) => {
                    let ghost vals0: Seq<i64> = vals@;
                    vals.push(v);
                    proof {
                        let toks = split_on(rem, 44);
                        assert(toks[0] == tok);
                        assert(parse_i64(tok) == Some(v));
                        if j < hi {
                            let rem2 = bs@.subrange(j as int + 1, hi as int);
                            assert(toks.subrange(1, toks.len() as int) =~= split_on(rem2, 44));
                            assert forall|vs2: Seq<i64>|
                                parse_tokens(split_on(rem2, 44)) == Some(vs2) implies parse_program(
                                bs@,
                            ) == Some(vals@ + vs2) by {
                                assert(parse_tokens(toks) == Some(seq![v] + vs2));
                                assert(vals0 + (seq![v] + vs2) =~= vals@ + vs2);
                            }
                            assert(parse_tokens(split_on(rem2, 44)) is None ==> parse_tokens(
                                toks,
                            ) is None);
                        } else {
                            assert(toks.subrange(1, toks.len() as int) =~= Seq::<Seq<u8>>::empty());
                            assert(parse_tokens(toks.subrange(1, toks.len() as int)) == Some(
                                Seq::<i64>::empty(),
                            ));
                            assert(parse_tokens(toks) == Some(seq![v] + Seq::<i64>::empty()));
                            assert(vals0 + (seq![v] + Seq::<i64>::empty()) =~= vals@);
                            assert(parse_program(bs@) == Some(vals@));
                        }
                    }
                    if j == hi {
                        done = true;
                    } else {
                        pos = j + 1;
                    }
                },
            }
        }
        Ok(
            IntCodeProgram {
                program: vals,
                pointer: 0,
                rel_base: 0,
                in_buf: Vec::new(),
                out_buf: Vec::new(),
                status: IntCodeStatus::Ready,
            },
        )
    }
}

/// Executable statuses embed into the abstract ones.
pub open spec fn status_view(st: IntCodeStatus) -> VmStatus {
    match st {
        IntCodeStatus::Ready => VmStatus::Ready,
        IntCodeStatus::Paused => VmStatus::Paused,
        IntCodeStatus::Halted => VmStatus::Halted,
    }
}

impl View for IntCodeProgram {
    type V = VmState;

    open spec fn view(&self) -> VmState {
        VmState {
            mem: self.program@,
            ip: self.pointer as int,
            rel: self.rel_base as int,
            input: self.in_buf@,
            output: self.out_buf@,
            status: status_view(self.status),
        }
    }
}

/// Read one memory cell; cells past the materialised end read as 0.
fn tape_read(m: &Vec<i64>, a: usize) -> (r: i64)
    ensures
        r == mem_read(m@, a as int),
{
    if a < m.len() {
        m[a]
    } else {
        0
    }
}

/// Read the cell at `base + k`, where the sum may exceed the address space
/// (such a cell was never written, so it reads as 0).
fn tape_read_off(m: &Vec<i64>, base: usize, k: usize) -> (r: i64)
    ensures
        r == mem_read(m@, base as int + k as int),
{
    if base <= usize::MAX - k {
        tape_read(m, base + k)
    } else {
        let n = m.len();
        assert(n as int == m@.len());
        0
    }
}

/// Write one memory cell, growing the tape with zero-filled cells first when
/// the address lies past the materialised end.
fn tape_write(m: &mut Vec<i64>, a: usize, v: i64)
    ensures
        final(m)@ == mem_write(old(m)@, a as int, v),
{
    let ghost m0: Seq<i64> = m@;
    if a < m.len() {
        m[a] = v;
    } else {
        while m.len() <= a
            invariant
                m0.len() <= m@.len() <= a as int + 1,
                m@ == m0 + Seq::new((m@.len() - m0.len()) as nat, |i: int| 0i64),
            decreases a as int + 1 - m@.len(),
        {
            assert(m@.len() <= a as int);
            m.push(0);
            proof {
                assert(m@ =~= m0 + Seq::new((m@.len() - m0.len()) as nat, |i: int| 0i64));
            }
        }
        assert(m@.len() == a as int + 1);
        m[a] = v;
        proof {
            assert(m@ =~= mem_write(m0, a as int, v));
        }
    }
}

/// True when a non-negative cell value can serve as a memory address.
fn fits_addr(v: i64) -> (r: bool)
    requires
        v >= 0,
    ensures
        r == (v as int <= addr_limit()),
{
    (v as u128) <= (usize::MAX as u128)
}

impl IntCodeProgram {
    /// Addressing-mode digit of operand `k`, matching [`mode_of`].
    fn mode_ex(&self, instr: i64, k: usize) -> (r: u32)
        requires
            0 <= instr <= 99999,
            1 <= k <= 3,
        ensures
            r as int == mode_of(instr, k as int),
    {
        let w = instr as u32;
        if k == 1 {
            (w / 100) % 10
        } else if k == 2 {
            (w / 1000) % 10
        } else {
            (w / 10000) % 10
        }
    }

    /// Executable counterpart of [`src_operand`].
    fn src_operand_ex(&self, instr: i64, k: usize) -> (r: Result<i64, IntCodeError>)
        requires
            0 <= instr <= 99999,
            1 <= k <= 3,
            instr == mem_read(self@.mem, self@.ip),
        ensures
            r == src_operand(self@, k as int),
    {
        proof {
            reveal(src_operand);
        }
        let m = self.mode_ex(instr, k);
        let raw = tape_read_off(&self.program, self.pointer, k);
        if m == 0 {
            if raw < 0 {
                Err(IntCodeError::NegativeAddress)
            } else if !fits_addr(raw) {
                Err(IntCodeError::AddressOverflow)
            } else {
                Ok(tape_read(&self.program, raw as usize))
            }
        } else if m == 1 {
            Ok(raw)
        } else if m == 2 {
            match self.rel_base.checked_add(raw) {
                None => {
                    if raw < 0 {
                        Err(IntCodeError::NegativeAddress)
                    } else {
                        Err(IntCodeError::AddressOverflow)
                    }
                },
                Some(a) => {
                    if a < 0 {
                        Err(IntCodeError::NegativeAddress)
                    } else if !fits_addr(a) {
                        Err(IntCodeError::AddressOverflow)
                    } else {
                        Ok(tape_read(&self.program, a as usize))
                    }
                },
            }
        } else {
            Err(IntCodeError::UnknownMode)
        }
    }

    /// Executable counterpart of [`dst_operand`].
    fn dst_operand_ex(&self, instr: i64, k: usize) -> (r: Result<usize, IntCodeError>)
        requires
            0 <= instr <= 99999,
            1 <= k <= 3,
            instr == mem_read(self@.mem, self@.ip),
        ensures
            match r {
                Ok(a) => dst_operand(self@, k as int) == Result::<int, IntCodeError>::Ok(a as int),
                Err(e) => dst_operand(self@, k as int) == Result::<int, IntCodeError>::Err(e),
            },
    {
        proof {
            reveal(dst_operand);
        }
        let m = self.mode_ex(instr, k);
        let raw = tape_read_off(&self.program, self.pointer, k);
        if m == 0 {
            if raw < 0 {
                Err(IntCodeError::NegativeAddress)
            } else if !fits_addr(raw) {
                Err(IntCodeError::AddressOverflow)
            } else {
                Ok(raw as usize)
            }
        } else if m == 1 {
            Err(IntCodeError::WriteToImmediate)
        } else if m == 2 {
            match self.rel_base.checked_add(raw) {
                None => {
                    if raw < 0 {
                        Err(IntCodeError::NegativeAddress)
                    } else {
                        Err(IntCodeError::AddressOverflow)
                    }
                },
                Some(a) => {
                    if a < 0 {
                        Err(IntCodeError::NegativeAddress)
                    } else if !fits_addr(a) {
                        Err(IntCodeError::AddressOverflow)
                    } else {
                        Ok(a as usize)
                    }
                },
            }
        } else {
            Err(IntCodeError::UnknownMode)
        }
    }

    /// Advance the instruction pointer by `w`, watching the address limit.
    fn advance(&mut self, w: usize) -> (r: bool)
        requires
            1 <= w <= 4,
        ensures
            r == (old(self)@.ip + w as int <= addr_limit()),
            r ==> *final(self) == (IntCodeProgram {
                pointer: (old(self).pointer + w) as usize,
                ..*old(self)
            }),
            !r ==> *final(self) == *old(self),
    {
        if self.pointer as u128 + w as u128 <= (if (usize::MAX as u128) < (i64::MAX as u128) {
            usize::MAX as u128
        } else {
            i64::MAX as u128
        }) {
            self.pointer = self.pointer + w;
            true
        } else {
            false
        }
    }

    /// Park the machine on a fatal condition and report it.
    fn give_up(&mut self, e: IntCodeError) -> (r: Result<(), IntCodeError>)
        ensures
            *final(self) == (IntCodeProgram { status: IntCodeStatus::Halted, ..*old(self) }),
            r == Result::<(), IntCodeError>::Err(e),
    {
        self.status = IntCodeStatus::Halted;
        Err(e)
    }

    /// Execute exactly one instruction: the executable image of [`step`].
    fn step_ex(&mut self) -> (r: Result<(), IntCodeError>)
        requires
            old(self)@.status is Ready,
        ensures
            match r {
                Ok(()) => final(self)@ == step(old(self)@),
                Err(e) => step(old(self)@) == fail(old(self)@, e) && final(self)@ == VmState {
                    status: VmStatus::Halted,
                    ..old(self)@
                },
            },
    {
        proof {
            reveal(src_operand);
            reveal(dst_operand);
            reveal(step_arith);
            reveal(step_compare);
            reveal(step_input);
            reveal(step_output);
            reveal(step_jump);
            reveal(step_adjust);
        }
        let instr = tape_read(&self.program, self.pointer);
        if instr < 0 || instr > 99999 {
            return self.give_up(IntCodeError::UnknownOpcode);
        }
        let op = (instr as u32) % 100;
        if op == 1 || op == 2 {
            let v1 = match self.src_operand_ex(instr, 1) {
                Ok(v) => v,
                Err(e) => { return self.give_up(e); },
            };
            let v2 = match self.src_operand_ex(instr, 2) {
                Ok(v) => v,
                Err(e) => { return self.give_up(e); },
            };
            let a = match self.dst_operand_ex(instr, 3) {
                Ok(a) => a,
                Err(e) => { return self.give_up(e); },
            };
            let v = if op == 1 {
                match v1.checked_add(v2) {
                    Some(v) => v,
                    None => { return self.give_up(IntCodeError::ValueOverflow); },
                }
            } else {
                match v1.checked_mul(v2) {
                    Some(v) => v,
                    None => { return self.give_up(IntCodeError::ValueOverflow); },
                }
            };
            if !self.advance(4) {
                return self.give_up(IntCodeError::AddressOverflow);
            }
            tape_write(&mut self.program, a, v);
            Ok(())
        } else if op == 3 {
            let a = match self.dst_operand_ex(instr, 1) {
                Ok(a) => a,
                Err(e) => { return self.give_up(e); },
            };
            if self.in_buf.len() == 0 {
                self.status = IntCodeStatus::Paused;
                return Ok(());
            }
            if !self.advance(2) {
                return self.give_up(IntCodeError::AddressOverflow);
            }
            let x = self.in_buf.remove(0);
            tape_write(&mut self.program, a, x);
            proof {
                assert(old(self)@.input.subrange(1, old(self)@.input.len() as int) =~= old(
                    self,
                )@.input.remove(0));
            }
            Ok(())
        } else if op == 4 {
            let v = match self.src_operand_ex(instr, 1) {
                Ok(v) => v,
                Err(e) => { return self.give_up(e); },
            };
            if !self.advance(2) {
                return self.give_up(IntCodeError::AddressOverflow);
            }
            self.out_buf.push(v);
            Ok(())
        } else if op == 5 || op == 6 {
            let c = match self.src_operand_ex(instr, 1) {
                Ok(v) => v,
                Err(e) => { return self.give_up(e); },
            };
            let t = match self.src_operand_ex(instr, 2) {
                Ok(v) => v,
                Err(e) => { return self.give_up(e); },
            };
            let taken = if op == 5 {
                c != 0
            } else {
                c == 0
            };
            if taken {
                if t < 0 {
                    return self.give_up(IntCodeError::NegativeAddress);
                }
                if !fits_addr(t) {
                    return self.give_up(IntCodeError::AddressOverflow);
                }
                self.pointer = t as usize;
                Ok(())
            } else {
                if !self.advance(3) {
                    return self.give_up(IntCodeError::AddressOverflow);
                }
                Ok(())
            }
        } else if op == 7 || op == 8 {
            let v1 = match self.src_operand_ex(instr, 1) {
                Ok(v) => v,
                Err(e) => { return self.give_up(e); },
            };
            let v2 = match self.src_operand_ex(instr, 2) {
                Ok(v) => v,
                Err(e) => { return self.give_up(e); },
            };
            let a = match self.dst_operand_ex(instr, 3) {
                Ok(a) => a,
                Err(e) => { return self.give_up(e); },
            };
            let hit = if op == 7 {
                v1 < v2
            } else {
                v1 == v2
            };
            if !self.advance(4) {
                return self.give_up(IntCodeError::AddressOverflow);
            }
            tape_write(&mut self.program, a, if hit { 1 } else { 0 });
            Ok(())
        } else if op == 9 {
            let v = match self.src_operand_ex(instr, 1) {
                Ok(v) => v,
                Err(e) => { return self.give_up(e); },
            };
            let r2 = match self.rel_base.checked_add(v) {
                Some(r2) => r2,
                None => { return self.give_up(IntCodeError::ValueOverflow); },
            };
            if !self.advance(2) {
                return self.give_up(IntCodeError::AddressOverflow);
            }
            self.rel_base = r2;
            Ok(())
        } else if op == 99 {
            self.status = IntCodeStatus::Halted;
            Ok(())
        } else {
            self.give_up(IntCodeError::UnknownOpcode)
        }
    }

    /// Execute up to `fuel` instructions while the machine is `Ready`;
    /// control returns to the caller as soon as the machine pauses for input
    /// or halts, and in any case after `fuel` instructions.  Since stopped
    /// states are fixed points of [`step`], the machine lands exactly on
    /// `step_n(old(self)@, fuel)`: with enough fuel that is the trajectory's
    /// first paused or halted state.  On a fatal condition the machine parks
    /// itself `Halted` and the reported error names the abstract `Failed`
    /// state that the trajectory reached.  A `Halted` machine never resumes:
    /// running it is a no-op.
    #[verifier::rlimit(50)]
    pub fn run(&mut self, fuel: usize) -> (r: Result<(), IntCodeError>)
        ensures
            r is Ok ==> final(self)@ == step_n(old(self)@, fuel as nat),
            r matches Err(e) ==> final(self)@.status is Halted && step_n(old(self)@, fuel as nat)
                == (VmState { status: VmStatus::Failed(e), ..final(self)@ }),
    {
        let ghost s0: VmState = self@;
        let mut i: usize = 0;
        while i < fuel && self.status == IntCodeStatus::Ready
            invariant
                i <= fuel,
                s0 == old(self)@,
                self@ == step_n(s0, i as nat),
            decreases fuel - i,
        {
            let ghost pre: VmState = self@;
            match self.step_ex() {
                Ok(()) => {
                    proof {
                        assert(step_n(s0, i as nat + 1) == step(step_n(s0, i as nat)));
                    }
                    i = i + 1;
                },
                Err(e) => {
                    proof {
                        assert(step_n(s0, i as nat + 1) == step(step_n(s0, i as nat)));
                        assert(step(pre) == fail(pre, e));
                        assert(self@ == (VmState { status: VmStatus::Halted, ..pre }));
                        lemma_stopped_stable(s0, i as nat + 1, fuel as nat);
                        assert(step_n(s0, fuel as nat) == (VmState {
                            status: VmStatus::Failed(e),
                            ..self@
                        }));
                    }
                    return Err(e);
                },
            }
        }
        proof {
            if i < fuel {
                lemma_stopped_stable(s0, i as nat, fuel as nat);
            }
        }
        Ok(())
    }

    /// Overwrite the memory cell at `idx`, growing the tape when needed;
    /// used by callers to patch a program before execution.
    pub fn set_at(&mut self, idx: usize, value: i64)
        ensures
            final(self)@ == (VmState {
                mem: mem_write(old(self)@.mem, idx as int, value),
                ..old(self)@
            }),
    {
        tape_write(&mut self.program, idx, value);
    }

    /// Inspect the memory cell at `idx`; cells never written read as 0.
    pub fn get(&self, idx: usize) -> (r: i64)
        ensures
            r == mem_read(self@.mem, idx as int),
    {
        tape_read(&self.program, idx)
    }
}

} // verus!
