//! Repeated "flawed frequency transmission" passes over a digit list: each
//! output digit is the last decimal digit of the magnitude of a dot product
//! of the whole list with a stretched, cyclic base pattern.

use crate::intcode::{all_digits, trim_spec};
use vstd::prelude::*;
use vstd::string::StrSliceExecFns;
use vstd::string::StringSliceAdditionalSpecFns;

verus! {

/// The stretched base pattern: position `i` of the pattern for output
/// digit `pos` (both 0-based).
pub open spec fn spec_pattern(pos: int, i: int) -> int
    recommends
        pos >= 0,
        i >= 0,
{
    let phase = ((i + 1) / (pos + 1)) % 4;
    if phase == 0 {
        0
    } else if phase == 1 {
        1
    } else if phase == 2 {
        0
    } else {
        -1
    }
}

/// Dot product of the first `j` digits with the pattern for `pos`.
pub open spec fn fft_dot(s: Seq<i32>, pos: int, j: int) -> int
    decreases j,
{
    if j <= 0 {
        0
    } else {
        fft_dot(s, pos, j - 1) + s[j - 1] * spec_pattern(pos, j - 1)
    }
}

pub open spec fn abs_int(x: int) -> int {
    if x < 0 {
        -x
    } else {
        x
    }
}

/// Output digit `pos` of one pass.
pub open spec fn spec_value_for_pos(s: Seq<i32>, pos: int) -> int {
    abs_int(fft_dot(s, pos, s.len() as int)) % 10
}

/// One whole pass.
pub open spec fn fft_round(s: Seq<i32>) -> Seq<i32> {
    Seq::new(s.len(), |i: int| spec_value_for_pos(s, i) as i32)
}

/// `n` passes.
pub open spec fn fft_n(s: Seq<i32>, n: nat) -> Seq<i32>
    decreases n,
{
    if n == 0 {
        s
    } else {
        fft_round(fft_n(s, (n - 1) as nat))
    }
}

/// The digits of the trimmed input text, or nothing if any byte is not a
/// digit.
pub open spec fn spec_parse(bytes: Seq<u8>) -> Option<Seq<i32>> {
    let t = trim_spec(bytes);
    if all_digits(t) {
        Some(Seq::new(t.len(), |i: int| (t[i] - 48) as i32))
    } else {
        None
    }
}

/// Read the signal's digits.
pub fn parse(input: &str) -> (r: Option<Vec<i32>>)
    ensures
        r matches Some(v) ==> spec_parse(input.spec_bytes()) == Some(v@),
        r is None ==> spec_parse(input.spec_bytes()) is None,
{
    let bs: Vec<u8> = input.as_bytes_vec();
    let t = crate::text::trim_vec(&bs);
    let n = t.len();
    let mut out: Vec<i32> = Vec::new();
    let mut i: usize = 0;
    while i < n
        invariant
            i <= n,
            n == t@.len(),
            t@ == trim_spec(input.spec_bytes()),
            all_digits(t@.subrange(0, i as int)),
            out@ == Seq::new(i as nat, |k: int| (t@[k] - 48) as i32),
        decreases n - i,
    {
        let c = t[i];
        if c < 48 || c > 57 {
            proof {
                assert(!all_digits(t@));
            }
            return None;
        }
        out.push((c - 48) as i32);
        proof {
            assert(all_digits(t@.subrange(0, i as int + 1)));
            assert(out@ =~= Seq::new(i as nat + 1, |k: int| (t@[k] - 48) as i32));
        }
        i = i + 1;
    }
    proof {
        assert(t@.subrange(0, n as int) =~= t@);
        assert(out@ =~= Seq::new(t@.len(), |k: int| (t@[k] - 48) as i32));
    }
    Some(out)
}

/// The stretched pattern value at `i` for output digit `pos`, computed
/// directly from the closed form.
pub fn pattern_at(pos: usize, i: usize) -> (r: i32)
    requires
        pos < usize::MAX,
        i < usize::MAX,
    ensures
        r as int == spec_pattern(pos as int, i as int),
{
    let phase = ((i + 1) / (pos + 1)) % 4;
    if phase == 0 {
        0
    } else if phase == 1 {
        1
    } else if phase == 2 {
        0
    } else {
        -1
    }
}

/// The whole stretched pattern for output digit `pos`, one value per input
/// digit.
pub fn build_pattern(length: usize, pos: usize) -> (r: Vec<i32>)
    requires
        length < usize::MAX,
        pos < usize::MAX,
    ensures
        r@.len() == length,
        forall|i: int| 0 <= i < length ==> #[trigger] r@[i] as int == spec_pattern(
            pos as int,
            i,
        ),
{
    let mut r: Vec<i32> = Vec::new();
    let mut i: usize = 0;
    while i < length
        invariant
            i <= length < usize::MAX,
            pos < usize::MAX,
            r@.len() == i,
            forall|k: int| 0 <= k < i ==> #[trigger] r@[k] as int == spec_pattern(pos as int, k),
        decreases length - i,
    {
        r.push(pattern_at(pos, i));
        i = i + 1;
    }
    r
}

/// Output digit `pos` of one pass over `current`.
pub fn get_value_for_pos(current: &Vec<i32>, pos: usize) -> (r: i32)
    requires
        current@.len() <= 0x10000000,
        pos < usize::MAX,
    ensures
        r as int == spec_value_for_pos(current@, pos as int),
{
    let pattern = build_pattern(current.len(), pos);
    let mut sum: i64 = 0;
    let n = current.len();
    let mut j: usize = 0;
    while j < n
        invariant
            j <= n,
            n == current@.len() <= 0x10000000,
            pattern@.len() == n,
            pos < usize::MAX,
            forall|k: int| 0 <= k < n ==> #[trigger] pattern@[k] as int == spec_pattern(
                pos as int,
                k,
            ),
            -(j as int) * 0x80000000 <= sum as int <= (j as int) * 0x80000000,
            sum as int == fft_dot(current@, pos as int, j as int),
        decreases n - j,
    {
        proof {
            let c = current@[j as int] as int;
            let pv = pattern@[j as int] as int;
            assert(pv == -1 || pv == 0 || pv == 1);
            if pv == 1 {
                assert(c * pv == c);
            } else if pv == -1 {
                assert(c * pv == -c);
            } else {
                assert(c * pv == 0);
            }
        }
        sum = sum + (current[j] as i64) * (pattern[j] as i64);
        j = j + 1;
    }
    let a: i64 = if sum < 0 {
        -sum
    } else {
        sum
    };
    (a % 10) as i32
}

/// Digits after `iters` passes over the parsed signal, or nothing when the
/// text is malformed.
pub open spec fn spec_run_fft(bytes: Seq<u8>, iters: nat) -> Option<Seq<i32>> {
    match spec_parse(bytes) {
        None => None,
        Some(s) => Some(fft_n(s, iters)),
    }
}

/// Every digit of a pass is between 0 and 9.
pub proof fn lemma_round_digits(s: Seq<i32>, i: int)
    requires
        0 <= i < s.len(),
    ensures
        0 <= fft_round(s)[i] <= 9,
{
}

/// Run `iters` passes and render the resulting digits as text.
pub fn run_fft(input: &Vec<i32>, iters: usize) -> (r: String)
    requires
        input@.len() <= 0x10000000,
        forall|i: int| 0 <= i < input@.len() ==> 0 <= #[trigger] input@[i] <= 9,
    ensures
        r@.len() == input@.len(),
        forall|i: int| 0 <= i < input@.len() ==> #[trigger] r@[i] == (fft_n(
            input@,
            iters as nat,
        )[i] + 48) as u8 as char,
{
    let mut current: Vec<i32> = crate::text::clone_i32_vec(input);
    let mut it: usize = 0;
    while it < iters
        invariant
            it <= iters,
            current@ == fft_n(input@, it as nat),
            current@.len() == input@.len() <= 0x10000000,
        decreases iters - it,
    {
        let n = current.len();
        let mut next: Vec<i32> = Vec::new();
        let mut i: usize = 0;
        while i < n
            invariant
                i <= n,
                n == current@.len() <= 0x10000000,
                next@.len() == i,
                forall|k: int| 0 <= k < i ==> #[trigger] next@[k] == fft_round(current@)[k],
            decreases n - i,
        {
            let v = get_value_for_pos(&current, i);
            next.push(v);
            i = i + 1;
        }
        proof {
            assert(next@ =~= fft_round(current@));
            assert(fft_n(input@, it as nat + 1) == fft_round(fft_n(input@, it as nat)));
        }
        current = next;
        it = it + 1;
    }
    let n = current.len();
    let mut bytes: Vec<u8> = Vec::new();
    let mut i: usize = 0;
    while i < n
        invariant
            i <= n,
            n == current@.len(),
            current@ == fft_n(input@, iters as nat),
            forall|k: int| 0 <= k < input@.len() ==> 0 <= #[trigger] input@[k] <= 9,
            input@.len() == n,
            bytes@.len() == i,
            forall|k: int| 0 <= k < i ==> #[trigger] bytes@[k] == (current@[k] + 48) as u8 && bytes@[k]
                < 128,
        decreases n - i,
    {
        proof {
            if iters > 0 {
                lemma_round_digits(fft_n(input@, (iters - 1) as nat), i as int);
                assert(fft_n(input@, iters as nat) == fft_round(
                    fft_n(input@, (iters - 1) as nat),
                ));
            }
            assert(0 <= current@[i as int] <= 9);
        }
        let d = current[i];
        let b: u8 = (d + 48) as u8;
        bytes.push(b);
        i = i + 1;
    }
    crate::text::ascii_string(bytes)
}

} // verus!
