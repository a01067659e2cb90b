//! Password screening: six-digit codes whose digits never decrease and
//! which contain at least one digit pair that is exactly a pair — not part
//! of a longer run.

use vstd::prelude::*;

verus! {

/// Lower end of the searched code range.
pub const INPUT_MIN: u32 = 256310;

/// Upper end of the searched code range.
pub const INPUT_MAX: u32 = 732736;

/// A six-digit code, one decimal digit per cell, most significant first;
/// codes of fewer digits are left-aligned with trailing zero cells.
#[derive(Clone, Copy, Debug)]
pub struct Password {
    pub repr: [u8; 6],
}

/// How many decimal digits a code value has.
pub open spec fn spec_nd(n: int) -> int {
    if n < 10 {
        1
    } else if n < 100 {
        2
    } else if n < 1000 {
        3
    } else if n < 10000 {
        4
    } else if n < 100000 {
        5
    } else {
        6
    }
}

/// Digit `i` of the stored form: the code's decimal digits left-aligned,
/// zero-filled on the right.
pub open spec fn spec_digit(n: int, i: int) -> int {
    let nd = spec_nd(n);
    if i >= nd {
        0
    } else {
        let shift = nd - 1 - i;
        if shift == 0 {
            n % 10
        } else if shift == 1 {
            (n / 10) % 10
        } else if shift == 2 {
            (n / 100) % 10
        } else if shift == 3 {
            (n / 1000) % 10
        } else if shift == 4 {
            (n / 10000) % 10
        } else {
            (n / 100000) % 10
        }
    }
}

/// Numeric value of the six stored digits read as one decimal number.
pub open spec fn pw_val(ds: Seq<u8>) -> int
    decreases ds.len(),
{
    if ds.len() == 0 {
        0
    } else {
        pw_val(ds.drop_last()) * 10 + ds.last()
    }
}

/// Digits never decrease left to right.
pub open spec fn spec_ascending(ds: Seq<u8>) -> bool {
    forall|i: int| 0 <= i < ds.len() - 1 ==> #[trigger] ds[i] <= ds[i + 1]
}

/// Some digit pair stands alone: equal neighbours not extended on either
/// side.
pub open spec fn spec_lone_double(ds: Seq<u8>) -> bool
    recommends
        ds.len() == 6,
{
    exists|i: int|
        0 <= i < 5 && #[trigger] ds[i] == ds[i + 1] && (i == 0 ==> ds[0] != ds[2]) && (i >= 4
            ==> ds[3] != ds[4]) && (0 < i < 4 ==> ds[i - 1] != ds[i] && ds[i] != ds[i + 2])
}

impl Password {
    /// The code's numeric value, reading the six cells as decimal digits.
    pub fn get_u32(&self) -> (r: u32)
        requires
            forall|i: int| 0 <= i < 6 ==> #[trigger] self.repr@[i] <= 9,
        ensures
            r as int == pw_val(self.repr@),
    {
        let mut s: u32 = 0;
        let mut i: usize = 0;
        while i < 6
            invariant
                i <= 6,
                forall|k: int| 0 <= k < 6 ==> #[trigger] self.repr@[k] <= 9,
                s as int == pw_val(self.repr@.subrange(0, i as int)),
                (s as int) < (if i == 0 {
                    1int
                } else if i == 1 {
                    10int
                } else if i == 2 {
                    100int
                } else if i == 3 {
                    1000int
                } else if i == 4 {
                    10000int
                } else if i == 5 {
                    100000int
                } else {
                    1000000int
                }),
            decreases 6 - i,
        {
            proof {
                assert(self.repr@.subrange(0, i as int + 1).drop_last() =~= self.repr@.subrange(
                    0,
                    i as int,
                ));
                assert(self.repr@.subrange(0, i as int + 1).last() == self.repr@[i as int]);
            }
            s = s * 10 + (self.repr[i] as u32);
            i = i + 1;
        }
        proof {
            assert(self.repr@.subrange(0, 6) =~= self.repr@);
        }
        s
    }

    /// The stored form of a code value: its decimal digits left-aligned.
    pub fn from_u32(input: u32) -> (r: Password)
        requires
            input <= 999999,
        ensures
            forall|i: int| 0 <= i < 6 ==> #[trigger] r.repr@[i] as int == spec_digit(
                input as int,
                i,
            ),
            forall|i: int| 0 <= i < 6 ==> #[trigger] r.repr@[i] <= 9,
    {
        let n = input;
        let repr: [u8; 6] = if n < 10 {
            [n as u8, 0, 0, 0, 0, 0]
        } else if n < 100 {
            [(n / 10) as u8, (n % 10) as u8, 0, 0, 0, 0]
        } else if n < 1000 {
            [(n / 100) as u8, ((n / 10) % 10) as u8, (n % 10) as u8, 0, 0, 0]
        } else if n < 10000 {
            [
                (n / 1000) as u8,
                ((n / 100) % 10) as u8,
                ((n / 10) % 10) as u8,
                (n % 10) as u8,
                0,
                0,
            ]
        } else if n < 100000 {
            [
                (n / 10000) as u8,
                ((n / 1000) % 10) as u8,
                ((n / 100) % 10) as u8,
                ((n / 10) % 10) as u8,
                (n % 10) as u8,
                0,
            ]
        } else {
            [
                (n / 100000) as u8,
                ((n / 10000) % 10) as u8,
                ((n / 1000) % 10) as u8,
                ((n / 100) % 10) as u8,
                ((n / 10) % 10) as u8,
                (n % 10) as u8,
            ]
        };
        Password { repr }
    }
}

/// Whether the code's digits never decrease.
pub fn only_ascending_digits(password: &Password) -> (r: bool)
    ensures
        r == spec_ascending(password.repr@),
{
    let mut idx: usize = 0;
    while idx < 5
        invariant
            idx <= 5,
            forall|k: int| 0 <= k < idx ==> #[trigger] password.repr@[k] <= password.repr@[k + 1],
        decreases 5 - idx,
    {
        if password.repr[idx] > password.repr[idx + 1] {
            return false;
        }
        idx = idx + 1;
    }
    true
}

/// Whether some digit pair stands alone.
pub fn adjacent_double_digits(password: &Password) -> (r: bool)
    ensures
        r == spec_lone_double(password.repr@),
{
    let mut idx: usize = 0;
    while idx < 5
        invariant
            idx <= 5,
            forall|i: int|
                0 <= i < idx ==> !(#[trigger] password.repr@[i] == password.repr@[i + 1] && (i == 0
                    ==> password.repr@[0] != password.repr@[2]) && (i >= 4 ==> password.repr@[3]
                    != password.repr@[4]) && (0 < i < 4 ==> password.repr@[i - 1]
                    != password.repr@[i] && password.repr@[i] != password.repr@[i + 2])),
        decreases 5 - idx,
    {
        if password.repr[idx] == password.repr[idx + 1] {
            if idx == 0 {
                if password.repr[idx] != password.repr[idx + 2] {
                    return true;
                }
            } else if idx + 2 >= 6 {
                if password.repr[idx] != password.repr[idx - 1] {
                    return true;
                }
            } else {
                if password.repr[idx] != password.repr[idx - 1] && password.repr[idx]
                    != password.repr[idx + 2] {
                    return true;
                }
            }
        }
        idx = idx + 1;
    }
    false
}

/// Digit `i` after the raising pass: the largest stored digit of the
/// value's successor at or before position `i`.
pub open spec fn spec_raised(v: int, i: int) -> int
    decreases i,
{
    if i <= 0 {
        spec_digit(v, 0)
    } else {
        let prev = spec_raised(v, i - 1);
        if spec_digit(v, i) > prev {
            spec_digit(v, i)
        } else {
            prev
        }
    }
}

/// The next candidate after `password`: its value plus one, with each
/// digit from the second on raised to at least its left neighbour.
pub fn get_next_password(password: &Password) -> (r: Password)
    requires
        forall|i: int| 0 <= i < 6 ==> #[trigger] password.repr@[i] <= 9,
        pw_val(password.repr@) < 999999,
    ensures
        spec_ascending(r.repr@),
        forall|i: int|
            0 <= i < 6 ==> #[trigger] r.repr@[i] as int == spec_raised(
                pw_val(password.repr@) + 1,
                i,
            ),
{
    let v = password.get_u32();
    let mut next = Password::from_u32(v + 1);
    let ghost succ: int = v as int + 1;
    proof {
        assert(next.repr@[0] as int == spec_raised(succ, 0));
    }
    let mut idx: usize = 0;
    while idx < 5
        invariant
            idx <= 5,
            forall|k: int| 0 <= k < idx ==> #[trigger] next.repr@[k] <= next.repr@[k + 1],
            forall|k: int|
                0 <= k <= idx ==> #[trigger] next.repr@[k] as int == spec_raised(succ, k),
            forall|k: int|
                idx < k < 6 ==> #[trigger] next.repr@[k] as int == spec_digit(succ, k),
        decreases 5 - idx,
    {
        while next.repr[idx] > next.repr[idx + 1]
            invariant
                idx < 5,
                forall|k: int| 0 <= k < idx ==> #[trigger] next.repr@[k] <= next.repr@[k + 1],
                forall|k: int|
                    0 <= k <= idx ==> #[trigger] next.repr@[k] as int == spec_raised(succ, k),
                forall|k: int|
                    idx + 1 < k < 6 ==> #[trigger] next.repr@[k] as int == spec_digit(succ, k),
                next.repr@[idx as int] <= 255,
                next.repr@[idx as int + 1] as int <= (if spec_raised(succ, idx as int)
                    > spec_digit(succ, idx as int + 1) {
                    spec_raised(succ, idx as int)
                } else {
                    spec_digit(succ, idx as int + 1)
                }),
                next.repr@[idx as int + 1] as int >= spec_digit(succ, idx as int + 1),
            decreases next.repr@[idx as int] - next.repr@[idx as int + 1],
        {
            next.repr[idx + 1] = next.repr[idx + 1] + 1;
        }
        proof {
            assert(next.repr@[idx as int + 1] as int == spec_raised(succ, idx as int + 1));
        }
        idx = idx + 1;
    }
    next
}

/// How many codes in the searched range pass both digit rules.
pub fn start() -> (r: u32)
    ensures
        r <= INPUT_MAX - INPUT_MIN + 1,
{
    let mut count: u32 = 0;
    let mut candidate: u32 = INPUT_MIN;
    while candidate <= INPUT_MAX
        invariant
            INPUT_MIN <= candidate <= INPUT_MAX + 1,
            count <= candidate - INPUT_MIN,
        decreases INPUT_MAX + 1 - candidate,
    {
        let password = Password::from_u32(candidate);
        if only_ascending_digits(&password) && adjacent_double_digits(&password) {
            count = count + 1;
        }
        candidate = candidate + 1;
    }
    count
}

} // verus!
