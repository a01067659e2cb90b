//! Fuel accounting: a module's fuel is its mass over three, rounded down,
//! minus two — and fuel itself needs fuel, until the requirement dies out.

use crate::intcode::{parse_i64, split_on, trim_spec};
use vstd::prelude::*;
use vstd::string::StrSliceExecFns;
use vstd::string::StringSliceAdditionalSpecFns;

verus! {

/// Division by three truncating towards zero, as the machine divides.
pub open spec fn tdiv3(x: int) -> int {
    if x >= 0 {
        x / 3
    } else {
        -((-x) / 3)
    }
}

/// Fuel for the fuel: one more round of mass over three minus two, summed
/// until the requirement is no longer positive.
pub open spec fn spec_fuel(m: int) -> int
    decreases (if m > 0 {
        m
    } else {
        0int
    }),
{
    let f = tdiv3(m) - 2;
    if f <= 0 {
        0
    } else {
        f + spec_fuel(f)
    }
}

/// The recursive requirement never exceeds the mass it serves.
pub proof fn lemma_fuel_bound(m: int)
    requires
        m >= 0,
    ensures
        0 <= spec_fuel(m) <= m,
    decreases m,
{
    let f = tdiv3(m) - 2;
    if f > 0 {
        lemma_fuel_bound(f);
    }
}

/// Fuel needed on top of a module's own first requirement.
pub fn fuel_mass(input: i32) -> (r: i32)
    requires
        input > i32::MIN,
    ensures
        r as int == spec_fuel(input as int),
    decreases (if input > 0 {
        input
    } else {
        0i32
    }),
{
    let mass: i32 = if input >= 0 {
        input / 3 - 2
    } else {
        -((-input) / 3) - 2
    };
    if mass <= 0 {
        0
    } else {
        proof {
            lemma_fuel_bound(mass as int);
        }
        mass + fuel_mass(mass)
    }
}

/// Total for one module line: first requirement plus the fuel's own fuel.
pub open spec fn spec_line_total(parsed: int) -> int {
    let init = tdiv3(parsed) - 2;
    init + spec_fuel(init)
}

/// Sum over the lines, newline separated, empty lines skipped; nothing as
/// soon as a line is not a signed number.
pub open spec fn spec_fuel_sum(lines: Seq<Seq<u8>>) -> Option<int>
    decreases lines.len(),
{
    if lines.len() == 0 {
        Some(0)
    } else {
        let rest = spec_fuel_sum(lines.subrange(1, lines.len() as int));
        if lines[0].len() == 0 {
            rest
        } else {
            match parse_i64(lines[0]) {
                None => None,
                Some(v) => {
                    if v < i32::MIN as i64 || v > i32::MAX as i64 {
                        None
                    } else {
                        match rest {
                            None => None,
                            Some(s) => Some(spec_line_total(v as int) + s),
                        }
                    }
                },
            }
        }
    }
}

/// What [`start`] computes over the module list's text.
pub open spec fn spec_start(bytes: Seq<u8>) -> Option<int> {
    spec_fuel_sum(split_on(bytes, 10))
}

/// Sum the fuel requirement over all module lines.
pub fn start(input: &str) -> (r: Option<i128>)
    ensures
        r matches Some(v) ==> spec_start(input.spec_bytes()) == Some(v as int),
        r is None ==> spec_start(input.spec_bytes()) is None,
{
    let bs: Vec<u8> = input.as_bytes_vec();
    let lines = crate::text::split_bytes(&bs, 10);
    let n = lines.len();
    let mut sum: i128 = 0;
    proof {
        assert(lines.deep_view().subrange(0, n as int) =~= lines.deep_view());
    }
    let mut i: usize = 0;
    while i < n
        invariant
            i <= n,
            n == lines@.len(),
            lines.deep_view() == split_on(input.spec_bytes(), 10),
            -(i as int) * 0x200000000 <= sum as int <= (i as int) * 0x200000000,
            (match spec_fuel_sum(lines.deep_view().subrange(i as int, n as int)) {
                None => spec_start(input.spec_bytes()) is None,
                Some(rest) => spec_start(input.spec_bytes()) == Some(sum as int + rest),
            }),
        decreases n - i,
    {
        let ghost remaining: Seq<Seq<u8>> = lines.deep_view().subrange(i as int, n as int);
        proof {
            assert(remaining[0] == lines.deep_view()[i as int]);
            assert(lines.deep_view()[i as int] == lines@[i as int]@);
            assert(remaining.subrange(1, remaining.len() as int) =~= lines.deep_view().subrange(
                i as int + 1,
                n as int,
            ));
        }
        if lines[i].len() > 0 {
            let parsed64 = match crate::text::parse_i64_bytes(&lines[i]) {
                Some(v) => v,
                None => { return None; },
            };
            if parsed64 < i32::MIN as i64 || parsed64 > i32::MAX as i64 {
                return None;
            }
            let init64: i64 = if parsed64 >= 0 {
                parsed64 / 3 - 2
            } else {
                -((-parsed64) / 3) - 2
            };
            let init_mass: i32 = init64 as i32;
            proof {
                assert(init_mass as int == tdiv3(parsed64 as int) - 2);
            }
            proof {
                assert(init_mass > i32::MIN);
                if init_mass > 0 {
                    lemma_fuel_bound(init_mass as int);
                }
            }
            let extra: i32 = fuel_mass(init_mass);
            sum = sum + (init_mass as i128) + (extra as i128);
        }
        i = i + 1;
    }
    proof {
        assert(lines.deep_view().subrange(n as int, n as int) =~= Seq::<Seq<u8>>::empty());
    }
    Some(sum)
}

} // verus!
