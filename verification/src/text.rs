//! Executable text utilities over byte buffers, each pinned to the
//! specification-level functions of [`crate::intcode`]: trimming,
//! separator splitting, and unsigned decimal parsing.

use crate::intcode::{
    all_digits, digits_val, find_byte, is_space, lemma_digits_val_bounds, lemma_digits_val_prefix,
    lemma_find_byte_spec, split_on, trim_spec,
};
use vstd::prelude::*;

verus! {

/// A copy of `bs[from..to]`.
pub fn copy_range(bs: &Vec<u8>, from: usize, to: usize) -> (r: Vec<u8>)
    requires
        from <= to <= bs@.len(),
    ensures
        r@ == bs@.subrange(from as int, to as int),
{
    let mut r: Vec<u8> = Vec::new();
    let mut i: usize = from;
    while i < to
        invariant
            from <= i <= to <= bs@.len(),
            r@ == bs@.subrange(from as int, i as int),
        decreases to - i,
    {
        r.push(bs[i]);
        proof {
            assert(r@ =~= bs@.subrange(from as int, i as int + 1));
        }
        i = i + 1;
    }
    r
}

/// Whether two byte strings are equal.
pub fn eq_bytes(a: &Vec<u8>, b: &Vec<u8>) -> (r: bool)
    ensures
        r == (a@ == b@),
{
    if a.len() != b.len() {
        return false;
    }
    let n = a.len();
    let mut i: usize = 0;
    while i < n
        invariant
            i <= n,
            n == a@.len() == b@.len(),
            forall|k: int| 0 <= k < i ==> a@[k] == #[trigger] b@[k],
        decreases n - i,
    {
        if a[i] != b[i] {
            return false;
        }
        i = i + 1;
    }
    proof {
        assert(a@ =~= b@);
    }
    true
}

/// The buffer with surrounding whitespace removed.
pub fn trim_vec(bs: &Vec<u8>) -> (r: Vec<u8>)
    ensures
        r@ == trim_spec(bs@),
{
    let n: usize = bs.len();
    proof {
        assert(bs@.subrange(0, n as int) =~= bs@);
    }
    let mut lo: usize = 0;
    while lo < n && (bs[lo] == 32 || bs[lo] == 9 || bs[lo] == 10 || bs[lo] == 13)
        invariant
            lo <= n,
            n == bs@.len(),
            trim_spec(bs@) == trim_spec(bs@.subrange(lo as int, n as int)),
        decreases n - lo,
    {
        proof {
            let s = bs@.subrange(lo as int, n as int);
            assert(s[0] == bs@[lo as int]);
            assert(is_space(s[0]));
            assert(s.subrange(1, s.len() as int) =~= bs@.subrange(lo as int + 1, n as int));
        }
        lo = lo + 1;
    }
    let mut hi: usize = n;
    while hi > lo && (bs[hi - 1] == 32 || bs[hi - 1] == 9 || bs[hi - 1] == 10 || bs[hi - 1] == 13)
        invariant
            lo <= hi <= n,
            n == bs@.len(),
            lo == n || !is_space(bs@[lo as int]),
            trim_spec(bs@) == trim_spec(bs@.subrange(lo as int, hi as int)),
        decreases hi,
    {
        proof {
            let s = bs@.subrange(lo as int, hi as int);
            assert(s[0] == bs@[lo as int]);
            assert(s[s.len() - 1] == bs@[hi as int - 1]);
            assert(is_space(s[s.len() - 1]));
            assert(s.subrange(0, s.len() - 1) =~= bs@.subrange(lo as int, hi as int - 1));
        }
        hi = hi - 1;
    }
    proof {
        let t = bs@.subrange(lo as int, hi as int);
        if t.len() > 0 {
            assert(t[0] == bs@[lo as int]);
            assert(t[t.len() - 1] == bs@[hi as int - 1]);
        }
        assert(trim_spec(bs@) == t);
    }
    copy_range(bs, lo, hi)
}

/// The tokens of the buffer between occurrences of `sep`, in order.
pub fn split_bytes(bs: &Vec<u8>, sep: u8) -> (r: Vec<Vec<u8>>)
    ensures
        r.deep_view() == split_on(bs@, sep),
{
    let n: usize = bs.len();
    let mut toks: Vec<Vec<u8>> = Vec::new();
    let mut pos: usize = 0;
    let mut done = false;
    proof {
        assert(bs@.subrange(0, n as int) =~= bs@);
    }
    while !done
        invariant
            pos <= n,
            n == bs@.len(),
            !done ==> split_on(bs@, sep) == toks.deep_view() + split_on(
                bs@.subrange(pos as int, n as int),
                sep,
            ),
            done ==> toks.deep_view() == split_on(bs@, sep),
        decreases n as int - pos as int + (if done {
            0int
        } else {
            1int
        }),
    {
        let mut j: usize = pos;
        while j < n && bs[j] != sep
            invariant
                pos <= j <= n,
                n == bs@.len(),
                forall|k: int| pos <= k < j ==> bs@[k] != sep,
            decreases n - j,
        {
            j = j + 1;
        }
        let ghost rem: Seq<u8> = bs@.subrange(pos as int, n as int);
        let tok = copy_range(bs, pos, j);
        proof {
            lemma_find_byte_spec(rem, sep);
            assert(forall|k: int| 0 <= k < rem.len() ==> rem[k] == #[trigger] bs@[pos as int + k]);
            if j < n {
                assert(rem[j - pos] == sep);
                assert(forall|k: int| 0 <= k < j - pos ==> rem[k] != sep);
                assert(find_byte(rem, sep) == j - pos);
                assert(rem.subrange(0, j - pos) =~= tok@);
                assert(rem.subrange(j - pos + 1, rem.len() as int) =~= bs@.subrange(
                    j as int + 1,
                    n as int,
                ));
                assert(split_on(rem, sep) == seq![tok@] + split_on(
                    bs@.subrange(j as int + 1, n as int),
                    sep,
                ));
            } else {
                assert(forall|k: int| 0 <= k < rem.len() ==> rem[k] != sep);
                assert(find_byte(rem, sep) == -1);
                assert(rem =~= tok@);
                assert(split_on(rem, sep) == seq![tok@]);
            }
        }
        let ghost toks0: Seq<Seq<u8>> = toks.deep_view();
        let ghost tokv: Seq<u8> = tok@;
        toks.push(tok);
        proof {
            assert(toks.deep_view() =~~= toks0.push(tokv));
            assert(forall|rest: Seq<Seq<u8>>|
                toks0 + (seq![tokv] + rest) =~= #[trigger] (toks.deep_view() + rest));
            assert(toks0 + seq![tokv] =~= toks.deep_view());
        }
        if j == n {
            proof {
                assert(toks.deep_view() + Seq::<Seq<u8>>::empty() =~= toks.deep_view());
            }
            done = true;
        } else {
            pos = j + 1;
        }
    }
    toks
}

/// Parse the whole buffer as an unsigned decimal number: an optional plus
/// sign, then one or more digits, within the unsigned 64-bit range, as
/// [`crate::fourteen::parse_u64_tok`] reads it.
pub fn parse_u64_bytes(bs: &Vec<u8>) -> (r: Option<u64>)
    ensures
        r == crate::fourteen::parse_u64_tok(bs@),
{
    let n: usize = bs.len();
    let mut p: usize = 0;
    if p < n && bs[p] == 43 {
        p = p + 1;
    }
    let ghost sgn: int = p as int;
    let ghost ds: Seq<u8> = if sgn == 1 {
        bs@.subrange(1, n as int)
    } else {
        bs@
    };
    proof {
        if sgn == 0 {
            assert(ds =~= bs@);
        }
    }
    if p == n {
        return None;
    }
    let mut acc: u64 = 0;
    while p < n
        invariant
            sgn <= p as int <= n as int,
            0 <= sgn <= 1,
            n == bs@.len(),
            ds == bs@.subrange(sgn, n as int),
            sgn == 0 ==> ds == bs@,
            (sgn == 1) == (n > 0 && bs@[0] == 43),
            all_digits(ds.subrange(0, p - sgn)),
            acc as int == digits_val(ds.subrange(0, p - sgn)),
        decreases n - p,
    {
        let ghost j: int = p - sgn;
        let ghost pref: Seq<u8> = ds.subrange(0, j);
        proof {
            assert(ds[j] == bs@[p as int]);
            assert(ds.subrange(0, j + 1).drop_last() =~= pref);
            assert(ds.subrange(0, j + 1).last() == ds[j]);
        }
        let c = bs[p];
        if c < 48 || c > 57 {
            proof {
                assert(!all_digits(ds));
            }
            return None;
        }
        proof {
            lemma_digits_val_bounds(pref);
            if all_digits(ds) {
                lemma_digits_val_prefix(ds, j + 1);
            }
        }
        let acc10 = match acc.checked_mul(10) {
            Some(a) => a,
            None => {
                proof {
                    if all_digits(ds) {
                        assert(digits_val(ds.subrange(0, j + 1)) == digits_val(pref) * 10 + (
                        ds[j] - 48));
                        assert(digits_val(ds) > u64::MAX as int);
                    }
                }
                return None;
            },
        };
        let d = (c - 48) as u64;
        let acc2 = match acc10.checked_add(d) {
            Some(a) => a,
            None => {
                proof {
                    if all_digits(ds) {
                        assert(digits_val(ds.subrange(0, j + 1)) == digits_val(pref) * 10 + (
                        ds[j] - 48));
                        assert(digits_val(ds) > u64::MAX as int);
                    }
                }
                return None;
            },
        };
        proof {
            assert(digits_val(ds.subrange(0, j + 1)) == digits_val(pref) * 10 + (ds[j] - 48));
            assert(all_digits(ds.subrange(0, j + 1)));
        }
        acc = acc2;
        p = p + 1;
    }
    proof {
        assert(ds.subrange(0, p - sgn) =~= ds);
        assert(ds.len() >= 1);
    }
    Some(acc)
}

/// An element-for-element copy of a list of 64-bit integers.
pub fn clone_i64_vec(v: &Vec<i64>) -> (r: Vec<i64>)
    ensures
        r@ == v@,
{
    let n = v.len();
    let mut r: Vec<i64> = Vec::new();
    let mut i: usize = 0;
    while i < n
        invariant
            i <= n,
            n == v@.len(),
            r@ == v@.subrange(0, i as int),
        decreases n - i,
    {
        r.push(v[i]);
        proof {
            assert(r@ =~= v@.subrange(0, i as int + 1));
        }
        i = i + 1;
    }
    proof {
        assert(v@.subrange(0, n as int) =~= v@);
    }
    r
}

/// An element-for-element copy of a list of 32-bit integers.
pub fn clone_i32_vec(v: &Vec<i32>) -> (r: Vec<i32>)
    ensures
        r@ == v@,
{
    let n = v.len();
    let mut r: Vec<i32> = Vec::new();
    let mut i: usize = 0;
    while i < n
        invariant
            i <= n,
            n == v@.len(),
            r@ == v@.subrange(0, i as int),
        decreases n - i,
    {
        r.push(v[i]);
        proof {
            assert(r@ =~= v@.subrange(0, i as int + 1));
        }
        i = i + 1;
    }
    proof {
        assert(v@.subrange(0, n as int) =~= v@);
    }
    r
}

/// Parse the whole buffer as a signed decimal number, as
/// [`crate::intcode::parse_i64`] reads it.
pub fn parse_i64_bytes(bs: &Vec<u8>) -> (r: Option<i64>)
    ensures
        r == crate::intcode::parse_i64(bs@),
{
    let n = bs.len();
    proof {
        assert(bs@.subrange(0, n as int) =~= bs@);
    }
    crate::intcode::parse_token(bs, 0, n)
}

/// Relies on alloc's String::from_utf8: ASCII bytes decode one for one to
/// the characters with the same code points.
#[verifier::external_body]
pub fn ascii_string(bytes: Vec<u8>) -> (r: String)
    requires
        forall|i: int| 0 <= i < bytes@.len() ==> bytes@[i] < 128,
    ensures
        r@.len() == bytes@.len(),
        forall|i: int| 0 <= i < r@.len() ==> r@[i] == bytes@[i] as char,
{
    String::from_utf8(bytes).unwrap_or_default()
}

} // verus!
