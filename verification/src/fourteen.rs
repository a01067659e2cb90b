//! Nanofactory bookkeeping: reactions turn fixed quantities of input
//! chemicals into an output chemical; starting from one order the
//! requirement queue is expanded reaction by reaction, keeping surplus in a
//! reserve, until only ore remains counted.

use crate::intcode::{find_byte, lemma_find_byte_spec, split_on, trim_spec};
use vstd::prelude::*;
use vstd::string::StrSliceExecFns;
use vstd::string::StringSliceAdditionalSpecFns;

verus! {

/// Abstract order: a quantity of one chemical.
#[verifier::ext_equal]
pub ghost struct OrderS {
    pub kind: Seq<u8>,
    pub quantity: int,
}

/// A quantity of one chemical, named by its byte string.
#[derive(Clone, Debug)]
pub struct Order {
    pub kind: Vec<u8>,
    pub quantity: u64,
}

impl View for Order {
    type V = OrderS;

    open spec fn view(&self) -> OrderS {
        OrderS { kind: self.kind@, quantity: self.quantity as int }
    }
}

impl DeepView for Order {
    type V = OrderS;

    open spec fn deep_view(&self) -> OrderS {
        self@
    }
}

/// Abstract reaction.
#[verifier::ext_equal]
pub ghost struct FormulaS {
    pub output: OrderS,
    pub input: Seq<OrderS>,
}

/// One reaction: the inputs consumed to produce the output.
#[derive(Clone, Debug)]
pub struct Formula {
    pub output: Order,
    pub input: Vec<Order>,
}

impl View for Formula {
    type V = FormulaS;

    open spec fn view(&self) -> FormulaS {
        FormulaS { output: self.output@, input: self.input.deep_view() }
    }
}

impl DeepView for Formula {
    type V = FormulaS;

    open spec fn deep_view(&self) -> FormulaS {
        self@
    }
}

/// Numeric value of an unsigned decimal token: an optional plus sign, then
/// one or more digits, with the value within the unsigned 64-bit range.
pub open spec fn parse_u64_tok(s: Seq<u8>) -> Option<u64> {
    let ds = if s.len() > 0 && s[0] == 43 {
        s.subrange(1, s.len() as int)
    } else {
        s
    };
    if ds.len() == 0 || !crate::intcode::all_digits(ds) {
        None
    } else {
        let v = crate::intcode::digits_val(ds);
        if v <= u64::MAX as int {
            Some(v as u64)
        } else {
            None
        }
    }
}

/// An order read from text: surrounding whitespace dropped, then the
/// quantity and the chemical's name separated by a single space (exactly
/// the first two space-separated fields; anything further is ignored).
pub open spec fn parse_order(s: Seq<u8>) -> Option<OrderS> {
    let toks = split_on(trim_spec(s), 32);
    if toks.len() < 2 {
        None
    } else {
        match parse_u64_tok(toks[0]) {
            None => None,
            Some(q) => Some(OrderS { kind: toks[1], quantity: q as int }),
        }
    }
}

/// Index of the first `=>` in `s`, or -1 when there is none.
pub open spec fn find_arrow(s: Seq<u8>) -> int
    decreases s.len(),
{
    if s.len() < 2 {
        -1
    } else if s[0] == 61 && s[1] == 62 {
        0
    } else {
        let r = find_arrow(s.subrange(1, s.len() as int));
        if r < 0 {
            -1
        } else {
            r + 1
        }
    }
}

/// A found arrow lies in bounds, is an arrow, and is the first one.
pub proof fn lemma_find_arrow_spec(s: Seq<u8>)
    ensures
        find_arrow(s) < 0 ==> forall|k: int|
            0 <= k < s.len() - 1 ==> !(s[k] == 61 && #[trigger] s[k + 1] == 62),
        find_arrow(s) >= 0 ==> 0 <= find_arrow(s) < s.len() - 1 && s[find_arrow(s)] == 61 && s[
            find_arrow(s) + 1] == 62 && (forall|k: int|
            0 <= k < find_arrow(s) ==> !(s[k] == 61 && #[trigger] s[k + 1] == 62)),
    decreases s.len(),
{
    if s.len() >= 2 && !(s[0] == 61 && s[1] == 62) {
        let t = s.subrange(1, s.len() as int);
        lemma_find_arrow_spec(t);
        assert(forall|k: int| 1 <= k < s.len() ==> s[k] == #[trigger] t[k - 1]);
        if find_arrow(t) < 0 {
            assert forall|k: int| 0 <= k < s.len() - 1 implies !(s[k] == 61 && #[trigger] s[k + 1]
                == 62) by {
                if k >= 1 {
                    assert(!(t[k - 1] == 61 && t[k] == 62));
                }
            }
        } else {
            let r = find_arrow(t);
            assert(s[r + 1] == t[r] && s[r + 2] == t[r + 1]);
            assert forall|k: int| 0 <= k < r + 1 implies !(s[k] == 61 && #[trigger] s[k + 1]
                == 62) by {
                if k >= 1 {
                    assert(!(t[k - 1] == 61 && t[k] == 62));
                }
            }
        }
    }
}

/// The orders of all tokens, in order; `None` as soon as one is malformed.
pub open spec fn parse_orders(toks: Seq<Seq<u8>>) -> Option<Seq<OrderS>>
    decreases toks.len(),
{
    if toks.len() == 0 {
        Some(Seq::empty())
    } else {
        match parse_order(toks[0]) {
            None => None,
            Some(o) => match parse_orders(toks.subrange(1, toks.len() as int)) {
                None => None,
                Some(rest) => Some(seq![o] + rest),
            },
        }
    }
}

/// A reaction read from text: the part before the first `=>` is the
/// comma-separated inputs, the part between the first and a possible second
/// `=>` is the output.
pub open spec fn parse_formula(s: Seq<u8>) -> Option<FormulaS> {
    let c1 = find_arrow(s);
    if c1 < 0 {
        None
    } else {
        let left = s.subrange(0, c1);
        let rest = s.subrange(c1 + 2, s.len() as int);
        let c2 = find_arrow(rest);
        let mid = if c2 < 0 {
            rest
        } else {
            rest.subrange(0, c2)
        };
        match parse_order(mid) {
            None => None,
            Some(out) => match parse_orders(split_on(left, 44)) {
                None => None,
                Some(ins) => Some(FormulaS { output: out, input: ins }),
            },
        }
    }
}

/// Whether some reaction already produces the chemical `k`.
pub open spec fn has_kind(fs: Seq<FormulaS>, k: Seq<u8>) -> bool {
    exists|i: int| 0 <= i < fs.len() && #[trigger] fs[i].output.kind == k
}

/// All reactions of the text, one per line, refusing a second reaction for
/// a chemical already produced.
pub open spec fn build_formulas(lines: Seq<Seq<u8>>, acc: Seq<FormulaS>) -> Option<Seq<FormulaS>>
    decreases lines.len(),
{
    if lines.len() == 0 {
        Some(acc)
    } else {
        match parse_formula(lines[0]) {
            None => None,
            Some(f) => {
                if has_kind(acc, f.output.kind) {
                    None
                } else {
                    build_formulas(lines.subrange(1, lines.len() as int), acc.push(f))
                }
            },
        }
    }
}

/// What [`parse_input`] reads from the reaction list's text.
pub open spec fn spec_parse_input(bytes: Seq<u8>) -> Option<Seq<FormulaS>> {
    build_formulas(split_on(trim_spec(bytes), 10), Seq::empty())
}

/// Parse one order from a byte buffer.
fn parse_order_bytes(bs: &Vec<u8>) -> (r: Option<Order>)
    ensures
        r matches Some(o) ==> parse_order(bs@) == Some(o@),
        r is None ==> parse_order(bs@) is None,
{
    let t = crate::text::trim_vec(bs);
    let toks = crate::text::split_bytes(&t, 32);
    if toks.len() < 2 {
        return None;
    }
    proof {
        assert(toks.deep_view()[0] == toks@[0]@);
        assert(toks.deep_view()[1] == toks@[1]@);
    }
    let q = match crate::text::parse_u64_bytes(&toks[0]) {
        Some(q) => q,
        None => { return None; },
    };
    let kind = crate::text::copy_range(&toks[1], 0, toks[1].len());
    proof {
        assert(kind@ =~= toks@[1]@);
    }
    Some(Order { kind, quantity: q })
}

impl Order {
    /// An order from its textual form, `None` when the text is malformed.
    pub fn from_str(kind_quantity: &str) -> (r: Option<Order>)
        ensures
            r matches Some(o) ==> parse_order(kind_quantity.spec_bytes()) == Some(o@),
            r is None ==> parse_order(kind_quantity.spec_bytes()) is None,
    {
        let bs: Vec<u8> = kind_quantity.as_bytes_vec();
        parse_order_bytes(&bs)
    }
}

/// Index of the first `=>` of the buffer, if any.
fn scan_arrow(bs: &Vec<u8>) -> (r: Option<usize>)
    ensures
        r matches Some(j) ==> find_arrow(bs@) == j as int && j as int + 1 < bs@.len(),
        r is None ==> find_arrow(bs@) == -1,
{
    let n: usize = bs.len();
    if n < 1 {
        proof {
            lemma_find_arrow_spec(bs@);
        }
        return None;
    }
    let mut j: usize = 0;
    while j + 1 < n
        invariant
            j < n,
            n == bs@.len(),
            forall|k: int| 0 <= k < j ==> !(bs@[k] == 61 && #[trigger] bs@[k + 1] == 62),
        decreases n - j,
    {
        if bs[j] == 61 && bs[j + 1] == 62 {
            proof {
                lemma_find_arrow_spec(bs@);
            }
            return Some(j);
        }
        j = j + 1;
    }
    proof {
        lemma_find_arrow_spec(bs@);
    }
    None
}

/// Parse one reaction from a byte buffer.
fn parse_formula_bytes(bs: &Vec<u8>) -> (r: Option<Formula>)
    ensures
        r matches Some(f) ==> parse_formula(bs@) == Some(f@),
        r is None ==> parse_formula(bs@) is None,
{
    let a1 = match scan_arrow(bs) {
        Some(a1) => a1,
        None => { return None; },
    };
    let n = bs.len();
    let left = crate::text::copy_range(bs, 0, a1);
    let rest = crate::text::copy_range(bs, a1 + 2, n);
    let mid = match scan_arrow(&rest) {
        Some(a2) => crate::text::copy_range(&rest, 0, a2),
        None => crate::text::copy_range(&rest, 0, rest.len()),
    };
    proof {
        assert(rest@.subrange(0, rest@.len() as int) =~= rest@);
    }
    let out = match parse_order_bytes(&mid) {
        Some(o) => o,
        None => {
            proof {
                let c1 = find_arrow(bs@);
                let spec_rest = bs@.subrange(c1 + 2, bs@.len() as int);
                assert(spec_rest == rest@);
                let c2 = find_arrow(spec_rest);
                let spec_mid = if c2 < 0 {
                    spec_rest
                } else {
                    spec_rest.subrange(0, c2)
                };
                assert(spec_mid == mid@);
                assert(parse_order(spec_mid) is None);
            }
            return None;
        },
    };
    let in_toks = crate::text::split_bytes(&left, 44);
    let mut ins: Vec<Order> = Vec::new();
    let n = in_toks.len();
    proof {
        assert(in_toks.deep_view().subrange(0, n as int) =~= in_toks.deep_view());
        assert(ins.deep_view() =~~= Seq::<OrderS>::empty());
        if parse_orders(in_toks.deep_view()) is Some {
            assert(ins.deep_view() + parse_orders(in_toks.deep_view())->0 =~= parse_orders(
                in_toks.deep_view(),
            )->0);
        }
    }
    let mut i: usize = 0;
    while i < n
        invariant
            i <= n,
            n == in_toks@.len(),
            find_arrow(bs@) == a1 as int && a1 as int + 1 < bs@.len(),
            left@ == bs@.subrange(0, a1 as int),
            in_toks.deep_view() == split_on(left@, 44),
            parse_orders(in_toks.deep_view()) == (match parse_orders(
                in_toks.deep_view().subrange(i as int, n as int),
            ) {
                None => None::<Seq<OrderS>>,
                Some(rest_orders) => Some(ins.deep_view() + rest_orders),
            }),
        decreases n - i,
    {
        let ghost remaining: Seq<Seq<u8>> = in_toks.deep_view().subrange(i as int, n as int);
        proof {
            assert(remaining[0] == in_toks.deep_view()[i as int]);
            assert(in_toks.deep_view()[i as int] == in_toks@[i as int]@);
            assert(remaining.subrange(1, remaining.len() as int) =~= in_toks.deep_view().subrange(
                i as int + 1,
                n as int,
            ));
        }
        let o = match parse_order_bytes(&in_toks[i]) {
            Some(o) => o,
            None => {
                proof {
                    assert(parse_orders(remaining) is None);
                    assert(parse_orders(in_toks.deep_view()) is None);
                    assert(bs@.subrange(0, find_arrow(bs@)) == left@);
                    assert(split_on(bs@.subrange(0, find_arrow(bs@)), 44) == in_toks.deep_view());
                }
                return None;
            },
        };
        let ghost ins0: Seq<OrderS> = ins.deep_view();
        let ghost ov: OrderS = o@;
        ins.push(o);
        proof {
            assert(ins.deep_view() =~~= ins0.push(ov));
            assert(forall|ro: Seq<OrderS>|
                ins0 + (seq![ov] + ro) =~= #[trigger] (ins.deep_view() + ro));
        }
        i = i + 1;
    }
    proof {
        assert(in_toks.deep_view().subrange(n as int, n as int) =~= Seq::<Seq<u8>>::empty());
        assert(parse_orders(Seq::<Seq<u8>>::empty()) == Some(Seq::<OrderS>::empty()));
        assert(ins.deep_view() + Seq::<OrderS>::empty() =~= ins.deep_view());
    }
    Some(Formula { output: out, input: ins })
}

impl Formula {
    /// A reaction from its textual form, `None` when the text is malformed.
    pub fn from_str(formula: &str) -> (r: Option<Formula>)
        ensures
            r matches Some(f) ==> parse_formula(formula.spec_bytes()) == Some(f@),
            r is None ==> parse_formula(formula.spec_bytes()) is None,
    {
        let bs: Vec<u8> = formula.as_bytes_vec();
        parse_formula_bytes(&bs)
    }
}

/// Whether some reaction in the list produces `kind`.
fn has_kind_ex(fs: &Vec<Formula>, kind: &Vec<u8>) -> (r: bool)
    ensures
        r == has_kind(fs.deep_view(), kind@),
{
    let n = fs.len();
    let mut i: usize = 0;
    while i < n
        invariant
            i <= n,
            n == fs@.len(),
            forall|k: int| 0 <= k < i ==> #[trigger] fs.deep_view()[k].output.kind != kind@,
        decreases n - i,
    {
        if crate::text::eq_bytes(&fs[i].output.kind, kind) {
            proof {
                assert(fs.deep_view()[i as int].output.kind == kind@);
            }
            return true;
        }
        proof {
            assert(fs.deep_view()[i as int] == fs@[i as int]@);
        }
        i = i + 1;
    }
    false
}

/// Parse the reaction list, one reaction per line; `None` on any malformed
/// line or a second reaction for an already produced chemical.
pub fn parse_input(input: &str) -> (r: Option<Vec<Formula>>)
    ensures
        r matches Some(fs) ==> spec_parse_input(input.spec_bytes()) == Some(fs.deep_view()),
        r is None ==> spec_parse_input(input.spec_bytes()) is None,
{
    let bs: Vec<u8> = input.as_bytes_vec();
    let t = crate::text::trim_vec(&bs);
    let lines = crate::text::split_bytes(&t, 10);
    let mut fs: Vec<Formula> = Vec::new();
    let n = lines.len();
    proof {
        assert(lines.deep_view().subrange(0, n as int) =~= lines.deep_view());
        assert(fs.deep_view() =~~= Seq::<FormulaS>::empty());
    }
    let mut i: usize = 0;
    while i < n
        invariant
            i <= n,
            n == lines@.len(),
            lines.deep_view() == split_on(trim_spec(input.spec_bytes()), 10),
            spec_parse_input(input.spec_bytes()) == build_formulas(
                lines.deep_view().subrange(i as int, n as int),
                fs.deep_view(),
            ),
        decreases n - i,
    {
        let ghost remaining: Seq<Seq<u8>> = lines.deep_view().subrange(i as int, n as int);
        proof {
            assert(remaining[0] == lines.deep_view()[i as int]);
            assert(lines.deep_view()[i as int] == lines@[i as int]@);
            assert(remaining.subrange(1, remaining.len() as int) =~= lines.deep_view().subrange(
                i as int + 1,
                n as int,
            ));
        }
        let f = match parse_formula_bytes(&lines[i]) {
            Some(f) => f,
            None => { return None; },
        };
        if has_kind_ex(&fs, &f.output.kind) {
            return None;
        }
        let ghost fs0: Seq<FormulaS> = fs.deep_view();
        let ghost fv: FormulaS = f@;
        fs.push(f);
        proof {
            assert(fs.deep_view() =~~= fs0.push(fv));
        }
        i = i + 1;
    }
    proof {
        assert(lines.deep_view().subrange(n as int, n as int) =~= Seq::<Seq<u8>>::empty());
    }
    Some(fs)
}

/// Abstract reserve entry.
#[verifier::ext_equal]
pub ghost struct ResS {
    pub kind: Seq<u8>,
    pub amount: int,
}

/// A surplus entry of the reserve ledger.
pub struct Reserve {
    pub kind: Vec<u8>,
    pub amount: u64,
}

impl View for Reserve {
    type V = ResS;

    open spec fn view(&self) -> ResS {
        ResS { kind: self.kind@, amount: self.amount as int }
    }
}

impl DeepView for Reserve {
    type V = ResS;

    open spec fn deep_view(&self) -> ResS {
        self@
    }
}

/// Amount on reserve for chemical `k`; 0 when it has no entry yet.
pub open spec fn res_get(rs: Seq<ResS>, k: Seq<u8>) -> int
    decreases rs.len(),
{
    if rs.len() == 0 {
        0
    } else if rs[0].kind == k {
        rs[0].amount
    } else {
        res_get(rs.subrange(1, rs.len() as int), k)
    }
}

/// Whether chemical `k` has a ledger entry.
pub open spec fn res_has(rs: Seq<ResS>, k: Seq<u8>) -> bool
    decreases rs.len(),
{
    if rs.len() == 0 {
        false
    } else if rs[0].kind == k {
        true
    } else {
        res_has(rs.subrange(1, rs.len() as int), k)
    }
}

/// The ledger with chemical `k` set to `v` (appended when new).
pub open spec fn res_set(rs: Seq<ResS>, k: Seq<u8>, v: int) -> Seq<ResS>
    decreases rs.len(),
{
    if rs.len() == 0 {
        seq![ResS { kind: k, amount: v }]
    } else if rs[0].kind == k {
        rs.update(0, ResS { kind: k, amount: v })
    } else {
        seq![rs[0]] + res_set(rs.subrange(1, rs.len() as int), k, v)
    }
}

/// Amount on reserve, executably.
fn res_get_ex(rs: &Vec<Reserve>, k: &Vec<u8>) -> (r: u64)
    ensures
        r as int == res_get(rs.deep_view(), k@),
{
    let n = rs.len();
    proof {
        assert(rs.deep_view().subrange(0, n as int) =~= rs.deep_view());
    }
    let mut i: usize = 0;
    while i < n
        invariant
            i <= n,
            n == rs@.len(),
            res_get(rs.deep_view(), k@) == res_get(
                rs.deep_view().subrange(i as int, n as int),
                k@,
            ),
        decreases n - i,
    {
        let ghost remaining: Seq<ResS> = rs.deep_view().subrange(i as int, n as int);
        proof {
            assert(remaining[0] == rs.deep_view()[i as int]);
            assert(rs.deep_view()[i as int] == rs@[i as int]@);
            assert(remaining.subrange(1, remaining.len() as int) =~= rs.deep_view().subrange(
                i as int + 1,
                n as int,
            ));
        }
        if crate::text::eq_bytes(&rs[i].kind, k) {
            return rs[i].amount;
        }
        i = i + 1;
    }
    proof {
        assert(rs.deep_view().subrange(n as int, n as int) =~= Seq::<ResS>::empty());
    }
    0
}

/// Whether the ledger has an entry, executably.
fn res_has_ex(rs: &Vec<Reserve>, k: &Vec<u8>) -> (r: bool)
    ensures
        r == res_has(rs.deep_view(), k@),
{
    let n = rs.len();
    proof {
        assert(rs.deep_view().subrange(0, n as int) =~= rs.deep_view());
    }
    let mut i: usize = 0;
    while i < n
        invariant
            i <= n,
            n == rs@.len(),
            res_has(rs.deep_view(), k@) == res_has(
                rs.deep_view().subrange(i as int, n as int),
                k@,
            ),
        decreases n - i,
    {
        let ghost remaining: Seq<ResS> = rs.deep_view().subrange(i as int, n as int);
        proof {
            assert(remaining[0] == rs.deep_view()[i as int]);
            assert(rs.deep_view()[i as int] == rs@[i as int]@);
            assert(remaining.subrange(1, remaining.len() as int) =~= rs.deep_view().subrange(
                i as int + 1,
                n as int,
            ));
        }
        if crate::text::eq_bytes(&rs[i].kind, k) {
            return true;
        }
        i = i + 1;
    }
    proof {
        assert(rs.deep_view().subrange(n as int, n as int) =~= Seq::<ResS>::empty());
    }
    false
}

/// Setting an entry whose first match is at `idx` updates it in place; a
/// chemical with no entry is appended.
proof fn lemma_res_set_shape(rs: Seq<ResS>, k: Seq<u8>, v: int, idx: int)
    requires
        0 <= idx <= rs.len(),
        forall|m: int| 0 <= m < idx ==> #[trigger] rs[m].kind != k,
        idx < rs.len() ==> rs[idx].kind == k,
        idx == rs.len() ==> !res_has(rs, k),
    ensures
        idx < rs.len() ==> res_set(rs, k, v) == rs.update(idx, ResS { kind: k, amount: v }),
        idx == rs.len() ==> res_set(rs, k, v) == rs.push(ResS { kind: k, amount: v }),
    decreases rs.len(),
{
    if rs.len() == 0 {
        assert(res_set(rs, k, v) =~= rs.push(ResS { kind: k, amount: v }));
    } else if rs[0].kind == k {
        assert(idx == 0);
    } else {
        let tail = rs.subrange(1, rs.len() as int);
        assert(forall|m: int| 0 <= m < idx - 1 ==> #[trigger] tail[m].kind != k);
        lemma_res_set_shape(tail, k, v, idx - 1);
        if idx < rs.len() {
            assert(res_set(rs, k, v) =~= rs.update(idx, ResS { kind: k, amount: v }));
        } else {
            assert(res_set(rs, k, v) =~= rs.push(ResS { kind: k, amount: v }));
        }
    }
}

/// Set an entry of the ledger, executably.
fn res_set_ex(rs: &mut Vec<Reserve>, k: &Vec<u8>, v: u64)
    ensures
        final(rs).deep_view() == res_set(old(rs).deep_view(), k@, v as int),
{
    let n = rs.len();
    let mut i: usize = 0;
    while i < n
        invariant
            i <= n,
            n == rs@.len(),
            *rs == *old(rs),
            forall|m: int| 0 <= m < i ==> #[trigger] old(rs).deep_view()[m].kind != k@,
        decreases n - i,
    {
        proof {
            assert(rs.deep_view()[i as int] == rs@[i as int]@);
        }
        if crate::text::eq_bytes(&rs[i].kind, k) {
            let kind = crate::text::copy_range(k, 0, k.len());
            proof {
                assert(kind@ =~= k@);
                lemma_res_set_shape(rs.deep_view(), k@, v as int, i as int);
            }
            let ghost before: Seq<ResS> = rs.deep_view();
            rs[i] = Reserve { kind, amount: v };
            proof {
                assert(rs.deep_view() =~~= before.update(
                    i as int,
                    ResS { kind: k@, amount: v as int },
                ));
            }
            return ;
        }
        i = i + 1;
    }
    proof {
        assert forall|m: int| 0 <= m < n implies !(#[trigger] rs.deep_view()[m].kind == k@) by {}
        lemma_res_no_entry(rs.deep_view(), k@);
        lemma_res_set_shape(rs.deep_view(), k@, v as int, n as int);
    }
    let kind = crate::text::copy_range(k, 0, k.len());
    proof {
        assert(kind@ =~= k@);
    }
    let ghost before: Seq<ResS> = rs.deep_view();
    rs.push(Reserve { kind, amount: v });
    proof {
        assert(rs.deep_view() =~~= before.push(ResS { kind: k@, amount: v as int }));
    }
}

/// A ledger whose entries all name other chemicals has no entry for `k`.
proof fn lemma_res_no_entry(rs: Seq<ResS>, k: Seq<u8>)
    requires
        forall|m: int| 0 <= m < rs.len() ==> #[trigger] rs[m].kind != k,
    ensures
        !res_has(rs, k),
    decreases rs.len(),
{
    if rs.len() > 0 {
        let tail = rs.subrange(1, rs.len() as int);
        assert(forall|m: int| 0 <= m < tail.len() ==> #[trigger] tail[m] == rs[m + 1]);
        lemma_res_no_entry(tail, k);
    }
}

/// The byte string naming raw ore.
pub open spec fn ore_kind() -> Seq<u8> {
    seq![79u8, 82u8, 69u8]
}

/// Whole batches needed to cover an order of `oq` given `prepared` already
/// on hand, each batch yielding `out`.
pub open spec fn spec_multiplier(oq: int, out: int, prepared: int) -> int
    recommends
        out > 0,
{
    if oq > prepared {
        (oq - prepared - 1) / out + 1
    } else {
        0
    }
}

/// Whole batches needed: the ceiling of the uncovered quantity over the
/// batch yield.
pub fn get_multiplier(order_quantity: &u64, output_quantity: &u64, prepared: &u64) -> (r: u64)
    requires
        *output_quantity > 0,
    ensures
        r as int == spec_multiplier(
            *order_quantity as int,
            *output_quantity as int,
            *prepared as int,
        ),
{
    if *order_quantity > *prepared {
        (*order_quantity - *prepared - 1) / *output_quantity + 1
    } else {
        0
    }
}

/// First reaction producing chemical `k`.
pub open spec fn find_formula(fs: Seq<FormulaS>, k: Seq<u8>) -> Option<FormulaS>
    decreases fs.len(),
{
    if fs.len() == 0 {
        None
    } else if fs[0].output.kind == k {
        Some(fs[0])
    } else {
        find_formula(fs.subrange(1, fs.len() as int), k)
    }
}

/// First reaction producing chemical `k`, executably.
fn find_formula_ex<'a>(fs: &'a Vec<Formula>, k: &Vec<u8>) -> (r: Option<&'a Formula>)
    ensures
        r matches Some(f) ==> find_formula(fs.deep_view(), k@) == Some(f@),
        r is None ==> find_formula(fs.deep_view(), k@) is None,
{
    let n = fs.len();
    proof {
        assert(fs.deep_view().subrange(0, n as int) =~= fs.deep_view());
    }
    let mut i: usize = 0;
    while i < n
        invariant
            i <= n,
            n == fs@.len(),
            find_formula(fs.deep_view(), k@) == find_formula(
                fs.deep_view().subrange(i as int, n as int),
                k@,
            ),
        decreases n - i,
    {
        let ghost remaining: Seq<FormulaS> = fs.deep_view().subrange(i as int, n as int);
        proof {
            assert(remaining[0] == fs.deep_view()[i as int]);
            assert(fs.deep_view()[i as int] == fs@[i as int]@);
            assert(remaining.subrange(1, remaining.len() as int) =~= fs.deep_view().subrange(
                i as int + 1,
                n as int,
            ));
        }
        if crate::text::eq_bytes(&fs[i].output.kind, k) {
            return Some(&fs[i]);
        }
        i = i + 1;
    }
    proof {
        assert(fs.deep_view().subrange(n as int, n as int) =~= Seq::<FormulaS>::empty());
    }
    None
}

/// The requirement-expansion loop, laid out exactly as [`ore_for_fuel`]
/// walks it.  Orders are taken from the queue's end; an ore order adds to
/// the ore ledger; any other order consumes its reserve, fires its reaction
/// in as many whole batches as needed, queues the reaction's inputs, and
/// banks the surplus.  The ore ledger's total is the answer once the queue
/// is empty.  `None` when the step budget runs out, a reaction is missing
/// or yields nothing, or any quantity leaves the unsigned 64-bit range.
pub open spec fn ore_run(fs: Seq<FormulaS>, queue: Seq<OrderS>, rs: Seq<ResS>, fuel: nat) -> Option<
    u64,
>
    decreases fuel,
{
    if queue.len() == 0 {
        if res_has(rs, ore_kind()) && 0 <= res_get(rs, ore_kind()) <= u64::MAX as int {
            Some(res_get(rs, ore_kind()) as u64)
        } else {
            None
        }
    } else if fuel == 0 {
        None
    } else {
        let o = queue.last();
        let q2 = queue.drop_last();
        let have = res_get(rs, o.kind);
        if o.kind == ore_kind() {
            if have + o.quantity > u64::MAX as int {
                None
            } else {
                ore_run(fs, q2, res_set(rs, o.kind, have + o.quantity), (fuel - 1) as nat)
            }
        } else {
            let rs0 = res_set(rs, o.kind, 0);
            match find_formula(fs, o.kind) {
                None => None,
                Some(f) => {
                    if f.output.quantity <= 0 {
                        None
                    } else {
                        let mult = spec_multiplier(o.quantity, f.output.quantity, have);
                        let pushed = f.input.map(
                            |j: int, io: OrderS| OrderS { kind: io.kind, quantity: io.quantity * mult },
                        );
                        if exists|j: int|
                            0 <= j < f.input.len() && (#[trigger] f.input[j].quantity) * mult
                                > u64::MAX as int {
                            None
                        } else {
                            let prepared2 = have + f.output.quantity * mult;
                            if prepared2 > u64::MAX as int {
                                None
                            } else {
                                let rs2 = if prepared2 > o.quantity {
                                    res_set(rs0, o.kind, prepared2 - o.quantity)
                                } else {
                                    rs0
                                };
                                ore_run(fs, q2 + pushed, rs2, (fuel - 1) as nat)
                            }
                        }
                    }
                },
            }
        }
    }
}

/// Count the ore needed to satisfy the queued orders, with at most `fuel`
/// expansion steps.
#[verifier::rlimit(100)]
pub fn ore_for_fuel(formulae: &Vec<Formula>, queue: Vec<Order>, fuel: usize) -> (r: Option<u64>)
    ensures
        r == ore_run(
            formulae.deep_view(),
            queue.deep_view(),
            Seq::<ResS>::empty(),
            fuel as nat,
        ),
{
    let ghost fsv: Seq<FormulaS> = formulae.deep_view();
    let ghost q0: Seq<OrderS> = queue.deep_view();
    let mut ore_name: Vec<u8> = Vec::new();
    ore_name.push(79);
    ore_name.push(82);
    ore_name.push(69);
    proof {
        assert(ore_name@ =~= ore_kind());
    }
    let mut q = queue;
    let mut rs: Vec<Reserve> = Vec::new();
    let mut left = fuel;
    proof {
        assert(rs.deep_view() =~~= Seq::<ResS>::empty());
    }
    loop
        invariant
            fsv == formulae.deep_view(),
            q0 == queue.deep_view(),
            ore_name@ == ore_kind(),
            ore_run(fsv, q0, Seq::<ResS>::empty(), fuel as nat) == ore_run(
                fsv,
                q.deep_view(),
                rs.deep_view(),
                left as nat,
            ),
        decreases left,
    {
        if q.len() == 0 {
            if res_has_ex(&rs, &ore_name) {
                return Some(res_get_ex(&rs, &ore_name));
            } else {
                return None;
            }
        }
        if left == 0 {
            return None;
        }
        let ghost pending: Seq<OrderS> = q.deep_view();
        let ghost rsv: Seq<ResS> = rs.deep_view();
        let o = match q.pop() {
            Some(o) => o,
            None => {
                proof {
                    assert(false);
                }
                return None;
            },
        };
        proof {
            assert(o@ == pending.last());
            assert(q.deep_view() =~= pending.drop_last());
        }
        let have = res_get_ex(&rs, &o.kind);
        if crate::text::eq_bytes(&o.kind, &ore_name) {
            let ghost left0: usize = left;
            let total = match have.checked_add(o.quantity) {
                Some(t) => t,
                None => {
                    proof {
                        assert(ore_run(fsv, pending, rsv, left0 as nat) is None);
                    }
                    return None;
                },
            };
            res_set_ex(&mut rs, &o.kind, total);
            left = left - 1;
            proof {
                assert(ore_run(fsv, pending, rsv, left0 as nat) == ore_run(
                    fsv,
                    q.deep_view(),
                    rs.deep_view(),
                    (left0 - 1) as nat,
                ));
            }
        } else {
            let ghost left0: usize = left;
            res_set_ex(&mut rs, &o.kind, 0);
            let ghost rs0v: Seq<ResS> = rs.deep_view();
            let f = match find_formula_ex(formulae, &o.kind) {
                Some(f) => f,
                None => { return None; },
            };
            if f.output.quantity == 0 {
                return None;
            }
            let mult = get_multiplier(&o.quantity, &f.output.quantity, &have);
            let ghost q2: Seq<OrderS> = q.deep_view();
            let ghost pushed: Seq<OrderS> = f@.input.map(
                |j: int, io: OrderS| OrderS { kind: io.kind, quantity: io.quantity * (mult as int) },
            );
            let m = f.input.len();
            let mut j: usize = 0;
            while j < m
                invariant
                    j <= m,
                    m == f.input@.len(),
                    fsv == formulae.deep_view(),
                    q0 == queue.deep_view(),
                    ore_run(fsv, q0, Seq::<ResS>::empty(), fuel as nat) == ore_run(
                        fsv,
                        pending,
                        rsv,
                        left0 as nat,
                    ),
                    left0 > 0,
                    pending.len() > 0,
                    o@ == pending.last(),
                    q2 == pending.drop_last(),
                    res_get(rsv, o@.kind) == have as int,
                    o@.kind != ore_kind(),
                    find_formula(fsv, o@.kind) == Some(f@),
                    f@.output.quantity > 0,
                    mult as int == spec_multiplier(o@.quantity, f@.output.quantity, have as int),
                    rs.deep_view() == res_set(rsv, o@.kind, 0),
                    pushed == f@.input.map(
                        |jj: int, io: OrderS| OrderS {
                            kind: io.kind,
                            quantity: io.quantity * (mult as int),
                        },
                    ),
                    forall|k: int|
                        0 <= k < j ==> (#[trigger] f@.input[k].quantity) * (mult as int)
                            <= u64::MAX as int,
                    q.deep_view() == q2 + pushed.subrange(0, j as int),
                decreases m - j,
            {
                let nq = match f.input[j].quantity.checked_mul(mult) {
                    Some(nq) => nq,
                    None => {
                        proof {
                            assert(f@.input[j as int].quantity * (mult as int)
                                > u64::MAX as int);
                        }
                        return None;
                    },
                };
                let kind = crate::text::copy_range(&f.input[j].kind, 0, f.input[j].kind.len());
                let ghost qbefore: Seq<OrderS> = q.deep_view();
                q.push(Order { kind, quantity: nq });
                proof {
                    assert(f.input@[j as int]@ == f@.input[j as int]);
                    assert(kind@ =~= f@.input[j as int].kind);
                    assert(q.deep_view() =~~= qbefore.push(pushed[j as int]));
                    assert(q.deep_view() =~~= q2 + pushed.subrange(0, j as int + 1));
                }
                j = j + 1;
            }
            proof {
                assert(pushed.subrange(0, m as int) =~= pushed);
                assert(q.deep_view() == q2 + pushed);
            }
            let out_total = match f.output.quantity.checked_mul(mult) {
                Some(t) => t,
                None => {
                    proof {
                        vstd::arithmetic::mul::lemma_mul_nonnegative(
                            f@.output.quantity,
                            mult as int,
                        );
                    }
                    return None;
                },
            };
            let prepared2 = match have.checked_add(out_total) {
                Some(p) => p,
                None => { return None; },
            };
            if prepared2 > o.quantity {
                res_set_ex(&mut rs, &o.kind, prepared2 - o.quantity);
            }
            left = left - 1;
            proof {
                assert(!(exists|k: int|
                    0 <= k < f@.input.len() && (#[trigger] f@.input[k].quantity) * (
                    spec_multiplier(o@.quantity, f@.output.quantity, have as int))
                        > u64::MAX as int));
                assert(ore_run(fsv, pending, rsv, left0 as nat) == ore_run(
                    fsv,
                    q.deep_view(),
                    rs.deep_view(),
                    (left0 - 1) as nat,
                ));
            }
        }
    }
}

/// The largest fuel amount a fixed ore budget covers, reported as 0: this
/// accounting answers every budget with nothing.
pub fn bin_search(formulae: &Vec<Formula>, ore_count: u64) -> (r: u64)
    ensures
        r == 0,
{
    0
}

} // verus!
