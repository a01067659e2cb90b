//! Layered image decoding: a digit stream splits into fixed-size layers;
//! the layer with the fewest zeros validates the transmission, and the
//! visible image is, per cell, the first non-transparent digit down the
//! layer stack.

use crate::intcode::{all_digits, trim_spec};
use vstd::prelude::*;
use vstd::string::StrSliceExecFns;
use vstd::string::StringSliceAdditionalSpecFns;

verus! {

pub type Layer = Vec<Vec<u32>>;

pub type LayerVec = Vec<Layer>;

/// The digits of the trimmed input text, or nothing if any byte is not a
/// digit.
pub open spec fn spec_process_input(bytes: Seq<u8>) -> Option<Seq<u32>> {
    let t = trim_spec(bytes);
    if all_digits(t) {
        Some(Seq::new(t.len(), |i: int| (t[i] - 48) as u32))
    } else {
        None
    }
}

/// Read the pixel digits.
pub fn process_input(input: &str) -> (r: Option<Vec<u32>>)
    ensures
        r matches Some(v) ==> spec_process_input(input.spec_bytes()) == Some(v@),
        r is None ==> spec_process_input(input.spec_bytes()) is None,
{
    let bs: Vec<u8> = input.as_bytes_vec();
    let t = crate::text::trim_vec(&bs);
    let n = t.len();
    let mut out: Vec<u32> = Vec::new();
    let mut i: usize = 0;
    while i < n
        invariant
            i <= n,
            n == t@.len(),
            t@ == trim_spec(input.spec_bytes()),
            all_digits(t@.subrange(0, i as int)),
            out@ == Seq::new(i as nat, |k: int| (t@[k] - 48) as u32),
        decreases n - i,
    {
        let c = t[i];
        if c < 48 || c > 57 {
            proof {
                assert(!all_digits(t@));
            }
            return None;
        }
        out.push((c - 48) as u32);
        proof {
            assert(all_digits(t@.subrange(0, i as int + 1)));
            assert(out@ =~= Seq::new(i as nat + 1, |k: int| (t@[k] - 48) as u32));
        }
        i = i + 1;
    }
    proof {
        assert(t@.subrange(0, n as int) =~= t@);
        assert(out@ =~= Seq::new(t@.len(), |k: int| (t@[k] - 48) as u32));
    }
    Some(out)
}

/// One layer read back as its digit stream, row after row.
pub open spec fn flat_layer(layer: Seq<Seq<u32>>) -> Seq<u32>
    decreases layer.len(),
{
    if layer.len() == 0 {
        Seq::empty()
    } else {
        layer[0] + flat_layer(layer.subrange(1, layer.len() as int))
    }
}

/// The whole stack read back as its digit stream.
pub open spec fn flat_stack(layers: Seq<Seq<Seq<u32>>>) -> Seq<u32>
    decreases layers.len(),
{
    if layers.len() == 0 {
        Seq::empty()
    } else {
        flat_layer(layers[0]) + flat_stack(layers.subrange(1, layers.len() as int))
    }
}

/// Well-shaped stack: every layer has `cl` rows of `rl` digits.
pub open spec fn shaped(layers: Seq<Seq<Seq<u32>>>, rl: int, cl: int) -> bool {
    forall|l: int|
        0 <= l < layers.len() ==> (#[trigger] layers[l]).len() == cl && (forall|r: int|
            0 <= r < cl ==> (#[trigger] layers[l][r]).len() == rl)
}

/// Cut the digit stream into layers of `column_len` rows of `row_len`
/// digits; nothing when either length is zero or the stream does not cut
/// evenly.
pub fn into_layers(raw: &Vec<u32>, row_len: usize, column_len: usize) -> (r: Option<LayerVec>)
    ensures
        r matches Some(ls) ==> flat_stack(ls.deep_view()) == raw@ && shaped(
            ls.deep_view(),
            row_len as int,
            column_len as int,
        ),
{
    if row_len == 0 || column_len == 0 {
        return None;
    }
    let chunk = match row_len.checked_mul(column_len) {
        Some(c) => c,
        None => { return None; },
    };
    proof {
        assert(chunk >= 1) by (nonlinear_arith)
            requires
                row_len as int >= 1,
                column_len as int >= 1,
                chunk as int == row_len as int * column_len as int,
        ;
    }
    let n = raw.len();
    if n % chunk != 0 {
        return None;
    }
    proof {
        if n >= 1 {
            vstd::arithmetic::div_mod::lemma_mod_is_zero(n as nat, chunk as nat);
        }
    }
    let mut layers: LayerVec = Vec::new();
    let mut idx: usize = 0;
    proof {
        assert(flat_stack(layers.deep_view()) =~= Seq::<u32>::empty());
        assert(raw@.subrange(0, 0) =~= Seq::<u32>::empty());
    }
    while idx < n
        invariant
            idx <= n,
            n == raw@.len(),
            row_len >= 1,
            column_len >= 1,
            flat_stack(layers.deep_view()) == raw@.subrange(0, idx as int),
            shaped(layers.deep_view(), row_len as int, column_len as int),
            n - idx >= 1 ==> idx as int + chunk as int <= n as int,
            n % chunk == 0,
            chunk as int == row_len as int * column_len as int,
            chunk >= 1,
            idx % chunk == 0,
        decreases n - idx,
    {
        let ghost start: int = idx as int;
        proof {
            assert(start + column_len as int * row_len as int <= n as int) by (nonlinear_arith)
                requires
                    start + chunk as int <= n as int,
                    chunk as int == row_len as int * column_len as int,
            ;
        }
        let mut layer: Layer = Vec::new();
        let mut row_num: usize = 0;
        proof {
            assert(idx as int + row_len as int <= start + column_len as int * row_len as int)
                by (nonlinear_arith)
                requires
                    idx as int == start,
                    1 <= column_len as int,
                    row_len as int >= 0,
            ;
        }
        while row_num < column_len
            invariant
                row_num <= column_len,
                n == raw@.len(),
                row_len >= 1,
                0 <= start <= idx as int,
                idx as int == start + row_num as int * row_len as int,
                start + column_len as int * row_len as int <= n as int,
                row_num < column_len ==> idx as int + row_len as int <= n as int,
                flat_layer(layer.deep_view()) == raw@.subrange(start, idx as int),
                layer.deep_view().len() == row_num,
                forall|r: int|
                    0 <= r < row_num ==> (#[trigger] layer.deep_view()[r]).len() == row_len as int,
            decreases column_len - row_num,
        {
            let mut row: Vec<u32> = Vec::new();
            let ghost rstart: int = idx as int;
            let mut c: usize = 0;
            while c < row_len
                invariant
                    c <= row_len,
                    n == raw@.len(),
                    0 <= rstart,
                    idx as int == rstart + c as int,
                    rstart + row_len as int <= n as int,
                    row@ == raw@.subrange(rstart, idx as int),
                decreases row_len - c,
            {
                row.push(raw[idx]);
                proof {
                    assert(row@ =~= raw@.subrange(rstart, idx as int + 1));
                }
                idx = idx + 1;
                c = c + 1;
            }
            let ghost layer0: Seq<Seq<u32>> = layer.deep_view();
            let ghost rowv: Seq<u32> = row@;
            layer.push(row);
            proof {
                vstd::arithmetic::mul::lemma_mul_nonnegative(
                    row_num as int + 1,
                    row_len as int,
                );
                assert(layer.deep_view() =~~= layer0.push(rowv));
                lemma_flat_layer_push(layer0, rowv);
                assert(raw@.subrange(start, rstart) + raw@.subrange(rstart, idx as int)
                    =~= raw@.subrange(start, idx as int));
                assert((row_num as int + 1) * row_len as int == row_num as int * row_len as int
                    + row_len as int) by (nonlinear_arith);
                assert((row_num as int + 1) * row_len as int <= column_len as int
                    * row_len as int) by (nonlinear_arith)
                    requires
                        row_num as int + 1 <= column_len as int,
                        row_len as int >= 0,
                ;
                if row_num as int + 2 <= column_len as int {
                    assert(idx as int + row_len as int <= start + column_len as int
                        * row_len as int) by (nonlinear_arith)
                        requires
                            idx as int == start + (row_num as int + 1) * row_len as int,
                            row_num as int + 2 <= column_len as int,
                            row_len as int >= 0,
                    ;
                }
            }
            row_num = row_num + 1;
        }
        let ghost layers0: Seq<Seq<Seq<u32>>> = layers.deep_view();
        let ghost layerv: Seq<Seq<u32>> = layer.deep_view();
        layers.push(layer);
        proof {
            assert(layers.deep_view() =~~= layers0.push(layerv));
            lemma_flat_stack_push(layers0, layerv);
            assert(raw@.subrange(0, start) + raw@.subrange(start, idx as int) =~= raw@.subrange(
                0,
                idx as int,
            ));
            assert(column_len as int * row_len as int == chunk as int) by (nonlinear_arith)
                requires
                    chunk as int == row_len as int * column_len as int,
            ;
            assert(idx as int == start + chunk as int);
            assert(start % (chunk as int) == 0);
            vstd::arithmetic::div_mod::lemma_add_mod_noop(start, chunk as int, chunk as int);
            vstd::arithmetic::div_mod::lemma_mod_self_0(chunk as int);
            vstd::arithmetic::div_mod::lemma_small_mod(0nat, chunk as nat);
            assert((start + chunk as int) % (chunk as int) == 0);
            assert(idx % chunk == 0);
            if idx < n {
                vstd::arithmetic::div_mod::lemma_sub_mod_noop(n as int, idx as int, chunk as int);
                vstd::arithmetic::div_mod::lemma_mod_self_0(chunk as int);
                assert((n as int - idx as int) % (chunk as int) == 0);
                vstd::arithmetic::div_mod::lemma_mod_is_zero((n - idx) as nat, chunk as nat);
            }
        }
    }
    proof {
        assert(raw@.subrange(0, n as int) =~= raw@);
    }
    Some(layers)
}

/// Appending a row appends its digits to the layer's stream.
proof fn lemma_flat_layer_push(layer: Seq<Seq<u32>>, row: Seq<u32>)
    ensures
        flat_layer(layer.push(row)) == flat_layer(layer) + row,
    decreases layer.len(),
{
    if layer.len() == 0 {
        assert(layer.push(row).subrange(1, 1) =~= Seq::<Seq<u32>>::empty());
        assert(layer.push(row)[0] == row);
        assert(flat_layer(layer.push(row)) == row + flat_layer(Seq::<Seq<u32>>::empty()));
        assert(flat_layer(layer.push(row)) =~= flat_layer(layer) + row);
    } else {
        assert(layer.push(row).subrange(1, layer.len() as int + 1) =~= layer.subrange(
            1,
            layer.len() as int,
        ).push(row));
        lemma_flat_layer_push(layer.subrange(1, layer.len() as int), row);
        assert(flat_layer(layer.push(row)) =~= flat_layer(layer) + row);
    }
}

/// Appending a layer appends its digits to the stack's stream.
proof fn lemma_flat_stack_push(layers: Seq<Seq<Seq<u32>>>, layer: Seq<Seq<u32>>)
    ensures
        flat_stack(layers.push(layer)) == flat_stack(layers) + flat_layer(layer),
    decreases layers.len(),
{
    if layers.len() == 0 {
        assert(layers.push(layer).subrange(1, 1) =~= Seq::<Seq<Seq<u32>>>::empty());
        assert(layers.push(layer)[0] == layer);
        assert(flat_stack(layers.push(layer)) == flat_layer(layer) + flat_stack(
            Seq::<Seq<Seq<u32>>>::empty(),
        ));
        assert(flat_stack(layers.push(layer)) =~= flat_stack(layers) + flat_layer(layer));
    } else {
        assert(layers.push(layer).subrange(1, layers.len() as int + 1) =~= layers.subrange(
            1,
            layers.len() as int,
        ).push(layer));
        lemma_flat_stack_push(layers.subrange(1, layers.len() as int), layer);
        assert(flat_stack(layers.push(layer)) =~= flat_stack(layers) + flat_layer(layer));
    }
}

/// How many times `v` occurs in a digit stream.
pub open spec fn count_val(s: Seq<u32>, v: u32) -> int
    decreases s.len(),
{
    if s.len() == 0 {
        0
    } else {
        count_val(s.drop_last(), v) + (if s.last() == v {
            1int
        } else {
            0int
        })
    }
}

/// The check number over the first `l` layers: fewest zeros wins, first
/// strict improvement kept, value is ones times twos of the winner; taken
/// over streams that hold digits 0, 1 and 2 only.
pub open spec fn spec_validation(layers: Seq<Seq<Seq<u32>>>, l: int) -> (int, int)
    decreases l,
{
    if l <= 0 {
        (0x1_0000_0000, 0)
    } else {
        let prev = spec_validation(layers, l - 1);
        let flat = flat_layer(layers[l - 1]);
        let zeros = count_val(flat, 0);
        if zeros < prev.0 {
            (zeros, count_val(flat, 1) * count_val(flat, 2))
        } else {
            prev
        }
    }
}

/// The check number of the stack, or nothing when some digit is neither
/// 0, 1 nor 2.
pub fn validate_image(layers: &LayerVec) -> (r: Option<u64>)
    ensures
        r matches Some(v) ==> v as int == spec_validation(
            layers.deep_view(),
            layers@.len() as int,
        ).1,
{
    let mut lowest_zeroes: u64 = 0x1_0000_0000;
    let mut validation_number: u64 = 0;
    let nl = layers.len();
    let mut l: usize = 0;
    while l < nl
        invariant
            l <= nl,
            nl == layers@.len(),
            lowest_zeroes as int == spec_validation(layers.deep_view(), l as int).0,
            validation_number as int == spec_validation(layers.deep_view(), l as int).1,
        decreases nl - l,
    {
        let layer = &layers[l];
        let ghost flat: Seq<u32> = flat_layer(layers.deep_view()[l as int]);
        let mut zero_count: u64 = 0;
        let mut one_count: u64 = 0;
        let mut two_count: u64 = 0;
        let ghost mut seen: Seq<u32> = Seq::empty();
        proof {
            assert(layers.deep_view()[l as int] =~~= layer.deep_view());
            assert(flat_layer(Seq::<Seq<u32>>::empty()) =~= Seq::<u32>::empty());
        }
        let nr = layer.len();
        if nr > 0xffff_ffff {
            return None;
        }
        let mut r: usize = 0;
        while r < nr
            invariant
                r <= nr <= 0xffff_ffff,
                nr == layer@.len(),
                flat == flat_layer(layer.deep_view()),
                seen == flat_layer(layer.deep_view().subrange(0, r as int)),
                zero_count as int == count_val(seen, 0),
                one_count as int == count_val(seen, 1),
                two_count as int == count_val(seen, 2),
                zero_count as int + one_count as int + two_count as int == seen.len(),
                seen.len() <= 0x1_0000_0000 * (r as int),
            decreases nr - r,
        {
            let row = &layer[r];
            let nc = row.len();
            if nc > 0xffff_ffff {
                return None;
            }
            let ghost rowv: Seq<u32> = row@;
            let mut c: usize = 0;
            while c < nc
                invariant
                    c <= nc,
                    nc == row@.len() <= 0xffff_ffff,
                    rowv == row@,
                    seen == flat_layer(layer.deep_view().subrange(0, r as int)) + rowv.subrange(
                        0,
                        c as int,
                    ),
                    r < nr <= 0xffff_ffff,
                    zero_count as int == count_val(seen, 0),
                    one_count as int == count_val(seen, 1),
                    two_count as int == count_val(seen, 2),
                    zero_count as int + one_count as int + two_count as int == seen.len(),
                    seen.len() <= 0x1_0000_0000 * (r as int) + c as int,
                decreases nc - c,
            {
                let digit = row[c];
                proof {
                    assert(seen.push(rowv[c as int]).drop_last() =~= seen);
                    assert((flat_layer(layer.deep_view().subrange(0, r as int)) + rowv.subrange(
                        0,
                        c as int,
                    )).push(rowv[c as int]) =~= flat_layer(
                        layer.deep_view().subrange(0, r as int),
                    ) + rowv.subrange(0, c as int + 1));
                }
                if digit == 0 {
                    zero_count = zero_count + 1;
                } else if digit == 1 {
                    one_count = one_count + 1;
                } else if digit == 2 {
                    two_count = two_count + 1;
                } else {
                    return None;
                }
                proof {
                    seen = seen.push(rowv[c as int]);
                }
                c = c + 1;
            }
            proof {
                assert(layer.deep_view()[r as int] == rowv);
                assert(layer.deep_view().subrange(0, r as int + 1) =~= layer.deep_view().subrange(
                    0,
                    r as int,
                ).push(rowv));
                lemma_flat_layer_push(layer.deep_view().subrange(0, r as int), rowv);
                assert(rowv.subrange(0, nc as int) =~= rowv);
                assert(0x1_0000_0000 * (r as int) + nc as int <= 0x1_0000_0000 * (r as int + 1));
            }
            r = r + 1;
        }
        proof {
            assert(layer.deep_view().subrange(0, nr as int) =~= layer.deep_view());
            assert(seen == flat);
        }
        if zero_count < lowest_zeroes {
            lowest_zeroes = zero_count;
            let ones128 = one_count as u128;
            let twos128 = two_count as u128;
            proof {
                vstd::arithmetic::mul::lemma_mul_upper_bound(
                    one_count as int,
                    0xffff_ffff_ffff_ffff,
                    two_count as int,
                    0xffff_ffff_ffff_ffff,
                );
                vstd::arithmetic::mul::lemma_mul_nonnegative(one_count as int, two_count as int);
            }
            let product = ones128 * twos128;
            if product > u64::MAX as u128 {
                return None;
            }
            validation_number = product as u64;
            proof {
                vstd::arithmetic::mul::lemma_mul_nonnegative(one_count as int, two_count as int);
            }
        }
        l = l + 1;
    }
    Some(validation_number)
}

/// The visible digit of one cell: the first layer's digit there that is
/// not the transparent 2, or 2 when all layers are transparent.
pub open spec fn over_cell(layers: Seq<Seq<Seq<u32>>>, r: int, c: int) -> u32
    decreases layers.len(),
{
    if layers.len() == 0 {
        2
    } else if layers[0][r][c] != 2 {
        layers[0][r][c]
    } else {
        over_cell(layers.subrange(1, layers.len() as int), r, c)
    }
}

/// Overlay the stack into the visible image; nothing for an empty stack.
pub fn print_image(layers: &LayerVec, row_len: usize, column_len: usize) -> (r: Option<Layer>)
    requires
        shaped(layers.deep_view(), row_len as int, column_len as int),
    ensures
        r matches Some(img) ==> img.deep_view().len() == column_len && (forall|rr: int, cc: int|
            0 <= rr < column_len && 0 <= cc < row_len ==> #[trigger] img.deep_view()[rr][cc]
                == over_cell(layers.deep_view(), rr, cc)) && (forall|rr: int|
            0 <= rr < column_len ==> (#[trigger] img.deep_view()[rr]).len() == row_len),
        r is None ==> layers@.len() == 0,
{
    if layers.len() == 0 {
        return None;
    }
    let mut image: Layer = Vec::new();
    let mut rr: usize = 0;
    while rr < column_len
        invariant
            rr <= column_len,
            shaped(layers.deep_view(), row_len as int, column_len as int),
            layers@.len() > 0,
            image.deep_view().len() == rr,
            forall|q: int| 0 <= q < rr ==> (#[trigger] image.deep_view()[q]).len() == row_len,
            forall|q: int, cc: int|
                0 <= q < rr && 0 <= cc < row_len ==> #[trigger] image.deep_view()[q][cc]
                    == over_cell(layers.deep_view(), q, cc),
        decreases column_len - rr,
    {
        let mut row: Vec<u32> = Vec::new();
        let mut cc: usize = 0;
        while cc < row_len
            invariant
                cc <= row_len,
                rr < column_len,
                shaped(layers.deep_view(), row_len as int, column_len as int),
                layers@.len() > 0,
                row@.len() == cc,
                forall|q: int|
                    0 <= q < cc ==> #[trigger] row@[q] == over_cell(
                        layers.deep_view(),
                        rr as int,
                        q,
                    ),
            decreases row_len - cc,
        {
            let mut v: u32 = 2;
            let nl = layers.len();
            proof {
                assert(layers.deep_view().subrange(0, nl as int) =~= layers.deep_view());
            }
            let mut l: usize = 0;
            while l < nl
                invariant
                    l <= nl,
                    nl == layers@.len(),
                    rr < column_len,
                    cc < row_len,
                    shaped(layers.deep_view(), row_len as int, column_len as int),
                    over_cell(layers.deep_view(), rr as int, cc as int) == (if v != 2 {
                        v
                    } else {
                        over_cell(
                            layers.deep_view().subrange(l as int, nl as int),
                            rr as int,
                            cc as int,
                        )
                    }),
                decreases nl - l,
            {
                let ghost rest: Seq<Seq<Seq<u32>>> = layers.deep_view().subrange(
                    l as int,
                    nl as int,
                );
                proof {
                    assert(rest[0] == layers.deep_view()[l as int]);
                    assert(layers.deep_view()[l as int] =~~= layers@[l as int].deep_view());
                    assert(rest.subrange(1, rest.len() as int) =~= layers.deep_view().subrange(
                        l as int + 1,
                        nl as int,
                    ));
                }
                if v == 2 {
                    let digit = layers[l][rr][cc];
                    proof {
                        assert(layers@[l as int].deep_view()[rr as int][cc as int]
                            == layers@[l as int]@[rr as int]@[cc as int]);
                    }
                    if digit != 2 {
                        v = digit;
                    }
                }
                l = l + 1;
            }
            proof {
                assert(layers.deep_view().subrange(nl as int, nl as int)
                    =~= Seq::<Seq<Seq<u32>>>::empty());
            }
            row.push(v);
            cc = cc + 1;
        }
        let ghost image0: Seq<Seq<u32>> = image.deep_view();
        let ghost rowv: Seq<u32> = row@;
        image.push(row);
        proof {
            assert(image.deep_view() =~~= image0.push(rowv));
        }
        rr = rr + 1;
    }
    Some(image)
}

/// Decode a 25 by 6 transmission: the check number and the visible image.
pub fn start(input: &str) -> (r: Option<(u64, Layer)>)
    ensures
        r matches Some(res) ==> ({
            let digits = spec_process_input(input.spec_bytes());
            &&& digits is Some
            &&& exists|ls: Seq<Seq<Seq<u32>>>|
                {
                    &&& flat_stack(ls) == digits->0
                    &&& #[trigger] shaped(ls, 25, 6)
                    &&& res.0 as int == spec_validation(ls, ls.len() as int).1
                    &&& res.1.deep_view().len() == 6
                    &&& forall|rr: int, cc: int|
                        0 <= rr < 6 && 0 <= cc < 25 ==> #[trigger] res.1.deep_view()[rr][cc]
                            == over_cell(ls, rr, cc)
                }
        }),
{
    let processed = match process_input(input) {
        Some(p) => p,
        None => { return None; },
    };
    let layers = match into_layers(&processed, 25, 6) {
        Some(ls) => ls,
        None => { return None; },
    };
    let validation = match validate_image(&layers) {
        Some(v) => v,
        None => { return None; },
    };
    let image = match print_image(&layers, 25, 6) {
        Some(img) => img,
        None => { return None; },
    };
    proof {
        assert(shaped(layers.deep_view(), 25, 6));
        assert(layers.deep_view().len() == layers@.len());
    }
    Some((validation, image))
}

} // verus!
