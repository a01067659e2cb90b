//! Crossed wires: two paths walked cell by cell over the grid; their
//! intersections are ranked by distance from the origin and by combined
//! walking distance.

use crate::intcode::{split_on, trim_spec};
use vstd::prelude::*;
use vstd::string::StrSliceExecFns;
use vstd::string::StringSliceAdditionalSpecFns;

verus! {

#[derive(Clone, Copy, Debug, PartialEq, Eq, Structural)]
pub enum Direction {
    Up,
    Down,
    Left,
    Right,
}

/// One wire segment: a heading and how many cells it covers.
#[derive(Clone, Copy, Debug, PartialEq, Eq, Structural)]
pub struct Instruction {
    pub direction: Direction,
    pub distance: u32,
}

/// The unit step of a heading.
pub open spec fn dir_step(d: Direction) -> (int, int) {
    match d {
        Direction::Up => (0, 1),
        Direction::Down => (0, -1),
        Direction::Left => (-1, 0),
        Direction::Right => (1, 0),
    }
}

/// The heading a single-letter token names.
pub open spec fn spec_direction_of(s: Seq<u8>) -> Option<Direction> {
    if s == seq![85u8] {
        Some(Direction::Up)
    } else if s == seq![68u8] {
        Some(Direction::Down)
    } else if s == seq![76u8] {
        Some(Direction::Left)
    } else if s == seq![82u8] {
        Some(Direction::Right)
    } else {
        None
    }
}

/// Read a heading letter.
pub fn get_direction(dir_char: &str) -> (r: Option<Direction>)
    ensures
        r == spec_direction_of(dir_char.spec_bytes()),
{
    let bs: Vec<u8> = dir_char.as_bytes_vec();
    direction_of_bytes(&bs)
}

fn direction_of_bytes(bs: &Vec<u8>) -> (r: Option<Direction>)
    ensures
        r == spec_direction_of(bs@),
{
    if bs.len() != 1 {
        proof {
            assert(bs@ != seq![85u8] && bs@ != seq![68u8] && bs@ != seq![76u8] && bs@
                != seq![82u8]);
        }
        return None;
    }
    let c = bs[0];
    proof {
        assert(bs@ =~= seq![bs@[0]]);
    }
    if c == 85 {
        Some(Direction::Up)
    } else if c == 68 {
        Some(Direction::Down)
    } else if c == 76 {
        Some(Direction::Left)
    } else if c == 82 {
        Some(Direction::Right)
    } else {
        return None;
    }
}

/// One wire token: its first byte is the heading, the rest the distance.
pub open spec fn spec_instruction_of(s: Seq<u8>) -> Option<Instruction> {
    if s.len() < 1 {
        None
    } else {
        match spec_direction_of(s.subrange(0, 1)) {
            None => None,
            Some(d) => match crate::fourteen::parse_u64_tok(s.subrange(1, s.len() as int)) {
                None => None,
                Some(v) => {
                    if v <= u32::MAX as u64 {
                        Some(Instruction { direction: d, distance: v as u32 })
                    } else {
                        None
                    }
                },
            },
        }
    }
}

/// The segments of one wire's line: comma-separated tokens of the trimmed
/// text, every one well formed.
pub open spec fn spec_wire(toks: Seq<Seq<u8>>) -> Option<Seq<Instruction>>
    decreases toks.len(),
{
    if toks.len() == 0 {
        Some(Seq::empty())
    } else {
        match spec_instruction_of(toks[0]) {
            None => None,
            Some(ins) => match spec_wire(toks.subrange(1, toks.len() as int)) {
                None => None,
                Some(rest) => Some(seq![ins] + rest),
            },
        }
    }
}

/// Read one wire's line.
pub fn format_wire(wire: &str) -> (r: Option<Vec<Instruction>>)
    ensures
        r matches Some(v) ==> spec_wire(split_on(trim_spec(wire.spec_bytes()), 44)) == Some(v@),
        r is None ==> spec_wire(split_on(trim_spec(wire.spec_bytes()), 44)) is None,
{
    let bs: Vec<u8> = wire.as_bytes_vec();
    let t = crate::text::trim_vec(&bs);
    let toks = crate::text::split_bytes(&t, 44);
    let n = toks.len();
    let mut out: Vec<Instruction> = Vec::new();
    proof {
        assert(toks.deep_view().subrange(0, n as int) =~= toks.deep_view());
        if spec_wire(toks.deep_view()) is Some {
            assert(out@ + spec_wire(toks.deep_view())->0 =~= spec_wire(toks.deep_view())->0);
        }
    }
    let mut i: usize = 0;
    while i < n
        invariant
            i <= n,
            n == toks@.len(),
            toks.deep_view() == split_on(trim_spec(wire.spec_bytes()), 44),
            spec_wire(toks.deep_view()) == (match spec_wire(
                toks.deep_view().subrange(i as int, n as int),
            ) {
                None => None::<Seq<Instruction>>,
                Some(rest) => Some(out@ + rest),
            }),
        decreases n - i,
    {
        let ghost remaining: Seq<Seq<u8>> = toks.deep_view().subrange(i as int, n as int);
        proof {
            assert(remaining[0] == toks.deep_view()[i as int]);
            assert(toks.deep_view()[i as int] == toks@[i as int]@);
            assert(remaining.subrange(1, remaining.len() as int) =~= toks.deep_view().subrange(
                i as int + 1,
                n as int,
            ));
        }
        let tok = &toks[i];
        if tok.len() < 1 {
            return None;
        }
        let mut head: Vec<u8> = Vec::new();
        head.push(tok[0]);
        proof {
            assert(head@ =~= tok@.subrange(0, 1));
        }
        let dir = match direction_of_bytes(&head) {
            Some(d) => d,
            None => { return None; },
        };
        let tail = crate::text::copy_range(tok, 1, tok.len());
        let dist64 = match crate::text::parse_u64_bytes(&tail) {
            Some(v) => v,
            None => { return None; },
        };
        if dist64 > u32::MAX as u64 {
            return None;
        }
        let ins = Instruction { direction: dir, distance: dist64 as u32 };
        let ghost out0: Seq<Instruction> = out@;
        out.push(ins);
        proof {
            assert(spec_instruction_of(remaining[0]) == Some(ins));
            assert(forall|rest: Seq<Instruction>|
                out0 + (seq![ins] + rest) =~= #[trigger] (out@ + rest));
        }
        i = i + 1;
    }
    proof {
        assert(toks.deep_view().subrange(n as int, n as int) =~= Seq::<Seq<u8>>::empty());
        assert(out@ + Seq::<Instruction>::empty() =~= out@);
    }
    Some(out)
}

/// Read both wires: the first two newline-separated lines.
pub fn format_input(input: &str) -> (r: Option<(Vec<Instruction>, Vec<Instruction>)>)
    ensures
        r matches Some(w) ==> ({
            let lines = split_on(trim_spec(input.spec_bytes()), 10);
            lines.len() >= 2 && spec_wire(split_on(trim_spec(lines[0]), 44)) == Some(w.0@)
                && spec_wire(split_on(trim_spec(lines[1]), 44)) == Some(w.1@)
        }),
        r is None ==> ({
            let lines = split_on(trim_spec(input.spec_bytes()), 10);
            lines.len() < 2 || spec_wire(split_on(trim_spec(lines[0]), 44)) is None || spec_wire(
                split_on(trim_spec(lines[1]), 44),
            ) is None
        }),
{
    let bs: Vec<u8> = input.as_bytes_vec();
    let t = crate::text::trim_vec(&bs);
    let lines = crate::text::split_bytes(&t, 10);
    if lines.len() < 2 {
        return None;
    }
    proof {
        assert(lines.deep_view()[0] == lines@[0]@);
        assert(lines.deep_view()[1] == lines@[1]@);
    }
    let one = match wire_of_bytes(&lines[0]) {
        Some(w) => w,
        None => { return None; },
    };
    let two = match wire_of_bytes(&lines[1]) {
        Some(w) => w,
        None => { return None; },
    };
    Some((one, two))
}

/// Read one wire from its line's bytes.
fn wire_of_bytes(line: &Vec<u8>) -> (r: Option<Vec<Instruction>>)
    ensures
        r matches Some(v) ==> spec_wire(split_on(trim_spec(line@), 44)) == Some(v@),
        r is None ==> spec_wire(split_on(trim_spec(line@), 44)) is None,
{
    let t = crate::text::trim_vec(line);
    let toks = crate::text::split_bytes(&t, 44);
    let n = toks.len();
    let mut out: Vec<Instruction> = Vec::new();
    proof {
        assert(toks.deep_view().subrange(0, n as int) =~= toks.deep_view());
        if spec_wire(toks.deep_view()) is Some {
            assert(out@ + spec_wire(toks.deep_view())->0 =~= spec_wire(toks.deep_view())->0);
        }
    }
    let mut i: usize = 0;
    while i < n
        invariant
            i <= n,
            n == toks@.len(),
            toks.deep_view() == split_on(trim_spec(line@), 44),
            spec_wire(toks.deep_view()) == (match spec_wire(
                toks.deep_view().subrange(i as int, n as int),
            ) {
                None => None::<Seq<Instruction>>,
                Some(rest) => Some(out@ + rest),
            }),
        decreases n - i,
    {
        let ghost remaining: Seq<Seq<u8>> = toks.deep_view().subrange(i as int, n as int);
        proof {
            assert(remaining[0] == toks.deep_view()[i as int]);
            assert(toks.deep_view()[i as int] == toks@[i as int]@);
            assert(remaining.subrange(1, remaining.len() as int) =~= toks.deep_view().subrange(
                i as int + 1,
                n as int,
            ));
        }
        let tok = &toks[i];
        if tok.len() < 1 {
            return None;
        }
        let mut head: Vec<u8> = Vec::new();
        head.push(tok[0]);
        proof {
            assert(head@ =~= tok@.subrange(0, 1));
        }
        let dir = match direction_of_bytes(&head) {
            Some(d) => d,
            None => { return None; },
        };
        let tail = crate::text::copy_range(tok, 1, tok.len());
        let dist64 = match crate::text::parse_u64_bytes(&tail) {
            Some(v) => v,
            None => { return None; },
        };
        if dist64 > u32::MAX as u64 {
            return None;
        }
        let ins = Instruction { direction: dir, distance: dist64 as u32 };
        let ghost out0: Seq<Instruction> = out@;
        out.push(ins);
        proof {
            assert(spec_instruction_of(remaining[0]) == Some(ins));
            assert(forall|rest: Seq<Instruction>|
                out0 + (seq![ins] + rest) =~= #[trigger] (out@ + rest));
        }
        i = i + 1;
    }
    proof {
        assert(toks.deep_view().subrange(n as int, n as int) =~= Seq::<Seq<u8>>::empty());
        assert(out@ + Seq::<Instruction>::empty() =~= out@);
    }
    Some(out)
}

/// A visited cell with the step count of its first visit.
pub type Visit = ((i32, i32), u32);

/// One segment walked cell by cell: each new cell appended with its step
/// count; nothing on coordinate or step-count overflow.
pub open spec fn walk_run(
    d: Direction,
    dist: int,
    x: int,
    y: int,
    steps: int,
    acc: Seq<Visit>,
) -> Option<(int, int, int, Seq<Visit>)>
    decreases dist,
{
    if dist <= 0 {
        Some((x, y, steps, acc))
    } else {
        let x2 = x + dir_step(d).0;
        let y2 = y + dir_step(d).1;
        let steps2 = steps + 1;
        if x2 < i32::MIN as int || x2 > i32::MAX as int || y2 < i32::MIN as int || y2
            > i32::MAX as int || steps2 > u32::MAX as int {
            None
        } else {
            walk_run(d, dist - 1, x2, y2, steps2, acc.push(((x2 as i32, y2 as i32), steps2 as u32)))
        }
    }
}

/// A whole wire walked from the origin.
pub open spec fn walk_wire(
    instrs: Seq<Instruction>,
    x: int,
    y: int,
    steps: int,
    acc: Seq<Visit>,
) -> Option<Seq<Visit>>
    decreases instrs.len(),
{
    if instrs.len() == 0 {
        Some(acc)
    } else {
        match walk_run(instrs[0].direction, instrs[0].distance as int, x, y, steps, acc) {
            None => None,
            Some((x2, y2, steps2, acc2)) => walk_wire(
                instrs.subrange(1, instrs.len() as int),
                x2,
                y2,
                steps2,
                acc2,
            ),
        }
    }
}

/// Every cell a wire visits, in walking order, with the step count of
/// each visit; lookups read the first visit, so a self-crossing wire
/// keeps its earliest step count per cell.
pub fn get_point_map(wire: &Vec<Instruction>) -> (r: Option<Vec<Visit>>)
    ensures
        r matches Some(v) ==> walk_wire(wire@, 0, 0, 0, Seq::empty()) == Some(v@),
        r is None ==> walk_wire(wire@, 0, 0, 0, Seq::empty()) is None,
{
    let mut visits: Vec<Visit> = Vec::new();
    let mut x: i32 = 0;
    let mut y: i32 = 0;
    let mut steps: u32 = 0;
    let n = wire.len();
    proof {
        assert(wire@.subrange(0, n as int) =~= wire@);
        assert(visits@ =~= Seq::<Visit>::empty());
    }
    let mut i: usize = 0;
    while i < n
        invariant
            i <= n,
            n == wire@.len(),
            walk_wire(wire@, 0, 0, 0, Seq::empty()) == walk_wire(
                wire@.subrange(i as int, n as int),
                x as int,
                y as int,
                steps as int,
                visits@,
            ),
        decreases n - i,
    {
        let ghost remaining: Seq<Instruction> = wire@.subrange(i as int, n as int);
        proof {
            assert(remaining[0] == wire@[i as int]);
            assert(remaining.subrange(1, remaining.len() as int) =~= wire@.subrange(
                i as int + 1,
                n as int,
            ));
        }
        let ins = wire[i];
        let dist = ins.distance;
        let ghost x0: int = x as int;
        let ghost y0: int = y as int;
        let ghost steps0: int = steps as int;
        let ghost acc0: Seq<Visit> = visits@;
        let sx: i32 = match ins.direction {
            Direction::Up => 0,
            Direction::Down => 0,
            Direction::Left => -1,
            Direction::Right => 1,
        };
        let sy: i32 = match ins.direction {
            Direction::Up => 1,
            Direction::Down => -1,
            Direction::Left => 0,
            Direction::Right => 0,
        };
        proof {
            assert((sx as int, sy as int) == dir_step(ins.direction));
        }
        let mut t: u32 = 0;
        while t < dist
            invariant
                t <= dist,
                i < n,
                n == wire@.len(),
                wire@[i as int].direction == ins.direction,
                wire@[i as int].distance == dist,
                (sx as int, sy as int) == dir_step(ins.direction),
                walk_wire(wire@, 0, 0, 0, Seq::empty()) == walk_wire(
                    wire@.subrange(i as int, n as int),
                    x0,
                    y0,
                    steps0,
                    acc0,
                ),
                walk_run(ins.direction, dist as int, x0, y0, steps0, acc0) == walk_run(
                    ins.direction,
                    dist as int - t as int,
                    x as int,
                    y as int,
                    steps as int,
                    visits@,
                ),
            decreases dist - t,
        {
            let x2 = match x.checked_add(sx) {
                Some(v) => v,
                None => { return None; },
            };
            let y2 = match y.checked_add(sy) {
                Some(v) => v,
                None => { return None; },
            };
            let steps2 = match steps.checked_add(1) {
                Some(v) => v,
                None => { return None; },
            };
            visits.push(((x2, y2), steps2));
            x = x2;
            y = y2;
            steps = steps2;
            t = t + 1;
        }
        proof {
            assert(walk_run(
                ins.direction,
                0,
                x as int,
                y as int,
                steps as int,
                visits@,
            ) == Some((x as int, y as int, steps as int, visits@)));
        }
        i = i + 1;
    }
    proof {
        assert(wire@.subrange(n as int, n as int) =~= Seq::<Instruction>::empty());
    }
    Some(visits)
}

/// Whether a wire visits the cell.
pub open spec fn on_wire(visits: Seq<Visit>, p: (i32, i32)) -> bool {
    exists|k: int| 0 <= k < visits.len() && (#[trigger] visits[k]).0 == p
}

/// The step count of the wire's first visit to the cell.
pub open spec fn visit_steps(visits: Seq<Visit>, p: (i32, i32)) -> Option<u32>
    decreases visits.len(),
{
    if visits.len() == 0 {
        None
    } else if visits[0].0 == p {
        Some(visits[0].1)
    } else {
        visit_steps(visits.subrange(1, visits.len() as int), p)
    }
}

/// The step count of the wire's first visit, executably.
pub fn visit_steps_ex(visits: &Vec<Visit>, p: (i32, i32)) -> (r: Option<u32>)
    ensures
        r == visit_steps(visits@, p),
{
    let n = visits.len();
    proof {
        assert(visits@.subrange(0, n as int) =~= visits@);
    }
    let mut i: usize = 0;
    while i < n
        invariant
            i <= n,
            n == visits@.len(),
            visit_steps(visits@, p) == visit_steps(visits@.subrange(i as int, n as int), p),
        decreases n - i,
    {
        let ghost remaining: Seq<Visit> = visits@.subrange(i as int, n as int);
        proof {
            assert(remaining[0] == visits@[i as int]);
            assert(remaining.subrange(1, remaining.len() as int) =~= visits@.subrange(
                i as int + 1,
                n as int,
            ));
        }
        if visits[i].0.0 == p.0 && visits[i].0.1 == p.1 {
            proof {
                assert(visits@[i as int].0 == p);
            }
            return Some(visits[i].1);
        }
        proof {
            if visits@[i as int].0 == p {
                assert(false);
            }
        }
        i = i + 1;
    }
    None
}

/// The cells both wires visit, in the first wire's visiting order, each
/// cell once.
pub fn get_map_key_intersection(one: &Vec<Visit>, two: &Vec<Visit>) -> (r: Vec<(i32, i32)>)
    ensures
        forall|k: int|
            0 <= k < r@.len() ==> on_wire(one@, #[trigger] r@[k]) && on_wire(two@, r@[k]),
        forall|p: (i32, i32)| on_wire(one@, p) && on_wire(two@, p) ==> on_wire_pts(r@, p),
        forall|k1: int, k2: int|
            0 <= k1 < k2 < r@.len() ==> #[trigger] r@[k1] != #[trigger] r@[k2],
{
    let n = one.len();
    let mut out: Vec<(i32, i32)> = Vec::new();
    let mut i: usize = 0;
    while i < n
        invariant
            i <= n,
            n == one@.len(),
            forall|k: int|
                0 <= k < out@.len() ==> on_wire(one@, #[trigger] out@[k]) && on_wire(
                    two@,
                    out@[k],
                ),
            forall|q: int|
                0 <= q < i && on_wire(two@, (#[trigger] one@[q]).0) ==> on_wire_pts(
                    out@,
                    one@[q].0,
                ),
            forall|k1: int, k2: int|
                0 <= k1 < k2 < out@.len() ==> #[trigger] out@[k1] != #[trigger] out@[k2],
        decreases n - i,
    {
        let p = (one[i].0.0, one[i].0.1);
        proof {
            assert(one@[i as int].0 == p);
        }
        let mut seen = false;
        let m = out.len();
        let mut k: usize = 0;
        while k < m
            invariant
                k <= m,
                m == out@.len(),
                seen == (exists|q: int| 0 <= q < k && #[trigger] out@[q] == p),
            decreases m - k,
        {
            if out[k].0 == p.0 && out[k].1 == p.1 {
                proof {
                    assert(out@[k as int] == p);
                }
                seen = true;
            }
            k = k + 1;
        }
        if !seen {
            let mut hit = false;
            let m2 = two.len();
            let mut k2: usize = 0;
            while k2 < m2
                invariant
                    k2 <= m2,
                    m2 == two@.len(),
                    hit == (exists|q: int| 0 <= q < k2 && (#[trigger] two@[q]).0 == p),
                decreases m2 - k2,
            {
                if two[k2].0.0 == p.0 && two[k2].0.1 == p.1 {
                    proof {
                        assert(two@[k2 as int].0 == p);
                    }
                    hit = true;
                }
                k2 = k2 + 1;
            }
            let ghost out_pre: Seq<(i32, i32)> = out@;
            if hit {
                out.push(p);
                proof {
                    assert(out@[out@.len() - 1] == p);
                    assert(forall|q: int| 0 <= q < out_pre.len() ==> out@[q] == #[trigger] out_pre[
                        q]);
                }
            }
            proof {
                assert forall|q: int|
                    0 <= q < i + 1 && on_wire(two@, (#[trigger] one@[q]).0) implies on_wire_pts(
                    out@,
                    one@[q].0,
                ) by {
                    if q < i {
                        let idx = choose|idx: int|
                            0 <= idx < out_pre.len() && #[trigger] out_pre[idx] == one@[q].0;
                        assert(out@[idx] == one@[q].0);
                    } else {
                        assert(one@[q].0 == p);
                        assert(hit);
                        assert(out@[out@.len() - 1] == p);
                    }
                }
            }
        } else {
            proof {
                let idx = choose|idx: int| 0 <= idx < out@.len() && #[trigger] out@[idx] == p;
                assert forall|q: int|
                    0 <= q < i + 1 && on_wire(two@, (#[trigger] one@[q]).0) implies on_wire_pts(
                    out@,
                    one@[q].0,
                ) by {
                    if q == i {
                        assert(one@[q].0 == p);
                        assert(out@[idx] == p);
                    }
                }
            }
        }
        i = i + 1;
    }
    out
}

/// Whether the cell list holds the cell.
pub open spec fn on_wire_pts(pts: Seq<(i32, i32)>, p: (i32, i32)) -> bool {
    exists|k: int| 0 <= k < pts.len() && #[trigger] pts[k] == p
}

pub open spec fn abs3(x: int) -> int {
    if x < 0 {
        -x
    } else {
        x
    }
}

/// The smallest city-block distance from the origin over the first `j`
/// cells, from a ceiling of the largest signed 32-bit value.
pub open spec fn spec_min_mh(pts: Seq<(i32, i32)>, j: int) -> int
    decreases j,
{
    if j <= 0 {
        i32::MAX as int
    } else {
        let prev = spec_min_mh(pts, j - 1);
        let d = abs3(pts[j - 1].0 as int) + abs3(pts[j - 1].1 as int);
        if d < prev {
            d
        } else {
            prev
        }
    }
}

/// The smallest city-block distance from the origin among the cells.
pub fn get_min_mh_distance(point_set: &Vec<(i32, i32)>) -> (r: i64)
    ensures
        r as int == spec_min_mh(point_set@, point_set@.len() as int),
{
    let mut min: i64 = i32::MAX as i64;
    let n = point_set.len();
    let mut i: usize = 0;
    while i < n
        invariant
            i <= n,
            n == point_set@.len(),
            min as int == spec_min_mh(point_set@, i as int),
            0 <= min as int <= i32::MAX as int,
        decreases n - i,
    {
        let x = point_set[i].0 as i64;
        let y = point_set[i].1 as i64;
        let d = (if x < 0 {
            -x
        } else {
            x
        }) + (if y < 0 {
            -y
        } else {
            y
        });
        if d < min {
            min = d;
        }
        i = i + 1;
    }
    min
}

/// The smallest combined walking distance over the first `j` cells, from
/// a ceiling of the largest unsigned 32-bit value; nothing when a cell is
/// missing from either wire or a sum leaves the range.
pub open spec fn spec_min_steps(
    one: Seq<Visit>,
    two: Seq<Visit>,
    pts: Seq<(i32, i32)>,
    j: int,
) -> Option<int>
    decreases j,
{
    if j <= 0 {
        Some(u32::MAX as int)
    } else {
        match spec_min_steps(one, two, pts, j - 1) {
            None => None,
            Some(prev) => match visit_steps(one, pts[j - 1]) {
                None => None,
                Some(a) => match visit_steps(two, pts[j - 1]) {
                    None => None,
                    Some(b) => {
                        if (a as int + b as int) > u32::MAX as int {
                            None
                        } else if (a as int + b as int) < prev {
                            Some(a as int + b as int)
                        } else {
                            Some(prev)
                        }
                    },
                },
            },
        }
    }
}

/// Once the running minimum fails, every longer prefix fails too.
proof fn lemma_min_steps_none(one: Seq<Visit>, two: Seq<Visit>, pts: Seq<(i32, i32)>, i: int, j: int)
    requires
        0 <= i <= j,
        spec_min_steps(one, two, pts, i) is None,
    ensures
        spec_min_steps(one, two, pts, j) is None,
    decreases j,
{
    if j > i {
        lemma_min_steps_none(one, two, pts, i, j - 1);
    }
}

/// The smallest combined walking distance to a shared cell.
pub fn get_min_step_distance(
    one: &Vec<Visit>,
    two: &Vec<Visit>,
    point_set: &Vec<(i32, i32)>,
) -> (r: Option<u32>)
    ensures
        r matches Some(v) ==> spec_min_steps(one@, two@, point_set@, point_set@.len() as int)
            == Some(v as int),
        r is None ==> spec_min_steps(
            one@,
            two@,
            point_set@,
            point_set@.len() as int,
        ) is None,
{
    let mut min: u32 = u32::MAX;
    let n = point_set.len();
    let mut i: usize = 0;
    while i < n
        invariant
            i <= n,
            n == point_set@.len(),
            spec_min_steps(one@, two@, point_set@, i as int) == Some(min as int),
        decreases n - i,
    {
        let p = (point_set[i].0, point_set[i].1);
        proof {
            assert(point_set@[i as int] == p);
        }
        let a = match visit_steps_ex(one, p) {
            Some(a) => a,
            None => {
                proof {
                    lemma_min_steps_none(one@, two@, point_set@, i as int + 1, n as int);
                }
                return None;
            },
        };
        let b = match visit_steps_ex(two, p) {
            Some(b) => b,
            None => {
                proof {
                    lemma_min_steps_none(one@, two@, point_set@, i as int + 1, n as int);
                }
                return None;
            },
        };
        let sum = match a.checked_add(b) {
            Some(s) => s,
            None => {
                proof {
                    lemma_min_steps_none(one@, two@, point_set@, i as int + 1, n as int);
                }
                return None;
            },
        };
        if sum < min {
            min = sum;
        }
        i = i + 1;
    }
    Some(min)
}

/// Walk both wires, find their shared cells, and report the closest one by
/// city-block distance and the cheapest one by combined walking distance.
pub fn start(input: &str) -> (r: Option<(i64, Option<u32>)>)
    ensures
        r matches Some(res) ==> ({
            let lines = split_on(trim_spec(input.spec_bytes()), 10);
            &&& lines.len() >= 2
            &&& exists|w1: Seq<Instruction>, w2: Seq<Instruction>|
                #![trigger w1.len(), w2.len()]
                {
                    &&& spec_wire(split_on(trim_spec(lines[0]), 44)) == Some(w1)
                    &&& spec_wire(split_on(trim_spec(lines[1]), 44)) == Some(w2)
                    &&& exists|m1: Seq<Visit>, m2: Seq<Visit>, pts: Seq<(i32, i32)>|
                        #![trigger m1.len(), m2.len(), pts.len()]
                        {
                            &&& walk_wire(w1, 0, 0, 0, Seq::empty()) == Some(m1)
                            &&& walk_wire(w2, 0, 0, 0, Seq::empty()) == Some(m2)
                            &&& (forall|k: int|
                                0 <= k < pts.len() ==> on_wire(m1, #[trigger] pts[k]) && on_wire(
                                    m2,
                                    pts[k],
                                ))
                            &&& (forall|p: (i32, i32)|
                                on_wire(m1, p) && on_wire(m2, p) ==> on_wire_pts(pts, p))
                            &&& res.0 as int == spec_min_mh(pts, pts.len() as int)
                            &&& res.1 == (match spec_min_steps(m1, m2, pts, pts.len() as int) {
                                Some(v) => Some(v as u32),
                                None => None::<u32>,
                            })
                        }
                }
        }),
{
    let (wire_one, wire_two) = match format_input(input) {
        Some(w) => w,
        None => { return None; },
    };
    let one_map = match get_point_map(&wire_one) {
        Some(m) => m,
        None => { return None; },
    };
    let two_map = match get_point_map(&wire_two) {
        Some(m) => m,
        None => { return None; },
    };
    let intersection = get_map_key_intersection(&one_map, &two_map);
    let min_mh = get_min_mh_distance(&intersection);
    let min_steps = get_min_step_distance(&one_map, &two_map, &intersection);
    proof {
        if spec_min_steps(one_map@, two_map@, intersection@, intersection@.len() as int)
            is Some {
            assert(min_steps matches Some(v) ==> spec_min_steps(
                one_map@,
                two_map@,
                intersection@,
                intersection@.len() as int,
            ) == Some(v as int));
        }
    }
    Some((min_mh, min_steps))
}

} // verus!
