//! Asteroid line-of-sight: an asteroid sees another unless some third
//! asteroid lies on one of the equally spaced gcd-normalised steps strictly
//! between them.  The monitoring station is the asteroid that sees the most
//! others.

use crate::intcode::{split_on, trim_spec};
use crate::twelve::{gcd, spec_gcd};
use vstd::prelude::*;
use vstd::string::StrSliceExecFns;
use vstd::string::StringSliceAdditionalSpecFns;

verus! {

/// Largest coordinate the grid loader accepts; keeps every line-of-sight
/// computation far from the integer limits.
pub const GRID_LIMIT: usize = 0x4000_0000;

/// Abstract grid position.
#[verifier::ext_equal]
pub ghost struct PointS {
    pub x: int,
    pub y: int,
}

/// A grid position: `x` counts columns, `y` counts rows.
#[derive(Clone, Copy, Debug)]
pub struct Point {
    pub x: usize,
    pub y: usize,
}

impl View for Point {
    type V = PointS;

    open spec fn view(&self) -> PointS {
        PointS { x: self.x as int, y: self.y as int }
    }
}

impl DeepView for Point {
    type V = PointS;

    open spec fn deep_view(&self) -> PointS {
        self@
    }
}

impl Point {
    pub fn new(x: usize, y: usize) -> (r: Point)
        ensures
            r@ == (PointS { x: x as int, y: y as int }),
    {
        Point { x, y }
    }
}

pub open spec fn abs_i(x: int) -> int {
    if x < 0 {
        -x
    } else {
        x
    }
}

/// The gcd-normalised step from `a` towards `b`, component-signed so that
/// no divisibility argument is needed: `|d|/g` with `d`'s sign.
pub open spec fn step_comp(d: int, g: int) -> int
    recommends
        g > 0,
{
    if d < 0 {
        -(abs_i(d) / g)
    } else {
        abs_i(d) / g
    }
}

/// Whether some asteroid occupies position `p`.
pub open spec fn contains_pt(pts: Seq<PointS>, p: PointS) -> bool {
    exists|i: int| 0 <= i < pts.len() && pts[i] == p
}

/// Number of gcd-normalised steps from `a` to `b`.
pub open spec fn steps_between(a: PointS, b: PointS) -> int {
    spec_gcd(abs_i(b.x - a.x) as nat, abs_i(b.y - a.y) as nat) as int
}

/// Whether a third asteroid blocks the sight line from `a` to `b`: one
/// sits on a strictly intermediate normalised step.
pub open spec fn blocked(pts: Seq<PointS>, a: PointS, b: PointS) -> bool {
    let g = steps_between(a, b);
    exists|k: int|
        1 <= k < g && #[trigger] contains_pt(
            pts,
            PointS {
                x: a.x + k * step_comp(b.x - a.x, g),
                y: a.y + k * step_comp(b.y - a.y, g),
            },
        )
}

/// The gcd of two positives is positive.
proof fn lemma_gcd_pos(a: nat, b: nat)
    requires
        a > 0 || b > 0,
    ensures
        spec_gcd(a, b) > 0,
    decreases b,
{
    if b > 0 {
        lemma_gcd_pos(b, a % b);
    }
}

/// The gcd of two numbers, not both zero, is at most the larger of them.
proof fn lemma_gcd_le(a: nat, b: nat)
    requires
        a > 0 || b > 0,
    ensures
        spec_gcd(a, b) <= (if a > b {
            a as int
        } else {
            b as int
        }),
    decreases b,
{
    if b > 0 {
        lemma_gcd_le(b, a % b);
    }
}

/// Whether two positions are the same, executably.
pub fn points_equal(a: &Point, b: &Point) -> (r: bool)
    ensures
        r == (a@ == b@),
{
    let r = a.x == b.x && a.y == b.y;
    proof {
        if r {
            assert(a@ =~= b@);
        }
    }
    r
}

/// Whether some listed asteroid occupies `(cx, cy)`, executably.
fn contains_ex(pts: &Vec<Point>, cx: i64, cy: i64) -> (r: bool)
    requires
        forall|k: int|
            0 <= k < pts@.len() ==> (#[trigger] pts@[k]).x <= GRID_LIMIT && pts@[k].y
                <= GRID_LIMIT,
    ensures
        r == contains_pt(pts.deep_view(), PointS { x: cx as int, y: cy as int }),
{
    let n = pts.len();
    let mut i: usize = 0;
    while i < n
        invariant
            i <= n,
            n == pts@.len(),
            forall|k: int|
                0 <= k < pts@.len() ==> (#[trigger] pts@[k]).x <= GRID_LIMIT && pts@[k].y
                    <= GRID_LIMIT,
            forall|k: int|
                0 <= k < i ==> #[trigger] pts.deep_view()[k] != (PointS {
                    x: cx as int,
                    y: cy as int,
                }),
        decreases n - i,
    {
        proof {
            assert(pts.deep_view()[i as int] == pts@[i as int]@);
            assert(pts@[i as int].x <= GRID_LIMIT && pts@[i as int].y <= GRID_LIMIT);
        }
        if pts[i].x as i64 == cx && pts[i].y as i64 == cy {
            proof {
                assert(pts.deep_view()[i as int] =~= (PointS { x: cx as int, y: cy as int }));
            }
            return true;
        }
        proof {
            if pts@[i as int]@ == (PointS { x: cx as int, y: cy as int }) {
                assert(false);
            }
        }
        i = i + 1;
    }
    false
}

/// Whether `spottee` is visible from `spotter`: no third asteroid sits on
/// a strictly intermediate normalised step of the sight line.
#[verifier::rlimit(100)]
pub fn is_spottable(set: &Vec<Point>, spotter: &Point, spottee: &Point) -> (r: bool)
    requires
        spotter.x <= GRID_LIMIT && spotter.y <= GRID_LIMIT,
        spottee.x <= GRID_LIMIT && spottee.y <= GRID_LIMIT,
        forall|k: int|
            0 <= k < set@.len() ==> (#[trigger] set@[k]).x <= GRID_LIMIT && set@[k].y
                <= GRID_LIMIT,
        spotter@ != spottee@,
    ensures
        r == !blocked(set.deep_view(), spotter@, spottee@),
{
    let dx: i64 = spottee.x as i64 - spotter.x as i64;
    let dy: i64 = spottee.y as i64 - spotter.y as i64;
    let adx: u64 = if dx < 0 {
        (-dx) as u64
    } else {
        dx as u64
    };
    let ady: u64 = if dy < 0 {
        (-dy) as u64
    } else {
        dy as u64
    };
    proof {
        if spotter@.x == spottee@.x && spotter@.y == spottee@.y {
            assert(spotter@ =~= spottee@);
        }
        lemma_gcd_pos(adx as nat, ady as nat);
    }
    let g: u64 = gcd(adx, ady);
    let vx: i64 = if dx < 0 {
        -((adx / g) as i64)
    } else {
        (adx / g) as i64
    };
    let vy: i64 = if dy < 0 {
        -((ady / g) as i64)
    } else {
        (ady / g) as i64
    };
    proof {
        assert(adx as int == abs_i(spottee@.x - spotter@.x));
        assert(ady as int == abs_i(spottee@.y - spotter@.y));
        assert(vx as int == step_comp(spottee@.x - spotter@.x, g as int));
        assert(vy as int == step_comp(spottee@.y - spotter@.y, g as int));
        assert(g as int == steps_between(spotter@, spottee@));
        vstd::arithmetic::div_mod::lemma_fundamental_div_mod(adx as int, g as int);
        vstd::arithmetic::div_mod::lemma_fundamental_div_mod(ady as int, g as int);
        assert(g as int * (adx as int / g as int) <= adx as int);
        assert(g as int * (ady as int / g as int) <= ady as int);
        assert(abs_i(vx as int) == adx as int / g as int);
        assert(abs_i(vy as int) == ady as int / g as int);
        vstd::arithmetic::mul::lemma_mul_is_commutative(abs_i(vx as int), g as int);
        vstd::arithmetic::mul::lemma_mul_is_commutative(abs_i(vy as int), g as int);
        assert(abs_i(vx as int) * g as int <= adx as int);
        assert(abs_i(vy as int) * g as int <= ady as int);
        lemma_gcd_le(adx as nat, ady as nat);
        assert(g <= GRID_LIMIT as u64);
    }
    let mut k: u64 = 1;
    while k < g
        invariant
            1 <= k <= g,
            g <= GRID_LIMIT as u64,
            g as int == steps_between(spotter@, spottee@),
            vx as int == step_comp(spottee@.x - spotter@.x, g as int),
            vy as int == step_comp(spottee@.y - spotter@.y, g as int),
            abs_i(vx as int) * g as int <= abs_i(spottee@.x - spotter@.x),
            abs_i(vy as int) * g as int <= abs_i(spottee@.y - spotter@.y),
            spotter.x <= GRID_LIMIT && spotter.y <= GRID_LIMIT,
            spottee.x <= GRID_LIMIT && spottee.y <= GRID_LIMIT,
            forall|m: int|
                0 <= m < set@.len() ==> (#[trigger] set@[m]).x <= GRID_LIMIT && set@[m].y
                    <= GRID_LIMIT,
            forall|kk: int|
                1 <= kk < k ==> !(#[trigger] contains_pt(
                    set.deep_view(),
                    PointS {
                        x: spotter@.x + kk * step_comp(spottee@.x - spotter@.x, g as int),
                        y: spotter@.y + kk * step_comp(spottee@.y - spotter@.y, g as int),
                    },
                )),
        decreases g - k,
    {
        proof {
            vstd::arithmetic::mul::lemma_mul_inequality(k as int, g as int, abs_i(vx as int));
            vstd::arithmetic::mul::lemma_mul_inequality(k as int, g as int, abs_i(vy as int));
            assert(abs_i(k as int * vx as int) == k as int * abs_i(vx as int))
                by (nonlinear_arith);
            assert(abs_i(k as int * vy as int) == k as int * abs_i(vy as int))
                by (nonlinear_arith);
            assert(k as int * abs_i(vx as int) <= g as int * abs_i(vx as int));
            assert(k as int * abs_i(vy as int) <= g as int * abs_i(vy as int));
            vstd::arithmetic::mul::lemma_mul_is_commutative(abs_i(vx as int), g as int);
            vstd::arithmetic::mul::lemma_mul_is_commutative(abs_i(vy as int), g as int);
            assert(abs_i(k as int * vx as int) <= GRID_LIMIT as int);
            assert(abs_i(k as int * vy as int) <= GRID_LIMIT as int);
        }
        let cx: i64 = spotter.x as i64 + (k as i64) * vx;
        let cy: i64 = spotter.y as i64 + (k as i64) * vy;
        if contains_ex(set, cx, cy) {
            return false;
        }
        k = k + 1;
    }
    true
}

/// Asteroid positions of one row, scanning from column `x0`.
pub open spec fn row_points(row: Seq<u8>, y: int, x0: int) -> Seq<PointS>
    decreases row.len(),
{
    if row.len() == 0 {
        Seq::empty()
    } else {
        let rest = row_points(row.subrange(1, row.len() as int), y, x0 + 1);
        if row[0] == 35 {
            seq![PointS { x: x0, y }] + rest
        } else {
            rest
        }
    }
}

/// Asteroid positions of all rows, scanning from row `y0`.
pub open spec fn grid_points(rows: Seq<Seq<u8>>, y0: int) -> Seq<PointS>
    decreases rows.len(),
{
    if rows.len() == 0 {
        Seq::empty()
    } else {
        row_points(rows[0], y0, 0) + grid_points(rows.subrange(1, rows.len() as int), y0 + 1)
    }
}

/// What [`generate_map`] reads: the `#` cells of the trimmed, newline
/// separated grid, row by row, left to right.  Nothing when the grid's
/// extent leaves [`GRID_LIMIT`].
pub open spec fn spec_generate_map(bytes: Seq<u8>) -> Option<Seq<PointS>> {
    let rows = split_on(trim_spec(bytes), 10);
    if rows.len() <= GRID_LIMIT && (forall|i: int|
        0 <= i < rows.len() ==> (#[trigger] rows[i]).len() <= GRID_LIMIT) {
        Some(grid_points(rows, 0))
    } else {
        None
    }
}

/// Read the asteroid grid.
pub fn generate_map(input: &str) -> (r: Option<Vec<Point>>)
    ensures
        r matches Some(pts) ==> spec_generate_map(input.spec_bytes()) == Some(pts.deep_view())
            && (forall|k: int|
            0 <= k < pts@.len() ==> (#[trigger] pts@[k]).x <= GRID_LIMIT && pts@[k].y
                <= GRID_LIMIT),
        r is None ==> spec_generate_map(input.spec_bytes()) is None,
{
    let bs: Vec<u8> = input.as_bytes_vec();
    let t = crate::text::trim_vec(&bs);
    let rows = crate::text::split_bytes(&t, 10);
    let nr = rows.len();
    if nr > GRID_LIMIT {
        return None;
    }
    let mut pts: Vec<Point> = Vec::new();
    proof {
        assert(rows.deep_view().subrange(0, nr as int) =~= rows.deep_view());
        assert(pts.deep_view() =~~= Seq::<PointS>::empty());
        assert(Seq::<PointS>::empty() + grid_points(rows.deep_view(), 0) =~= grid_points(
            rows.deep_view(),
            0,
        ));
    }
    let mut i: usize = 0;
    while i < nr
        invariant
            i <= nr,
            nr == rows@.len() <= GRID_LIMIT,
            rows.deep_view() == split_on(trim_spec(input.spec_bytes()), 10),
            forall|m: int| 0 <= m < i ==> (#[trigger] rows@[m]@).len() <= GRID_LIMIT,
            grid_points(rows.deep_view(), 0) == pts.deep_view() + grid_points(
                rows.deep_view().subrange(i as int, nr as int),
                i as int,
            ),
            forall|k: int|
                0 <= k < pts@.len() ==> (#[trigger] pts@[k]).x <= GRID_LIMIT && pts@[k].y
                    <= GRID_LIMIT,
        decreases nr - i,
    {
        let row_len = rows[i].len();
        if row_len > GRID_LIMIT {
            proof {
                assert(rows.deep_view()[i as int] == rows@[i as int]@);
            }
            return None;
        }
        let ghost rows_rem: Seq<Seq<u8>> = rows.deep_view().subrange(i as int, nr as int);
        proof {
            assert(rows_rem[0] == rows.deep_view()[i as int]);
            assert(rows.deep_view()[i as int] == rows@[i as int]@);
            assert(rows_rem.subrange(1, rows_rem.len() as int) =~= rows.deep_view().subrange(
                i as int + 1,
                nr as int,
            ));
        }
        proof {
            assert(rows@[i as int]@.subrange(0, row_len as int) =~= rows@[i as int]@);
            let a = row_points(rows@[i as int]@, i as int, 0);
            let b = grid_points(rows.deep_view().subrange(i as int + 1, nr as int), i as int + 1);
            assert(grid_points(rows_rem, i as int) == a + b);
            assert(pts.deep_view() + (a + b) =~= pts.deep_view() + a + b);
        }
        let mut j: usize = 0;
        while j < row_len
            invariant
                j <= row_len,
                i < nr,
                nr == rows@.len() <= GRID_LIMIT,
                row_len == rows@[i as int]@.len() <= GRID_LIMIT,
                grid_points(rows.deep_view(), 0) == pts.deep_view() + row_points(
                    rows@[i as int]@.subrange(j as int, row_len as int),
                    i as int,
                    j as int,
                ) + grid_points(
                    rows.deep_view().subrange(i as int + 1, nr as int),
                    i as int + 1,
                ),
                rows.deep_view() == split_on(trim_spec(input.spec_bytes()), 10),
                forall|k: int|
                    0 <= k < pts@.len() ==> (#[trigger] pts@[k]).x <= GRID_LIMIT && pts@[k].y
                        <= GRID_LIMIT,
            decreases row_len - j,
        {
            let ghost seg: Seq<u8> = rows@[i as int]@.subrange(j as int, row_len as int);
            proof {
                assert(seg[0] == rows@[i as int]@[j as int]);
                assert(seg.subrange(1, seg.len() as int) =~= rows@[i as int]@.subrange(
                    j as int + 1,
                    row_len as int,
                ));
            }
            let c = rows[i][j];
            if c == 35 {
                let ghost pts0: Seq<PointS> = pts.deep_view();
                pts.push(Point { x: j, y: i });
                proof {
                    assert(pts.deep_view() =~~= pts0.push(PointS { x: j as int, y: i as int }));
                    assert(row_points(seg, i as int, j as int) == seq![
                        PointS { x: j as int, y: i as int },
                    ] + row_points(seg.subrange(1, seg.len() as int), i as int, j as int + 1));
                    assert(pts0 + row_points(seg, i as int, j as int) =~= pts.deep_view()
                        + row_points(
                        rows@[i as int]@.subrange(j as int + 1, row_len as int),
                        i as int,
                        j as int + 1,
                    ));
                }
            } else {
                proof {
                    assert(row_points(seg, i as int, j as int) == row_points(
                        seg.subrange(1, seg.len() as int),
                        i as int,
                        j as int + 1,
                    ));
                }
            }
            j = j + 1;
        }
        proof {
            assert(rows@[i as int]@.subrange(row_len as int, row_len as int)
                =~= Seq::<u8>::empty());
            assert(row_points(Seq::<u8>::empty(), i as int, row_len as int)
                == Seq::<PointS>::empty());
            assert(pts.deep_view() + Seq::<PointS>::empty() =~= pts.deep_view());
        }
        i = i + 1;
    }
    proof {
        assert(rows.deep_view().subrange(nr as int, nr as int) =~= Seq::<Seq<u8>>::empty());
        assert(grid_points(Seq::<Seq<u8>>::empty(), nr as int) == Seq::<PointS>::empty());
        assert(pts.deep_view() + Seq::<PointS>::empty() =~= pts.deep_view());
        assert(forall|m: int|
            0 <= m < rows.deep_view().len() ==> (#[trigger] rows.deep_view()[m]).len()
                == rows@[m]@.len());
    }
    Some(pts)
}

/// How many other asteroids index `s` sees, over the first `j` candidates.
pub open spec fn vis_count(pts: Seq<PointS>, p: PointS, j: int) -> int
    decreases j,
{
    if j <= 0 {
        0
    } else {
        vis_count(pts, p, j - 1) + (if pts[j - 1] != p && !blocked(pts, p, pts[j - 1]) {
            1int
        } else {
            0int
        })
    }
}

/// The running best over the first `i` spotters: count and position, first
/// strict improvement kept.
pub open spec fn best_spotter(pts: Seq<PointS>, i: int) -> (int, PointS)
    decreases i,
{
    if i <= 0 {
        (0, PointS { x: 0, y: 0 })
    } else {
        let prev = best_spotter(pts, i - 1);
        let c = vis_count(pts, pts[i - 1], pts.len() as int);
        if c > prev.0 {
            (c, pts[i - 1])
        } else {
            prev
        }
    }
}

/// Find the asteroid that sees the most others, and how many it sees.
pub fn process_map(set: &Vec<Point>) -> (r: (i32, Point))
    requires
        set@.len() <= 0x7fffffff,
        forall|k: int|
            0 <= k < set@.len() ==> (#[trigger] set@[k]).x <= GRID_LIMIT && set@[k].y
                <= GRID_LIMIT,
    ensures
        r.0 as int == best_spotter(set.deep_view(), set@.len() as int).0,
        r.1@ == best_spotter(set.deep_view(), set@.len() as int).1,
{
    let n = set.len();
    let mut max: i32 = 0;
    let mut max_point = Point::new(0, 0);
    let mut i: usize = 0;
    while i < n
        invariant
            i <= n,
            n == set@.len() <= 0x7fffffff,
            forall|k: int|
                0 <= k < set@.len() ==> (#[trigger] set@[k]).x <= GRID_LIMIT && set@[k].y
                    <= GRID_LIMIT,
            max as int == best_spotter(set.deep_view(), i as int).0,
            max_point@ == best_spotter(set.deep_view(), i as int).1,
        decreases n - i,
    {
        let spotter = set[i];
        proof {
            assert(spotter@ == set.deep_view()[i as int]);
        }
        let mut spottable: i32 = 0;
        let mut j: usize = 0;
        while j < n
            invariant
                j <= n,
                i < n,
                n == set@.len() <= 0x7fffffff,
                forall|k: int|
                    0 <= k < set@.len() ==> (#[trigger] set@[k]).x <= GRID_LIMIT && set@[k].y
                        <= GRID_LIMIT,
                spotter@ == set.deep_view()[i as int],
                spotter.x <= GRID_LIMIT && spotter.y <= GRID_LIMIT,
                0 <= spottable as int <= j as int,
                spottable as int == vis_count(set.deep_view(), spotter@, j as int),
            decreases n - j,
        {
            let spottee = set[j];
            proof {
                assert(spottee@ == set.deep_view()[j as int]);
            }
            if points_equal(&spotter, &spottee) {
            } else {
                if is_spottable(set, &spotter, &spottee) {
                    spottable = spottable + 1;
                }
            }
            j = j + 1;
        }
        if spottable > max {
            max = spottable;
            max_point = spotter;
        }
        i = i + 1;
    }
    (max, max_point)
}

#[derive(Clone, Copy, Debug, PartialEq, Eq, Structural)]
pub enum Quadrant {
    One,
    Two,
    Three,
    Four,
}

/// Clock rank of a quadrant, screen-up first.
pub open spec fn quadrant_rank(q: Quadrant) -> int {
    match q {
        Quadrant::One => 1,
        Quadrant::Two => 2,
        Quadrant::Three => 3,
        Quadrant::Four => 4,
    }
}

/// A direction between grid cells, reduced by the gcd of its components
/// and flipped, as the sweeping laser ranks directions.
#[derive(Clone, Copy, Debug, PartialEq, Eq, Structural)]
pub struct Vector {
    pub x: i32,
    pub y: i32,
}

/// The quadrant a direction points into: the screen's up-right, down-right,
/// down-left and up-left quarters in that order, with the axes attached
/// clockwise.
pub open spec fn spec_quadrant(v: Vector) -> Quadrant {
    if v.x >= 0 && v.y < 0 {
        Quadrant::One
    } else if v.x >= 0 && v.y >= 0 {
        Quadrant::Two
    } else if v.x < 0 && v.y >= 0 {
        Quadrant::Three
    } else {
        Quadrant::Four
    }
}

/// The reduced, flipped direction from `two` towards `one`.
pub open spec fn spec_vector(one: PointS, two: PointS) -> Vector
    recommends
        one != two,
{
    let dx = one.x - two.x;
    let dy = one.y - two.y;
    let g = spec_gcd(abs_i(dx) as nat, abs_i(dy) as nat) as int;
    Vector {
        x: (if dx >= 0 {
            -(abs_i(dx) / g)
        } else {
            abs_i(dx) / g
        }) as i32,
        y: (if dy >= 0 {
            -(abs_i(dy) / g)
        } else {
            abs_i(dy) / g
        }) as i32,
    }
}

impl Vector {
    /// Greatest common divisor of two magnitudes.
    pub fn gcd(one: i32, two: i32) -> (r: i32)
        requires
            one >= 0,
            two >= 0,
        ensures
            r as nat == spec_gcd(one as nat, two as nat),
        decreases two,
    {
        if two == 0 {
            one
        } else {
            Vector::gcd(two, one % two)
        }
    }

    /// The reduced, flipped direction from `two` towards `one`.
    pub fn new(one: &Point, two: &Point) -> (r: Vector)
        requires
            one.x <= GRID_LIMIT && one.y <= GRID_LIMIT,
            two.x <= GRID_LIMIT && two.y <= GRID_LIMIT,
            one@ != two@,
        ensures
            r == spec_vector(one@, two@),
    {
        let dx: i64 = one.x as i64 - two.x as i64;
        let dy: i64 = one.y as i64 - two.y as i64;
        let adx: u64 = if dx < 0 {
            (-dx) as u64
        } else {
            dx as u64
        };
        let ady: u64 = if dy < 0 {
            (-dy) as u64
        } else {
            dy as u64
        };
        proof {
            if one@.x == two@.x && one@.y == two@.y {
                assert(one@ =~= two@);
            }
            lemma_gcd_pos(adx as nat, ady as nat);
            lemma_gcd_le(adx as nat, ady as nat);
        }
        let g: u64 = gcd(adx, ady);
        proof {
            vstd::arithmetic::div_mod::lemma_fundamental_div_mod(adx as int, g as int);
            vstd::arithmetic::div_mod::lemma_fundamental_div_mod(ady as int, g as int);
            assert(g as int * (adx as int / g as int) <= adx as int);
            assert(g as int * (ady as int / g as int) <= ady as int);
        }
        let vx64: i64 = if dx >= 0 {
            -((adx / g) as i64)
        } else {
            (adx / g) as i64
        };
        let vy64: i64 = if dy >= 0 {
            -((ady / g) as i64)
        } else {
            (ady / g) as i64
        };
        Vector { x: vx64 as i32, y: vy64 as i32 }
    }

    /// The quadrant this direction points into.
    pub fn get_quadrant(&self) -> (r: Quadrant)
        ensures
            r == spec_quadrant(*self),
    {
        if self.x >= 0 && self.y < 0 {
            Quadrant::One
        } else if self.x >= 0 && self.y >= 0 {
            Quadrant::Two
        } else if self.x < 0 && self.y >= 0 {
            Quadrant::Three
        } else {
            Quadrant::Four
        }
    }

    /// Order two directions by quadrant alone.
    pub fn cmp_quadrant(&self, other: &Vector) -> (r: core::cmp::Ordering)
        ensures
            r is Less <==> quadrant_rank(spec_quadrant(*self)) < quadrant_rank(
                spec_quadrant(*other),
            ),
            r is Greater <==> quadrant_rank(spec_quadrant(*self)) > quadrant_rank(
                spec_quadrant(*other),
            ),
            r is Equal <==> spec_quadrant(*self) == spec_quadrant(*other),
    {
        let a = self.get_quadrant();
        let b = other.get_quadrant();
        let ra: i32 = match a {
            Quadrant::One => 1,
            Quadrant::Two => 2,
            Quadrant::Three => 3,
            Quadrant::Four => 4,
        };
        let rb: i32 = match b {
            Quadrant::One => 1,
            Quadrant::Two => 2,
            Quadrant::Three => 3,
            Quadrant::Four => 4,
        };
        if ra < rb {
            core::cmp::Ordering::Less
        } else if ra > rb {
            core::cmp::Ordering::Greater
        } else {
            core::cmp::Ordering::Equal
        }
    }
}

/// Walk a ray step by step: the first listed asteroid hit within the step
/// budget, stopping early when the walk leaves the working range.
pub open spec fn ray_first(
    pts: Seq<PointS>,
    x: int,
    y: int,
    vx: int,
    vy: int,
    fuel: nat,
) -> Option<(i64, i64)>
    decreases fuel,
{
    if fuel == 0 {
        None
    } else {
        let x2 = x + vx;
        let y2 = y + vy;
        if x2 < -0x1000_0000_0000_0000 || x2 > 0x1000_0000_0000_0000 || y2
            < -0x1000_0000_0000_0000 || y2 > 0x1000_0000_0000_0000 {
            None
        } else if contains_pt(pts, PointS { x: x2, y: y2 }) {
            Some((x2 as i64, y2 as i64))
        } else {
            ray_first(pts, x2, y2, vx, vy, (fuel - 1) as nat)
        }
    }
}

/// The first asteroid met walking from the station along the direction,
/// as [`ray_first`] finds it.
pub fn get_first_by_vector(
    set: &Vec<Point>,
    station: &Point,
    vector: &Vector,
    fuel: usize,
) -> (r: Option<(i64, i64)>)
    requires
        station.x <= GRID_LIMIT && station.y <= GRID_LIMIT,
        forall|k: int|
            0 <= k < set@.len() ==> (#[trigger] set@[k]).x <= GRID_LIMIT && set@[k].y
                <= GRID_LIMIT,
    ensures
        r == ray_first(
            set.deep_view(),
            station@.x,
            station@.y,
            vector.x as int,
            vector.y as int,
            fuel as nat,
        ),
{
    let mut x: i64 = station.x as i64;
    let mut y: i64 = station.y as i64;
    let mut left = fuel;
    while left > 0
        invariant
            -0x1000_0000_0000_0000 <= x as int <= 0x1000_0000_0000_0000,
            -0x1000_0000_0000_0000 <= y as int <= 0x1000_0000_0000_0000,
            forall|k: int|
                0 <= k < set@.len() ==> (#[trigger] set@[k]).x <= GRID_LIMIT && set@[k].y
                    <= GRID_LIMIT,
            ray_first(
                set.deep_view(),
                station@.x,
                station@.y,
                vector.x as int,
                vector.y as int,
                fuel as nat,
            ) == ray_first(
                set.deep_view(),
                x as int,
                y as int,
                vector.x as int,
                vector.y as int,
                left as nat,
            ),
        decreases left,
    {
        let x2 = x + (vector.x as i64);
        let y2 = y + (vector.y as i64);
        if x2 < -0x1000_0000_0000_0000 || x2 > 0x1000_0000_0000_0000 || y2
            < -0x1000_0000_0000_0000 || y2 > 0x1000_0000_0000_0000 {
            return None;
        }
        if contains_ex(set, x2, y2) {
            return Some((x2, y2));
        }
        x = x2;
        y = y2;
        left = left - 1;
    }
    None
}

} // verus!
