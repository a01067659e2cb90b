//! Four-body simulation on integer coordinates: pairwise gravity nudges each
//! velocity component by one towards the other body, then velocities are
//! added to positions.  One part sums the system's energy after a fixed
//! number of steps; the other finds, per axis, the first step at which the
//! axis returns to its initial state, and combines the three cycle lengths
//! with a least common multiple.

use vstd::prelude::*;

verus! {

/// Coordinate bound kept during simulation: while every position and
/// velocity component stays within it, one more step cannot overflow.
pub const COORD_LIMIT: i32 = 1_000_000_000;

/// Abstract state of one body: positions and velocities per axis.
#[verifier::ext_equal]
pub ghost struct MoonState {
    pub pos: Seq<int>,
    pub vel: Seq<int>,
}

#[derive(Clone, Copy, Debug)]
pub struct Moon {
    pub position: [i32; 3],
    pub velocity: [i32; 3],
}

pub type MoonGroup = [Moon; 4];

impl View for Moon {
    type V = MoonState;

    open spec fn view(&self) -> MoonState {
        MoonState {
            pos: Seq::new(3, |i: int| self.position@[i] as int),
            vel: Seq::new(3, |i: int| self.velocity@[i] as int),
        }
    }
}

/// The four bodies as abstract states.
pub open spec fn group_view(g: MoonGroup) -> Seq<MoonState> {
    Seq::new(4, |i: int| g@[i]@)
}

pub open spec fn sgn(d: int) -> int {
    if d > 0 {
        1
    } else if d < 0 {
        -1
    } else {
        0
    }
}

/// Gravity contribution of `o` to `me` on axis `d`; a body identical in
/// position and velocity contributes nothing (the pairing skips it).
pub open spec fn gpair(me: MoonState, o: MoonState, d: int) -> int {
    if o == me {
        0
    } else {
        sgn(o.pos[d] - me.pos[d])
    }
}

/// Gravity contributions to body `i` on axis `d` from the first `j` bodies.
pub open spec fn gsum(g: Seq<MoonState>, i: int, d: int, j: int) -> int
    decreases j,
{
    if j <= 0 {
        0
    } else {
        gsum(g, i, d, j - 1) + gpair(g[i], g[j - 1], d)
    }
}

/// One body after the gravity pass against the whole group.
pub open spec fn grav_moon(g: Seq<MoonState>, i: int) -> MoonState {
    MoonState {
        pos: g[i].pos,
        vel: Seq::new(3, |d: int| g[i].vel[d] + gsum(g, i, d, 4)),
    }
}

/// At most one unit of gravity per other body.
pub proof fn lemma_gsum_bound(g: Seq<MoonState>, i: int, d: int, j: int)
    requires
        j >= 0,
    ensures
        -j <= gsum(g, i, d, j) <= j,
    decreases j,
{
    if j > 0 {
        lemma_gsum_bound(g, i, d, j - 1);
    }
}

/// The gravity pass: every velocity updated from the positions all bodies
/// held before the pass.
pub open spec fn grav_group(g: Seq<MoonState>) -> Seq<MoonState> {
    Seq::new(4, |i: int| grav_moon(g, i))
}

/// The velocity pass: every position advanced by its velocity.
pub open spec fn vel_group(g: Seq<MoonState>) -> Seq<MoonState> {
    Seq::new(
        4,
        |i: int|
            MoonState { pos: Seq::new(3, |d: int| g[i].pos[d] + g[i].vel[d]), vel: g[i].vel },
    )
}

/// One simulation step: gravity, then velocity.
pub open spec fn sim_step(g: Seq<MoonState>) -> Seq<MoonState> {
    vel_group(grav_group(g))
}

/// The state after `n` steps.
pub open spec fn sim_n(g: Seq<MoonState>, n: nat) -> Seq<MoonState>
    decreases n,
{
    if n == 0 {
        g
    } else {
        sim_step(sim_n(g, (n - 1) as nat))
    }
}

/// All components within the simulation's coordinate bound.
pub open spec fn bounded(g: Seq<MoonState>) -> bool {
    forall|i: int, d: int|
        0 <= i < 4 && 0 <= d < 3 ==> -(COORD_LIMIT as int) <= #[trigger] g[i].pos[d]
            <= COORD_LIMIT as int && -(COORD_LIMIT as int) <= g[i].vel[d] <= COORD_LIMIT as int
}

/// The whole trajectory up to `n` steps stays within bounds.
pub open spec fn sim_ok(g: Seq<MoonState>, n: nat) -> bool
    decreases n,
{
    if n == 0 {
        true
    } else {
        bounded(g) && sim_ok(sim_step(g), (n - 1) as nat)
    }
}

pub open spec fn abs_val(x: int) -> int {
    if x < 0 {
        -x
    } else {
        x
    }
}

impl Moon {
    /// A body from its position, at rest unless a velocity is given.
    pub fn new(position: [i32; 3], velocity: Option<[i32; 3]>) -> (r: Moon)
        ensures
            r@.pos == Seq::new(3, |i: int| position@[i] as int),
            r@.vel == (match velocity {
                Some(v) => Seq::new(3, |i: int| v@[i] as int),
                None => seq![0int, 0int, 0int],
            }),
    {
        let r = Moon {
            position,
            velocity: match velocity {
                Some(v) => v,
                None => [0, 0, 0],
            },
        };
        proof {
            if velocity is None {
                assert(r@.vel =~= seq![0int, 0int, 0int]);
            }
        }
        r
    }

    /// Nudge each velocity component by one towards `other`'s position.
    pub fn apply_gravity(&mut self, other: &Moon)
        requires
            forall|d: int|
                0 <= d < 3 ==> i32::MIN < #[trigger] old(self).velocity@[d] < i32::MAX,
        ensures
            final(self).position@ == old(self).position@,
            forall|d: int|
                0 <= d < 3 ==> #[trigger] final(self)@.vel[d] == old(self)@.vel[d] + sgn(
                    other@.pos[d] - old(self)@.pos[d],
                ),
    {
        let mut d: usize = 0;
        while d < 3
            invariant
                d <= 3,
                self.position@ == old(self).position@,
                forall|k: int|
                    0 <= k < 3 ==> i32::MIN < #[trigger] old(self).velocity@[k] < i32::MAX,
                forall|k: int|
                    d <= k < 3 ==> #[trigger] self.velocity@[k] == old(self).velocity@[k],
                forall|k: int|
                    0 <= k < d ==> #[trigger] self.velocity@[k] as int == old(
                        self,
                    ).velocity@[k] as int + sgn(other@.pos[k] - old(self)@.pos[k]),
            decreases 3 - d,
        {
            if other.position[d] > self.position[d] {
                self.velocity[d] = self.velocity[d] + 1;
            } else if other.position[d] < self.position[d] {
                self.velocity[d] = self.velocity[d] - 1;
            }
            d = d + 1;
        }
    }

    /// Advance the position by the velocity.
    pub fn apply_velocity(&mut self)
        requires
            forall|d: int|
                0 <= d < 3 ==> i32::MIN as int <= #[trigger] old(self).position@[d] + old(
                    self,
                ).velocity@[d] <= i32::MAX as int,
        ensures
            final(self).velocity@ == old(self).velocity@,
            forall|d: int|
                0 <= d < 3 ==> #[trigger] final(self)@.pos[d] == old(self)@.pos[d] + old(
                    self,
                )@.vel[d],
    {
        let mut d: usize = 0;
        while d < 3
            invariant
                d <= 3,
                self.velocity@ == old(self).velocity@,
                forall|k: int|
                    d <= k < 3 ==> #[trigger] self.position@[k] == old(self).position@[k],
                forall|k: int|
                    0 <= k < 3 ==> i32::MIN as int <= #[trigger] old(self).position@[k] + old(
                        self,
                    ).velocity@[k] <= i32::MAX as int,
                forall|k: int|
                    0 <= k < d ==> #[trigger] self.position@[k] as int == old(
                        self,
                    ).position@[k] as int + old(self).velocity@[k] as int,
            decreases 3 - d,
        {
            self.position[d] = self.position[d] + self.velocity[d];
            d = d + 1;
        }
    }

    /// Whether two bodies agree in every position and velocity component.
    pub fn same_state(&self, other: &Moon) -> (r: bool)
        ensures
            r == (self@ == other@),
    {
        let mut d: usize = 0;
        let mut eq = true;
        while d < 3
            invariant
                d <= 3,
                eq == ((forall|k: int| 0 <= k < d ==> #[trigger] self.position@[k]
                    == other.position@[k]) && (forall|k: int|
                    0 <= k < d ==> #[trigger] self.velocity@[k] == other.velocity@[k])),
            decreases 3 - d,
        {
            if self.position[d] != other.position[d] || self.velocity[d] != other.velocity[d] {
                eq = false;
            }
            d = d + 1;
        }
        proof {
            if eq {
                assert(self@.pos =~= other@.pos);
                assert(self@.vel =~= other@.vel);
                assert(self@ =~= other@);
            } else {
                assert(self@ != other@) by {
                    let k = choose|k: int|
                        0 <= k < 3 && !(self.position@[k] == other.position@[k]
                            && self.velocity@[k] == other.velocity@[k]);
                    assert(self@.pos[k] == self.position@[k] && self@.vel[k]
                        == self.velocity@[k]);
                }
            }
        }
        eq
    }

    /// Sum of the position components' absolute values.
    pub fn get_potential_energy(&self) -> (r: i64)
        ensures
            r as int == abs_val(self@.pos[0]) + abs_val(self@.pos[1]) + abs_val(self@.pos[2]),
    {
        let mut sum: i64 = 0;
        let mut d: usize = 0;
        while d < 3
            invariant
                d <= 3,
                -3 * (i32::MAX as i64 as int + 1) <= sum as int <= 3 * (i32::MAX as int + 1),
                sum as int == (if d >= 1 {
                    abs_val(self@.pos[0])
                } else {
                    0int
                }) + (if d >= 2 {
                    abs_val(self@.pos[1])
                } else {
                    0int
                }) + (if d >= 3 {
                    abs_val(self@.pos[2])
                } else {
                    0int
                }),
            decreases 3 - d,
        {
            let p = self.position[d] as i64;
            sum = sum + (if p < 0 {
                -p
            } else {
                p
            });
            d = d + 1;
        }
        sum
    }

    /// Sum of the velocity components' absolute values.
    pub fn get_kinetic_energy(&self) -> (r: i64)
        ensures
            r as int == abs_val(self@.vel[0]) + abs_val(self@.vel[1]) + abs_val(self@.vel[2]),
    {
        let mut sum: i64 = 0;
        let mut d: usize = 0;
        while d < 3
            invariant
                d <= 3,
                -3 * (i32::MAX as i64 as int + 1) <= sum as int <= 3 * (i32::MAX as int + 1),
                sum as int == (if d >= 1 {
                    abs_val(self@.vel[0])
                } else {
                    0int
                }) + (if d >= 2 {
                    abs_val(self@.vel[1])
                } else {
                    0int
                }) + (if d >= 3 {
                    abs_val(self@.vel[2])
                } else {
                    0int
                }),
            decreases 3 - d,
        {
            let p = self.velocity[d] as i64;
            sum = sum + (if p < 0 {
                -p
            } else {
                p
            });
            d = d + 1;
        }
        sum
    }
}

/// The four example bodies this program ships with, at rest.
pub fn get_moons() -> MoonGroup {
    [
        Moon::new([3, 2, -6], None),
        Moon::new([-13, 18, 10], None),
        Moon::new([-8, -1, 13], None),
        Moon::new([5, 10, 4], None),
    ]
}

/// Whether every component of every body is within [`COORD_LIMIT`].
pub fn bounded_ex(g: &MoonGroup) -> (r: bool)
    ensures
        r == bounded(group_view(*g)),
{
    let mut i: usize = 0;
    while i < 4
        invariant
            i <= 4,
            forall|m: int, k: int|
                0 <= m < i && 0 <= k < 3 ==> -(COORD_LIMIT as int) <= #[trigger] group_view(
                    *g,
                )[m].pos[k] <= COORD_LIMIT as int && -(COORD_LIMIT as int) <= group_view(
                    *g,
                )[m].vel[k] <= COORD_LIMIT as int,
        decreases 4 - i,
    {
        let mut d: usize = 0;
        while d < 3
            invariant
                i < 4,
                d <= 3,
                forall|m: int, k: int|
                    0 <= m < i && 0 <= k < 3 ==> -(COORD_LIMIT as int) <= #[trigger] group_view(
                        *g,
                    )[m].pos[k] <= COORD_LIMIT as int && -(COORD_LIMIT as int) <= group_view(
                        *g,
                    )[m].vel[k] <= COORD_LIMIT as int,
                forall|k: int|
                    0 <= k < d ==> -(COORD_LIMIT as int) <= #[trigger] group_view(
                        *g,
                    )[i as int].pos[k] <= COORD_LIMIT as int && -(COORD_LIMIT as int)
                        <= group_view(*g)[i as int].vel[k] <= COORD_LIMIT as int,
            decreases 3 - d,
        {
            let p = g[i].position[d];
            let v = g[i].velocity[d];
            proof {
                assert(group_view(*g)[i as int].pos[d as int] == p as int);
                assert(group_view(*g)[i as int].vel[d as int] == v as int);
            }
            if p < -COORD_LIMIT || p > COORD_LIMIT || v < -COORD_LIMIT || v > COORD_LIMIT {
                return false;
            }
            d = d + 1;
        }
        proof {
            assert forall|m: int, k: int| 0 <= m < i + 1 && 0 <= k < 3 implies -(
            COORD_LIMIT as int) <= #[trigger] group_view(*g)[m].pos[k] <= COORD_LIMIT as int && -(
            COORD_LIMIT as int) <= group_view(*g)[m].vel[k] <= COORD_LIMIT as int by {
                if m == i {
                    assert(-(COORD_LIMIT as int) <= group_view(*g)[i as int].pos[k]
                        <= COORD_LIMIT as int);
                    assert(-(COORD_LIMIT as int) <= group_view(*g)[i as int].vel[k]
                        <= COORD_LIMIT as int);
                }
            }
        }
        i = i + 1;
    }
    true
}

/// Body `i` after the gravity pass, skipping bodies in an identical state.
fn grav_moon_ex(g: &MoonGroup, i: usize) -> (r: Moon)
    requires
        i < 4,
        forall|d: int| 0 <= d < 3 ==> i32::MIN + 8 < #[trigger] g@[i as int]@.vel[d] < i32::MAX - 8,
    ensures
        r@ == grav_moon(group_view(*g), i as int),
{
    let ghost gv: Seq<MoonState> = group_view(*g);
    let mut m = g[i];
    let mut j: usize = 0;
    while j < 4
        invariant
            i < 4,
            j <= 4,
            gv == group_view(*g),
            m.position@ == g@[i as int].position@,
            forall|d: int| 0 <= d < 3 ==> i32::MIN + 8 < #[trigger] gv[i as int].vel[d] < i32::MAX - 8,
            forall|d: int|
                0 <= d < 3 ==> #[trigger] m@.vel[d] == gv[i as int].vel[d] + gsum(
                    gv,
                    i as int,
                    d,
                    j as int,
                ),
        decreases 4 - j,
    {
        proof {
            assert forall|d: int| 0 <= d < 3 implies i32::MIN < #[trigger] m.velocity@[d]
                < i32::MAX by {
                lemma_gsum_bound(gv, i as int, d, j as int);
                assert(m@.vel[d] == m.velocity@[d] as int);
            }
        }
        if !g[i].same_state(&g[j]) {
            proof {
                assert(gv[i as int] == g@[i as int]@);
                assert(gv[j as int] == g@[j as int]@);
            }
            m.apply_gravity(&g[j]);
            proof {
                assert(forall|d: int|
                    0 <= d < 3 ==> #[trigger] gpair(gv[i as int], gv[j as int], d) == sgn(
                        gv[j as int].pos[d] - gv[i as int].pos[d],
                    ));
                assert(forall|d: int|
                    0 <= d < 3 ==> #[trigger] g@[j as int]@.pos[d] - g@[i as int]@.pos[d] == gv[
                        j as int].pos[d] - gv[i as int].pos[d]);
            }
        } else {
            proof {
                assert(gpair(gv[i as int], gv[j as int], 0) == 0);
                assert(gpair(gv[i as int], gv[j as int], 1) == 0);
                assert(gpair(gv[i as int], gv[j as int], 2) == 0);
            }
        }
        j = j + 1;
    }
    proof {
        assert(m@.pos =~= grav_moon(gv, i as int).pos);
        assert(m@.vel =~= grav_moon(gv, i as int).vel);
        assert(m@ =~= grav_moon(gv, i as int));
    }
    m
}

/// One full simulation step of the group.
pub fn step_group(g: &MoonGroup) -> (r: MoonGroup)
    requires
        bounded(group_view(*g)),
    ensures
        group_view(r) == sim_step(group_view(*g)),
{
    let ghost gv: Seq<MoonState> = group_view(*g);
    proof {
        assert(forall|i: int| 0 <= i < 4 ==> g@[i]@ == #[trigger] gv[i]);
        assert forall|i: int, d: int| 0 <= i < 4 && 0 <= d < 3 implies i32::MIN + 8
            < #[trigger] g@[i]@.vel[d] < i32::MAX - 8 by {
            assert(-(COORD_LIMIT as int) <= gv[i].pos[d] <= COORD_LIMIT as int);
        }
    }
    let m0 = grav_moon_ex(g, 0);
    let m1 = grav_moon_ex(g, 1);
    let m2 = grav_moon_ex(g, 2);
    let m3 = grav_moon_ex(g, 3);
    proof {
        assert forall|i: int, d: int| 0 <= i < 4 && 0 <= d < 3 implies -(COORD_LIMIT as int) - 4
            <= #[trigger] grav_moon(gv, i).vel[d] <= COORD_LIMIT as int + 4 && grav_moon(
            gv,
            i,
        ).pos[d] == gv[i].pos[d] by {
            lemma_gsum_bound(gv, i, d, 4);
            assert(-(COORD_LIMIT as int) <= gv[i].pos[d] <= COORD_LIMIT as int);
        }
    }
    let mut v0 = m0;
    let mut v1 = m1;
    let mut v2 = m2;
    let mut v3 = m3;
    proof {
        assert forall|d: int| 0 <= d < 3 implies i32::MIN as int <= #[trigger] (
        v0.position@[d] + v0.velocity@[d]) <= i32::MAX as int by {
            assert(v0@.pos[d] == v0.position@[d] as int && v0@.vel[d] == v0.velocity@[d] as int);
            assert(-(COORD_LIMIT as int) - 4 <= grav_moon(gv, 0).vel[d] <= COORD_LIMIT as int + 4);
        }
        assert forall|d: int| 0 <= d < 3 implies i32::MIN as int <= #[trigger] (
        v1.position@[d] + v1.velocity@[d]) <= i32::MAX as int by {
            assert(v1@.pos[d] == v1.position@[d] as int && v1@.vel[d] == v1.velocity@[d] as int);
            assert(-(COORD_LIMIT as int) - 4 <= grav_moon(gv, 1).vel[d] <= COORD_LIMIT as int + 4);
        }
        assert forall|d: int| 0 <= d < 3 implies i32::MIN as int <= #[trigger] (
        v2.position@[d] + v2.velocity@[d]) <= i32::MAX as int by {
            assert(v2@.pos[d] == v2.position@[d] as int && v2@.vel[d] == v2.velocity@[d] as int);
            assert(-(COORD_LIMIT as int) - 4 <= grav_moon(gv, 2).vel[d] <= COORD_LIMIT as int + 4);
        }
        assert forall|d: int| 0 <= d < 3 implies i32::MIN as int <= #[trigger] (
        v3.position@[d] + v3.velocity@[d]) <= i32::MAX as int by {
            assert(v3@.pos[d] == v3.position@[d] as int && v3@.vel[d] == v3.velocity@[d] as int);
            assert(-(COORD_LIMIT as int) - 4 <= grav_moon(gv, 3).vel[d] <= COORD_LIMIT as int + 4);
        }
    }
    v0.apply_velocity();
    v1.apply_velocity();
    v2.apply_velocity();
    v3.apply_velocity();
    let r: MoonGroup = [v0, v1, v2, v3];
    proof {
        let target = vel_group(grav_group(gv));
        assert(grav_group(gv)[0] == m0@ && grav_group(gv)[1] == m1@ && grav_group(gv)[2] == m2@
            && grav_group(gv)[3] == m3@);
        assert(v0@.pos =~= target[0].pos && v0@.vel =~= target[0].vel);
        assert(v1@.pos =~= target[1].pos && v1@.vel =~= target[1].vel);
        assert(v2@.pos =~= target[2].pos && v2@.vel =~= target[2].vel);
        assert(v3@.pos =~= target[3].pos && v3@.vel =~= target[3].vel);
        assert(v0@ =~= target[0] && v1@ =~= target[1] && v2@ =~= target[2] && v3@ =~= target[3]);
        assert(group_view(r) =~= target);
    }
    r
}

/// If some state within the first `n` steps leaves the bounds, the
/// trajectory is not clean for `n` steps.
pub proof fn lemma_sim_ok_prefix(g: Seq<MoonState>, i: nat, n: nat)
    requires
        i < n,
        sim_ok(g, n),
    ensures
        bounded(sim_n(g, i)),
    decreases i,
{
    if i == 0 {
        assert(sim_n(g, 0) == g);
    } else {
        lemma_sim_ok_prefix(sim_step(g), (i - 1) as nat, (n - 1) as nat);
        lemma_sim_shift(g, i);
    }
}

/// Stepping first and iterating after is iterating one step longer.
pub proof fn lemma_sim_shift(g: Seq<MoonState>, i: nat)
    requires
        i >= 1,
    ensures
        sim_n(g, i) == sim_n(sim_step(g), (i - 1) as nat),
    decreases i,
{
    if i == 1 {
        assert(sim_n(g, 0) == g);
        assert(sim_n(sim_step(g), 0) == sim_step(g));
    } else {
        lemma_sim_shift(g, (i - 1) as nat);
        assert(sim_n(g, i) == sim_step(sim_n(g, (i - 1) as nat)));
        assert(sim_n(sim_step(g), (i - 1) as nat) == sim_step(
            sim_n(sim_step(g), (i - 2) as nat),
        ));
    }
}

/// Run the group for a fixed number of steps; `None` exactly when some
/// visited state leaves the coordinate bound.
pub fn simulate_by_steps(moons: &MoonGroup, steps: u16) -> (r: Option<MoonGroup>)
    ensures
        r matches Some(g) ==> sim_ok(group_view(*moons), steps as nat) && group_view(g) == sim_n(
            group_view(*moons),
            steps as nat,
        ),
        r is None ==> !sim_ok(group_view(*moons), steps as nat),
{
    let ghost g0: Seq<MoonState> = group_view(*moons);
    let mut current: MoonGroup = *moons;
    let mut i: u16 = 0;
    while i < steps
        invariant
            i <= steps,
            g0 == group_view(*moons),
            group_view(current) == sim_n(g0, i as nat),
            sim_ok(g0, i as nat),
        decreases steps - i,
    {
        if !bounded_ex(&current) {
            proof {
                lemma_sim_not_ok(g0, i as nat, steps as nat);
            }
            return None;
        }
        proof {
            lemma_sim_ok_extend(g0, i as nat);
        }
        current = step_group(&current);
        proof {
            lemma_sim_shift_snoc(g0, i as nat);
        }
        i = i + 1;
    }
    Some(current)
}

/// A trajectory that is clean for `i` steps and in bounds at step `i` is
/// clean for `i + 1` steps.
proof fn lemma_sim_ok_extend(g: Seq<MoonState>, i: nat)
    requires
        sim_ok(g, i),
        bounded(sim_n(g, i)),
    ensures
        sim_ok(g, i + 1),
    decreases i,
{
    if i > 0 {
        lemma_sim_shift(g, i);
        lemma_sim_ok_extend(sim_step(g), (i - 1) as nat);
        assert(sim_ok(sim_step(g), i));
        assert(sim_ok(g, i + 1) == (bounded(g) && sim_ok(sim_step(g), (i + 1 - 1) as nat)));
    } else {
        assert(sim_n(g, 0) == g);
        assert(sim_ok(sim_step(g), 0));
        assert(sim_ok(g, 1) == (bounded(g) && sim_ok(sim_step(g), 0)));
    }
}

/// An out-of-bounds state at step `i` refutes cleanliness for any longer run.
proof fn lemma_sim_not_ok(g: Seq<MoonState>, i: nat, n: nat)
    requires
        i < n,
        !bounded(sim_n(g, i)),
    ensures
        !sim_ok(g, n),
{
    if sim_ok(g, n) {
        lemma_sim_ok_prefix(g, i, n);
    }
}

/// One more iteration on top.
proof fn lemma_sim_shift_snoc(g: Seq<MoonState>, i: nat)
    ensures
        sim_n(g, i + 1) == sim_step(sim_n(g, i)),
{
}

/// Total energy: the sum over the bodies of potential times kinetic energy.
pub open spec fn spec_energy(g: Seq<MoonState>) -> int {
    let pot = |i: int| abs_val(g[i].pos[0]) + abs_val(g[i].pos[1]) + abs_val(g[i].pos[2]);
    let kin = |i: int| abs_val(g[i].vel[0]) + abs_val(g[i].vel[1]) + abs_val(g[i].vel[2]);
    pot(0) * kin(0) + pot(1) * kin(1) + pot(2) * kin(2) + pot(3) * kin(3)
}

pub fn find_total_energy(moons: &MoonGroup) -> (r: i128)
    ensures
        r as int == spec_energy(group_view(*moons)),
{
    let mut te: i128 = 0;
    let mut i: usize = 0;
    while i < 4
        invariant
            i <= 4,
            0 <= te as int <= i as int * 41538374868278658564096,
            te as int == ({
                let gv = group_view(*moons);
                let pot = |m: int| abs_val(gv[m].pos[0]) + abs_val(gv[m].pos[1]) + abs_val(
                    gv[m].pos[2],
                );
                let kin = |m: int| abs_val(gv[m].vel[0]) + abs_val(gv[m].vel[1]) + abs_val(
                    gv[m].vel[2],
                );
                (if i >= 1 {
                    pot(0) * kin(0)
                } else {
                    0int
                }) + (if i >= 2 {
                    pot(1) * kin(1)
                } else {
                    0int
                }) + (if i >= 3 {
                    pot(2) * kin(2)
                } else {
                    0int
                }) + (if i >= 4 {
                    pot(3) * kin(3)
                } else {
                    0int
                })
            }),
        decreases 4 - i,
    {
        let m = &moons[i];
        proof {
            assert(m@ == group_view(*moons)[i as int]);
            assert forall|d: int| 0 <= d < 3 implies 0 <= abs_val(#[trigger] m@.pos[d])
                <= 0x80000000 && 0 <= abs_val(m@.vel[d]) <= 0x80000000 by {
                assert(m@.pos[d] == m.position@[d] as int);
                assert(m@.vel[d] == m.velocity@[d] as int);
            }
        }
        let pe = m.get_potential_energy();
        let ke = m.get_kinetic_energy();
        proof {
            vstd::arithmetic::mul::lemma_mul_upper_bound(
                pe as int,
                0x180000000,
                ke as int,
                0x180000000,
            );
            vstd::arithmetic::mul::lemma_mul_nonnegative(pe as int, ke as int);
        }
        te = te + (pe as i128) * (ke as i128);
        i = i + 1;
    }
    te
}

/// Per-axis state: the four positions, then the four velocities, on axis
/// `d`.
pub open spec fn dim_state(g: Seq<MoonState>, d: int) -> Seq<int> {
    seq![
        g[0].pos[d],
        g[1].pos[d],
        g[2].pos[d],
        g[3].pos[d],
        g[0].vel[d],
        g[1].vel[d],
        g[2].vel[d],
        g[3].vel[d],
    ]
}

/// The per-axis state as one flat array: positions, then velocities.
pub fn get_dimensions(moons: &MoonGroup, dimension: usize) -> (r: [i32; 8])
    requires
        dimension < 3,
    ensures
        forall|k: int| 0 <= k < 8 ==> #[trigger] r@[k] as int == dim_state(
            group_view(*moons),
            dimension as int,
        )[k],
{
    let r: [i32; 8] = [
        moons[0].position[dimension],
        moons[1].position[dimension],
        moons[2].position[dimension],
        moons[3].position[dimension],
        moons[0].velocity[dimension],
        moons[1].velocity[dimension],
        moons[2].velocity[dimension],
        moons[3].velocity[dimension],
    ];
    proof {
        assert(forall|i: int| 0 <= i < 4 ==> #[trigger] group_view(*moons)[i] == moons@[i]@);
    }
    r
}

/// Whether two groups agree on axis `d`.
fn dims_equal(a: &MoonGroup, b: &MoonGroup, d: usize) -> (r: bool)
    requires
        d < 3,
    ensures
        r == (dim_state(group_view(*a), d as int) == dim_state(group_view(*b), d as int)),
{
    let r = a[0].position[d] == b[0].position[d] && a[1].position[d] == b[1].position[d]
        && a[2].position[d] == b[2].position[d] && a[3].position[d] == b[3].position[d]
        && a[0].velocity[d] == b[0].velocity[d] && a[1].velocity[d] == b[1].velocity[d]
        && a[2].velocity[d] == b[2].velocity[d] && a[3].velocity[d] == b[3].velocity[d];
    proof {
        let da = dim_state(group_view(*a), d as int);
        let db = dim_state(group_view(*b), d as int);
        assert(forall|i: int| 0 <= i < 4 ==> #[trigger] group_view(*a)[i] == a@[i]@);
        assert(forall|i: int| 0 <= i < 4 ==> #[trigger] group_view(*b)[i] == b@[i]@);
        if r {
            assert(da =~= db);
        } else {
            assert(da[0] == a@[0]@.pos[d as int] && db[0] == b@[0]@.pos[d as int]);
            assert(da != db);
        }
    }
    r
}

pub open spec fn spec_gcd(a: nat, b: nat) -> nat
    decreases b,
{
    if b == 0 {
        a
    } else {
        spec_gcd(b, a % b)
    }
}

/// Greatest common divisor by Euclid's algorithm.
pub fn gcd(one: u64, two: u64) -> (r: u64)
    ensures
        r as nat == spec_gcd(one as nat, two as nat),
    decreases two,
{
    if two == 0 {
        one
    } else {
        gcd(two, one % two)
    }
}

/// Least common multiple, if it exists and fits: both arguments non-zero
/// and the product within range.
pub open spec fn spec_lcm(a: u64, b: u64) -> Option<u64> {
    if spec_gcd(a as nat, b as nat) == 0 {
        None
    } else {
        let l = ((a as int) / (spec_gcd(a as nat, b as nat) as int)) * (b as int);
        if l > u64::MAX as int {
            None
        } else {
            Some(l as u64)
        }
    }
}

pub fn lcm(a: u64, b: u64) -> (r: Option<u64>)
    ensures
        r == spec_lcm(a, b),
{
    let g = gcd(a, b);
    if g == 0 {
        None
    } else {
        (a / g).checked_mul(b)
    }
}

/// The cycle search, laid out exactly as [`duplicate_simulation`] walks it:
/// step the group, count, record for each axis the first counter at which
/// the axis state matches the initial one, and combine the three counters
/// with the least common multiple.  `None` when the budget runs out, a
/// state leaves the coordinate bound, or the combination overflows.
pub open spec fn dup_loop(
    g0: Seq<MoonState>,
    g: Seq<MoonState>,
    c: u64,
    s1: Option<u64>,
    s2: Option<u64>,
    s3: Option<u64>,
    left: nat,
) -> Option<u64>
    decreases left,
{
    if s1 is Some && s2 is Some && s3 is Some {
        match spec_lcm(s2->0, s3->0) {
            None => None,
            Some(l23) => spec_lcm(s1->0, l23),
        }
    } else if left == 0 {
        None
    } else if !bounded(g) || c == u64::MAX {
        None
    } else {
        let g2 = sim_step(g);
        let c2 = (c + 1) as u64;
        let t1 = if s1 is None && dim_state(g2, 0) == dim_state(g0, 0) {
            Some(c2)
        } else {
            s1
        };
        let t2 = if s2 is None && dim_state(g2, 1) == dim_state(g0, 1) {
            Some(c2)
        } else {
            s2
        };
        let t3 = if s3 is None && dim_state(g2, 2) == dim_state(g0, 2) {
            Some(c2)
        } else {
            s3
        };
        dup_loop(g0, g2, c2, t1, t2, t3, (left - 1) as nat)
    }
}

/// Find, per axis, the first step at which the axis state repeats its
/// initial value, and combine the three cycle lengths with the least
/// common multiple, giving the search at most `max_steps` steps.
pub fn duplicate_simulation(moons: &MoonGroup, max_steps: u64) -> (r: Option<u64>)
    ensures
        r == dup_loop(
            group_view(*moons),
            group_view(*moons),
            0,
            None::<u64>,
            None::<u64>,
            None::<u64>,
            max_steps as nat,
        ),
{
    let ghost g0: Seq<MoonState> = group_view(*moons);
    let mut current: MoonGroup = *moons;
    let mut counter: u64 = 0;
    let mut s1: Option<u64> = None;
    let mut s2: Option<u64> = None;
    let mut s3: Option<u64> = None;
    let mut left: u64 = max_steps;
    loop
        invariant
            g0 == group_view(*moons),
            dup_loop(g0, g0, 0, None::<u64>, None::<u64>, None::<u64>, max_steps as nat)
                == dup_loop(g0, group_view(current), counter, s1, s2, s3, left as nat),
        decreases left,
    {
        if s1.is_some() && s2.is_some() && s3.is_some() {
            let c1 = s1.unwrap();
            let c2 = s2.unwrap();
            let c3 = s3.unwrap();
            return match lcm(c2, c3) {
                None => None,
                Some(l23) => lcm(c1, l23),
            };
        }
        if left == 0 {
            return None;
        }
        if !bounded_ex(&current) || counter == u64::MAX {
            return None;
        }
        let next = step_group(&current);
        counter = counter + 1;
        if s1.is_none() && dims_equal(&next, moons, 0) {
            s1 = Some(counter);
        }
        if s2.is_none() && dims_equal(&next, moons, 1) {
            s2 = Some(counter);
        }
        if s3.is_none() && dims_equal(&next, moons, 2) {
            s3 = Some(counter);
        }
        current = next;
        left = left - 1;
    }
}

} // verus!
