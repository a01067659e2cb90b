//! The painting robot: a machine-driven walker on an integer grid that
//! reads the colour under it, paints, turns left or right, and steps
//! forward.

use crate::intcode::{IntCodeError, IntCodeProgram, IntCodeStatus};
use vstd::prelude::*;
use vstd::string::StringSliceAdditionalSpecFns;

verus! {

/// Grid bound for the robot's walk; stepping keeps coordinates well inside
/// the 32-bit range.
pub const WALK_LIMIT: i32 = 0x4000_0000;

#[derive(Clone, Copy, Debug, PartialEq, Eq, Structural)]
pub struct Point {
    pub x: i32,
    pub y: i32,
}

#[derive(Clone, Copy, Debug, PartialEq, Eq, Structural)]
pub enum CardDirection {
    Down,
    Left,
    Up,
    Right,
}

#[derive(Clone, Copy, Debug, PartialEq, Eq, Structural)]
pub enum Rotation {
    Left,
    Right,
}

/// The heading after turning once.
pub open spec fn spec_turn(dir: CardDirection, rotation: Rotation) -> CardDirection {
    match dir {
        CardDirection::Down => match rotation {
            Rotation::Left => CardDirection::Right,
            Rotation::Right => CardDirection::Left,
        },
        CardDirection::Left => match rotation {
            Rotation::Left => CardDirection::Down,
            Rotation::Right => CardDirection::Up,
        },
        CardDirection::Up => match rotation {
            Rotation::Left => CardDirection::Left,
            Rotation::Right => CardDirection::Right,
        },
        CardDirection::Right => match rotation {
            Rotation::Left => CardDirection::Up,
            Rotation::Right => CardDirection::Down,
        },
    }
}

/// The position one step ahead.
pub open spec fn spec_ahead(dir: CardDirection, loc: Point) -> (int, int) {
    match dir {
        CardDirection::Down => (loc.x as int, loc.y as int - 1),
        CardDirection::Left => (loc.x as int - 1, loc.y as int),
        CardDirection::Up => (loc.x as int, loc.y as int + 1),
        CardDirection::Right => (loc.x as int + 1, loc.y as int),
    }
}

#[derive(Clone, Copy, Debug, PartialEq, Eq, Structural)]
pub struct Robot {
    pub dir: CardDirection,
    pub loc: Point,
}

impl Robot {
    /// A robot at the origin, heading up.
    pub fn new() -> (r: Robot)
        ensures
            r.dir == CardDirection::Up,
            r.loc == (Point { x: 0, y: 0 }),
    {
        Robot { dir: CardDirection::Up, loc: Point { x: 0, y: 0 } }
    }

    /// Turn in place.
    pub fn change_direction(&mut self, rotation: &Rotation)
        ensures
            final(self).dir == spec_turn(old(self).dir, *rotation),
            final(self).loc == old(self).loc,
    {
        match self.dir {
            CardDirection::Down => match rotation {
                Rotation::Left => self.dir = CardDirection::Right,
                Rotation::Right => self.dir = CardDirection::Left,
            },
            CardDirection::Left => match rotation {
                Rotation::Left => self.dir = CardDirection::Down,
                Rotation::Right => self.dir = CardDirection::Up,
            },
            CardDirection::Up => match rotation {
                Rotation::Left => self.dir = CardDirection::Left,
                Rotation::Right => self.dir = CardDirection::Right,
            },
            CardDirection::Right => match rotation {
                Rotation::Left => self.dir = CardDirection::Up,
                Rotation::Right => self.dir = CardDirection::Down,
            },
        }
    }

    /// Step one cell in the current heading and report the new position.
    pub fn forward(&mut self) -> (r: Point)
        requires
            i32::MIN < old(self).loc.x < i32::MAX,
            i32::MIN < old(self).loc.y < i32::MAX,
        ensures
            final(self).dir == old(self).dir,
            (final(self).loc.x as int, final(self).loc.y as int) == spec_ahead(
                old(self).dir,
                old(self).loc,
            ),
            r == final(self).loc,
    {
        match self.dir {
            CardDirection::Down => {
                self.loc = Point { x: self.loc.x, y: self.loc.y - 1 };
            },
            CardDirection::Left => {
                self.loc = Point { x: self.loc.x - 1, y: self.loc.y };
            },
            CardDirection::Up => {
                self.loc = Point { x: self.loc.x, y: self.loc.y + 1 };
            },
            CardDirection::Right => {
                self.loc = Point { x: self.loc.x + 1, y: self.loc.y };
            },
        }
        self.loc
    }
}

/// First listed colour of the panel, or `None` when it was never painted.
pub open spec fn hull_color(hull: Seq<(Point, u8)>, at: Point) -> Option<u8>
    decreases hull.len(),
{
    if hull.len() == 0 {
        None
    } else if hull[0].0 == at {
        Some(hull[0].1)
    } else {
        hull_color(hull.subrange(1, hull.len() as int), at)
    }
}

/// First listed colour of the panel, executably.
pub fn hull_color_ex(hull: &Vec<(Point, u8)>, at: &Point) -> (r: Option<u8>)
    ensures
        r == hull_color(hull@, *at),
{
    let n = hull.len();
    proof {
        assert(hull@.subrange(0, n as int) =~= hull@);
    }
    let mut i: usize = 0;
    while i < n
        invariant
            i <= n,
            n == hull@.len(),
            hull_color(hull@, *at) == hull_color(hull@.subrange(i as int, n as int), *at),
        decreases n - i,
    {
        let ghost remaining: Seq<(Point, u8)> = hull@.subrange(i as int, n as int);
        proof {
            assert(remaining[0] == hull@[i as int]);
            assert(remaining.subrange(1, remaining.len() as int) =~= hull@.subrange(
                i as int + 1,
                n as int,
            ));
        }
        if hull[i].0 == *at {
            return Some(hull[i].1);
        }
        i = i + 1;
    }
    None
}

/// Whether the change log already names the panel.
pub open spec fn changed_contains(changed: Seq<Point>, p: Point) -> bool {
    exists|k: int| 0 <= k < changed.len() && changed[k] == p
}

/// The whole painting run's abstract state: the machine, the robot, the
/// paint log (newest record first) and the changed-panel log.
#[verifier::ext_equal]
pub ghost struct RobotState {
    pub vm: crate::intcode::VmState,
    pub robot: Robot,
    pub hull: Seq<(Point, u8)>,
    pub changed: Seq<Point>,
}

/// The painting run, round by round, exactly as [`run_robot`] walks it:
/// read the colour under the robot (recording unpainted panels as black),
/// queue it, run the machine on the step budget, paint with the first
/// output, log a first colour change per panel, turn by the second output,
/// and step forward.  `Some` exactly when the machine halts within the
/// budgets and every round stays well formed and inside [`WALK_LIMIT`].
pub open spec fn robot_run(s: RobotState, fuel: nat, rounds: nat) -> Option<RobotState>
    decreases rounds,
{
    if s.vm.status is Halted {
        Some(s)
    } else if rounds == 0 {
        None
    } else {
        let here = s.robot.loc;
        let color_in = match hull_color(s.hull, here) {
            Some(c) => c,
            None => 0u8,
        };
        let hull1 = match hull_color(s.hull, here) {
            Some(c) => s.hull,
            None => s.hull.push((here, 0u8)),
        };
        let vm2 = crate::intcode::step_n(
            crate::intcode::VmState { input: s.vm.input.push(color_in as i64), ..s.vm },
            fuel,
        );
        if !(vm2.status is Paused || vm2.status is Halted) {
            None
        } else if vm2.output.len() == 0 && vm2.status is Halted {
            Some(RobotState { vm: vm2, robot: s.robot, hull: hull1, changed: s.changed })
        } else if vm2.output.len() < 2 {
            None
        } else {
            let color_out = vm2.output[0];
            let vm3 = crate::intcode::VmState {
                output: vm2.output.subrange(1, vm2.output.len() as int),
                ..vm2
            };
            if color_out < 0 || color_out > 255 {
                None
            } else {
                let hull2 = if color_out as u8 != color_in {
                    seq![(here, color_out as u8)] + hull1
                } else {
                    hull1
                };
                let changed2 = if color_out as u8 != color_in && !changed_contains(
                    s.changed,
                    here,
                ) {
                    s.changed.push(here)
                } else {
                    s.changed
                };
                let dir_out = vm3.output[0];
                let vm4 = crate::intcode::VmState {
                    output: vm3.output.subrange(1, vm3.output.len() as int),
                    ..vm3
                };
                if dir_out != 0 && dir_out != 1 {
                    None
                } else {
                    let rot = if dir_out == 0 {
                        Rotation::Left
                    } else {
                        Rotation::Right
                    };
                    let dir2 = spec_turn(s.robot.dir, rot);
                    if here.x <= -WALK_LIMIT || here.x >= WALK_LIMIT || here.y <= -WALK_LIMIT
                        || here.y >= WALK_LIMIT {
                        None
                    } else {
                        let ahead = spec_ahead(dir2, here);
                        let r3 = Robot {
                            dir: dir2,
                            loc: Point { x: ahead.0 as i32, y: ahead.1 as i32 },
                        };
                        robot_run(
                            RobotState { vm: vm4, robot: r3, hull: hull2, changed: changed2 },
                            fuel,
                            (rounds - 1) as nat,
                        )
                    }
                }
            }
        }
    }
}

/// Drive the painting robot until its machine halts, within the given
/// budgets, exactly as [`robot_run`] lays the rounds out.  Reports how
/// many distinct panels changed colour; the paint log is left in `hull`,
/// newest record first.
#[verifier::rlimit(100)]
pub fn run_robot(
    program: &mut IntCodeProgram,
    robot: &mut Robot,
    hull: &mut Vec<(Point, u8)>,
    fuel: usize,
    rounds: usize,
) -> (r: Option<usize>)
    ensures
        r is Some ==> final(program)@.status is Halted,
        ({
            let init = RobotState {
                vm: old(program)@,
                robot: *old(robot),
                hull: old(hull)@,
                changed: Seq::empty(),
            };
            match r {
                Some(count) => robot_run(init, fuel as nat, rounds as nat) matches Some(fin)
                    && final(program)@ == fin.vm && *final(robot) == fin.robot && final(hull)@
                    == fin.hull && count as int == fin.changed.len(),
                None => robot_run(init, fuel as nat, rounds as nat) is None,
            }
        }),
{
    let ghost init: RobotState = RobotState {
        vm: program@,
        robot: *robot,
        hull: hull@,
        changed: Seq::empty(),
    };
    let mut changed: Vec<Point> = Vec::new();
    let mut left = rounds;
    proof {
        assert(changed@ =~= Seq::<Point>::empty());
    }
    while !(program.status == IntCodeStatus::Halted)
        invariant
            init == (RobotState {
                vm: old(program)@,
                robot: *old(robot),
                hull: old(hull)@,
                changed: Seq::empty(),
            }),
            robot_run(init, fuel as nat, rounds as nat) == robot_run(
                RobotState { vm: program@, robot: *robot, hull: hull@, changed: changed@ },
                fuel as nat,
                left as nat,
            ),
        decreases left,
    {
        let ghost cur: RobotState = RobotState {
            vm: program@,
            robot: *robot,
            hull: hull@,
            changed: changed@,
        };
        if left == 0 {
            return None;
        }
        let here = Point { x: robot.loc.x, y: robot.loc.y };
        let color_in = match hull_color_ex(hull, &here) {
            Some(c) => c,
            None => {
                hull.push((here, 0));
                0
            },
        };
        let ghost hull1: Seq<(Point, u8)> = hull@;
        program.in_buf.push(color_in as i64);
        let ghost prerun: crate::intcode::VmState = program@;
        proof {
            assert(prerun == (crate::intcode::VmState {
                input: cur.vm.input.push(color_in as i64),
                ..cur.vm
            }));
        }
        let run_result = program.run(fuel);
        let ghost vm2: crate::intcode::VmState = crate::intcode::step_n(prerun, fuel as nat);
        if run_result.is_err() {
            proof {
                assert(!(vm2.status is Paused || vm2.status is Halted));
            }
            return None;
        }
        proof {
            assert(program@ == vm2);
        }
        if program.status == IntCodeStatus::Ready {
            return None;
        }
        if program.out_buf.len() < 2 {
            if program.status == IntCodeStatus::Halted && program.out_buf.len() == 0 {
                proof {
                    assert(robot_run(cur, fuel as nat, left as nat) == Some(RobotState {
                        vm: vm2,
                        robot: cur.robot,
                        hull: hull1,
                        changed: cur.changed,
                    }));
                }
                return Some(changed.len());
            }
            return None;
        }
        let color_out = program.out_buf.remove(0);
        proof {
            assert(program@.output =~= vm2.output.subrange(1, vm2.output.len() as int));
        }
        let ghost vm3: crate::intcode::VmState = program@;
        if color_out < 0 || color_out > 255 {
            return None;
        }
        if color_out as u8 != color_in {
            set_hull(hull, &here, color_out as u8);
            let mut seen = false;
            let m = changed.len();
            let mut ci: usize = 0;
            while ci < m
                invariant
                    ci <= m,
                    m == changed@.len(),
                    seen == (exists|k: int| 0 <= k < ci && #[trigger] changed@[k] == here),
                decreases m - ci,
            {
                if changed[ci] == here {
                    seen = true;
                }
                ci = ci + 1;
            }
            proof {
                assert(seen == changed_contains(cur.changed, here));
            }
            if !seen {
                changed.push(here);
            }
        }
        let dir_out = program.out_buf.remove(0);
        proof {
            assert(program@.output =~= vm3.output.subrange(1, vm3.output.len() as int));
        }
        if dir_out == 0 {
            robot.change_direction(&Rotation::Left);
        } else if dir_out == 1 {
            robot.change_direction(&Rotation::Right);
        } else {
            return None;
        }
        if robot.loc.x <= -WALK_LIMIT || robot.loc.x >= WALK_LIMIT || robot.loc.y <= -WALK_LIMIT
            || robot.loc.y >= WALK_LIMIT {
            return None;
        }
        robot.forward();
        proof {
            let ahead = spec_ahead(robot.dir, here);
            assert(robot.loc == (Point { x: ahead.0 as i32, y: ahead.1 as i32 }));
            assert(robot_run(cur, fuel as nat, left as nat) == robot_run(
                RobotState { vm: program@, robot: *robot, hull: hull@, changed: changed@ },
                fuel as nat,
                (left - 1) as nat,
            ));
        }
        left = left - 1;
    }
    proof {
        assert(robot_run(
            RobotState { vm: program@, robot: *robot, hull: hull@, changed: changed@ },
            fuel as nat,
            left as nat,
        ) == Some(RobotState { vm: program@, robot: *robot, hull: hull@, changed: changed@ }));
    }
    Some(changed.len())
}

/// Repaint one panel (or record it for the first time); the new record
/// shadows older ones.
fn set_hull(hull: &mut Vec<(Point, u8)>, at: &Point, color: u8)
    ensures
        hull_color(final(hull)@, *at) == Some(color),
        final(hull)@ == seq![(*at, color)] + old(hull)@,
{
    let mut v: Vec<(Point, u8)> = Vec::new();
    v.push((Point { x: at.x, y: at.y }, color));
    proof {
        assert(v@[0].0 == *at);
        assert(v@ =~= seq![(*at, color)] + hull@.subrange(0, 0));
    }
    let n = hull.len();
    let mut i: usize = 0;
    while i < n
        invariant
            i <= n,
            n == hull@.len(),
            *hull == *old(hull),
            v@ == seq![(*at, color)] + hull@.subrange(0, i as int),
        decreases n - i,
    {
        let e = (hull[i].0, hull[i].1);
        v.push(e);
        proof {
            assert(v@ =~= seq![(*at, color)] + hull@.subrange(0, i as int + 1));
        }
        i = i + 1;
    }
    proof {
        assert(hull@.subrange(0, n as int) =~= hull@);
    }
    *hull = v;
}

/// The freshly loaded machine and robot for one painting run.
pub open spec fn start_state(prog: Seq<i64>, hull: Seq<(Point, u8)>) -> RobotState {
    RobotState {
        vm: crate::intcode::VmState {
            mem: prog,
            ip: 0,
            rel: 0,
            input: Seq::empty(),
            output: Seq::empty(),
            status: crate::intcode::VmStatus::Ready,
        },
        robot: Robot { dir: CardDirection::Up, loc: Point { x: 0, y: 0 } },
        hull,
        changed: Seq::empty(),
    }
}

/// Paint the hull twice — once from all black, once from a white origin —
/// and report the first run's changed-panel count and the second run's
/// paint log, or `None` when the text is malformed, either run fails, or a
/// budget runs out.
pub fn start(input: &str, fuel: usize, rounds: usize) -> (r: Option<(usize, Vec<(Point, u8)>)>)
    ensures
        r matches Some(res) ==> ({
            let prog = crate::intcode::parse_program(input.spec_bytes());
            &&& prog is Some
            &&& robot_run(start_state(prog->0, Seq::empty()), fuel as nat, rounds as nat)
                matches Some(f1) && res.0 as int == f1.changed.len()
            &&& robot_run(
                start_state(prog->0, seq![(Point { x: 0, y: 0 }, 1u8)]),
                fuel as nat,
                rounds as nat,
            ) matches Some(f2) && res.1@ == f2.hull
        }),
{
    let mut program = match IntCodeProgram::from_input(input) {
        Ok(p) => p,
        Err(_) => { return None; },
    };
    let mut robot = Robot::new();
    let mut hull: Vec<(Point, u8)> = Vec::new();
    proof {
        assert((RobotState {
            vm: program@,
            robot: robot,
            hull: hull@,
            changed: Seq::empty(),
        }) =~~= start_state(
            crate::intcode::parse_program(input.spec_bytes())->0,
            Seq::empty(),
        ));
    }
    let first = match run_robot(&mut program, &mut robot, &mut hull, fuel, rounds) {
        Some(c) => c,
        None => { return None; },
    };
    let mut program = match IntCodeProgram::from_input(input) {
        Ok(p) => p,
        Err(_) => { return None; },
    };
    let mut robot = Robot::new();
    let mut hull: Vec<(Point, u8)> = Vec::new();
    hull.push((Point { x: 0, y: 0 }, 1));
    proof {
        assert((RobotState {
            vm: program@,
            robot: robot,
            hull: hull@,
            changed: Seq::empty(),
        }) =~~= start_state(
            crate::intcode::parse_program(input.spec_bytes())->0,
            seq![(Point { x: 0, y: 0 }, 1u8)],
        ));
    }
    match run_robot(&mut program, &mut robot, &mut hull, fuel, rounds) {
        Some(_) => {},
        None => { return None; },
    }
    Some((first, hull))
}

/// The largest magnitude among the first `j` panels' x coordinates.
pub open spec fn max_abs_x(hull: Seq<(Point, u8)>, j: int) -> int
    decreases j,
{
    if j <= 0 {
        0
    } else {
        let prev = max_abs_x(hull, j - 1);
        let a = (if hull[j - 1].0.x < 0 {
            -(hull[j - 1].0.x as int)
        } else {
            hull[j - 1].0.x as int
        });
        if a > prev {
            a
        } else {
            prev
        }
    }
}

/// The largest magnitude among the first `j` panels' y coordinates.
pub open spec fn max_abs_y(hull: Seq<(Point, u8)>, j: int) -> int
    decreases j,
{
    if j <= 0 {
        0
    } else {
        let prev = max_abs_y(hull, j - 1);
        let a = (if hull[j - 1].0.y < 0 {
            -(hull[j - 1].0.y as int)
        } else {
            hull[j - 1].0.y as int
        });
        if a > prev {
            a
        } else {
            prev
        }
    }
}

/// A blank canvas centred on the origin, wide and tall enough for every
/// painted panel: one row per y between the extremes, one column per x.
pub fn get_canvas_from_points(hull: &Vec<(Point, u8)>) -> (r: Option<Vec<Vec<u8>>>)
    ensures
        r matches Some(canvas) ==> {
            let xo = max_abs_x(hull@, hull@.len() as int);
            let yo = max_abs_y(hull@, hull@.len() as int);
            0 <= xo <= 0x8000_0000 && 0 <= yo <= 0x8000_0000 && canvas.deep_view().len() == 2 * yo
                + 1 && (forall|q: int|
                0 <= q < canvas.deep_view().len() ==> (#[trigger] canvas.deep_view()[q]).len() == 2
                    * xo + 1) && (forall|q: int, c: int|
                0 <= q < canvas.deep_view().len() && 0 <= c < 2 * xo + 1
                    ==> #[trigger] canvas.deep_view()[q][c] == 0)
        },
{
    let mut x_offset: i64 = 0;
    let mut y_offset: i64 = 0;
    let n = hull.len();
    let mut i: usize = 0;
    while i < n
        invariant
            i <= n,
            n == hull@.len(),
            x_offset as int == max_abs_x(hull@, i as int),
            y_offset as int == max_abs_y(hull@, i as int),
            0 <= x_offset as int <= 0x8000_0000,
            0 <= y_offset as int <= 0x8000_0000,
        decreases n - i,
    {
        let px = hull[i].0.x as i64;
        let py = hull[i].0.y as i64;
        let ax = if px < 0 {
            -px
        } else {
            px
        };
        let ay = if py < 0 {
            -py
        } else {
            py
        };
        if ax > x_offset {
            x_offset = ax;
        }
        if ay > y_offset {
            y_offset = ay;
        }
        i = i + 1;
    }
    let col_count64: i64 = x_offset * 2 + 1;
    let row_count64: i64 = y_offset * 2 + 1;
    if col_count64 as u64 > usize::MAX as u64 || row_count64 as u64 > usize::MAX as u64 {
        return None;
    }
    let col_count = col_count64 as usize;
    let row_count = row_count64 as usize;
    let mut canvas: Vec<Vec<u8>> = Vec::new();
    let mut rr: usize = 0;
    while rr < row_count
        invariant
            rr <= row_count,
            canvas.deep_view().len() == rr,
            forall|q: int|
                0 <= q < rr ==> (#[trigger] canvas.deep_view()[q]).len() == col_count as int,
            forall|q: int, c: int|
                0 <= q < rr && 0 <= c < col_count as int ==> #[trigger] canvas.deep_view()[q][c]
                    == 0,
        decreases row_count - rr,
    {
        let mut row: Vec<u8> = Vec::new();
        let mut cc: usize = 0;
        while cc < col_count
            invariant
                cc <= col_count,
                row@.len() == cc,
                forall|c: int| 0 <= c < cc ==> #[trigger] row@[c] == 0,
            decreases col_count - cc,
        {
            row.push(0);
            cc = cc + 1;
        }
        let ghost canvas0: Seq<Seq<u8>> = canvas.deep_view();
        let ghost rowv: Seq<u8> = row@;
        canvas.push(row);
        proof {
            assert(canvas.deep_view() =~~= canvas0.push(rowv));
        }
        rr = rr + 1;
    }
    Some(canvas)
}

/// Paint the hull's panels onto a centred canvas, keeping for each panel
/// its newest paint record, and render it one text line per row: a blank
/// for an unpainted or black cell, a mark for anything else.
pub fn render(hull: &Vec<(Point, u8)>) -> (r: Option<String>) {
    let canvas = match get_canvas_from_points(hull) {
        Some(c) => c,
        None => { return None; },
    };
    let row_count = canvas.len();
    if row_count == 0 {
        return None;
    }
    proof {
        assert(canvas.deep_view()[0].len() == canvas@[0]@.len());
        assert(canvas.deep_view().len() == canvas@.len());
    }
    let col_count = canvas[0].len();
    proof {
        assert(1 <= row_count as int <= 0x1_0000_0001);
        assert(1 <= col_count as int <= 0x1_0000_0001);
    }
    let y_offset64: i64 = ((row_count - 1) / 2) as i64;
    let x_offset64: i64 = ((col_count - 1) / 2) as i64;
    let mut bytes: Vec<u8> = Vec::new();
    let mut rr: usize = 0;
    while rr < row_count
        invariant
            rr <= row_count,
            1 <= row_count as int <= 0x1_0000_0001,
            1 <= col_count as int <= 0x1_0000_0001,
            0 <= y_offset64 as int <= 0x8000_0000,
            0 <= x_offset64 as int <= 0x8000_0000,
            forall|k: int| 0 <= k < bytes@.len() ==> #[trigger] bytes@[k] < 128,
        decreases row_count - rr,
    {
        let mut cc: usize = 0;
        while cc < col_count
            invariant
                cc <= col_count,
                rr < row_count,
                1 <= row_count as int <= 0x1_0000_0001,
                1 <= col_count as int <= 0x1_0000_0001,
                0 <= y_offset64 as int <= 0x8000_0000,
                0 <= x_offset64 as int <= 0x8000_0000,
                forall|k: int| 0 <= k < bytes@.len() ==> #[trigger] bytes@[k] < 128,
            decreases col_count - cc,
        {
            let x: i64 = cc as i64 - x_offset64;
            let y: i64 = y_offset64 - rr as i64;
            let mut color: u8 = 0;
            if x >= i32::MIN as i64 && x <= i32::MAX as i64 && y >= i32::MIN as i64 && y
                <= i32::MAX as i64 {
                match hull_color_ex(hull, &(Point { x: x as i32, y: y as i32 })) {
                    Some(c) => {
                        color = c;
                    },
                    None => {},
                }
            }
            if color == 0 {
                bytes.push(32);
            } else {
                bytes.push(88);
            }
            cc = cc + 1;
        }
        bytes.push(10);
        rr = rr + 1;
    }
    Some(crate::text::ascii_string(bytes))
}

} // verus!
