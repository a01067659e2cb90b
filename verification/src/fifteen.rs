//! The repair droid: a machine-driven explorer that walks an unknown maze
//! by depth-first search with breadcrumbs, then measures distances on the
//! explored map — shortest path to the oxygen system, and how long oxygen
//! takes to flood every open cell.

use crate::intcode::{IntCodeProgram, IntCodeStatus};
use vstd::prelude::*;
use vstd::string::StringSliceAdditionalSpecFns;

verus! {

pub type Point = [i64; 2];

#[derive(Clone, Copy, Debug, PartialEq, Eq, Structural)]
pub enum DroidMovement {
    North,
    South,
    West,
    East,
}

/// The opposite movement.
pub open spec fn spec_rev(m: DroidMovement) -> DroidMovement {
    match m {
        DroidMovement::North => DroidMovement::South,
        DroidMovement::South => DroidMovement::North,
        DroidMovement::West => DroidMovement::East,
        DroidMovement::East => DroidMovement::West,
    }
}

/// The machine's input code for a movement.
pub open spec fn spec_instr(m: DroidMovement) -> i64 {
    match m {
        DroidMovement::North => 1,
        DroidMovement::South => 2,
        DroidMovement::West => 3,
        DroidMovement::East => 4,
    }
}

/// The unit step a movement takes.
pub open spec fn spec_direction(m: DroidMovement) -> (int, int) {
    match m {
        DroidMovement::North => (0, 1),
        DroidMovement::South => (0, -1),
        DroidMovement::West => (-1, 0),
        DroidMovement::East => (1, 0),
    }
}

impl DroidMovement {
    /// The unit step this movement takes.
    pub fn get_direction(&self) -> (r: Point)
        ensures
            (r@[0] as int, r@[1] as int) == spec_direction(*self),
    {
        match self {
            DroidMovement::North => [0, 1],
            DroidMovement::South => [0, -1],
            DroidMovement::West => [-1, 0],
            DroidMovement::East => [1, 0],
        }
    }

    /// The movement taking the given unit step, if it is one.
    pub fn from_direction(dir: Point) -> (r: Option<DroidMovement>)
        ensures
            r matches Some(m) ==> spec_direction(m) == (dir@[0] as int, dir@[1] as int),
    {
        if dir[0] == 0 && dir[1] == 1 {
            Some(DroidMovement::North)
        } else if dir[0] == 0 && dir[1] == -1 {
            Some(DroidMovement::South)
        } else if dir[0] == -1 && dir[1] == 0 {
            Some(DroidMovement::West)
        } else if dir[0] == 1 && dir[1] == 0 {
            Some(DroidMovement::East)
        } else {
            None
        }
    }

    /// The machine's input code for this movement.
    pub fn get_instr(&self) -> (r: i64)
        ensures
            r == spec_instr(*self),
    {
        match self {
            DroidMovement::North => 1,
            DroidMovement::South => 2,
            DroidMovement::West => 3,
            DroidMovement::East => 4,
        }
    }

    /// The opposite movement: stepping it undoes this one.
    pub fn rev(&self) -> (r: DroidMovement)
        ensures
            r == spec_rev(*self),
            spec_direction(r).0 == -spec_direction(*self).0,
            spec_direction(r).1 == -spec_direction(*self).1,
    {
        match self {
            DroidMovement::North => DroidMovement::South,
            DroidMovement::South => DroidMovement::North,
            DroidMovement::West => DroidMovement::East,
            DroidMovement::East => DroidMovement::West,
        }
    }
}

#[derive(Clone, Copy, Debug, PartialEq, Eq, Structural)]
pub enum DroidStatus {
    Wall,
    Blank,
    OxSys,
}

impl DroidStatus {
    /// The status a machine output code names, if any.
    pub fn from_status_code(status_code: i64) -> (r: Option<DroidStatus>)
        ensures
            r == (if status_code == 0 {
                Some(DroidStatus::Wall)
            } else if status_code == 1 {
                Some(DroidStatus::Blank)
            } else if status_code == 2 {
                Some(DroidStatus::OxSys)
            } else {
                None::<DroidStatus>
            }),
    {
        match status_code {
            0 => Some(DroidStatus::Wall),
            1 => Some(DroidStatus::Blank),
            2 => Some(DroidStatus::OxSys),
            _ => None,
        }
    }
}

/// Component-wise sum of two positions.
pub fn add_points(one: &Point, two: &Point) -> (r: Point)
    requires
        i64::MIN as int <= one@[0] + two@[0] <= i64::MAX as int,
        i64::MIN as int <= one@[1] + two@[1] <= i64::MAX as int,
    ensures
        r@[0] == one@[0] + two@[0],
        r@[1] == one@[1] + two@[1],
{
    [one[0] + two[0], one[1] + two[1]]
}

/// First recorded status of the position `(x, y)`, newest record first.
pub open spec fn map_get(map: Seq<(Point, DroidStatus)>, x: int, y: int) -> Option<DroidStatus>
    decreases map.len(),
{
    if map.len() == 0 {
        None
    } else if map[0].0@[0] == x && map[0].0@[1] == y {
        Some(map[0].1)
    } else {
        map_get(map.subrange(1, map.len() as int), x, y)
    }
}

/// First recorded status of a position, executably.
pub fn map_get_ex(map: &Vec<(Point, DroidStatus)>, at: &Point) -> (r: Option<DroidStatus>)
    ensures
        r == map_get(map@, at@[0] as int, at@[1] as int),
{
    let n = map.len();
    proof {
        assert(map@.subrange(0, n as int) =~= map@);
    }
    let mut i: usize = 0;
    while i < n
        invariant
            i <= n,
            n == map@.len(),
            map_get(map@, at@[0] as int, at@[1] as int) == map_get(
                map@.subrange(i as int, n as int),
                at@[0] as int,
                at@[1] as int,
            ),
        decreases n - i,
    {
        let ghost remaining: Seq<(Point, DroidStatus)> = map@.subrange(i as int, n as int);
        proof {
            assert(remaining[0] == map@[i as int]);
            assert(remaining.subrange(1, remaining.len() as int) =~= map@.subrange(
                i as int + 1,
                n as int,
            ));
        }
        if map[i].0[0] == at[0] && map[i].0[1] == at[1] {
            return Some(map[i].1);
        }
        i = i + 1;
    }
    None
}

/// Record a status for a position; the new record shadows older ones.
pub fn map_set(map: &mut Vec<(Point, DroidStatus)>, at: &Point, status: DroidStatus)
    ensures
        map_get(final(map)@, at@[0] as int, at@[1] as int) == Some(status),
        final(map)@.len() == old(map)@.len() + 1,
        final(map)@.subrange(1, final(map)@.len() as int) == old(map)@,
        final(map)@[0].0@ == at@,
        final(map)@[0].1 == status,
{
    let mut v: Vec<(Point, DroidStatus)> = Vec::new();
    v.push(([at[0], at[1]], status));
    proof {
        assert(v@[0].0@ =~= at@);
    }
    let n = map.len();
    let mut i: usize = 0;
    while i < n
        invariant
            i <= n,
            n == map@.len(),
            *map == *old(map),
            v@.len() == i + 1,
            v@[0].0@ == at@,
            v@[0].1 == status,
            v@.subrange(1, v@.len() as int) == map@.subrange(0, i as int),
        decreases n - i,
    {
        let e = (map[i].0, map[i].1);
        v.push(e);
        proof {
            assert(v@.subrange(1, v@.len() as int) =~= map@.subrange(0, i as int + 1));
        }
        i = i + 1;
    }
    proof {
        assert(map@.subrange(0, n as int) =~= map@);
    }
    *map = v;
}

/// The map as plain values: positions and statuses, newest record first.
pub open spec fn map_abs(map: Seq<(Point, DroidStatus)>) -> Seq<((i64, i64), DroidStatus)> {
    Seq::new(map.len(), |k: int| ((map[k].0@[0], map[k].0@[1]), map[k].1))
}

/// First recorded status at a position of the abstract map.
pub open spec fn map_get_abs(m: Seq<((i64, i64), DroidStatus)>, x: int, y: int) -> Option<
    DroidStatus,
>
    decreases m.len(),
{
    if m.len() == 0 {
        None
    } else if m[0].0.0 == x && m[0].0.1 == y {
        Some(m[0].1)
    } else {
        map_get_abs(m.subrange(1, m.len() as int), x, y)
    }
}

/// Lookups agree between a map and its abstract form.
pub proof fn lemma_map_get_abs(map: Seq<(Point, DroidStatus)>, x: int, y: int)
    ensures
        map_get(map, x, y) == map_get_abs(map_abs(map), x, y),
    decreases map.len(),
{
    if map.len() > 0 {
        lemma_map_get_abs(map.subrange(1, map.len() as int), x, y);
        assert(map_abs(map).subrange(1, map.len() as int) =~= map_abs(
            map.subrange(1, map.len() as int),
        ));
    }
}

/// The first unexplored direction from `(x, y)`, probing north, south,
/// west, east in that order.
pub open spec fn spec_unexplored(m: Seq<((i64, i64), DroidStatus)>, x: int, y: int) -> Option<
    DroidMovement,
> {
    if map_get_abs(m, x, y + 1) is None {
        Some(DroidMovement::North)
    } else if map_get_abs(m, x, y - 1) is None {
        Some(DroidMovement::South)
    } else if map_get_abs(m, x - 1, y) is None {
        Some(DroidMovement::West)
    } else if map_get_abs(m, x + 1, y) is None {
        Some(DroidMovement::East)
    } else {
        None
    }
}

/// The explored map's first unexplored direction from `pos`, in the fixed
/// probe order.
pub fn find_unexplored(map: &Vec<(Point, DroidStatus)>, pos: &Point) -> (r: Option<DroidMovement>)
    requires
        -0x1000_0000_0000 <= pos@[0] <= 0x1000_0000_0000,
        -0x1000_0000_0000 <= pos@[1] <= 0x1000_0000_0000,
    ensures
        r == spec_unexplored(map_abs(map@), pos@[0] as int, pos@[1] as int),
{
    proof {
        lemma_map_get_abs(map@, pos@[0] + 1, pos@[1] as int);
        lemma_map_get_abs(map@, pos@[0] - 1, pos@[1] as int);
        lemma_map_get_abs(map@, pos@[0] as int, pos@[1] + 1);
        lemma_map_get_abs(map@, pos@[0] as int, pos@[1] - 1);
    }
    let north = [pos[0], pos[1] + 1];
    if map_get_ex(map, &north).is_none() {
        return Some(DroidMovement::North);
    }
    let south = [pos[0], pos[1] - 1];
    if map_get_ex(map, &south).is_none() {
        return Some(DroidMovement::South);
    }
    let west = [pos[0] - 1, pos[1]];
    if map_get_ex(map, &west).is_none() {
        return Some(DroidMovement::West);
    }
    let east = [pos[0] + 1, pos[1]];
    if map_get_ex(map, &east).is_none() {
        return Some(DroidMovement::East);
    }
    None
}

/// The positions as plain values.
pub open spec fn pts_abs(pts: Seq<Point>) -> Seq<(i64, i64)> {
    Seq::new(pts.len(), |k: int| (pts[k]@[0], pts[k]@[1]))
}

/// A neighbour cell, kept when the map records it as open.
pub open spec fn keep_open(m: Seq<((i64, i64), DroidStatus)>, x: int, y: int) -> Seq<(i64, i64)> {
    let st = map_get_abs(m, x, y);
    if st is Some && !(st == Some(DroidStatus::Wall)) {
        seq![(x as i64, y as i64)]
    } else {
        Seq::empty()
    }
}

/// The walkable neighbours of a cell, probing north, south, west, east in
/// that order.
pub open spec fn spec_neighbors(m: Seq<((i64, i64), DroidStatus)>, x: int, y: int) -> Seq<
    (i64, i64),
>
    recommends
        -0x1000_0000_0000 <= x <= 0x1000_0000_0000,
        -0x1000_0000_0000 <= y <= 0x1000_0000_0000,
{
    keep_open(m, x, y + 1) + keep_open(m, x, y - 1) + keep_open(m, x - 1, y) + keep_open(
        m,
        x + 1,
        y,
    )
}

/// Walkable neighbours of a position on the explored map, exactly as
/// [`spec_neighbors`] lists them.
pub fn get_neighbors(map: &Vec<(Point, DroidStatus)>, point: &Point) -> (r: Vec<Point>)
    requires
        -0x1000_0000_0000 <= point@[0] <= 0x1000_0000_0000,
        -0x1000_0000_0000 <= point@[1] <= 0x1000_0000_0000,
    ensures
        pts_abs(r@) == spec_neighbors(map_abs(map@), point@[0] as int, point@[1] as int),
        forall|k: int|
            0 <= k < r@.len() ==> {
                let st = map_get(map@, (#[trigger] r@[k])@[0] as int, r@[k]@[1] as int);
                st is Some && !(st == Some(DroidStatus::Wall))
            },
        forall|k: int|
            0 <= k < r@.len() ==> -0x1000_0000_0001 <= (#[trigger] r@[k])@[0] <= 0x1000_0000_0001
                && -0x1000_0000_0001 <= r@[k]@[1] <= 0x1000_0000_0001,
{
    let mut neighbors: Vec<Point> = Vec::new();
    proof {
        lemma_map_get_abs(map@, point@[0] as int, point@[1] + 1);
        lemma_map_get_abs(map@, point@[0] as int, point@[1] - 1);
        lemma_map_get_abs(map@, point@[0] - 1, point@[1] as int);
        lemma_map_get_abs(map@, point@[0] + 1, point@[1] as int);
    }
    let north = [point[0], point[1] + 1];
    match map_get_ex(map, &north) {
        Some(status) => {
            if !(status == DroidStatus::Wall) {
                neighbors.push(north);
            }
        },
        None => {},
    }
    let south = [point[0], point[1] - 1];
    match map_get_ex(map, &south) {
        Some(status) => {
            if !(status == DroidStatus::Wall) {
                neighbors.push(south);
            }
        },
        None => {},
    }
    let west = [point[0] - 1, point[1]];
    match map_get_ex(map, &west) {
        Some(status) => {
            if !(status == DroidStatus::Wall) {
                neighbors.push(west);
            }
        },
        None => {},
    }
    let east = [point[0] + 1, point[1]];
    match map_get_ex(map, &east) {
        Some(status) => {
            if !(status == DroidStatus::Wall) {
                neighbors.push(east);
            }
        },
        None => {},
    }
    proof {
        assert(pts_abs(neighbors@) =~= spec_neighbors(
            map_abs(map@),
            point@[0] as int,
            point@[1] as int,
        ));
    }
    neighbors
}

/// The walk distance the search estimates between two positions: the
/// magnitude of the summed coordinate differences.
pub fn heuristic(src: &Point, tar: &Point) -> (r: u64)
    requires
        -0x1000_0000_0000 <= src@[0] <= 0x1000_0000_0000,
        -0x1000_0000_0000 <= src@[1] <= 0x1000_0000_0000,
        -0x1000_0000_0000 <= tar@[0] <= 0x1000_0000_0000,
        -0x1000_0000_0000 <= tar@[1] <= 0x1000_0000_0000,
    ensures
        r as int == ({
            let s = (src@[0] - tar@[0]) + (src@[1] - tar@[1]);
            if s < 0 {
                -s
            } else {
                s
            }
        }),
{
    let s: i64 = (src[0] - tar[0]) + (src[1] - tar[1]);
    if s < 0 {
        (-s) as u64
    } else {
        s as u64
    }
}

/// The exploration's abstract state: the machine, the pending movement,
/// the droid's position, the breadcrumb trail, and the explored map
/// (newest record first).
#[verifier::ext_equal]
pub ghost struct DroidState {
    pub vm: crate::intcode::VmState,
    pub movement: DroidMovement,
    pub pos: (i64, i64),
    pub crumbs: Seq<DroidMovement>,
    pub map: Seq<((i64, i64), DroidStatus)>,
}

/// The exploration, round by round, exactly as [`droid_loop`] walks it:
/// send the pending movement, run the machine on the step budget, record
/// what it reports one step ahead, advance unless a wall blocked the way,
/// then head for the first unexplored neighbour — or back along the
/// breadcrumbs, and stop with the map once the trail is empty.  `None`
/// when the machine fails or reports nonsense, the droid strays too far,
/// or the budgets run out.
pub open spec fn droid_run(s: DroidState, fuel: nat, rounds: nat) -> Option<
    (crate::intcode::VmState, Seq<((i64, i64), DroidStatus)>),
>
    decreases rounds,
{
    if rounds == 0 {
        None
    } else if s.pos.0 <= -0x1000_0000_0000 || s.pos.0 >= 0x1000_0000_0000 || s.pos.1
        <= -0x1000_0000_0000 || s.pos.1 >= 0x1000_0000_0000 {
        None
    } else {
        let vm2 = crate::intcode::step_n(
            crate::intcode::VmState { input: s.vm.input.push(spec_instr(s.movement)), ..s.vm },
            fuel,
        );
        if vm2.status is Failed {
            None
        } else if vm2.output.len() == 0 {
            None
        } else {
            let code = vm2.output[0];
            let vm3 = crate::intcode::VmState {
                output: vm2.output.subrange(1, vm2.output.len() as int),
                ..vm2
            };
            if code != 0 && code != 1 && code != 2 {
                None
            } else {
                let status = if code == 0 {
                    DroidStatus::Wall
                } else if code == 1 {
                    DroidStatus::Blank
                } else {
                    DroidStatus::OxSys
                };
                let probe = (
                    (s.pos.0 + spec_direction(s.movement).0) as i64,
                    (s.pos.1 + spec_direction(s.movement).1) as i64,
                );
                let map2 = seq![(probe, status)] + s.map;
                let pos2 = if status == DroidStatus::Wall {
                    s.pos
                } else {
                    probe
                };
                match spec_unexplored(map2, pos2.0 as int, pos2.1 as int) {
                    Some(dir) => droid_run(
                        DroidState {
                            vm: vm3,
                            movement: dir,
                            pos: pos2,
                            crumbs: s.crumbs.push(spec_rev(dir)),
                            map: map2,
                        },
                        fuel,
                        (rounds - 1) as nat,
                    ),
                    None => {
                        if s.crumbs.len() > 0 {
                            droid_run(
                                DroidState {
                                    vm: vm3,
                                    movement: s.crumbs.last(),
                                    pos: pos2,
                                    crumbs: s.crumbs.drop_last(),
                                    map: map2,
                                },
                                fuel,
                                (rounds - 1) as nat,
                            )
                        } else {
                            Some((vm3, map2))
                        }
                    },
                }
            }
        }
    }
}

/// The exploration's starting state: at the origin, heading north, the
/// origin already recorded open.
pub open spec fn droid_start(vm: crate::intcode::VmState) -> DroidState {
    DroidState {
        vm,
        movement: DroidMovement::North,
        pos: (0, 0),
        crumbs: Seq::empty(),
        map: seq![(((0i64, 0i64)), DroidStatus::Blank)],
    }
}

/// Explore the maze depth-first, exactly as [`droid_run`] lays the rounds
/// out, and hand back the explored map.
#[verifier::rlimit(100)]
pub fn droid_loop(program: &mut IntCodeProgram, fuel: usize, rounds: usize) -> (r: Option<
    Vec<(Point, DroidStatus)>,
>)
    ensures
        ({
            let outcome = droid_run(droid_start(old(program)@), fuel as nat, rounds as nat);
            match r {
                Some(m) => outcome matches Some(fin) && final(program)@ == fin.0 && map_abs(m@)
                    == fin.1 && map_get(m@, 0, 0) is Some,
                None => outcome is None,
            }
        }),
{
    let mut breadcrumbs: Vec<DroidMovement> = Vec::new();
    let mut map: Vec<(Point, DroidStatus)> = Vec::new();
    let mut movement = DroidMovement::North;
    let mut pos: Point = [0, 0];
    map_set(&mut map, &pos, DroidStatus::Blank);
    let mut left = rounds;
    proof {
        assert(map_abs(map@) =~~= droid_start(old(program)@).map);
        assert((pos@[0], pos@[1]) == (0i64, 0i64));
    }
    while left > 0
        invariant
            map_get(map@, 0, 0) is Some,
            -0x8000_0000_0000 <= pos@[0] <= 0x8000_0000_0000,
            -0x8000_0000_0000 <= pos@[1] <= 0x8000_0000_0000,
            droid_run(droid_start(old(program)@), fuel as nat, rounds as nat) == droid_run(
                DroidState {
                    vm: program@,
                    movement: movement,
                    pos: (pos@[0], pos@[1]),
                    crumbs: breadcrumbs@,
                    map: map_abs(map@),
                },
                fuel as nat,
                left as nat,
            ),
        decreases left,
    {
        let ghost cur: DroidState = DroidState {
            vm: program@,
            movement: movement,
            pos: (pos@[0], pos@[1]),
            crumbs: breadcrumbs@,
            map: map_abs(map@),
        };
        if pos[0] <= -0x1000_0000_0000 || pos[0] >= 0x1000_0000_0000
            || pos[1] <= -0x1000_0000_0000 || pos[1] >= 0x1000_0000_0000 {
            return None;
        }
        program.in_buf.push(movement.get_instr());
        let ghost prerun: crate::intcode::VmState = program@;
        proof {
            assert(prerun == (crate::intcode::VmState {
                input: cur.vm.input.push(spec_instr(cur.movement)),
                ..cur.vm
            }));
        }
        let run_result = program.run(fuel);
        let ghost vm2: crate::intcode::VmState = crate::intcode::step_n(prerun, fuel as nat);
        if run_result.is_err() {
            proof {
                assert(vm2.status is Failed);
            }
            return None;
        }
        proof {
            assert(program@ == vm2);
        }
        if program.out_buf.len() == 0 {
            return None;
        }
        let code = program.out_buf.remove(0);
        proof {
            assert(program@.output =~= vm2.output.subrange(1, vm2.output.len() as int));
        }
        let status = match DroidStatus::from_status_code(code) {
            Some(st) => st,
            None => { return None; },
        };
        let direction = movement.get_direction();
        let probe = add_points(&pos, &direction);
        let ghost map0: Seq<(Point, DroidStatus)> = map@;
        map_set(&mut map, &probe, status);
        proof {
            assert(map_abs(map@) =~~= seq![(((probe@[0]), (probe@[1])), status)] + map_abs(map0));
            assert(map@.subrange(1, map@.len() as int) == map0);
            assert(map_get(map@, 0, 0) is Some);
        }
        match status {
            DroidStatus::Wall => {},
            DroidStatus::Blank => {
                pos = probe;
            },
            DroidStatus::OxSys => {
                pos = probe;
            },
        }
        match find_unexplored(&map, &pos) {
            Some(dir) => {
                movement = dir;
                breadcrumbs.push(dir.rev());
            },
            None => {
                match breadcrumbs.pop() {
                    Some(bc) => {
                        movement = bc;
                    },
                    None => {
                        proof {
                            assert(droid_run(cur, fuel as nat, left as nat) == Some(
                                (program@, map_abs(map@)),
                            ));
                        }
                        return Some(map);
                    },
                }
            },
        }
        proof {
            assert(droid_run(cur, fuel as nat, left as nat) == droid_run(
                DroidState {
                    vm: program@,
                    movement: movement,
                    pos: (pos@[0], pos@[1]),
                    crumbs: breadcrumbs@,
                    map: map_abs(map@),
                },
                fuel as nat,
                (left - 1) as nat,
            ));
        }
        left = left - 1;
    }
    None
}

/// First recorded parent of a position.
pub open spec fn child_abs_get(s: Seq<((i64, i64), (i64, i64))>, x: int, y: int) -> Option<
    (i64, i64),
>
    decreases s.len(),
{
    if s.len() == 0 {
        None
    } else if s[0].0.0 == x && s[0].0.1 == y {
        Some(s[0].1)
    } else {
        child_abs_get(s.subrange(1, s.len() as int), x, y)
    }
}

/// First recorded best distance of a position.
pub open spec fn score_abs_get(s: Seq<((i64, i64), u64)>, x: int, y: int) -> Option<u64>
    decreases s.len(),
{
    if s.len() == 0 {
        None
    } else if s[0].0.0 == x && s[0].0.1 == y {
        Some(s[0].1)
    } else {
        score_abs_get(s.subrange(1, s.len() as int), x, y)
    }
}

/// The search's bookkeeping: parents, best distances, and the frontier.
#[verifier::ext_equal]
pub ghost struct SearchState {
    pub children: Seq<((i64, i64), (i64, i64))>,
    pub scores: Seq<((i64, i64), u64)>,
    pub pq: Seq<(i64, i64)>,
}

/// Measure the reconstructed path by following parent records from the
/// target back to the start.
pub open spec fn walk_back(
    children: Seq<((i64, i64), (i64, i64))>,
    x: i64,
    y: i64,
    len: int,
    budget: int,
    wl: nat,
) -> Option<int>
    decreases wl,
{
    if wl == 0 {
        None
    } else {
        match child_abs_get(children, x as int, y as int) {
            None => Some(len),
            Some(p) => {
                if len < budget {
                    walk_back(children, p.0, p.1, len + 1, budget, (wl - 1) as nat)
                } else {
                    None
                }
            },
        }
    }
}

/// Relax one frontier cell's neighbours in listed order: a strictly better
/// tentative distance records the parent and the distance, and queues the
/// neighbour when it lies in range.
pub open spec fn relax(
    st: SearchState,
    nbs: Seq<(i64, i64)>,
    cur: (i64, i64),
    tent: u64,
) -> SearchState
    decreases nbs.len(),
{
    if nbs.len() == 0 {
        st
    } else {
        let nb = nbs[0];
        let known = match score_abs_get(st.scores, nb.0 as int, nb.1 as int) {
            Some(g) => g,
            None => u64::MAX,
        };
        let st2 = if tent < known {
            SearchState {
                children: seq![(nb, cur)] + st.children,
                scores: seq![(nb, tent)] + st.scores,
                pq: if -0x1000_0000_0000 <= nb.0 <= 0x1000_0000_0000 && -0x1000_0000_0000 <= nb.1
                    <= 0x1000_0000_0000 {
                    st.pq.push(nb)
                } else {
                    st.pq
                },
            }
        } else {
            st
        };
        relax(st2, nbs.subrange(1, nbs.len() as int), cur, tent)
    }
}

/// The frontier search, round by round, exactly as [`a_star`] walks it:
/// take the newest frontier cell; if it is the target, measure the
/// reconstructed path, else relax its walkable neighbours and go on.
pub open spec fn spec_search(
    m: Seq<((i64, i64), DroidStatus)>,
    st: SearchState,
    tx: i64,
    ty: i64,
    budget: int,
    left: nat,
) -> Option<int>
    decreases left,
{
    if left == 0 {
        None
    } else if st.pq.len() == 0 {
        None
    } else {
        let cur = st.pq.last();
        let pq2 = st.pq.drop_last();
        if cur.0 == tx && cur.1 == ty {
            walk_back(st.children, cur.0, cur.1, 0, budget, budget as nat)
        } else {
            match score_abs_get(st.scores, cur.0 as int, cur.1 as int) {
                None => None,
                Some(g) => {
                    if g >= u64::MAX - 1 {
                        None
                    } else {
                        let nbs = spec_neighbors(m, cur.0 as int, cur.1 as int);
                        let st2 = relax(
                            SearchState { children: st.children, scores: st.scores, pq: pq2 },
                            nbs,
                            cur,
                            (g + 1) as u64,
                        );
                        spec_search(m, st2, tx, ty, budget, (left - 1) as nat)
                    }
                },
            }
        }
    }
}

/// Walk distance between two explored positions: take the newest frontier
/// cell, relax neighbours with the best known distances, and measure the
/// reconstructed path once the target comes off the frontier — exactly as
/// [`spec_search`] lays the rounds out.
#[verifier::rlimit(100)]
pub fn a_star(
    map: &Vec<(Point, DroidStatus)>,
    src: &Point,
    tar: &Point,
    budget: usize,
) -> (r: Option<usize>)
    requires
        -0x1000_0000_0000 <= src@[0] <= 0x1000_0000_0000,
        -0x1000_0000_0000 <= src@[1] <= 0x1000_0000_0000,
        -0x1000_0000_0000 <= tar@[0] <= 0x1000_0000_0000,
        -0x1000_0000_0000 <= tar@[1] <= 0x1000_0000_0000,
    ensures
        ({
            let init = SearchState {
                children: Seq::empty(),
                scores: seq![(((src@[0]), (src@[1])), 0u64)],
                pq: seq![((src@[0]), (src@[1]))],
            };
            let outcome = spec_search(
                map_abs(map@),
                init,
                tar@[0],
                tar@[1],
                budget as int,
                budget as nat,
            );
            match r {
                Some(d) => outcome == Some(d as int),
                None => outcome is None,
            }
        }),
{
    let mut children: Vec<(Point, Point)> = Vec::new();
    let mut g_scores: Vec<(Point, u64)> = Vec::new();
    let mut pq: Vec<Point> = Vec::new();
    score_set(&mut g_scores, src, 0);
    pq.push([src[0], src[1]]);
    proof {
        assert(children_abs(children@) =~~= Seq::<((i64, i64), (i64, i64))>::empty());
        assert(scores_abs(g_scores@) =~~= seq![(((src@[0]), (src@[1])), 0u64)]);
        assert(pts_abs(pq@) =~~= seq![((src@[0]), (src@[1]))]);
    }
    let mut left = budget;
    while left > 0
        invariant
            forall|k: int|
                0 <= k < pq@.len() ==> -0x1000_0000_0000 <= (#[trigger] pq@[k])@[0]
                    <= 0x1000_0000_0000 && -0x1000_0000_0000 <= pq@[k]@[1] <= 0x1000_0000_0000,
            -0x1000_0000_0000 <= tar@[0] <= 0x1000_0000_0000,
            -0x1000_0000_0000 <= tar@[1] <= 0x1000_0000_0000,
            spec_search(
                map_abs(map@),
                SearchState {
                    children: Seq::empty(),
                    scores: seq![(((src@[0]), (src@[1])), 0u64)],
                    pq: seq![((src@[0]), (src@[1]))],
                },
                tar@[0],
                tar@[1],
                budget as int,
                budget as nat,
            ) == spec_search(
                map_abs(map@),
                SearchState {
                    children: children_abs(children@),
                    scores: scores_abs(g_scores@),
                    pq: pts_abs(pq@),
                },
                tar@[0],
                tar@[1],
                budget as int,
                left as nat,
            ),
        decreases left,
    {
        let ghost st: SearchState = SearchState {
            children: children_abs(children@),
            scores: scores_abs(g_scores@),
            pq: pts_abs(pq@),
        };
        let current = match pq.pop() {
            Some(p) => p,
            None => { return None; },
        };
        proof {
            assert(st.pq.last() == (current@[0], current@[1]));
            assert(pts_abs(pq@) =~= st.pq.drop_last());
        }
        if current[0] == tar[0] && current[1] == tar[1] {
            let mut length: usize = 0;
            let mut walker: Point = [current[0], current[1]];
            let mut walk_left = budget;
            proof {
                assert(spec_search(
                    map_abs(map@),
                    SearchState {
                        children: Seq::empty(),
                        scores: seq![(((src@[0]), (src@[1])), 0u64)],
                        pq: seq![((src@[0]), (src@[1]))],
                    },
                    tar@[0],
                    tar@[1],
                    budget as int,
                    budget as nat,
                ) == walk_back(
                    st.children,
                    current@[0],
                    current@[1],
                    0,
                    budget as int,
                    budget as nat,
                ));
            }
            while walk_left > 0
                invariant
                    length <= budget,
                    spec_search(
                        map_abs(map@),
                        SearchState {
                            children: Seq::empty(),
                            scores: seq![(((src@[0]), (src@[1])), 0u64)],
                            pq: seq![((src@[0]), (src@[1]))],
                        },
                        tar@[0],
                        tar@[1],
                        budget as int,
                        budget as nat,
                    ) == walk_back(
                        children_abs(children@),
                        walker@[0],
                        walker@[1],
                        length as int,
                        budget as int,
                        walk_left as nat,
                    ),
                decreases walk_left,
            {
                match child_get(&children, &walker) {
                    Some(parent) => {
                        walker = parent;
                        if length < budget {
                            length = length + 1;
                        } else {
                            return None;
                        }
                    },
                    None => {
                        return Some(length);
                    },
                }
                walk_left = walk_left - 1;
            }
            return None;
        }
        let neighbors = get_neighbors(map, &current);
        let current_g = match score_get(&g_scores, &current) {
            Some(gv) => gv,
            None => { return None; },
        };
        if current_g >= u64::MAX - 1 {
            return None;
        }
        let ghost nbs: Seq<(i64, i64)> = pts_abs(neighbors@);
        let ghost relaxed: SearchState = relax(
            SearchState { children: st.children, scores: st.scores, pq: st.pq.drop_last() },
            nbs,
            (current@[0], current@[1]),
            (current_g + 1) as u64,
        );
        let m = neighbors.len();
        proof {
            assert(nbs.subrange(0, m as int) =~= nbs);
        }
        let mut ni: usize = 0;
        while ni < m
            invariant
                ni <= m,
                m == neighbors@.len(),
                nbs == pts_abs(neighbors@),
                current_g < u64::MAX - 1,
                -0x1000_0000_0000 <= current@[0] <= 0x1000_0000_0000,
                -0x1000_0000_0000 <= current@[1] <= 0x1000_0000_0000,
                forall|k: int|
                    0 <= k < pq@.len() ==> -0x1000_0000_0000 <= (#[trigger] pq@[k])@[0]
                        <= 0x1000_0000_0000 && -0x1000_0000_0000 <= pq@[k]@[1]
                        <= 0x1000_0000_0000,
                forall|k: int|
                    0 <= k < neighbors@.len() ==> -0x1000_0000_0001 <= (
                    #[trigger] neighbors@[k])@[0] <= 0x1000_0000_0001 && -0x1000_0000_0001
                        <= neighbors@[k]@[1] <= 0x1000_0000_0001,
                relaxed == relax(
                    SearchState {
                        children: children_abs(children@),
                        scores: scores_abs(g_scores@),
                        pq: pts_abs(pq@),
                    },
                    nbs.subrange(ni as int, m as int),
                    (current@[0], current@[1]),
                    (current_g + 1) as u64,
                ),
            decreases m - ni,
        {
            let ghost pre: SearchState = SearchState {
                children: children_abs(children@),
                scores: scores_abs(g_scores@),
                pq: pts_abs(pq@),
            };
            let ghost rem: Seq<(i64, i64)> = nbs.subrange(ni as int, m as int);
            proof {
                assert(rem[0] == nbs[ni as int]);
                assert(rem.subrange(1, rem.len() as int) =~= nbs.subrange(
                    ni as int + 1,
                    m as int,
                ));
                assert(nbs[ni as int] == (neighbors@[ni as int]@[0], neighbors@[ni as int]@[1]));
            }
            let neighbor = [neighbors[ni][0], neighbors[ni][1]];
            let tent = current_g + 1;
            let known = match score_get(&g_scores, &neighbor) {
                Some(gv) => gv,
                None => u64::MAX,
            };
            if tent < known {
                child_set(&mut children, &neighbor, &current);
                score_set(&mut g_scores, &neighbor, tent);
                proof {
                    assert(children_abs(children@) =~~= seq![(((neighbor@[0]), (neighbor@[1])), (
                    (current@[0]), (current@[1])))] + pre.children);
                    assert(scores_abs(g_scores@) =~~= seq![(((neighbor@[0]), (neighbor@[1])),
                    tent)] + pre.scores);
                }
                if neighbor[0] >= -0x1000_0000_0000 && neighbor[0] <= 0x1000_0000_0000
                    && neighbor[1] >= -0x1000_0000_0000 && neighbor[1] <= 0x1000_0000_0000 {
                    let ghost pq0: Seq<(i64, i64)> = pts_abs(pq@);
                    pq.push(neighbor);
                    proof {
                        assert(pts_abs(pq@) =~= pq0.push((neighbor@[0], neighbor@[1])));
                    }
                }
            }
            ni = ni + 1;
        }
        proof {
            assert(nbs.subrange(m as int, m as int) =~= Seq::<(i64, i64)>::empty());
            assert(relaxed == (SearchState {
                children: children_abs(children@),
                scores: scores_abs(g_scores@),
                pq: pts_abs(pq@),
            }));
        }
        left = left - 1;
    }
    None
}

/// The parent records as plain values.
pub open spec fn children_abs(children: Seq<(Point, Point)>) -> Seq<((i64, i64), (i64, i64))> {
    Seq::new(
        children.len(),
        |k: int| ((children[k].0@[0], children[k].0@[1]), (children[k].1@[0], children[k].1@[1])),
    )
}

/// The distance records as plain values.
pub open spec fn scores_abs(scores: Seq<(Point, u64)>) -> Seq<((i64, i64), u64)> {
    Seq::new(scores.len(), |k: int| ((scores[k].0@[0], scores[k].0@[1]), scores[k].1))
}

/// Best known distance of a position.
fn score_get(scores: &Vec<(Point, u64)>, at: &Point) -> (r: Option<u64>)
    ensures
        r == score_abs_get(scores_abs(scores@), at@[0] as int, at@[1] as int),
{
    let n = scores.len();
    proof {
        assert(scores_abs(scores@).subrange(0, n as int) =~= scores_abs(scores@));
    }
    let mut i: usize = 0;
    while i < n
        invariant
            i <= n,
            n == scores@.len(),
            score_abs_get(scores_abs(scores@), at@[0] as int, at@[1] as int) == score_abs_get(
                scores_abs(scores@).subrange(i as int, n as int),
                at@[0] as int,
                at@[1] as int,
            ),
        decreases n - i,
    {
        let ghost remaining: Seq<((i64, i64), u64)> = scores_abs(scores@).subrange(
            i as int,
            n as int,
        );
        proof {
            assert(remaining[0] == scores_abs(scores@)[i as int]);
            assert(remaining.subrange(1, remaining.len() as int) =~= scores_abs(
                scores@,
            ).subrange(i as int + 1, n as int));
        }
        if scores[i].0[0] == at[0] && scores[i].0[1] == at[1] {
            return Some(scores[i].1);
        }
        i = i + 1;
    }
    None
}

/// Record a best known distance; the new record shadows older ones.
fn score_set(scores: &mut Vec<(Point, u64)>, at: &Point, value: u64)
    ensures
        scores_abs(final(scores)@) == seq![(((at@[0]), (at@[1])), value)] + scores_abs(
            old(scores)@,
        ),
{
    let mut v: Vec<(Point, u64)> = Vec::new();
    v.push(([at[0], at[1]], value));
    let n = scores.len();
    let mut i: usize = 0;
    while i < n
        invariant
            i <= n,
            n == scores@.len(),
            *scores == *old(scores),
            v@.len() == i + 1,
            v@[0] == ([at@[0], at@[1]], value),
            v@.subrange(1, v@.len() as int) == scores@.subrange(0, i as int),
        decreases n - i,
    {
        let e = (scores[i].0, scores[i].1);
        v.push(e);
        proof {
            assert(v@.subrange(1, v@.len() as int) =~= scores@.subrange(0, i as int + 1));
        }
        i = i + 1;
    }
    proof {
        assert(scores@.subrange(0, n as int) =~= scores@);
    }
    *scores = v;
    proof {
        assert(scores_abs(scores@) =~~= seq![(((at@[0]), (at@[1])), value)] + scores_abs(
            old(scores)@,
        ));
    }
}

/// The recorded parent of a position on the search tree.
fn child_get(children: &Vec<(Point, Point)>, at: &Point) -> (r: Option<Point>)
    ensures
        r matches Some(p) ==> child_abs_get(
            children_abs(children@),
            at@[0] as int,
            at@[1] as int,
        ) == Some((p@[0], p@[1])),
        r is None ==> child_abs_get(
            children_abs(children@),
            at@[0] as int,
            at@[1] as int,
        ) is None,
{
    let n = children.len();
    proof {
        assert(children_abs(children@).subrange(0, n as int) =~= children_abs(children@));
    }
    let mut i: usize = 0;
    while i < n
        invariant
            i <= n,
            n == children@.len(),
            child_abs_get(children_abs(children@), at@[0] as int, at@[1] as int)
                == child_abs_get(
                children_abs(children@).subrange(i as int, n as int),
                at@[0] as int,
                at@[1] as int,
            ),
        decreases n - i,
    {
        let ghost remaining: Seq<((i64, i64), (i64, i64))> = children_abs(children@).subrange(
            i as int,
            n as int,
        );
        proof {
            assert(remaining[0] == children_abs(children@)[i as int]);
            assert(remaining.subrange(1, remaining.len() as int) =~= children_abs(
                children@,
            ).subrange(i as int + 1, n as int));
        }
        if children[i].0[0] == at[0] && children[i].0[1] == at[1] {
            return Some(children[i].1);
        }
        i = i + 1;
    }
    None
}

/// Record a parent; the new record shadows older ones.
fn child_set(children: &mut Vec<(Point, Point)>, at: &Point, parent: &Point)
    ensures
        children_abs(final(children)@) == seq![(((at@[0]), (at@[1])), ((parent@[0]), (
        parent@[1])))] + children_abs(old(children)@),
{
    let mut v: Vec<(Point, Point)> = Vec::new();
    v.push(([at[0], at[1]], [parent[0], parent[1]]));
    let n = children.len();
    let mut i: usize = 0;
    while i < n
        invariant
            i <= n,
            n == children@.len(),
            *children == *old(children),
            v@.len() == i + 1,
            v@[0] == ([at@[0], at@[1]], [parent@[0], parent@[1]]),
            v@.subrange(1, v@.len() as int) == children@.subrange(0, i as int),
        decreases n - i,
    {
        let e = (children[i].0, children[i].1);
        v.push(e);
        proof {
            assert(v@.subrange(1, v@.len() as int) =~= children@.subrange(0, i as int + 1));
        }
        i = i + 1;
    }
    proof {
        assert(children@.subrange(0, n as int) =~= children@);
    }
    *children = v;
    proof {
        assert(children_abs(children@) =~~= seq![(((at@[0]), (at@[1])), ((parent@[0]), (
        parent@[1])))] + children_abs(old(children)@));
    }
}

/// The in-range cells of a neighbour list./// The in-range cells of a neighbour list.
pub open spec fn keep_in_range(s: Seq<(i64, i64)>) -> Seq<(i64, i64)>
    decreases s.len(),
{
    if s.len() == 0 {
        Seq::empty()
    } else {
        let rest = keep_in_range(s.subrange(1, s.len() as int));
        if -0x1000_0000_0000 <= s[0].0 <= 0x1000_0000_0000 && -0x1000_0000_0000 <= s[0].1
            <= 0x1000_0000_0000 {
            seq![s[0]] + rest
        } else {
            rest
        }
    }
}

/// One flooding ring: seal each frontier cell (newest taken first) and
/// collect its still-open, in-range neighbours for the next ring.
pub open spec fn ring_step(
    filled: Seq<((i64, i64), DroidStatus)>,
    current: Seq<(i64, i64)>,
    next: Seq<(i64, i64)>,
) -> (Seq<((i64, i64), DroidStatus)>, Seq<(i64, i64)>)
    decreases current.len(),
{
    if current.len() == 0 {
        (filled, next)
    } else {
        let p = current.last();
        let filled2 = seq![(p, DroidStatus::Wall)] + filled;
        let next2 = next + keep_in_range(spec_neighbors(filled2, p.0 as int, p.1 as int));
        ring_step(filled2, current.drop_last(), next2)
    }
}

/// The whole flood: rings until no frontier is left, counting minutes.
pub open spec fn spec_flood(
    filled: Seq<((i64, i64), DroidStatus)>,
    next: Seq<(i64, i64)>,
    minutes: nat,
    budget: nat,
) -> Option<int>
    decreases budget - minutes
        when minutes <= budget
{
    if next.len() == 0 {
        Some(
            if minutes == 0 {
                0
            } else {
                minutes - 1
            },
        )
    } else if minutes >= budget {
        None
    } else {
        let rung = ring_step(filled, next, Seq::empty());
        spec_flood(rung.0, rung.1, minutes + 1, budget)
    }
}

/// Flood the open cells from the oxygen system, one minute per ring, and
/// count the minutes until nothing is left to fill, exactly as
/// [`spec_flood`] lays the rings out.
pub fn flood_fill(map: &Vec<(Point, DroidStatus)>, ox_sys: &Point, budget: usize) -> (r: Option<
    usize,
>)
    requires
        -0x1000_0000_0000 <= ox_sys@[0] <= 0x1000_0000_0000,
        -0x1000_0000_0000 <= ox_sys@[1] <= 0x1000_0000_0000,
    ensures
        r matches Some(minutes) ==> spec_flood(
            map_abs(map@),
            seq![(ox_sys@[0], ox_sys@[1])],
            0,
            budget as nat,
        ) == Some(minutes as int),
        r is None ==> spec_flood(
            map_abs(map@),
            seq![(ox_sys@[0], ox_sys@[1])],
            0,
            budget as nat,
        ) is None,
{
    let mut filled: Vec<(Point, DroidStatus)> = Vec::new();
    let n0 = map.len();
    let mut ci: usize = 0;
    while ci < n0
        invariant
            ci <= n0,
            n0 == map@.len(),
            filled@ == map@.subrange(0, ci as int),
        decreases n0 - ci,
    {
        let e = (map[ci].0, map[ci].1);
        filled.push(e);
        proof {
            assert(filled@ =~= map@.subrange(0, ci as int + 1));
        }
        ci = ci + 1;
    }
    proof {
        assert(map@.subrange(0, n0 as int) =~= map@);
    }
    let mut minutes: usize = 0;
    let mut next: Vec<Point> = Vec::new();
    next.push([ox_sys[0], ox_sys[1]]);
    proof {
        assert(pts_abs(next@) =~= seq![(ox_sys@[0], ox_sys@[1])]);
    }
    while next.len() > 0
        invariant
            minutes <= budget,
            forall|k: int|
                0 <= k < next@.len() ==> -0x1000_0000_0000 <= (#[trigger] next@[k])@[0]
                    <= 0x1000_0000_0000 && -0x1000_0000_0000 <= next@[k]@[1] <= 0x1000_0000_0000,
            spec_flood(
                map_abs(map@),
                seq![(ox_sys@[0], ox_sys@[1])],
                0,
                budget as nat,
            ) == spec_flood(map_abs(filled@), pts_abs(next@), minutes as nat, budget as nat),
        decreases budget - minutes,
    {
        if minutes >= budget {
            return None;
        }
        let ghost ring_filled: Seq<((i64, i64), DroidStatus)> = map_abs(filled@);
        let ghost ring_next: Seq<(i64, i64)> = pts_abs(next@);
        let mut current = next;
        next = Vec::new();
        minutes = minutes + 1;
        proof {
            assert(pts_abs(next@) =~= Seq::<(i64, i64)>::empty());
        }
        while current.len() > 0
            invariant
                forall|k: int|
                    0 <= k < current@.len() ==> -0x1000_0000_0000 <= (#[trigger] current@[k])@[0]
                        <= 0x1000_0000_0000 && -0x1000_0000_0000 <= current@[k]@[1]
                        <= 0x1000_0000_0000,
                forall|k: int|
                    0 <= k < next@.len() ==> -0x1000_0000_0000 <= (#[trigger] next@[k])@[0]
                        <= 0x1000_0000_0000 && -0x1000_0000_0000 <= next@[k]@[1]
                        <= 0x1000_0000_0000,
                ring_step(ring_filled, ring_next, Seq::empty()) == ring_step(
                    map_abs(filled@),
                    pts_abs(current@),
                    pts_abs(next@),
                ),
            decreases current@.len(),
        {
            let ghost pre_filled: Seq<((i64, i64), DroidStatus)> = map_abs(filled@);
            let ghost pre_current: Seq<(i64, i64)> = pts_abs(current@);
            let ghost pre_next: Seq<(i64, i64)> = pts_abs(next@);
            let point = match current.pop() {
                Some(p) => p,
                None => {
                    proof {
                        assert(false);
                    }
                    return None;
                },
            };
            proof {
                assert(pre_current.last() == (point@[0], point@[1]));
                assert(pts_abs(current@) =~= pre_current.drop_last());
            }
            let ghost map0: Seq<(Point, DroidStatus)> = filled@;
            map_set(&mut filled, &point, DroidStatus::Wall);
            proof {
                assert(map_abs(filled@) =~~= seq![(((point@[0]), (point@[1])),
                DroidStatus::Wall)] + map_abs(map0));
            }
            let neighbors = get_neighbors(&filled, &point);
            let nn = neighbors.len();
            let mut k: usize = 0;
            while k < nn
                invariant
                    k <= nn,
                    nn == neighbors@.len(),
                    pts_abs(neighbors@) == spec_neighbors(
                        map_abs(filled@),
                        point@[0] as int,
                        point@[1] as int,
                    ),
                    forall|q: int|
                        0 <= q < neighbors@.len() ==> -0x1000_0000_0001 <= (
                        #[trigger] neighbors@[q])@[0] <= 0x1000_0000_0001 && -0x1000_0000_0001
                            <= neighbors@[q]@[1] <= 0x1000_0000_0001,
                    forall|q: int|
                        0 <= q < next@.len() ==> -0x1000_0000_0000 <= (#[trigger] next@[q])@[0]
                            <= 0x1000_0000_0000 && -0x1000_0000_0000 <= next@[q]@[1]
                            <= 0x1000_0000_0000,
                    pts_abs(next@) == pre_next + keep_in_range(
                        pts_abs(neighbors@).subrange(0, k as int),
                    ),
                decreases nn - k,
            {
                let ghost nb_abs: Seq<(i64, i64)> = pts_abs(neighbors@);
                proof {
                    lemma_keep_in_range_snoc(nb_abs, k as int);
                }
                let nb = [neighbors[k][0], neighbors[k][1]];
                proof {
                    assert(nb_abs[k as int] == (nb@[0], nb@[1]));
                }
                if nb[0] >= -0x1000_0000_0000 && nb[0] <= 0x1000_0000_0000 && nb[1]
                    >= -0x1000_0000_0000 && nb[1] <= 0x1000_0000_0000 {
                    let ghost next0: Seq<(i64, i64)> = pts_abs(next@);
                    next.push(nb);
                    proof {
                        assert(pts_abs(next@) =~= next0.push(nb_abs[k as int]));
                        assert(pts_abs(next@) =~= pre_next + keep_in_range(
                            nb_abs.subrange(0, k as int + 1),
                        ));
                    }
                } else {
                    proof {
                        assert(pts_abs(next@) =~= pre_next + keep_in_range(
                            nb_abs.subrange(0, k as int + 1),
                        ));
                    }
                }
                k = k + 1;
            }
            proof {
                assert(pts_abs(neighbors@).subrange(0, nn as int) =~= pts_abs(neighbors@));
                assert(ring_step(pre_filled, pre_current, pre_next) == ring_step(
                    map_abs(filled@),
                    pts_abs(current@),
                    pts_abs(next@),
                ));
            }
        }
        proof {
            assert(pts_abs(current@).len() == 0);
            assert(ring_step(map_abs(filled@), pts_abs(current@), pts_abs(next@)) == (
            map_abs(filled@), pts_abs(next@)));
            assert(spec_flood(ring_filled, ring_next, (minutes - 1) as nat, budget as nat)
                == spec_flood(map_abs(filled@), pts_abs(next@), minutes as nat, budget as nat));
        }
    }
    proof {
        assert(pts_abs(next@).len() == 0);
    }
    if minutes == 0 {
        Some(0)
    } else {
        Some(minutes - 1)
    }
}

/// A kept head cell prepends; a dropped one vanishes.
proof fn lemma_keep_in_range_snoc(s: Seq<(i64, i64)>, k: int)
    requires
        0 <= k < s.len(),
    ensures
        (-0x1000_0000_0000 <= s[k].0 <= 0x1000_0000_0000 && -0x1000_0000_0000 <= s[k].1
            <= 0x1000_0000_0000) ==> keep_in_range(s.subrange(0, k + 1)) == keep_in_range(
            s.subrange(0, k),
        ).push(s[k]),
        !(-0x1000_0000_0000 <= s[k].0 <= 0x1000_0000_0000 && -0x1000_0000_0000 <= s[k].1
            <= 0x1000_0000_0000) ==> keep_in_range(s.subrange(0, k + 1)) == keep_in_range(
            s.subrange(0, k),
        ),
    decreases k,
{
    if k == 0 {
        assert(s.subrange(0, 1).subrange(1, 1) =~= Seq::<(i64, i64)>::empty());
        assert(s.subrange(0, 0) =~= Seq::<(i64, i64)>::empty());
        assert(s.subrange(0, 1)[0] == s[0]);
        if -0x1000_0000_0000 <= s[0].0 <= 0x1000_0000_0000 && -0x1000_0000_0000 <= s[0].1
            <= 0x1000_0000_0000 {
            assert(keep_in_range(s.subrange(0, 1)) =~= keep_in_range(s.subrange(0, 0)).push(
                s[0],
            ));
        }
    } else {
        lemma_keep_in_range_snoc(s.subrange(1, s.len() as int), k - 1);
        let t = s.subrange(1, s.len() as int);
        assert(s.subrange(0, k + 1).subrange(1, k + 1) =~= t.subrange(0, k));
        assert(s.subrange(0, k).subrange(1, k) =~= t.subrange(0, k - 1));
        assert(s.subrange(0, k + 1)[0] == s[0]);
        assert(s.subrange(0, k)[0] == s[0]);
        assert(t[k - 1] == s[k]);
        assert(t.subrange(0, k) =~= s.subrange(1, k + 1));
        assert(t.subrange(0, k - 1) =~= s.subrange(1, k));
        if -0x1000_0000_0000 <= s[k].0 <= 0x1000_0000_0000 && -0x1000_0000_0000 <= s[k].1
            <= 0x1000_0000_0000 {
            assert(keep_in_range(s.subrange(0, k + 1)) =~= keep_in_range(s.subrange(0, k)).push(
                s[k],
            ));
        } else {
            assert(keep_in_range(s.subrange(0, k + 1)) =~= keep_in_range(s.subrange(0, k)));
        }
    }
}

/// Explore the maze, then measure the shortest path/// Explore the maze, then measure the shortest path to the oxygen system
/// and the flooding time from it.  On success the explored map is the one
/// [`droid_run`] pins down; the distance comes from the frontier search,
/// the flooding time from [`spec_flood`] on that map.
pub fn start(input: &str, fuel: usize, rounds: usize) -> (r: Option<(usize, usize)>)
    ensures
        r matches Some(res) ==> ({
            let prog = crate::intcode::parse_program(input.spec_bytes());
            &&& prog is Some
            &&& droid_run(
                droid_start(
                    crate::intcode::VmState {
                        mem: prog->0,
                        ip: 0,
                        rel: 0,
                        input: Seq::empty(),
                        output: Seq::empty(),
                        status: crate::intcode::VmStatus::Ready,
                    },
                ),
                fuel as nat,
                rounds as nat,
            ) matches Some(fin) && (exists|ox: (i64, i64)|
                #![trigger ox.0]
                {
                    &&& map_get_abs(fin.1, ox.0 as int, ox.1 as int) == Some(DroidStatus::OxSys)
                    &&& spec_search(
                        fin.1,
                        SearchState {
                            children: Seq::empty(),
                            scores: seq![(((0i64), (0i64)), 0u64)],
                            pq: seq![((0i64), (0i64))],
                        },
                        ox.0,
                        ox.1,
                        rounds as int,
                        rounds as nat,
                    ) == Some(res.0 as int)
                    &&& spec_flood(fin.1, seq![ox], 0, rounds as nat) == Some(res.1 as int)
                })
        }),
{
    let mut program = match IntCodeProgram::from_input(input) {
        Ok(p) => p,
        Err(_) => { return None; },
    };
    proof {
        assert(program@ =~~= droid_start(
            crate::intcode::VmState {
                mem: crate::intcode::parse_program(input.spec_bytes())->0,
                ip: 0,
                rel: 0,
                input: Seq::empty(),
                output: Seq::empty(),
                status: crate::intcode::VmStatus::Ready,
            },
        ).vm);
    }
    let map = match droid_loop(&mut program, fuel, rounds) {
        Some(m) => m,
        None => { return None; },
    };
    let mut ox_sys: Option<Point> = None;
    let n = map.len();
    let mut i: usize = 0;
    while i < n
        invariant
            i <= n,
            n == map@.len(),
            ox_sys matches Some(p) ==> -0x1000_0000_0000 <= p@[0] <= 0x1000_0000_0000
                && -0x1000_0000_0000 <= p@[1] <= 0x1000_0000_0000 && map_get(
                map@,
                p@[0] as int,
                p@[1] as int,
            ) == Some(DroidStatus::OxSys),
        decreases n - i,
    {
        if map[i].1 == DroidStatus::OxSys {
            let p = [map[i].0[0], map[i].0[1]];
            if p[0] >= -0x1000_0000_0000 && p[0] <= 0x1000_0000_0000 && p[1] >= -0x1000_0000_0000
                && p[1] <= 0x1000_0000_0000 {
                if map_get_ex(&map, &p) == Some(DroidStatus::OxSys) {
                    ox_sys = Some(p);
                }
            }
        }
        i = i + 1;
    }
    let target = match ox_sys {
        Some(p) => p,
        None => { return None; },
    };
    proof {
        assert(-0x1000_0000_0000 <= target@[0] <= 0x1000_0000_0000);
        lemma_map_get_abs(map@, target@[0] as int, target@[1] as int);
    }
    let origin: Point = [0, 0];
    let dist = match a_star(&map, &origin, &target, rounds) {
        Some(d) => d,
        None => { return None; },
    };
    let minutes = match flood_fill(&map, &target, rounds) {
        Some(m) => m,
        None => { return None; },
    };
    Some((dist, minutes))
}

} // verus!
