//! The arcade cabinet: the machine paints tiles in x, y, identifier
//! triples; a joystick follows the ball with the paddle until the machine
//! halts, and the score arrives on the pseudo-tile at x = -1.

use crate::intcode::{IntCodeProgram, IntCodeStatus};
use vstd::prelude::*;
use vstd::string::StringSliceAdditionalSpecFns;

verus! {

/// One painted tile (or the score cell at x = -1).
pub type Tile = ([i64; 2], i64);

/// How many entries of the screen show tile identifier `v`.
pub open spec fn count_tiles(screen: Seq<Tile>, v: i64) -> int
    decreases screen.len(),
{
    if screen.len() == 0 {
        0
    } else {
        count_tiles(screen.drop_last(), v) + (if screen.last().1 == v {
            1int
        } else {
            0int
        })
    }
}

/// Read the machine's output as a screen: complete x, y, value triples in
/// order, an incomplete trailing group dropped; later triples for the same
/// position shadow earlier ones, so lookups read the newest entry first.
pub fn parse_output(output: &Vec<i64>) -> (r: Vec<Tile>)
    ensures
        screen_abs(r@) == spec_screen(output@),
{
    let mut screen: Vec<Tile> = Vec::new();
    let n = output.len();
    proof {
        assert(output@.subrange(0, 0) =~= Seq::<i64>::empty());
        assert(screen_abs(screen@) =~= spec_screen(output@.subrange(0, 0)));
    }
    let mut i: usize = 0;
    while i < n
        invariant
            i <= n,
            n == output@.len(),
            i % 3 == 0,
            i as int == 3 * screen@.len(),
            screen_abs(screen@) == spec_screen(output@.subrange(0, i as int)),
        decreases n - i,
    {
        if n - i < 3 {
            proof {
                lemma_spec_screen_stops(output@, i as int);
            }
            return screen;
        }
        let tile: Tile = ([output[i], output[i + 1]], output[i + 2]);
        let ghost screen0: Seq<Tile> = screen@;
        screen.insert(0, tile);
        proof {
            assert(screen@.len() == screen0.len() + 1);
            assert(forall|k: int| 1 <= k < screen@.len() ==> screen@[k] == #[trigger] screen0[k
                - 1]);
            assert(screen@[0] == tile);
            let pref = output@.subrange(0, i as int + 3);
            assert(pref.len() % 3 == 0);
            assert(pref.subrange(0, i as int) =~= output@.subrange(0, i as int));
            assert(spec_screen(pref) == seq![((pref[i as int], pref[i as int + 1]), pref[
                i as int + 2])] + spec_screen(output@.subrange(0, i as int)));
            assert(screen_abs(screen@) =~= spec_screen(pref));
        }
        i = i + 3;
    }
    proof {
        assert(output@.subrange(0, n as int) =~= output@);
    }
    screen
}

/// A trailing incomplete group adds nothing to the screen.
proof fn lemma_spec_screen_stops(out: Seq<i64>, i: int)
    requires
        0 <= i <= out.len(),
        i % 3 == 0,
        out.len() - i < 3,
    ensures
        spec_screen(out) == spec_screen(out.subrange(0, i)),
{
    let k = out.len() as int - (out.len() as int) % 3;
    assert(k == i);
    if k < 3 {
        assert(spec_screen(out) =~= spec_screen(out.subrange(0, i)));
        assert(out.subrange(0, i).len() < 3);
    } else {
        let pref = out.subrange(0, i);
        assert(pref.len() % 3 == 0);
        assert(spec_screen(out) == seq![((out[k - 3], out[k - 2]), out[k - 1])] + spec_screen(
            out.subrange(0, k - 3),
        ));
        assert(pref.subrange(0, k - 3) =~= out.subrange(0, k - 3));
        assert(spec_screen(pref) == seq![((pref[k - 3], pref[k - 2]), pref[k - 1])]
            + spec_screen(pref.subrange(0, k - 3)));
        assert(spec_screen(out) =~= spec_screen(pref));
    }
}

/// The screen as plain values: positions and identifiers, newest first.
pub open spec fn screen_abs(screen: Seq<Tile>) -> Seq<((i64, i64), i64)> {
    Seq::new(screen.len(), |k: int| ((screen[k].0@[0], screen[k].0@[1]), screen[k].1))
}

/// The screen encoded by a machine's output: its complete triples, the
/// newest one first.
pub open spec fn spec_screen(out: Seq<i64>) -> Seq<((i64, i64), i64)>
    decreases out.len(),
{
    let k = out.len() as int - (out.len() as int) % 3;
    if k < 3 {
        Seq::empty()
    } else {
        seq![((out[k - 3], out[k - 2]), out[k - 1])] + spec_screen(out.subrange(0, k - 3))
    }
}

/// First recorded value at a position, newest entry first.
pub open spec fn screen_get(screen: Seq<Tile>, x: int, y: int) -> Option<i64>
    decreases screen.len(),
{
    if screen.len() == 0 {
        None
    } else if screen[0].0@[0] == x && screen[0].0@[1] == y {
        Some(screen[0].1)
    } else {
        screen_get(screen.subrange(1, screen.len() as int), x, y)
    }
}

/// First recorded value at a position, executably.
pub fn screen_get_ex(screen: &Vec<Tile>, x: i64, y: i64) -> (r: Option<i64>)
    ensures
        r == screen_get(screen@, x as int, y as int),
{
    let n = screen.len();
    proof {
        assert(screen@.subrange(0, n as int) =~= screen@);
    }
    let mut i: usize = 0;
    while i < n
        invariant
            i <= n,
            n == screen@.len(),
            screen_get(screen@, x as int, y as int) == screen_get(
                screen@.subrange(i as int, n as int),
                x as int,
                y as int,
            ),
        decreases n - i,
    {
        let ghost remaining: Seq<Tile> = screen@.subrange(i as int, n as int);
        proof {
            assert(remaining[0] == screen@[i as int]);
            assert(remaining.subrange(1, remaining.len() as int) =~= screen@.subrange(
                i as int + 1,
                n as int,
            ));
        }
        if screen[i].0[0] == x && screen[i].0[1] == y {
            return Some(screen[i].1);
        }
        i = i + 1;
    }
    None
}

/// Column of the newest tile with the given identifier.
pub open spec fn find_first_id(screen: Seq<((i64, i64), i64)>, id: i64) -> Option<i64>
    decreases screen.len(),
{
    if screen.len() == 0 {
        None
    } else if screen[0].1 == id {
        Some(screen[0].0.0)
    } else {
        find_first_id(screen.subrange(1, screen.len() as int), id)
    }
}

/// The joystick tilt for a screen: towards the ball's column (identifier
/// 4), seen from the paddle's (identifier 3); a missing one sits at 0.
pub open spec fn spec_joystick(screen: Seq<((i64, i64), i64)>) -> i64 {
    let ball = match find_first_id(screen, 4) {
        Some(b) => b,
        None => 0,
    };
    let paddle = match find_first_id(screen, 3) {
        Some(p) => p,
        None => 0,
    };
    if ball > paddle {
        1i64
    } else if ball < paddle {
        (-1) as i64
    } else {
        0i64
    }
}

/// The joystick tilt, executably.
pub fn joystick(screen: &Vec<Tile>) -> (r: i64)
    ensures
        r == spec_joystick(screen_abs(screen@)),
{
    let mut ball: i64 = 0;
    let mut paddle: i64 = 0;
    let mut ball_seen = false;
    let mut paddle_seen = false;
    let n = screen.len();
    proof {
        assert(screen_abs(screen@).subrange(0, n as int) =~= screen_abs(screen@));
    }
    let mut i: usize = 0;
    while i < n
        invariant
            i <= n,
            n == screen@.len(),
            ball_seen ==> find_first_id(screen_abs(screen@), 4) == Some(ball),
            paddle_seen ==> find_first_id(screen_abs(screen@), 3) == Some(paddle),
            !ball_seen ==> ball == 0 && find_first_id(screen_abs(screen@), 4) == find_first_id(
                screen_abs(screen@).subrange(i as int, n as int),
                4,
            ),
            !paddle_seen ==> paddle == 0 && find_first_id(screen_abs(screen@), 3)
                == find_first_id(screen_abs(screen@).subrange(i as int, n as int), 3),
        decreases n - i,
    {
        let ghost remaining: Seq<((i64, i64), i64)> = screen_abs(screen@).subrange(
            i as int,
            n as int,
        );
        proof {
            assert(remaining[0] == screen_abs(screen@)[i as int]);
            assert(remaining.subrange(1, remaining.len() as int) =~= screen_abs(
                screen@,
            ).subrange(i as int + 1, n as int));
        }
        let id = screen[i].1;
        if id == 3 && !paddle_seen {
            paddle = screen[i].0[0];
            paddle_seen = true;
        }
        if id == 4 && !ball_seen {
            ball = screen[i].0[0];
            ball_seen = true;
        }
        i = i + 1;
    }
    proof {
        assert(screen_abs(screen@).subrange(n as int, n as int) =~= Seq::<
            ((i64, i64), i64),
        >::empty());
    }
    if ball > paddle {
        1
    } else if ball < paddle {
        -1
    } else {
        0
    }
}

/// How many block tiles (identifier 2) the screen lists, shadowed entries
/// included.
pub fn get_block_count(screen: &Vec<Tile>) -> (r: usize)
    ensures
        r as int == count_tiles(screen@, 2),
{
    let mut count: usize = 0;
    let n = screen.len();
    let mut i: usize = 0;
    while i < n
        invariant
            i <= n,
            n == screen@.len(),
            count as int == count_tiles(screen@.subrange(0, i as int), 2),
            count <= i,
        decreases n - i,
    {
        proof {
            assert(screen@.subrange(0, i as int + 1).drop_last() =~= screen@.subrange(
                0,
                i as int,
            ));
            assert(screen@.subrange(0, i as int + 1).last() == screen@[i as int]);
        }
        if screen[i].1 == 2 {
            count = count + 1;
        }
        i = i + 1;
    }
    proof {
        assert(screen@.subrange(0, n as int) =~= screen@);
    }
    count
}

/// First recorded value at a position of the abstract screen.
pub open spec fn screen_get_abs(screen: Seq<((i64, i64), i64)>, x: int, y: int) -> Option<i64>
    decreases screen.len(),
{
    if screen.len() == 0 {
        None
    } else if screen[0].0.0 == x && screen[0].0.1 == y {
        Some(screen[0].1)
    } else {
        screen_get_abs(screen.subrange(1, screen.len() as int), x, y)
    }
}

/// Lookups agree between a screen and its abstract form.
proof fn lemma_get_abs(screen: Seq<Tile>, x: int, y: int)
    ensures
        screen_get(screen, x, y) == screen_get_abs(screen_abs(screen), x, y),
    decreases screen.len(),
{
    if screen.len() > 0 {
        lemma_get_abs(screen.subrange(1, screen.len() as int), x, y);
        assert(screen_abs(screen).subrange(1, screen.len() as int) =~= screen_abs(
            screen.subrange(1, screen.len() as int),
        ));
    }
}

/// The game, round by round, exactly as [`run_game`] walks it: run the
/// machine, read the screen from its whole output, queue the joystick
/// tilt, clear the output, and repeat until the machine halts.  `Some`
/// exactly when it halts cleanly within the budgets.
pub open spec fn game_run(
    vm: crate::intcode::VmState,
    screen: Seq<((i64, i64), i64)>,
    fuel: nat,
    rounds: nat,
) -> Option<(crate::intcode::VmState, Seq<((i64, i64), i64)>)>
    decreases rounds,
{
    if vm.status is Halted {
        Some((vm, screen))
    } else if rounds == 0 {
        None
    } else {
        let vm2 = crate::intcode::step_n(vm, fuel);
        if !(vm2.status is Paused || vm2.status is Halted) {
            None
        } else {
            let screen2 = spec_screen(vm2.output);
            let tilt = spec_joystick(screen2);
            let vm3 = crate::intcode::VmState {
                input: vm2.input.push(tilt),
                output: Seq::empty(),
                ..vm2
            };
            game_run(vm3, screen2, fuel, (rounds - 1) as nat)
        }
    }
}

/// Play until the machine halts, exactly as [`game_run`] lays the rounds
/// out.  Returns the final screen and the score cell's value if any.
pub fn run_game(program: &mut IntCodeProgram, fuel: usize, rounds: usize) -> (r: Option<
    (Vec<Tile>, Option<i64>),
>)
    ensures
        r is Some ==> final(program)@.status is Halted,
        ({
            let outcome = game_run(old(program)@, Seq::empty(), fuel as nat, rounds as nat);
            match r {
                Some(res) => outcome matches Some(fin) && final(program)@ == fin.0 && screen_abs(
                    res.0@,
                ) == fin.1 && res.1 == screen_get_abs(fin.1, -1, 0),
                None => outcome is None,
            }
        }),
{
    let ghost vm0: crate::intcode::VmState = program@;
    let mut screen: Vec<Tile> = Vec::new();
    let mut left = rounds;
    proof {
        assert(screen_abs(screen@) =~= Seq::<((i64, i64), i64)>::empty());
    }
    while !(program.status == IntCodeStatus::Halted)
        invariant
            vm0 == old(program)@,
            game_run(vm0, Seq::empty(), fuel as nat, rounds as nat) == game_run(
                program@,
                screen_abs(screen@),
                fuel as nat,
                left as nat,
            ),
        decreases left,
    {
        let ghost cur_vm: crate::intcode::VmState = program@;
        if left == 0 {
            return None;
        }
        if program.run(fuel).is_err() {
            proof {
                let vm2 = crate::intcode::step_n(cur_vm, fuel as nat);
                assert(!(vm2.status is Paused || vm2.status is Halted));
            }
            return None;
        }
        if program.status == IntCodeStatus::Ready {
            return None;
        }
        screen = parse_output(&program.out_buf);
        let tilt = joystick(&screen);
        program.in_buf.push(tilt);
        program.out_buf = Vec::new();
        proof {
            let vm2 = crate::intcode::step_n(cur_vm, fuel as nat);
            assert(program@ == (crate::intcode::VmState {
                input: vm2.input.push(spec_joystick(spec_screen(vm2.output))),
                output: Seq::empty(),
                ..vm2
            })) by {
                assert(program@.output =~= Seq::<i64>::empty());
            }
        }
        left = left - 1;
    }
    proof {
        assert(game_run(program@, screen_abs(screen@), fuel as nat, left as nat) == Some(
            (program@, screen_abs(screen@)),
        ));
        lemma_get_abs(screen@, -1, 0);
    }
    let score = screen_get_ex(&screen, -1, 0);
    Some((screen, score))
}

/// How many abstract entries show tile identifier `v`.
pub open spec fn count_tiles_abs(screen: Seq<((i64, i64), i64)>, v: i64) -> int
    decreases screen.len(),
{
    if screen.len() == 0 {
        0
    } else {
        count_tiles_abs(screen.drop_last(), v) + (if screen.last().1 == v {
            1int
        } else {
            0int
        })
    }
}

/// Tile counts agree between a screen and its abstract form.
proof fn lemma_count_abs(screen: Seq<Tile>, v: i64)
    ensures
        count_tiles(screen, v) == count_tiles_abs(screen_abs(screen), v),
    decreases screen.len(),
{
    if screen.len() > 0 {
        lemma_count_abs(screen.drop_last(), v);
        assert(screen_abs(screen).drop_last() =~= screen_abs(screen.drop_last()));
        assert(screen_abs(screen).last() == ((screen.last().0@[0], screen.last().0@[1]),
        screen.last().1));
    }
}

/// A freshly loaded game machine, cell 0 overwritten when a coin value is
/// given.
pub open spec fn game_vm(prog: Seq<i64>, coin: Option<i64>) -> crate::intcode::VmState {
    crate::intcode::VmState {
        mem: match coin {
            Some(c) => crate::intcode::mem_write(prog, 0, c),
            None => prog,
        },
        ip: 0,
        rel: 0,
        input: Seq::empty(),
        output: Seq::empty(),
        status: crate::intcode::VmStatus::Ready,
    }
}

/// Count the blocks of the first board, then play the game with two
/// quarters inserted; reports the block count and the final score.
pub fn start(input: &str, fuel: usize, rounds: usize) -> (r: Option<(usize, Option<i64>)>)
    ensures
        r matches Some(res) ==> ({
            let prog = crate::intcode::parse_program(input.spec_bytes());
            &&& prog is Some
            &&& game_run(game_vm(prog->0, None), Seq::empty(), fuel as nat, rounds as nat)
                matches Some(f1) && res.0 as int == count_tiles_abs(f1.1, 2)
            &&& game_run(
                game_vm(prog->0, Some(2)),
                Seq::empty(),
                fuel as nat,
                rounds as nat,
            ) matches Some(f2) && res.1 == screen_get_abs(f2.1, -1, 0)
        }),
{
    let mut program = match IntCodeProgram::from_input(input) {
        Ok(p) => p,
        Err(_) => { return None; },
    };
    proof {
        assert(program@ =~~= game_vm(
            crate::intcode::parse_program(input.spec_bytes())->0,
            None,
        ));
    }
    let (first_screen, _) = match run_game(&mut program, fuel, rounds) {
        Some(x) => x,
        None => { return None; },
    };
    let blocks = get_block_count(&first_screen);
    proof {
        lemma_count_abs(first_screen@, 2);
    }
    let mut program = match IntCodeProgram::from_input(input) {
        Ok(p) => p,
        Err(_) => { return None; },
    };
    program.set_at(0, 2);
    proof {
        assert(program@ =~~= game_vm(
            crate::intcode::parse_program(input.spec_bytes())->0,
            Some(2),
        ));
    }
    let (_, score) = match run_game(&mut program, fuel, rounds) {
        Some(x) => x,
        None => { return None; },
    };
    Some((blocks, score))
}

} // verus!
