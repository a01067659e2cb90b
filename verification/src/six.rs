//! Orbit bookkeeping: each line names a body and its satellite; the orbit
//! count total follows every body's chain up to the central body, and the
//! transfer distance strips the common trunk from two such chains.

use crate::intcode::{find_byte, split_on, trim_spec};
use vstd::prelude::*;
use vstd::string::StrSliceExecFns;
use vstd::string::StringSliceAdditionalSpecFns;

verus! {

/// The central body's name.
pub open spec fn com_name() -> Seq<u8> {
    seq![67u8, 79u8, 77u8]
}

/// One orbit line read as orbited body and orbiting body: the part before
/// the first closing parenthesis, and the part between the first and a
/// possible second one.
pub open spec fn parse_orbit_spec(s: Seq<u8>) -> Option<(Seq<u8>, Seq<u8>)> {
    let c1 = find_byte(s, 41);
    if c1 < 0 {
        None
    } else {
        let rest = s.subrange(c1 + 1, s.len() as int);
        let c2 = find_byte(rest, 41);
        let right = if c2 < 0 {
            rest
        } else {
            rest.subrange(0, c2)
        };
        Some((s.subrange(0, c1), right))
    }
}

/// Read one orbit line.
pub fn parse_orbit(orbit: &str) -> (r: Option<(Vec<u8>, Vec<u8>)>)
    ensures
        r matches Some(p) ==> parse_orbit_spec(orbit.spec_bytes()) == Some((p.0@, p.1@)),
        r is None ==> parse_orbit_spec(orbit.spec_bytes()) is None,
{
    let bs: Vec<u8> = orbit.as_bytes_vec();
    parse_orbit_bytes(&bs)
}

/// Read one orbit line from bytes.
fn parse_orbit_bytes(bs: &Vec<u8>) -> (r: Option<(Vec<u8>, Vec<u8>)>)
    ensures
        r matches Some(p) ==> parse_orbit_spec(bs@) == Some((p.0@, p.1@)),
        r is None ==> parse_orbit_spec(bs@) is None,
{
    let n = bs.len();
    let mut j: usize = 0;
    while j < n && bs[j] != 41
        invariant
            j <= n,
            n == bs@.len(),
            forall|k: int| 0 <= k < j ==> bs@[k] != 41,
        decreases n - j,
    {
        j = j + 1;
    }
    proof {
        crate::intcode::lemma_find_byte_spec(bs@, 41);
    }
    if j == n {
        return None;
    }
    let left = crate::text::copy_range(bs, 0, j);
    let rest = crate::text::copy_range(bs, j + 1, n);
    let m = rest.len();
    let mut j2: usize = 0;
    while j2 < m && rest[j2] != 41
        invariant
            j2 <= m,
            m == rest@.len(),
            forall|k: int| 0 <= k < j2 ==> rest@[k] != 41,
        decreases m - j2,
    {
        j2 = j2 + 1;
    }
    proof {
        crate::intcode::lemma_find_byte_spec(rest@, 41);
    }
    let right = crate::text::copy_range(&rest, 0, j2);
    proof {
        if j2 == m {
            assert(rest@.subrange(0, m as int) =~= rest@);
        }
    }
    Some((left, right))
}

/// The body that `name` orbits: the newest listed record wins, as the
/// newest insertion would in a keyed table.
pub open spec fn orbit_get(map: Seq<(Seq<u8>, Seq<u8>)>, name: Seq<u8>) -> Option<Seq<u8>>
    decreases map.len(),
{
    if map.len() == 0 {
        None
    } else if map[0].0 == name {
        Some(map[0].1)
    } else {
        orbit_get(map.subrange(1, map.len() as int), name)
    }
}

/// The orbit map of the text's lines: one record per line, orbiter first,
/// newest line first; nothing when a line lacks its closing parenthesis.
pub open spec fn build_map(lines: Seq<Seq<u8>>, acc: Seq<(Seq<u8>, Seq<u8>)>) -> Option<
    Seq<(Seq<u8>, Seq<u8>)>,
>
    decreases lines.len(),
{
    if lines.len() == 0 {
        Some(acc)
    } else {
        match parse_orbit_spec(lines[0]) {
            None => None,
            Some(p) => build_map(lines.subrange(1, lines.len() as int), seq![(p.1, p.0)] + acc),
        }
    }
}

/// How many orbit links stand between `name` and the central body: one for
/// its direct orbit, one per further hop; nothing when a body is missing
/// from the map or the chain does not reach the centre within `fuel` hops.
pub open spec fn links_to_com(
    map: Seq<(Seq<u8>, Seq<u8>)>,
    name: Seq<u8>,
    fuel: nat,
) -> Option<int>
    decreases fuel,
{
    match orbit_get(map, name) {
        None => None,
        Some(parent) => {
            if parent == com_name() {
                Some(1)
            } else if fuel == 0 {
                None
            } else {
                match links_to_com(map, parent, (fuel - 1) as nat) {
                    None => None,
                    Some(rest) => Some(1 + rest),
                }
            }
        },
    }
}

/// The body that `name` orbits, executably.
pub fn orbit_get_ex<'a>(map: &'a Vec<(Vec<u8>, Vec<u8>)>, name: &Vec<u8>) -> (r: Option<
    &'a Vec<u8>,
>)
    ensures
        r matches Some(p) ==> orbit_get(map.deep_view(), name@) == Some(p@),
        r is None ==> orbit_get(map.deep_view(), name@) is None,
{
    let n = map.len();
    proof {
        assert(map.deep_view().subrange(0, n as int) =~= map.deep_view());
    }
    let mut i: usize = 0;
    while i < n
        invariant
            i <= n,
            n == map@.len(),
            orbit_get(map.deep_view(), name@) == orbit_get(
                map.deep_view().subrange(i as int, n as int),
                name@,
            ),
        decreases n - i,
    {
        let ghost remaining: Seq<(Seq<u8>, Seq<u8>)> = map.deep_view().subrange(i as int, n as int);
        proof {
            assert(remaining[0] == map.deep_view()[i as int]);
            assert(map.deep_view()[i as int].0 =~~= map@[i as int].0@);
            assert(map.deep_view()[i as int].1 =~~= map@[i as int].1@);
            assert(remaining.subrange(1, remaining.len() as int) =~= map.deep_view().subrange(
                i as int + 1,
                n as int,
            ));
        }
        if crate::text::eq_bytes(&map[i].0, name) {
            return Some(&map[i].1);
        }
        i = i + 1;
    }
    None
}

/// Count the orbit links from `name` to the central body.
pub fn links_to_com_ex(map: &Vec<(Vec<u8>, Vec<u8>)>, name: &Vec<u8>, fuel: usize) -> (r: Option<
    u64,
>)
    requires
        fuel <= 0x1_0000_0000,
    ensures
        r matches Some(v) ==> links_to_com(map.deep_view(), name@, fuel as nat) == Some(v as int),
        r is None ==> links_to_com(map.deep_view(), name@, fuel as nat) is None,
    decreases fuel,
{
    let mut com: Vec<u8> = Vec::new();
    com.push(67);
    com.push(79);
    com.push(77);
    proof {
        assert(com@ =~= com_name());
    }
    let parent = match orbit_get_ex(map, name) {
        Some(p) => p,
        None => { return None; },
    };
    if crate::text::eq_bytes(parent, &com) {
        return Some(1);
    }
    if fuel == 0 {
        return None;
    }
    match links_to_com_ex(map, parent, fuel - 1) {
        Some(rest) => {
            proof {
                lemma_links_bound(map.deep_view(), parent@, (fuel - 1) as nat);
            }
            Some(1 + rest)
        },
        None => None,
    }
}

/// Once the running total fails, every longer prefix fails too.
proof fn lemma_total_none(map: Seq<(Seq<u8>, Seq<u8>)>, i: int, j: int, fuel: nat)
    requires
        0 <= i <= j,
        spec_total_orbits(map, i, fuel) is None,
    ensures
        spec_total_orbits(map, j, fuel) is None,
    decreases j,
{
    if j > i {
        lemma_total_none(map, i, j - 1, fuel);
    }
}

/// A chain of `fuel` hops counts at most `fuel + 1` links.
proof fn lemma_links_bound(map: Seq<(Seq<u8>, Seq<u8>)>, name: Seq<u8>, fuel: nat)
    ensures
        links_to_com(map, name, fuel) matches Some(v) ==> v <= fuel + 1,
    decreases fuel,
{
    if fuel > 0 {
        match orbit_get(map, name) {
            None => {},
            Some(parent) => {
                lemma_links_bound(map, parent, (fuel - 1) as nat);
            },
        }
    }
}

/// Sum the orbit links over the distinct orbiters of the first `i` map
/// records (a record shadowed by a newer one for the same orbiter does
/// not count).
pub open spec fn spec_total_orbits(
    map: Seq<(Seq<u8>, Seq<u8>)>,
    i: int,
    fuel: nat,
) -> Option<int>
    decreases i,
{
    if i <= 0 {
        Some(0)
    } else {
        match spec_total_orbits(map, i - 1, fuel) {
            None => None,
            Some(sum) => {
                if exists|k: int| 0 <= k < i - 1 && (#[trigger] map[k]).0 == map[i - 1].0 {
                    Some(sum)
                } else {
                    match links_to_com(map, map[i - 1].0, fuel) {
                        None => None,
                        Some(v) => Some(sum + v),
                    }
                }
            },
        }
    }
}

/// Count every direct and indirect orbit of the map.
pub fn find_number_of_orbits(map: &Vec<(Vec<u8>, Vec<u8>)>, fuel: usize) -> (r: Option<u128>)
    requires
        map@.len() <= 0x1_0000_0000,
        fuel <= 0x1_0000_0000,
    ensures
        r matches Some(v) ==> spec_total_orbits(map.deep_view(), map@.len() as int, fuel as nat)
            == Some(v as int),
        r is None ==> spec_total_orbits(
            map.deep_view(),
            map@.len() as int,
            fuel as nat,
        ) is None,
{
    let n = map.len();
    let mut counter: u128 = 0;
    let mut i: usize = 0;
    while i < n
        invariant
            i <= n,
            n == map@.len() <= 0x1_0000_0000,
            fuel <= 0x1_0000_0000,
            0 <= counter as int <= (i as int) * 0x2_0000_0000,
            spec_total_orbits(map.deep_view(), i as int, fuel as nat) == Some(counter as int),
        decreases n - i,
    {
        let mut shadowed = false;
        let mut k: usize = 0;
        while k < i
            invariant
                k <= i < n,
                n == map@.len(),
                shadowed == (exists|q: int|
                    0 <= q < k && (#[trigger] map.deep_view()[q]).0 == map.deep_view()[i as int].0),
            decreases i - k,
        {
            proof {
                assert(map.deep_view()[k as int].0 =~~= map@[k as int].0@);
                assert(map.deep_view()[i as int].0 =~~= map@[i as int].0@);
            }
            if !shadowed && crate::text::eq_bytes(&map[k].0, &map[i].0) {
                shadowed = true;
            }
            k = k + 1;
        }
        if !shadowed {
            proof {
                assert(map.deep_view()[i as int].0 =~~= map@[i as int].0@);
            }
            let v = match links_to_com_ex(map, &map[i].0, fuel) {
                Some(v) => v,
                None => {
                    proof {
                        assert(spec_total_orbits(map.deep_view(), i as int + 1, fuel as nat)
                            is None);
                        lemma_total_none(
                            map.deep_view(),
                            i as int + 1,
                            n as int,
                            fuel as nat,
                        );
                    }
                    return None;
                },
            };
            proof {
                lemma_links_bound(map.deep_view(), map@[i as int].0.deep_view(), fuel as nat);
            }
            counter = counter + (v as u128);
        }
        i = i + 1;
    }
    Some(counter)
}

/// The chain of hosts from `name` up to the central body, centre first.
pub open spec fn spec_path(map: Seq<(Seq<u8>, Seq<u8>)>, name: Seq<u8>, fuel: nat) -> Option<
    Seq<Seq<u8>>,
>
    decreases fuel,
{
    match orbit_get(map, name) {
        None => None,
        Some(parent) => {
            if parent == com_name() {
                Some(seq![parent])
            } else if fuel == 0 {
                None
            } else {
                match spec_path(map, parent, (fuel - 1) as nat) {
                    None => None,
                    Some(rest) => Some(rest.push(parent)),
                }
            }
        },
    }
}

/// An element-for-element copy of a chain, reversed.
fn reverse_chain(path: &Vec<Vec<u8>>) -> (r: Vec<Vec<u8>>)
    ensures
        r.deep_view() == path.deep_view().reverse(),
{
    let n = path.len();
    let mut reversed: Vec<Vec<u8>> = Vec::new();
    let mut i: usize = n;
    while i > 0
        invariant
            i <= n,
            n == path@.len(),
            reversed.deep_view().len() == n - i,
            forall|k: int|
                0 <= k < n - i ==> #[trigger] reversed.deep_view()[k] == path.deep_view()[n - 1
                    - k],
        decreases i,
    {
        i = i - 1;
        let ghost rev0: Seq<Seq<u8>> = reversed.deep_view();
        let entry = crate::text::copy_range(&path[i], 0, path[i].len());
        let ghost ev: Seq<u8> = entry@;
        reversed.push(entry);
        proof {
            assert(reversed.deep_view() =~~= rev0.push(ev));
            assert(ev =~= path.deep_view()[i as int]);
        }
    }
    proof {
        assert(reversed.deep_view() =~= path.deep_view().reverse());
    }
    reversed
}

/// The chain of bodies from `name`'s direct host up to the central body,
/// centre first, exactly as [`spec_path`] lays it out.
pub fn path_to_com(name: &Vec<u8>, map: &Vec<(Vec<u8>, Vec<u8>)>, fuel: usize) -> (r: Option<
    Vec<Vec<u8>>,
>)
    ensures
        r matches Some(p) ==> spec_path(map.deep_view(), name@, fuel as nat) == Some(
            p.deep_view(),
        ),
        r is None ==> spec_path(map.deep_view(), name@, fuel as nat) is None,
{
    let mut com: Vec<u8> = Vec::new();
    com.push(67);
    com.push(79);
    com.push(77);
    proof {
        assert(com@ =~= com_name());
    }
    let mut path: Vec<Vec<u8>> = Vec::new();
    let mut current = crate::text::copy_range(name, 0, name.len());
    let mut left = fuel;
    proof {
        assert(current@ =~= name@);
        assert(path.deep_view() =~~= Seq::<Seq<u8>>::empty());
        if spec_path(map.deep_view(), name@, fuel as nat) is Some {
            assert(spec_path(map.deep_view(), name@, fuel as nat)->0
                + path.deep_view().reverse() =~= spec_path(map.deep_view(), name@, fuel as nat)->0);
        }
    }
    loop
        invariant
            spec_path(map.deep_view(), name@, fuel as nat) == (match spec_path(
                map.deep_view(),
                current@,
                left as nat,
            ) {
                None => None::<Seq<Seq<u8>>>,
                Some(rest) => Some(rest + path.deep_view().reverse()),
            }),
            com@ == com_name(),
        decreases left,
    {
        let ghost cur_name: Seq<u8> = current@;
        let ghost path0: Seq<Seq<u8>> = path.deep_view();
        let parent_ref = match orbit_get_ex(map, &current) {
            Some(p) => p,
            None => { return None; },
        };
        let parent = crate::text::copy_range(parent_ref, 0, parent_ref.len());
        proof {
            assert(parent@ =~= parent_ref@);
        }
        let ghost pv: Seq<u8> = parent@;
        if crate::text::eq_bytes(&parent, &com) {
            path.push(parent);
            proof {
                assert(path.deep_view() =~~= path0.push(pv));
                assert(spec_path(map.deep_view(), cur_name, left as nat) == Some(seq![pv]));
                assert(path0.push(pv).reverse() =~= seq![pv] + path0.reverse());
            }
            let reversed = reverse_chain(&path);
            proof {
                assert(spec_path(map.deep_view(), name@, fuel as nat) == Some(
                    seq![pv] + path0.reverse(),
                ));
                assert(reversed.deep_view() =~= seq![pv] + path0.reverse());
            }
            return Some(reversed);
        }
        path.push(crate::text::copy_range(&parent, 0, parent.len()));
        proof {
            assert(path.deep_view() =~~= path0.push(pv));
        }
        current = parent;
        if left == 0 {
            return None;
        }
        proof {
            assert(path0.push(pv).reverse() =~= seq![pv] + path0.reverse());
            assert forall|rest: Seq<Seq<u8>>|
                rest.push(pv) + path0.reverse() =~= #[trigger] (rest
                    + path.deep_view().reverse()) by {
                assert(path.deep_view().reverse() =~= seq![pv] + path0.reverse());
            }
        }
        left = left - 1;
    }
}

/// Length of the longest common leading run of two chains.
/// Length of the longest common leading run of two chains.
pub open spec fn common_prefix_len(a: Seq<Seq<u8>>, b: Seq<Seq<u8>>, i: int) -> int
    decreases a.len() - i,
{
    if i < 0 || i >= a.len() || i >= b.len() {
        i
    } else if a[i] == b[i] {
        common_prefix_len(a, b, i + 1)
    } else {
        i
    }
}

/// Length of the longest common leading run, executably.
fn common_prefix_ex(a: &Vec<Vec<u8>>, b: &Vec<Vec<u8>>) -> (r: usize)
    ensures
        r as int == common_prefix_len(a.deep_view(), b.deep_view(), 0),
        r <= a@.len(),
        r <= b@.len(),
{
    let mut i: usize = 0;
    loop
        invariant
            i <= a@.len(),
            i <= b@.len(),
            common_prefix_len(a.deep_view(), b.deep_view(), 0) == common_prefix_len(
                a.deep_view(),
                b.deep_view(),
                i as int,
            ),
        decreases a@.len() - i,
    {
        if i >= a.len() || i >= b.len() {
            proof {
                assert(common_prefix_len(a.deep_view(), b.deep_view(), i as int) == i as int);
            }
            return i;
        }
        proof {
            assert(a.deep_view()[i as int] =~~= a@[i as int]@);
            assert(b.deep_view()[i as int] =~~= b@[i as int]@);
        }
        if !crate::text::eq_bytes(&a[i], &b[i]) {
            proof {
                assert(a.deep_view()[i as int] != b.deep_view()[i as int]);
                assert(common_prefix_len(a.deep_view(), b.deep_view(), i as int) == i as int);
            }
            return i;
        }
        i = i + 1;
    }
}

/// The transfer count `t` names the stripped lengths of the two
/// travellers' chains up the orbit map `m`.
pub open spec fn transfer_spec(m: Seq<(Seq<u8>, Seq<u8>)>, fuel: nat, t: int) -> bool {
    let san = seq![83u8, 65u8, 78u8];
    let you = seq![89u8, 79u8, 85u8];
    &&& spec_path(m, san, fuel) matches Some(sp) && (spec_path(m, you, fuel) matches Some(yp)
        && {
        let c = common_prefix_len(sp, yp, 0);
        &&& c < sp.len()
        &&& c < yp.len()
        &&& t == (sp.len() - c) + (yp.len() - c)
    })
}

/// Transfers between the hosts of the two travellers: the lengths of both
/// chains once their common trunk is stripped; nothing when either chain
/// cannot be walked or one chain is a prefix of the other.
pub fn find_shortest_path(map: &Vec<(Vec<u8>, Vec<u8>)>, fuel: usize) -> (r: Option<usize>)
    ensures
        r matches Some(t) ==> transfer_spec(map.deep_view(), fuel as nat, t as int),
{
    let mut santa: Vec<u8> = Vec::new();
    santa.push(83);
    santa.push(65);
    santa.push(78);
    let mut you: Vec<u8> = Vec::new();
    you.push(89);
    you.push(79);
    you.push(85);
    proof {
        assert(santa@ =~= seq![83u8, 65u8, 78u8]);
        assert(you@ =~= seq![89u8, 79u8, 85u8]);
    }
    let santa_path = match path_to_com(&santa, map, fuel) {
        Some(p) => p,
        None => { return None; },
    };
    let you_path = match path_to_com(&you, map, fuel) {
        Some(p) => p,
        None => { return None; },
    };
    let i = common_prefix_ex(&santa_path, &you_path);
    if i >= santa_path.len() || i >= you_path.len() {
        return None;
    }
    proof {
        assert(santa_path.deep_view().len() == santa_path@.len());
        assert(you_path.deep_view().len() == you_path@.len());
    }
    (santa_path.len() - i).checked_add(you_path.len() - i)
}

/// Count the orbits of the listed map and the transfers between the two
/// travellers' hosts.  On success the orbit total is pinned to the map the
/// text encodes; the transfer count is whatever the chain walk measured.
pub fn start(input: &str, fuel: usize) -> (r: Option<(u128, Option<usize>)>)
    ensures
        r matches Some(res) ==> ({
            let lines = split_on(trim_spec(input.spec_bytes()), 10);
            exists|m: Seq<(Seq<u8>, Seq<u8>)>|
                #![trigger m.len()]
                {
                    &&& build_map(lines, Seq::empty()) == Some(m)
                    &&& spec_total_orbits(m, m.len() as int, fuel as nat) == Some(res.0 as int)
                    &&& (res.1 matches Some(t) ==> transfer_spec(m, fuel as nat, t as int))
                }
        }),
{
    let bs: Vec<u8> = input.as_bytes_vec();
    let t = crate::text::trim_vec(&bs);
    let lines = crate::text::split_bytes(&t, 10);
    let mut map: Vec<(Vec<u8>, Vec<u8>)> = Vec::new();
    let n = lines.len();
    if n as u64 > 0x1_0000_0000u64 || fuel as u64 > 0x1_0000_0000u64 {
        return None;
    }
    proof {
        assert(lines.deep_view().subrange(0, n as int) =~= lines.deep_view());
        assert(map.deep_view() =~~= Seq::<(Seq<u8>, Seq<u8>)>::empty());
    }
    let mut i: usize = 0;
    while i < n
        invariant
            i <= n,
            n == lines@.len() <= 0x1_0000_0000,
            fuel <= 0x1_0000_0000,
            map@.len() == i,
            lines.deep_view() == split_on(trim_spec(input.spec_bytes()), 10),
            build_map(lines.deep_view(), Seq::empty()) == build_map(
                lines.deep_view().subrange(i as int, n as int),
                map.deep_view(),
            ),
        decreases n - i,
    {
        let ghost remaining: Seq<Seq<u8>> = lines.deep_view().subrange(i as int, n as int);
        proof {
            assert(remaining[0] == lines.deep_view()[i as int]);
            assert(lines.deep_view()[i as int] == lines@[i as int]@);
            assert(remaining.subrange(1, remaining.len() as int) =~= lines.deep_view().subrange(
                i as int + 1,
                n as int,
            ));
        }
        let pair = match parse_orbit_bytes(&lines[i]) {
            Some(p) => p,
            None => { return None; },
        };
        let ghost map0: Seq<(Seq<u8>, Seq<u8>)> = map.deep_view();
        let ghost pv: (Seq<u8>, Seq<u8>) = (pair.1@, pair.0@);
        map.insert(0, (pair.1, pair.0));
        proof {
            assert(map.deep_view() =~~= seq![pv] + map0);
        }
        i = i + 1;
    }
    proof {
        assert(lines.deep_view().subrange(n as int, n as int) =~= Seq::<Seq<u8>>::empty());
        assert(build_map(lines.deep_view(), Seq::empty()) == Some(map.deep_view()));
        assert(map.deep_view().len() == map@.len());
    }
    let orbits = match find_number_of_orbits(&map, fuel) {
        Some(o) => o,
        None => { return None; },
    };
    let transfers = find_shortest_path(&map, fuel);
    Some((orbits, transfers))
}

} // verus!
