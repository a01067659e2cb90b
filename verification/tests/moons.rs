use intcode::twelve::{
    duplicate_simulation, find_total_energy, gcd, get_moons, lcm, simulate_by_steps, Moon,
};

#[test]
fn twelve_test_one() {
    let moons = [
        Moon::new([-8, -10, 0], None),
        Moon::new([5, 5, 10], None),
        Moon::new([2, -7, 3], None),
        Moon::new([9, -8, -3], None),
    ];

    let step_count = duplicate_simulation(&moons, 1_000_000);
    assert_eq!(4686774924, step_count.unwrap());
}

#[test]
fn energy_after_ten_steps() {
    let moons = [
        Moon::new([-1, 0, 2], None),
        Moon::new([2, -10, -7], None),
        Moon::new([4, -8, 8], None),
        Moon::new([3, 5, -1], None),
    ];
    let end = simulate_by_steps(&moons, 10).unwrap();
    assert_eq!(find_total_energy(&end), 179);
}

#[test]
fn gravity_and_velocity() {
    let mut a = Moon::new([3, 0, 0], None);
    let b = Moon::new([5, 0, 0], Some([1, 2, 3]));
    a.apply_gravity(&b);
    assert_eq!(a.velocity, [1, 0, 0]);
    let mut c = Moon::new([1, 2, 3], Some([10, -2, 0]));
    c.apply_velocity();
    assert_eq!(c.position, [11, 0, 3]);
}

#[test]
fn energies() {
    let m = Moon::new([3, -4, 5], Some([-1, 2, -3]));
    assert_eq!(m.get_potential_energy(), 12);
    assert_eq!(m.get_kinetic_energy(), 6);
}

#[test]
fn lcm_and_gcd() {
    assert_eq!(gcd(18, 24), 6);
    assert_eq!(gcd(7, 0), 7);
    assert_eq!(lcm(4, 6), Some(12));
    assert_eq!(lcm(0, 5), Some(0));
    assert_eq!(lcm(0, 0), None);
}

#[test]
fn shipped_moons() {
    let moons = get_moons();
    assert_eq!(moons[0].position, [3, 2, -6]);
    assert_eq!(moons[3].velocity, [0, 0, 0]);
}
