use cyclotomic::euler_phi;
use cyclotomic::gcd;
use cyclotomic::invertible_mod;

#[test]
fn gcd_of_coprime_numbers_is_one() {
    assert_eq!(gcd(3, 8), 1);
    assert_eq!(gcd(35, 64), 1);
}

#[test]
fn gcd_of_common_factors() {
    assert_eq!(gcd(12, 18), 6);
    assert_eq!(gcd(18, 12), 6);
    assert_eq!(gcd(100, 10), 10);
}

#[test]
fn gcd_with_zero() {
    assert_eq!(gcd(7, 0), 7);
    assert_eq!(gcd(0, 5), 5);
    assert_eq!(gcd(0, 1), 1);
}

#[test]
fn euler_phi_small_values() {
    assert_eq!(euler_phi(1), 1);
    assert_eq!(euler_phi(4), 2);
    assert_eq!(euler_phi(7), 6);
    assert_eq!(euler_phi(8), 4);
    assert_eq!(euler_phi(12), 4);
}

#[test]
fn euler_phi_larger_value() {
    assert_eq!(euler_phi(420), 96);
}

#[test]
fn unit_group_mod_eight() {
    assert_eq!(invertible_mod(8), vec![1, 3, 5, 7]);
}

#[test]
fn unit_group_mod_one() {
    assert_eq!(invertible_mod(1), vec![0]);
}

#[test]
fn unit_group_mod_twelve() {
    assert_eq!(invertible_mod(12), vec![1, 5, 7, 11]);
}

#[test]
fn unit_group_of_prime_is_everything_but_zero() {
    assert_eq!(invertible_mod(7), vec![1, 2, 3, 4, 5, 6]);
}

#[test]
fn unit_group_length_is_euler_phi() {
    for n in 1..50u32 {
        assert_eq!(invertible_mod(n).len() as u32, euler_phi(n));
    }
}
