use psi::{add_mod, inv_mod, is_prime_u32, mul_mod, neg_mod, sub_mod};

#[test]
fn add_wraps_at_the_modulus() {
    assert_eq!(add_mod(65536, 5, 65537), 4);
    assert_eq!(add_mod(0, 0, 65537), 0);
    assert_eq!(add_mod(u32::MAX, u32::MAX, u32::MAX), 0);
}

#[test]
fn sub_gives_the_reduced_representative() {
    assert_eq!(sub_mod(3, 5, 65537), 65535);
    assert_eq!(sub_mod(5, 3, 65537), 2);
    assert_eq!(sub_mod(7, 7, 65537), 0);
}

#[test]
fn mul_reduces_the_product() {
    assert_eq!(mul_mod(5, 7, 65537), 35);
    assert_eq!(mul_mod(65536, 65536, 65537), 1);
    assert_eq!(mul_mod(u32::MAX, u32::MAX, 7), ((u32::MAX as u64 * u32::MAX as u64) % 7) as u32);
}

#[test]
fn neg_gives_the_reduced_representative() {
    assert_eq!(neg_mod(1, 65537), 65536);
    assert_eq!(neg_mod(0, 65537), 0);
}

#[test]
fn inverse_of_a_unit() {
    assert_eq!(inv_mod(3, 65537), Some(21846));
    assert_eq!(inv_mod(2, 65537), Some(32769));
    assert_eq!(inv_mod(1, 65537), Some(1));
    for a in 1..2000u32 {
        let v = inv_mod(a, 65537).unwrap();
        assert!(v < 65537);
        assert_eq!(mul_mod(a, v, 65537), 1);
    }
}

#[test]
fn no_inverse_of_a_non_unit() {
    assert_eq!(inv_mod(0, 65537), None);
    assert_eq!(inv_mod(2, 4), None);
    assert_eq!(inv_mod(6, 9), None);
    assert_eq!(inv_mod(65537, 65537), None);
}

#[test]
fn primes_are_told_from_composites() {
    assert!(is_prime_u32(65537));
    assert!(is_prime_u32(2));
    assert!(is_prime_u32(3));
    assert!(!is_prime_u32(0));
    assert!(!is_prime_u32(1));
    assert!(!is_prime_u32(65536));
    assert!(!is_prime_u32(65535));
    assert!(!is_prime_u32(49));
}
