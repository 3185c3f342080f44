use std::collections::HashMap;

use cyclotomic::euler_phi;
use cyclotomic::CyclotomicError;
use cyclotomic::CyclotomicInteger;

fn coeffs(c: &CyclotomicInteger) -> Vec<i32> {
    let mut v = Vec::new();
    let mut i = 0;
    while i < c.level() {
        v.push(c.coefficient_at(i));
        i += 1;
    }
    v
}

fn conjugate_vectors(c: &CyclotomicInteger) -> Vec<Vec<i32>> {
    let mut out = Vec::new();
    for conj in c.conjugates() {
        out.push(coeffs(&conj));
    }
    out
}

#[test]
fn from_vec_keeps_coefficients() {
    let c = CyclotomicInteger::from_vec(vec![3, -1, 0, 7]).unwrap();
    assert_eq!(c.level(), 4);
    assert_eq!(coeffs(&c), vec![3, -1, 0, 7]);
}

#[test]
fn from_vec_rejects_empty_vector() {
    let r = CyclotomicInteger::from_vec(Vec::new());
    assert!(matches!(r, Err(CyclotomicError::InvalidLevel)));
}

#[test]
fn from_hashmap_fills_named_positions() {
    let mut entries = HashMap::new();
    entries.insert(0usize, 263);
    entries.insert(3usize, -12748);
    let c = CyclotomicInteger::from_hashmap(entries, 10).unwrap();
    assert_eq!(c.level(), 10);
    assert_eq!(coeffs(&c), vec![263, 0, 0, -12748, 0, 0, 0, 0, 0, 0]);
}

#[test]
fn from_hashmap_rejects_level_zero() {
    let r = CyclotomicInteger::from_hashmap(HashMap::new(), 0);
    assert!(matches!(r, Err(CyclotomicError::InvalidLevel)));
}

#[test]
fn from_hashmap_rejects_key_at_or_above_level() {
    let mut entries = HashMap::new();
    entries.insert(5usize, 1);
    let r = CyclotomicInteger::from_hashmap(entries, 3);
    assert!(matches!(r, Err(CyclotomicError::IndexOutOfRange)));
}

#[test]
fn coefficient_at_reads_each_position() {
    let c = CyclotomicInteger::from_vec(vec![5, -2, 9]).unwrap();
    assert_eq!(c.coefficient_at(0), 5);
    assert_eq!(c.coefficient_at(1), -2);
    assert_eq!(c.coefficient_at(2), 9);
}

#[test]
fn support_of_sparse_vector() {
    let c = CyclotomicInteger::from_vec(vec![0, 1, 0, 0]).unwrap();
    let support = c.support();
    assert_eq!(support.len(), 1);
    assert_eq!(support.get(&1), Some(&1));
}

#[test]
fn support_skips_zero_coefficients() {
    let mut entries = HashMap::new();
    entries.insert(0usize, 263);
    entries.insert(3usize, -12748);
    let c = CyclotomicInteger::from_hashmap(entries, 10).unwrap();
    let support = c.support();
    assert_eq!(support.len(), 2);
    assert_eq!(support.get(&0), Some(&263));
    assert_eq!(support.get(&3), Some(&-12748));
    assert_eq!(support.get(&1), None);
}

#[test]
fn support_of_all_zero_vector_is_empty() {
    let c = CyclotomicInteger::from_vec(vec![0, 0, 0]).unwrap();
    assert!(c.support().is_empty());
}

#[test]
fn conjugates_of_fourth_root_of_unity() {
    let c = CyclotomicInteger::from_vec(vec![0, 1, 0, 0]).unwrap();
    let conj = conjugate_vectors(&c);
    assert_eq!(conj, vec![vec![0, 1, 0, 0], vec![0, 0, 0, 1]]);
    assert_eq!(conj.len() as u32, euler_phi(4));
}

#[test]
fn conjugates_of_eighth_root_squared() {
    let c = CyclotomicInteger::from_vec(vec![0, 0, 1, 0, 0, 0, 0, 0]).unwrap();
    let conj = conjugate_vectors(&c);
    assert_eq!(
        conj,
        vec![vec![0, 0, 1, 0, 0, 0, 0, 0], vec![0, 0, 0, 0, 0, 0, 1, 0]]
    );
    assert!((conj.len() as u32) < euler_phi(8));
}

#[test]
fn conjugates_start_with_the_element_itself() {
    let c = CyclotomicInteger::from_vec(vec![2, -3, 5, 0, 1, 4]).unwrap();
    let conj = conjugate_vectors(&c);
    assert_eq!(conj[0], vec![2, -3, 5, 0, 1, 4]);
}

#[test]
fn conjugate_count_is_bounded_by_euler_phi() {
    let c = CyclotomicInteger::from_vec(vec![1, 2, 3, 4, 5, 6, 7]).unwrap();
    let conj = conjugate_vectors(&c);
    assert!(conj.len() >= 1);
    assert!(conj.len() as u32 <= euler_phi(7));
}

#[test]
fn conjugates_at_level_one_use_the_zero_automorphism() {
    let c = CyclotomicInteger::from_vec(vec![7]).unwrap();
    let conj = conjugate_vectors(&c);
    assert_eq!(conj, vec![vec![7]]);
}

#[test]
fn conjugates_of_rational_integer_collapse() {
    let c = CyclotomicInteger::from_vec(vec![4, 0, 0, 0]).unwrap();
    let conj = conjugate_vectors(&c);
    assert_eq!(conj, vec![vec![4, 0, 0, 0]]);
}

#[test]
fn conjugates_of_seventh_root_of_unity() {
    let c = CyclotomicInteger::from_vec(vec![0, 1, 0, 0, 0, 0, 0]).unwrap();
    let conj = conjugate_vectors(&c);
    assert_eq!(conj.len() as u32, euler_phi(7));
    for (idx, k) in [1usize, 2, 3, 4, 5, 6].iter().enumerate() {
        let mut expected = vec![0; 7];
        expected[*k] = 1;
        assert_eq!(conj[idx], expected);
    }
}
