use embeddenator_testkit::generators::{
    generate_binary_blob, generate_gradient_pattern, generate_noise_pattern, split_draws,
    SparseGenError,
};
use embeddenator_testkit::{
    deterministic_sparse_vec, mk_random_sparsevec, random_sparse_vec, sparse_dot, SparseVec,
};
use rand::SeedableRng;
use std::collections::HashSet;

fn is_canonical(v: &SparseVec, dim: usize) -> bool {
    let pos_set: HashSet<_> = v.pos.iter().collect();
    let neg_set: HashSet<_> = v.neg.iter().collect();
    v.pos.windows(2).all(|w| w[0] < w[1])
        && v.neg.windows(2).all(|w| w[0] < w[1])
        && pos_set.intersection(&neg_set).count() == 0
        && v.pos.iter().chain(v.neg.iter()).all(|&i| i < dim)
}

#[test]
fn test_random_sparse_vec() {
    let mut rng = rand::rngs::StdRng::seed_from_u64(42);
    let vec = random_sparse_vec(&mut rng, 10000, 200).unwrap();
    let nnz = vec.pos.len() + vec.neg.len();
    assert_eq!(nnz, 200);

    // Check sorted
    assert!(vec.pos.windows(2).all(|w| w[0] < w[1]));
    assert!(vec.neg.windows(2).all(|w| w[0] < w[1]));

    // Check no overlap
    let pos_set: HashSet<_> = vec.pos.iter().collect();
    let neg_set: HashSet<_> = vec.neg.iter().collect();
    assert_eq!(pos_set.intersection(&neg_set).count(), 0);
}

#[test]
fn test_deterministic_sparse_vec() {
    let vec1 = deterministic_sparse_vec(10000, 200, 42).unwrap();
    let vec2 = deterministic_sparse_vec(10000, 200, 42).unwrap();
    assert_eq!(vec1.pos, vec2.pos);
    assert_eq!(vec1.neg, vec2.neg);

    // Different seed should give different result
    let vec3 = deterministic_sparse_vec(10000, 200, 43).unwrap();
    assert_ne!(vec1.pos, vec3.pos);
}

#[test]
fn test_sparse_dot() {
    let mut rng = rand::rngs::StdRng::seed_from_u64(42);
    let a = random_sparse_vec(&mut rng, 10000, 200).unwrap();
    let b = random_sparse_vec(&mut rng, 10000, 200).unwrap();

    let dot = sparse_dot(&a, &b);

    // Dot product should be symmetric
    let dot_rev = sparse_dot(&b, &a);
    assert_eq!(dot, dot_rev);
}

#[test]
fn test_generate_noise_pattern() {
    let data1 = generate_noise_pattern(1000, 42);
    let data2 = generate_noise_pattern(1000, 42);
    assert_eq!(data1, data2);

    let data3 = generate_noise_pattern(1000, 43);
    assert_ne!(data1, data3);
}

#[test]
fn noise_pattern_takes_top_byte_of_each_state() {
    let data = generate_noise_pattern(8, 42);
    assert_eq!(data, vec![125, 120, 143, 6, 18, 167, 18, 102]);
    assert!(generate_noise_pattern(0, 42).is_empty());
}

#[test]
fn sparse_dot_counts_shared_signs() {
    let a = SparseVec { pos: vec![0, 10, 20], neg: vec![5, 15, 25] };
    let b = SparseVec { pos: vec![10], neg: vec![25] };
    assert_eq!(sparse_dot(&a, &b), 2);
    assert_eq!(sparse_dot(&b, &a), 2);
}

#[test]
fn sparse_dot_subtracts_opposite_signs() {
    let a = SparseVec { pos: vec![1, 2, 3], neg: vec![7] };
    let b = SparseVec { pos: vec![7], neg: vec![1, 2] };
    assert_eq!(sparse_dot(&a, &b), -3);
    assert_eq!(sparse_dot(&b, &a), -3);
    let empty = SparseVec { pos: vec![], neg: vec![] };
    assert_eq!(sparse_dot(&a, &empty), 0);
}

#[test]
fn deterministic_vector_has_exact_picks() {
    let v = deterministic_sparse_vec(20, 5, 7).unwrap();
    assert_eq!(v.pos, vec![4, 9]);
    assert_eq!(v.neg, vec![2, 16, 19]);
}

#[test]
fn deterministic_vector_fills_whole_space() {
    let v = deterministic_sparse_vec(10, 10, 1).unwrap();
    assert_eq!(v.pos, vec![3, 5, 6, 8, 9]);
    assert_eq!(v.neg, vec![0, 1, 2, 4, 7]);
    assert!(is_canonical(&v, 10));
}

#[test]
fn deterministic_vector_with_no_nonzeros_is_empty() {
    let v = deterministic_sparse_vec(100, 0, 9).unwrap();
    assert!(v.pos.is_empty() && v.neg.is_empty());
    let w = deterministic_sparse_vec(0, 0, 9).unwrap();
    assert!(w.pos.is_empty() && w.neg.is_empty());
}

#[test]
fn sparsity_beyond_dims_is_rejected() {
    assert_eq!(
        deterministic_sparse_vec(10, 11, 1).unwrap_err(),
        SparseGenError::SparsityExceedsDims
    );
    let mut rng = rand::rngs::StdRng::seed_from_u64(1);
    assert_eq!(
        random_sparse_vec(&mut rng, 10, 11).unwrap_err(),
        SparseGenError::SparsityExceedsDims
    );
}

#[test]
fn generated_vectors_are_canonical_across_sizes() {
    let mut rng = rand::rngs::StdRng::seed_from_u64(5);
    for &(dims, sparsity) in &[(1usize, 0usize), (1, 1), (16, 16), (100, 7), (1000, 50), (64, 63)] {
        for seed in 0..5u64 {
            let v = deterministic_sparse_vec(dims, sparsity, seed).unwrap();
            assert!(is_canonical(&v, dims));
            assert_eq!(v.pos.len(), sparsity / 2);
            assert_eq!(v.neg.len(), sparsity - sparsity / 2);
            assert_eq!(deterministic_sparse_vec(dims, sparsity, seed).unwrap().pos, v.pos);
        }
        let r = mk_random_sparsevec(&mut rng, dims, sparsity).unwrap();
        assert!(is_canonical(&r, dims));
        assert_eq!(r.pos.len(), sparsity / 2);
        assert_eq!(r.neg.len(), sparsity / 2);
    }
}

#[test]
fn gradient_rises_from_top_left() {
    assert_eq!(generate_gradient_pattern(3, 2), vec![0, 51, 102, 51, 102, 153]);
    assert!(generate_gradient_pattern(0, 0).is_empty());
}

#[test]
fn binary_blob_has_header_and_runs() {
    let blob = generate_binary_blob(1024);
    assert_eq!(blob.len(), 1024);
    assert_eq!(&blob[0..8], &[0x7f, b'E', b'L', b'F', 2, 1, 1, 0]);
    assert!(blob[8..16].iter().all(|&b| b == 0));
    assert!(blob[16..256].iter().all(|&b| b == 0x90));
    assert_eq!(blob[300], (300 & 0xFF) as u8);
    assert_eq!(blob[600], 0x00);
    assert_eq!(blob[900], 0xCC);
    let small = generate_binary_blob(10);
    assert_eq!(small, vec![0x90; 10]);
}

#[test]
fn draws_split_into_first_distinct_indices() {
    let v = split_draws(&[5, 3, 5, 9, 3, 1, 7, 2], 10, 4).unwrap();
    assert_eq!(v.pos, vec![3, 5]);
    assert_eq!(v.neg, vec![1, 9]);
    let odd = split_draws(&[4, 4, 0, 8, 6], 10, 3).unwrap();
    assert_eq!(odd.pos, vec![4]);
    assert_eq!(odd.neg, vec![0]);
}

#[test]
fn too_few_distinct_draws_fail() {
    assert_eq!(split_draws(&[2, 2, 2, 7], 10, 4).unwrap_err(), SparseGenError::DrawLimitReached);
    assert_eq!(split_draws(&[1, 2], 3, 4).unwrap_err(), SparseGenError::SparsityExceedsDims);
    let empty = split_draws(&[], 0, 1).unwrap_err();
    assert_eq!(empty, SparseGenError::SparsityExceedsDims);
    let none = split_draws(&[], 5, 1).unwrap();
    assert!(none.pos.is_empty() && none.neg.is_empty());
}

#[test]
fn random_vector_without_draws_is_empty() {
    let mut rng = rand::rngs::StdRng::seed_from_u64(3);
    let v = random_sparse_vec(&mut rng, 4, 1).unwrap();
    assert!(v.pos.is_empty() && v.neg.is_empty());
    let full = random_sparse_vec(&mut rng, 8, 8).unwrap();
    let mut all: Vec<usize> = full.pos.iter().chain(full.neg.iter()).copied().collect();
    all.sort();
    assert_eq!(all, (0..8).collect::<Vec<usize>>());
}
