use reversible_world::permutation::{generate_random_permutation, invert_permutation, permute};

#[test]
fn test_invert_permutation() {
    let mut xs = vec![0, 1, 2, 3, 4, 5, 6, 7, 8, 9];
    let permutation = generate_random_permutation(xs.len(), 0);
    permute(&permutation, &mut xs);
    permute(&invert_permutation(&permutation), &mut xs);
    assert_eq!(xs, vec![0, 1, 2, 3, 4, 5, 6, 7, 8, 9]);
}

#[test]
fn generated_permutation_holds_each_index_once() {
    for n in 1..30usize {
        for seed in [0u64, 1, 42, u64::MAX] {
            let p = generate_random_permutation(n, seed);
            let mut sorted = p.clone();
            sorted.sort();
            assert_eq!(sorted, (0..n).collect::<Vec<usize>>());
        }
    }
}

#[test]
fn generated_permutation_is_deterministic() {
    assert_eq!(generate_random_permutation(200, 7), generate_random_permutation(200, 7));
}

#[test]
fn generated_permutation_is_shuffled() {
    let p = generate_random_permutation(50, 3);
    assert_ne!(p, (0..50).collect::<Vec<usize>>());
}

#[test]
fn permute_reads_from_the_given_positions() {
    let mut xs = vec!['a', 'b', 'c', 'd'];
    permute(&vec![2, 0, 3, 1], &mut xs);
    assert_eq!(xs, vec!['c', 'a', 'd', 'b']);
}

#[test]
fn invert_permutation_scatters_indices() {
    assert_eq!(invert_permutation(&vec![2, 0, 3, 1]), vec![1, 3, 0, 2]);
    assert_eq!(invert_permutation(&vec![0]), vec![0]);
    assert_eq!(invert_permutation(&vec![]), Vec::<usize>::new());
}

#[test]
fn generated_round_trip_restores_any_sequence() {
    for n in 1..20usize {
        for seed in [0u64, 5, 99] {
            let before: Vec<u32> = (0..n as u32).map(|x| x * 7 + 1).collect();
            let mut xs = before.clone();
            let p = generate_random_permutation(n, seed);
            permute(&p, &mut xs);
            permute(&invert_permutation(&p), &mut xs);
            assert_eq!(xs, before);
        }
    }
}
