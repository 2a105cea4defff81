use reversible_logic::permutation::{Parity, Permutation, PermutationGroup};

#[test]
fn identity_permutation() {
    let p = Permutation::identity(4);
    assert_eq!(p.apply(0), 0);
    assert_eq!(p.apply(3), 3);
    assert!(p.is_identity());
}

#[test]
fn swap_is_not_identity() {
    let p = Permutation::new(vec![1, 0, 2]);
    assert!(!p.is_identity());
}

#[test]
fn inverse_roundtrip() {
    let p = Permutation::new(vec![2, 0, 1]);
    let inv = p.inverse();
    let composed = p.compose(&inv);
    assert!(composed.is_identity());
}

#[test]
fn compose_associative() {
    let a = Permutation::new(vec![1, 2, 0]);
    let b = Permutation::new(vec![0, 2, 1]);
    let c = Permutation::new(vec![2, 1, 0]);
    let ab_c = a.compose(&b).compose(&c);
    let a_bc = a.compose(&b.compose(&c));
    assert_eq!(ab_c, a_bc);
}

#[test]
fn cycle_decomposition() {
    // (0 1 2)(3 4)
    let p = Permutation::new(vec![1, 2, 0, 4, 3]);
    let cycles = p.cycles();
    assert_eq!(cycles.len(), 2);
}

#[test]
fn parity_of_transposition_is_odd() {
    let p = Permutation::new(vec![1, 0]);
    assert_eq!(p.parity(), Parity::Odd);
}

#[test]
fn parity_of_identity_is_even() {
    let p = Permutation::identity(3);
    assert_eq!(p.parity(), Parity::Even);
}

#[test]
fn group_closure_s3() {
    // S3 generated by (0 1) and (0 1 2)
    let generators = PermutationGroup::new(vec![
        Permutation::new(vec![1, 0, 2]), // (0 1)
        Permutation::new(vec![1, 2, 0]), // (0 1 2)
    ]);
    let closure = generators.closure();
    assert_eq!(closure.order(), 6); // |S3| = 6
}

#[test]
fn apply_vec() {
    let p = Permutation::new(vec![2, 0, 1]);
    assert_eq!(p.apply_vec(&[0, 1, 2]), vec![2, 0, 1]);
}

#[test]
fn cycles_listed_from_smallest_element() {
    let p = Permutation::new(vec![3, 0, 2, 1, 5, 4]);
    // 0 -> 3 -> 1 -> 0, 2 fixed, 4 <-> 5
    assert_eq!(p.cycles(), vec![vec![0, 3, 1], vec![4, 5]]);
    assert_eq!(Permutation::identity(4).cycles(), Vec::<Vec<usize>>::new());
}

#[test]
fn parity_counts_transpositions() {
    // one 3-cycle (2 transpositions) and one 2-cycle (1) -> odd
    assert_eq!(Permutation::new(vec![1, 2, 0, 4, 3]).parity(), Parity::Odd);
    // a single 3-cycle -> even
    assert_eq!(Permutation::new(vec![1, 2, 0]).parity(), Parity::Even);
    assert_eq!(Permutation::identity(0).parity(), Parity::Even);
}

#[test]
fn inverse_values() {
    let p = Permutation::new(vec![2, 0, 1, 3]);
    let inv = p.inverse();
    assert_eq!(inv.apply_vec(&[0, 1, 2, 3]), vec![1, 2, 0, 3]);
    assert!(inv.compose(&p).is_identity());
    assert_eq!(inv.size(), 4);
}

#[test]
fn compose_applies_right_first() {
    let a = Permutation::new(vec![1, 2, 0]);
    let b = Permutation::new(vec![0, 2, 1]);
    // (a . b)(i) = a(b(i))
    assert_eq!(a.compose(&b).apply_vec(&[0, 1, 2]), vec![1, 0, 2]);
}

#[test]
fn group_contains_and_trivial() {
    let g = PermutationGroup::trivial(3);
    assert_eq!(g.order(), 1);
    assert!(g.contains(&Permutation::identity(3)));
    assert!(!g.contains(&Permutation::new(vec![1, 0, 2])));
    let closure = PermutationGroup::new(vec![Permutation::new(vec![1, 0, 2])]).closure();
    assert_eq!(closure.order(), 2);
    assert!(closure.contains(&Permutation::identity(3)));
    assert!(closure.contains(&Permutation::new(vec![1, 0, 2])));
    assert!(!closure.contains(&Permutation::new(vec![1, 2, 0])));
}

#[test]
fn closure_keeps_generators_first() {
    let gens = vec![Permutation::new(vec![1, 2, 0, 3]), Permutation::new(vec![1, 2, 0, 3])];
    let closure = PermutationGroup::new(gens).closure();
    // two copies of the 3-cycle, then the identity, then its square
    assert_eq!(closure.order(), 4);
    let empty = PermutationGroup::new(vec![]).closure();
    assert_eq!(empty.order(), 1);
}

#[test]
fn closure_holds_every_product_of_generators() {
    let a = Permutation::new(vec![1, 0, 2, 3]);
    let b = Permutation::new(vec![0, 2, 3, 1]);
    let closure = PermutationGroup::new(vec![a.clone(), b.clone()]).closure();
    assert!(closure.contains(&a.compose(&b)));
    assert!(closure.contains(&b.compose(&a).compose(&b)));
    assert!(closure.contains(&b.compose(&b).compose(&b)));
    // (0 1) and (1 2 3) generate the whole of S4
    assert_eq!(closure.order(), 24);
}

#[test]
fn cycle_decomposition_is_canonical() {
    let p = Permutation::new(vec![3, 0, 4, 1, 2, 5]);
    // 0 -> 3 -> 1 -> 0, 2 -> 4 -> 2, 5 fixed
    assert_eq!(p.cycles(), vec![vec![0, 3, 1], vec![2, 4]]);
    assert_eq!(p.parity(), Parity::Odd);
    assert_eq!(p.inverse().parity(), Parity::Odd);
}

#[test]
fn parity_follows_number_of_transpositions() {
    let t01 = Permutation::new(vec![1, 0, 2, 3]);
    let t12 = Permutation::new(vec![0, 2, 1, 3]);
    let t23 = Permutation::new(vec![0, 1, 3, 2]);
    let t03 = Permutation::new(vec![3, 1, 2, 0]);
    assert_eq!(t01.compose(&t12).parity(), Parity::Even);
    assert_eq!(t01.compose(&t12).compose(&t23).parity(), Parity::Odd);
    assert_eq!(t01.compose(&t12).compose(&t23).compose(&t03).parity(), Parity::Even);
    assert_eq!(t01.compose(&t01).parity(), Parity::Even);
    assert_eq!(Permutation::new(vec![1, 2, 3, 0]).parity(), Parity::Odd);
}

#[test]
fn closure_lists_products_breadth_first() {
    let closure = PermutationGroup::new(vec![
        Permutation::new(vec![1, 0, 2]),
        Permutation::new(vec![1, 2, 0]),
    ])
    .closure();
    let images: Vec<Vec<usize>> = closure
        .permutations()
        .iter()
        .map(|p| (0..3).map(|i| p.apply(i)).collect())
        .collect();
    // the generators, the identity, then each new product in search order
    assert_eq!(
        images,
        vec![
            vec![1, 0, 2],
            vec![1, 2, 0],
            vec![0, 1, 2],
            vec![0, 2, 1],
            vec![2, 1, 0],
            vec![2, 0, 1],
        ]
    );
}
