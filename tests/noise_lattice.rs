use rand::rngs::StdRng;
use rand::SeedableRng;
use weekend::perlin::{perlin_generate_perm, permute, permute_by, PerlinLattice, PERLIN_POINT_COUNT};

fn is_perm(p: &[u8]) -> bool {
    let mut s = p.to_vec();
    s.sort();
    s == (0..=255u8).collect::<Vec<_>>()
}

#[test]
fn generated_tables_are_permutations() {
    let mut rng = StdRng::seed_from_u64(5);
    for _ in 0..4 {
        let p = perlin_generate_perm(&mut rng);
        assert_eq!(p.len(), PERLIN_POINT_COUNT);
        assert!(is_perm(&p));
    }
}

#[test]
fn tables_are_shuffled() {
    let mut rng = StdRng::seed_from_u64(11);
    let p = perlin_generate_perm(&mut rng);
    assert_ne!(p, (0..=255u8).collect::<Vec<_>>());
}

#[test]
fn permute_keeps_entries_past_n() {
    let mut rng = StdRng::seed_from_u64(3);
    let mut p: Vec<u8> = (0..20).collect();
    permute(&mut rng, &mut p, 10);
    assert_eq!(&p[10..], &(10..20).collect::<Vec<u8>>()[..]);
    let mut head = p[..10].to_vec();
    head.sort();
    assert_eq!(head, (0..10).collect::<Vec<u8>>());
    let mut q: Vec<u8> = vec![9, 8, 7];
    permute(&mut rng, &mut q, 1);
    assert_eq!(q, vec![9, 8, 7]);
}

#[test]
fn corner_xors_the_three_tables() {
    let mut rng = StdRng::seed_from_u64(8);
    let l = PerlinLattice::new(&mut rng);
    assert!(is_perm(&l.perm_x) && is_perm(&l.perm_y) && is_perm(&l.perm_z));
    for (i, j, k) in [(0, 0, 0), (1, 2, 3), (-1, 255, 256), (-300, 1000, -7)] {
        let want = l.perm_x[(i & 255) as usize] ^ l.perm_y[(j & 255) as usize] ^ l.perm_z[(k & 255) as usize];
        let got = l.corner(i, j, k);
        assert_eq!(got, want as usize);
        assert!(got < PERLIN_POINT_COUNT);
    }
    assert_eq!(l.corner(-1, 0, 0), l.corner(255, 0, 0));
}

#[test]
fn seeded_lattice_is_reproducible() {
    let a = PerlinLattice::new(&mut StdRng::seed_from_u64(42));
    let b = PerlinLattice::new(&mut StdRng::seed_from_u64(42));
    assert_eq!(a.perm_x, b.perm_x);
    assert_eq!(a.perm_y, b.perm_y);
    assert_eq!(a.perm_z, b.perm_z);
}

#[test]
fn permute_by_applies_swaps_from_the_back() {
    // positions 3, 2, 1 trade with 0, 2, 0 in turn
    let mut p: Vec<u8> = vec![10, 11, 12, 13, 14];
    permute_by(&mut p, &vec![0, 0, 2, 0], 4);
    // [10,11,12,13,14] -> swap 3,0 -> [13,11,12,10,14] -> swap 2,2 -> same
    // -> swap 1,0 -> [11,13,12,10,14]
    assert_eq!(p, vec![11, 13, 12, 10, 14]);
    let mut q: Vec<u8> = vec![1, 2, 3];
    permute_by(&mut q, &vec![0, 1, 2], 3);
    assert_eq!(q, vec![1, 2, 3]);
}
