//! The permutation lattice behind Perlin noise: three shuffled tables of
//! the byte values, and the hash that picks a gradient for a lattice corner.
use vstd::prelude::*;
use rand::rngs::StdRng;
use crate::random::draw_upto;
use crate::permutation::{swap_entries, swapped};

verus! {

broadcast use vstd::seq_lib::group_to_multiset_ensures;

/// Number of entries in each permutation table, and of gradients.
pub const PERLIN_POINT_COUNT: usize = 256;

/// The byte values in increasing order.
pub open spec fn identity_bytes() -> Seq<u8> {
    Seq::new(256, |i: int| i as u8)
}

/// `p` holds each byte value exactly once.
pub open spec fn is_byte_permutation(p: Seq<u8>) -> bool {
    p.to_multiset() == identity_bytes().to_multiset()
}

/// Valid swap partners for a shuffle of `n` entries: position `k` trades
/// places with a position at or before it.
pub open spec fn targets_ok(targets: Seq<usize>, n: nat) -> bool {
    targets.len() == n && forall|k: int| 0 <= k < n ==> #[trigger] targets[k] <= k
}

/// `p` after the Fisher-Yates passes at positions `i - 1` down to 1, where
/// position `k` trades places with `targets[k]`.
pub open spec fn shuffled(p: Seq<u8>, targets: Seq<usize>, i: nat) -> Seq<u8>
    decreases i,
{
    if i <= 1 {
        p
    } else {
        shuffled(swapped(p, i - 1, targets[i - 1] as int), targets, (i - 1) as nat)
    }
}

/// Shuffles the first `n` entries of `p` by the given partners: from the
/// back, the entry at `k` trades places with the one at `targets[k]`.
pub fn permute_by(p: &mut Vec<u8>, targets: &Vec<usize>, n: usize)
    requires
        n <= old(p).len(),
        targets_ok(targets@, n as nat),
    ensures
        final(p)@ == shuffled(old(p)@, targets@, n as nat),
        final(p)@.len() == old(p)@.len(),
        final(p)@.to_multiset() == old(p)@.to_multiset(),
        final(p)@.subrange(n as int, final(p)@.len() as int) == old(p)@.subrange(
            n as int,
            old(p)@.len() as int,
        ),
{
    let mut i: usize = n;
    while i > 1
        invariant
            i <= n,
            n <= p@.len(),
            targets_ok(targets@, n as nat),
            p@.len() == old(p)@.len(),
            shuffled(p@, targets@, i as nat) == shuffled(old(p)@, targets@, n as nat),
            p@.to_multiset() == old(p)@.to_multiset(),
            p@.subrange(n as int, p@.len() as int) == old(p)@.subrange(
                n as int,
                old(p)@.len() as int,
            ),
        decreases i,
    {
        i = i - 1;
        let target = targets[i];
        let ghost before = p@;
        swap_entries(p, i, target);
        assert(p@.subrange(n as int, p@.len() as int) =~= before.subrange(
            n as int,
            before.len() as int,
        ));
    }
}

/// Shuffles the first `n` entries of `p` (Fisher-Yates): from the back,
/// each entry trades places with one drawn at or before it.
pub fn permute(rng: &mut StdRng, p: &mut Vec<u8>, n: usize)
    requires
        n <= old(p).len(),
    ensures
        exists|targets: Seq<usize>|
            targets_ok(targets, n as nat) && #[trigger] shuffled(old(p)@, targets, n as nat)
                == final(p)@,
        final(p)@.len() == old(p)@.len(),
        final(p)@.to_multiset() == old(p)@.to_multiset(),
        final(p)@.subrange(n as int, final(p)@.len() as int) == old(p)@.subrange(
            n as int,
            old(p)@.len() as int,
        ),
{
    let mut targets: Vec<usize> = Vec::new();
    let mut k: usize = 0;
    while k < n
        invariant
            k <= n,
            targets@.len() == k,
            forall|j: int| 0 <= j < k ==> #[trigger] targets@[j] == 0,
        decreases n - k,
    {
        targets.push(0);
        k = k + 1;
    }
    let mut i: usize = n;
    while i > 1
        invariant
            i <= n,
            targets@.len() == n,
            forall|j: int| 0 <= j < n ==> #[trigger] targets@[j] <= j,
        decreases i,
    {
        i = i - 1;
        let target = draw_upto(rng, i);
        targets.set(i, target);
    }
    permute_by(p, &targets, n);
}

/// A fresh table of the byte values in random order.
pub fn perlin_generate_perm(rng: &mut StdRng) -> (p: Vec<u8>)
    ensures
        p@.len() == PERLIN_POINT_COUNT,
        is_byte_permutation(p@),
{
    let mut p: Vec<u8> = Vec::new();
    let mut i: usize = 0;
    while i < PERLIN_POINT_COUNT
        invariant
            i <= PERLIN_POINT_COUNT,
            p@ == identity_bytes().subrange(0, i as int),
        decreases PERLIN_POINT_COUNT - i,
    {
        p.push(i as u8);
        i = i + 1;
        assert(p@ =~= identity_bytes().subrange(0, i as int));
    }
    assert(p@ =~= identity_bytes());
    permute(rng, &mut p, PERLIN_POINT_COUNT);
    p
}

/// The three permutation tables of a Perlin noise generator.
pub struct PerlinLattice {
    pub perm_x: Vec<u8>,
    pub perm_y: Vec<u8>,
    pub perm_z: Vec<u8>,
}

impl PerlinLattice {
    /// Each table is a permutation of the byte values.
    pub open spec fn wf(&self) -> bool {
        &&& self.perm_x@.len() == PERLIN_POINT_COUNT
        &&& self.perm_y@.len() == PERLIN_POINT_COUNT
        &&& self.perm_z@.len() == PERLIN_POINT_COUNT
        &&& is_byte_permutation(self.perm_x@)
        &&& is_byte_permutation(self.perm_y@)
        &&& is_byte_permutation(self.perm_z@)
    }

    /// Gradient slot of lattice corner (i, j, k): each coordinate wraps to
    /// its low byte, picks an entry of its table, and the three are xored.
    pub open spec fn corner_spec(&self, i: i32, j: i32, k: i32) -> u8 {
        self.perm_x@[(i as u8) as int] ^ self.perm_y@[(j as u8) as int] ^ self.perm_z@[(k
            as u8) as int]
    }

    /// Draws three fresh tables, x first.
    pub fn new(rng: &mut StdRng) -> (l: PerlinLattice)
        ensures
            l.wf(),
    {
        let perm_x = perlin_generate_perm(rng);
        let perm_y = perlin_generate_perm(rng);
        let perm_z = perlin_generate_perm(rng);
        PerlinLattice { perm_x, perm_y, perm_z }
    }

    /// Gradient slot, below `PERLIN_POINT_COUNT`, of lattice corner (i, j, k).
    pub fn corner(&self, i: i32, j: i32, k: i32) -> (r: usize)
        requires
            self.wf(),
        ensures
            r == self.corner_spec(i, j, k) as usize,
            r < PERLIN_POINT_COUNT,
    {
        let a = self.perm_x[(i as u8) as usize];
        let b = self.perm_y[(j as u8) as usize];
        let c = self.perm_z[(k as u8) as usize];
        (a ^ b ^ c) as usize
    }
}

} // verus!
