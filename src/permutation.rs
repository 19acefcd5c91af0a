//! Permutations of `0..n`: seeded generation, application to a sequence and
//! exact algebraic inversion.

use rand::seq::SliceRandom;
use rand::SeedableRng;
use vstd::prelude::*;

verus! {

/// `p` is a bijection of `0..n`: position `i` holds the index to read from.
pub open spec fn is_permutation(p: Seq<usize>, n: nat) -> bool {
    &&& p.len() == n
    &&& n <= usize::MAX
    &&& forall|i: int| 0 <= i < n ==> #[trigger] p[i] < n
    &&& forall|i: int, j: int| 0 <= i < n && 0 <= j < n && i != j ==> p[i] != p[j]
    &&& forall|j: int| 0 <= j < n ==> #[trigger] hits(p, j)
}

/// Some position of `p` holds `j`.
pub open spec fn hits(p: Seq<usize>, j: int) -> bool {
    exists|i: int| 0 <= i < p.len() && #[trigger] p[i] as int == j
}

/// The sequence whose position `i` holds `s[p[i]]`.
pub open spec fn apply_perm<T>(p: Seq<usize>, s: Seq<T>) -> Seq<T> {
    Seq::new(p.len(), |i: int| s[p[i] as int])
}

/// The position at which `p` holds `j`.
pub open spec fn preimage(p: Seq<usize>, j: int) -> int {
    choose|i: int| 0 <= i < p.len() && p[i] as int == j
}

/// The algebraic inverse of `p`: `inverse_perm(p)[p[i]] == i`.
pub open spec fn inverse_perm(p: Seq<usize>) -> Seq<usize> {
    Seq::new(p.len(), |j: int| preimage(p, j) as usize)
}

/// `0, 1, ..., n - 1`.
pub open spec fn identity(n: nat) -> Seq<usize> {
    Seq::new(n, |i: int| i as usize)
}

/// The order in which rand's seeded shuffle leaves `items` under `seed`.
pub uninterp spec fn shuffled(items: Seq<usize>, seed: u64) -> Seq<usize>;

/// The permutation of `0..n` that `generate_random_permutation(n, seed)`
/// returns. A shuffle only reorders, so the first branch is the one taken;
/// the second keeps the function a permutation by definition, for every
/// `n` and `seed`.
pub open spec fn generated(n: nat, seed: u64) -> Seq<usize> {
    if is_permutation(shuffled(identity(n), seed), n) {
        shuffled(identity(n), seed)
    } else {
        identity(n)
    }
}

/// Relies on rand's `StdRng::seed_from_u64` and `SliceRandom::shuffle`: the
/// shuffle only swaps items, and with a generator built from `seed` the order
/// it leaves depends on the items and the seed alone.
#[verifier::external_body]
fn shuffle_seeded(items: &mut Vec<usize>, seed: u64)
    ensures
        final(items)@ == shuffled(old(items)@, seed),
        final(items)@.to_multiset() == old(items)@.to_multiset(),
{
    let mut rng = rand::rngs::StdRng::seed_from_u64(seed);
    items.shuffle(&mut rng);
}

pub proof fn lemma_identity_is_permutation(n: nat)
    requires
        n <= usize::MAX,
    ensures
        is_permutation(identity(n), n),
{
    assert forall|j: int| 0 <= j < n implies #[trigger] hits(identity(n), j) by {
        assert(identity(n)[j] as int == j);
    }
}

/// A reordering of `0..n` is a permutation of `0..n`.
proof fn lemma_reordered_identity(s: Seq<usize>, n: nat)
    requires
        n <= usize::MAX,
        s.to_multiset() == identity(n).to_multiset(),
    ensures
        is_permutation(s, n),
{
    broadcast use vstd::seq_lib::group_to_multiset_ensures;

    let id = identity(n);
    assert(id.no_duplicates());
    id.lemma_multiset_has_no_duplicates();
    s.lemma_multiset_has_no_duplicates_conv();
    assert(s.to_multiset().len() == id.to_multiset().len());
    assert(s.len() == n);
    assert forall|i: int| 0 <= i < n implies #[trigger] s[i] < n by {
        assert(s.contains(s[i]));
        assert(s.to_multiset().count(s[i]) > 0);
        assert(id.to_multiset().count(s[i]) > 0);
        assert(id.contains(s[i]));
    }
    assert forall|j: int| 0 <= j < n implies #[trigger] hits(s, j) by {
        assert(id[j] == j as usize);
        assert(id.contains(j as usize));
        assert(id.to_multiset().count(j as usize) > 0);
        assert(s.to_multiset().count(j as usize) > 0);
        assert(s.contains(j as usize));
    }
}

pub proof fn lemma_generated_is_permutation(n: nat, seed: u64)
    requires
        n <= usize::MAX,
    ensures
        is_permutation(generated(n, seed), n),
{
    lemma_identity_is_permutation(n);
}

/// The preimage of each index under a permutation is where it is held.
pub proof fn lemma_preimage(p: Seq<usize>, n: nat)
    requires
        is_permutation(p, n),
    ensures
        forall|j: int| 0 <= j < n ==> 0 <= #[trigger] preimage(p, j) < n && p[preimage(p, j)] as int == j,
        forall|i: int| 0 <= i < n ==> #[trigger] preimage(p, p[i] as int) == i,
{
    assert forall|j: int| 0 <= j < n implies 0 <= #[trigger] preimage(p, j) < n && p[preimage(p, j)] as int == j by {
        assert(hits(p, j));
    }
    assert forall|i: int| 0 <= i < n implies #[trigger] preimage(p, p[i] as int) == i by {
        assert(p[i] < n);
        let k = preimage(p, p[i] as int);
        assert(p[k] == p[i]);
    }
}

/// The inverse of a permutation is a permutation of the same indices.
pub proof fn lemma_inverse_is_permutation(p: Seq<usize>, n: nat)
    requires
        is_permutation(p, n),
    ensures
        is_permutation(inverse_perm(p), n),
{
    lemma_preimage(p, n);
    let q = inverse_perm(p);
    assert forall|i: int| 0 <= i < n implies #[trigger] q[i] < n by {
        assert(0 <= preimage(p, i) < n);
    }
    assert forall|i: int, j: int| 0 <= i < n && 0 <= j < n && i != j implies q[i] != q[j] by {
        assert(p[preimage(p, i)] as int == i);
        assert(p[preimage(p, j)] as int == j);
    }
    assert forall|j: int| 0 <= j < n implies #[trigger] hits(q, j) by {
        assert(p[j] < n);
        assert(q[p[j] as int] as int == j);
    }
}

/// Undoing a permutation with its inverse gives back every sequence.
pub proof fn lemma_inverse_undoes<T>(p: Seq<usize>, s: Seq<T>)
    requires
        is_permutation(p, s.len()),
    ensures
        apply_perm(inverse_perm(p), apply_perm(p, s)) == s,
{
    lemma_preimage(p, s.len());
    assert(apply_perm(inverse_perm(p), apply_perm(p, s)) =~= s);
}

/// Applying a permutation after its inverse gives back every sequence.
pub proof fn lemma_inverse_then_permutation<T>(p: Seq<usize>, s: Seq<T>)
    requires
        is_permutation(p, s.len()),
    ensures
        apply_perm(p, apply_perm(inverse_perm(p), s)) == s,
{
    lemma_preimage(p, s.len());
    assert forall|i: int| 0 <= i < s.len() implies #[trigger] apply_perm(p, apply_perm(inverse_perm(p), s))[i] == s[i] by {
        assert(p[i] < s.len());
        assert(preimage(p, p[i] as int) == i);
    }
    assert(apply_perm(p, apply_perm(inverse_perm(p), s)) =~= s);
}

/// A seeded permutation of `0..n`, the same for the same `n` and `seed`.
pub fn generate_random_permutation(n: usize, seed: u64) -> (r: Vec<usize>)
    ensures
        r@ == generated(n as nat, seed),
        r@ == shuffled(identity(n as nat), seed),
        is_permutation(r@, n as nat),
{
    let mut items: Vec<usize> = Vec::new();
    let mut i: usize = 0;
    while i < n
        invariant
            i <= n,
            items@ == identity(i as nat),
        decreases n - i,
    {
        items.push(i);
        i = i + 1;
        assert(items@ =~= identity(i as nat));
    }
    shuffle_seeded(&mut items, seed);
    proof {
        lemma_reordered_identity(items@, n as nat);
    }
    items
}

/// Rearranges `xs` so that position `i` holds what position `permutation[i]`
/// held before.
pub fn permute<T: Copy>(permutation: &Vec<usize>, xs: &mut Vec<T>)
    requires
        permutation.len() == old(xs).len(),
        forall|i: int| 0 <= i < permutation.len() ==> #[trigger] permutation[i] < old(xs).len(),
    ensures
        final(xs)@ == apply_perm(permutation@, old(xs)@),
{
    let n = xs.len();
    let mut orig: Vec<T> = Vec::new();
    let mut i: usize = 0;
    while i < n
        invariant
            i <= n,
            n == xs.len(),
            orig@ == xs@.subrange(0, i as int),
        decreases n - i,
    {
        orig.push(xs[i]);
        i = i + 1;
        assert(orig@ =~= xs@.subrange(0, i as int));
    }
    assert(orig@ =~= xs@);
    let ghost src = xs@;
    let mut i: usize = 0;
    while i < n
        invariant
            i <= n,
            n == xs.len(),
            orig@ == src,
            src.len() == n,
            permutation.len() == n,
            forall|k: int| 0 <= k < n ==> #[trigger] permutation[k] < n,
            forall|k: int| 0 <= k < i ==> xs@[k] == src[permutation[k] as int],
        decreases n - i,
    {
        let v = orig[permutation[i]];
        xs.set(i, v);
        i = i + 1;
    }
    assert(xs@ =~= apply_perm(permutation@, src));
}

/// The algebraic inverse of a permutation, by scattering each index to the
/// place it is read from.
pub fn invert_permutation(permutation: &Vec<usize>) -> (r: Vec<usize>)
    requires
        is_permutation(permutation@, permutation.len() as nat),
    ensures
        r@ == inverse_perm(permutation@),
        is_permutation(r@, permutation.len() as nat),
{
    let n = permutation.len();
    let ghost p = permutation@;
    let mut inverse: Vec<usize> = Vec::new();
    let mut i: usize = 0;
    while i < n
        invariant
            i <= n,
            inverse.len() == i,
            forall|k: int| 0 <= k < i ==> #[trigger] inverse[k] == 0,
        decreases n - i,
    {
        inverse.push(0);
        i = i + 1;
    }
    let mut i: usize = 0;
    while i < n
        invariant
            i <= n,
            n == permutation.len(),
            p == permutation@,
            is_permutation(p, n as nat),
            inverse.len() == n,
            forall|k: int| 0 <= k < i ==> inverse[p[k] as int] == k,
        decreases n - i,
    {
        inverse.set(permutation[i], i);
        i = i + 1;
    }
    proof {
        lemma_preimage(p, n as nat);
        lemma_inverse_is_permutation(p, n as nat);
        assert forall|j: int| 0 <= j < n implies inverse[j] == inverse_perm(p)[j] by {
            let k = preimage(p, j);
            assert(p[k] as int == j);
            assert(inverse[p[k] as int] == k);
        }
        assert(inverse@ =~= inverse_perm(p));
    }
    inverse
}

/// Undoing a generated permutation with its inverse gives back any sequence
/// of its length.
pub proof fn lemma_generated_round_trip<T>(n: nat, seed: u64, s: Seq<T>)
    requires
        n <= usize::MAX,
        s.len() == n,
    ensures
        apply_perm(inverse_perm(generated(n, seed)), apply_perm(generated(n, seed), s)) == s,
{
    lemma_generated_is_permutation(n, seed);
    lemma_inverse_undoes(generated(n, seed), s);
}

} // verus!
