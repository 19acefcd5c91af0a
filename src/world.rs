//! The world: a tick counter and three named slots of binary cells.

use crate::permutation::{apply_perm, is_permutation, lemma_preimage, preimage};
use vstd::multiset::Multiset;
use vstd::prelude::*;

verus! {

/// The state of the simulation at one tick.
#[derive(Clone, Debug, PartialEq, Eq)]
pub struct World {
    pub t: i64,
    pub battery: Vec<bool>,
    pub hot_bath: Vec<bool>,
    pub cold_bath: Vec<bool>,
}

/// The mathematical value of a world.
pub struct WorldView {
    pub t: int,
    pub battery: Seq<bool>,
    pub hot_bath: Seq<bool>,
    pub cold_bath: Seq<bool>,
}

impl View for World {
    type V = WorldView;

    open spec fn view(&self) -> WorldView {
        WorldView {
            t: self.t as int,
            battery: self.battery@,
            hot_bath: self.hot_bath@,
            cold_bath: self.cold_bath@,
        }
    }
}

/// How many cells of `s` are `true`.
pub open spec fn count_true(s: Seq<bool>) -> nat
    decreases s.len(),
{
    if s.len() == 0 {
        0
    } else {
        count_true(s.drop_last()) + if s.last() {
            1nat
        } else {
            0nat
        }
    }
}

impl WorldView {
    /// The same cells at tick `t`.
    pub open spec fn at(self, t: int) -> WorldView {
        WorldView { t, ..self }
    }

    /// Both worlds have slots of the same lengths.
    pub open spec fn same_shape(self, other: WorldView) -> bool {
        &&& self.battery.len() == other.battery.len()
        &&& self.hot_bath.len() == other.hot_bath.len()
        &&& self.cold_bath.len() == other.cold_bath.len()
    }

    /// Every slot is short enough to be held in a vector.
    pub open spec fn fits_in_memory(self) -> bool {
        &&& self.battery.len() <= usize::MAX
        &&& self.hot_bath.len() <= usize::MAX
        &&& self.cold_bath.len() <= usize::MAX
    }

    /// Every slot is long enough for the positions that the rules read.
    pub open spec fn well_formed(self) -> bool {
        &&& self.battery.len() >= 2
        &&& self.hot_bath.len() >= 2
        &&& self.cold_bath.len() >= 1
    }

    /// How many cells are `true`, over all slots.
    pub open spec fn total_true(self) -> nat {
        count_true(self.battery) + count_true(self.hot_bath) + count_true(self.cold_bath)
    }
}

/// Why a world could not be built.
#[derive(Clone, Copy, Debug, PartialEq, Eq)]
pub enum ConfigError {
    /// The battery holds fewer than two cells.
    BatteryTooShort,
    /// The hot bath holds fewer than two cells.
    HotBathTooShort,
    /// The cold bath holds no cell.
    ColdBathTooShort,
}

impl World {
    /// A world at tick 0 with the given cells, if every slot is long enough
    /// for the rules.
    pub fn new(battery: Vec<bool>, hot_bath: Vec<bool>, cold_bath: Vec<bool>) -> (r: Result<
        World,
        ConfigError,
    >)
        ensures
            battery.len() < 2 ==> r == Err::<World, ConfigError>(ConfigError::BatteryTooShort),
            battery.len() >= 2 && hot_bath.len() < 2 ==> r == Err::<World, ConfigError>(
                ConfigError::HotBathTooShort,
            ),
            battery.len() >= 2 && hot_bath.len() >= 2 && cold_bath.len() < 1 ==> r == Err::<
                World,
                ConfigError,
            >(ConfigError::ColdBathTooShort),
            r is Ok <==> (WorldView { t: 0, battery: battery@, hot_bath: hot_bath@, cold_bath: cold_bath@ }).well_formed(),
            r matches Ok(w) ==> w@ == (WorldView {
                t: 0,
                battery: battery@,
                hot_bath: hot_bath@,
                cold_bath: cold_bath@,
            }),
    {
        if battery.len() < 2 {
            Err(ConfigError::BatteryTooShort)
        } else if hot_bath.len() < 2 {
            Err(ConfigError::HotBathTooShort)
        } else if cold_bath.len() < 1 {
            Err(ConfigError::ColdBathTooShort)
        } else {
            Ok(World { t: 0, battery, hot_bath, cold_bath })
        }
    }
}

/// How many cells of `xs` are `true`.
pub fn sumbools(xs: &Vec<bool>) -> (r: usize)
    ensures
        r == count_true(xs@),
{
    let mut total: usize = 0;
    let mut i: usize = 0;
    while i < xs.len()
        invariant
            i <= xs.len(),
            total == count_true(xs@.subrange(0, i as int)),
            total <= i,
        decreases xs.len() - i,
    {
        assert(xs@.subrange(0, i as int + 1).drop_last() =~= xs@.subrange(0, i as int));
        if xs[i] {
            total = total + 1;
        }
        i = i + 1;
    }
    assert(xs@.subrange(0, xs.len() as int) =~= xs@);
    total
}


/// The number of `true` cells is how often `true` occurs.
pub proof fn lemma_count_true_multiset(s: Seq<bool>)
    ensures
        count_true(s) == s.to_multiset().count(true),
    decreases s.len(),
{
    broadcast use vstd::seq_lib::group_to_multiset_ensures;
    broadcast use vstd::multiset::group_multiset_axioms;

    if s.len() == 0 {
        assert(s.to_multiset() =~= Multiset::empty());
    } else {
        lemma_count_true_multiset(s.drop_last());
        assert(s.drop_last().push(s.last()) =~= s);
    }
}

/// Writing `x` at position `i` moves the count by what was there and `x`.
pub proof fn lemma_count_true_update(s: Seq<bool>, i: int, x: bool)
    requires
        0 <= i < s.len(),
    ensures
        count_true(s.update(i, x)) + (if s[i] {
            1int
        } else {
            0int
        }) == count_true(s) + (if x {
            1int
        } else {
            0int
        }),
    decreases s.len(),
{
    let u = s.update(i, x);
    if i == s.len() - 1 {
        assert(u.drop_last() =~= s.drop_last());
    } else {
        lemma_count_true_update(s.drop_last(), i, x);
        assert(u.drop_last() =~= s.drop_last().update(i, x));
    }
}

/// Rearranging a sequence by a permutation keeps what it holds, each value
/// as often as before.
pub proof fn lemma_permutation_keeps_multiset<T>(p: Seq<usize>, s: Seq<T>)
    requires
        is_permutation(p, s.len()),
    ensures
        apply_perm(p, s).to_multiset() == s.to_multiset(),
    decreases s.len(),
{
    broadcast use vstd::seq_lib::group_to_multiset_ensures;
    broadcast use vstd::multiset::group_multiset_axioms;

    let n = s.len();
    let t = apply_perm(p, s);
    if n == 0 {
        assert(t =~= s);
    } else {
        lemma_preimage(p, n);
        let last = n - 1;
        let k = preimage(p, last);
        let q = p.remove(k);
        let s0 = s.drop_last();
        assert forall|i: int| 0 <= i < last implies #[trigger] q[i] < last by {
            let j = if i < k { i } else { i + 1 };
            assert(q[i] == p[j]);
            assert(p[j] != p[k]);
        }
        assert forall|j: int| 0 <= j < last implies #[trigger] crate::permutation::hits(q, j) by {
            let i = preimage(p, j);
            assert(i != k);
            if i < k {
                assert(q[i] == p[i]);
            } else {
                assert(q[i - 1] == p[i]);
            }
        }
        assert forall|a: int, b: int| 0 <= a < last && 0 <= b < last && a != b implies q[a] != q[b] by {
            let ja = if a < k { a } else { a + 1 };
            let jb = if b < k { b } else { b + 1 };
            assert(q[a] == p[ja]);
            assert(q[b] == p[jb]);
        }
        assert(is_permutation(q, s0.len()));
        lemma_permutation_keeps_multiset(q, s0);
        assert(apply_perm(q, s0) =~= t.remove(k));
        assert(t[k] == s[last]);
        assert(s0.push(s[last]) =~= s);
        assert(t.to_multiset() =~= t.remove(k).to_multiset().insert(t[k]));
    }
}

/// Rearranging a slot by a permutation keeps its number of `true` cells.
pub proof fn lemma_permutation_keeps_count(p: Seq<usize>, s: Seq<bool>)
    requires
        is_permutation(p, s.len()),
    ensures
        count_true(apply_perm(p, s)) == count_true(s),
{
    lemma_permutation_keeps_multiset(p, s);
    lemma_count_true_multiset(s);
    lemma_count_true_multiset(apply_perm(p, s));
}

} // verus!
