//! Invertible rules over a world, and their composition.

use crate::permutation::{
    apply_perm, generate_random_permutation, generated, inverse_perm, invert_permutation,
    is_permutation, lemma_generated_is_permutation, lemma_generated_round_trip,
    lemma_inverse_is_permutation, lemma_inverse_then_permutation, lemma_inverse_undoes, permute,
};
use crate::world::{lemma_count_true_update, lemma_permutation_keeps_count, World, WorldView};
use vstd::prelude::*;

verus! {

broadcast use vstd::std_specs::vec::axiom_vec_index_decreases,
    vstd::std_specs::vec::axiom_vec_decreases_to_view,
    vstd::seq::axiom_seq_index_decreases;

/// One permutation for each slot.
#[derive(Clone, Debug)]
pub struct SlotPermutations {
    pub battery: Vec<usize>,
    pub hot_bath: Vec<usize>,
    pub cold_bath: Vec<usize>,
}

/// A transformation of a world that has an exact inverse.
pub enum Rule {
    /// If hot bath cell 0 is set, exchange hot bath cell 1 with battery cell 1.
    ProbeAndSwap,
    /// Rearrange each slot by its own fixed permutation.
    FixedPermute(SlotPermutations),
    /// Rearrange each slot by a permutation drawn from the seed and the tick.
    TimeVaryingPermute { seed: u64, inverted: bool },
    /// Exchange hot 0 with cold 0 and hot 1 with battery 0 when the four cells
    /// read `(1, 1, 0, 0)` or `(0, 0, 1, 1)`.
    ConditionalSwap,
    /// The sub-rules, one after the other.
    Composite(Vec<Rule>),
}

/// The modulus of 64-bit wrapping arithmetic.
pub open spec fn word() -> int {
    0x1_0000_0000_0000_0000
}

/// The key from which a timed permutation is drawn at tick `t`: `seed + t`,
/// less one when inverted, wrapped to 64 bits.
pub open spec fn permutation_key(seed: u64, t: int, inverted: bool) -> u64 {
    ((seed as int + t - if inverted {
        1int
    } else {
        0int
    }) % word()) as u64
}

/// A slot rearranged by the permutation drawn from `key`, or by its inverse.
pub open spec fn timed_slot(key: u64, inverted: bool, s: Seq<bool>) -> Seq<bool> {
    let p = generated(s.len(), key);
    if inverted {
        apply_perm(inverse_perm(p), s)
    } else {
        apply_perm(p, s)
    }
}

/// Hot 0, hot 1, cold 0 and battery 0 read `(true, true, false, false)`.
pub open spec fn pattern_a(w: WorldView) -> bool {
    w.hot_bath[0] && w.hot_bath[1] && !w.cold_bath[0] && !w.battery[0]
}

/// Hot 0, hot 1, cold 0 and battery 0 read `(false, false, true, true)`.
pub open spec fn pattern_b(w: WorldView) -> bool {
    !w.hot_bath[0] && !w.hot_bath[1] && w.cold_bath[0] && w.battery[0]
}

/// The world after the first `k` rules of `rules`, in order.
pub open spec fn apply_prefix(rules: Seq<Rule>, k: int, w: WorldView) -> WorldView
    decreases rules, k,
{
    if k <= 0 || k > rules.len() {
        w
    } else {
        rules[k - 1].apply(apply_prefix(rules, k - 1, w))
    }
}

impl Rule {
    /// The world after one step of this rule.
    pub open spec fn apply(self, w: WorldView) -> WorldView
        decreases self, 0int,
    {
        match self {
            Rule::ProbeAndSwap => {
                if w.hot_bath[0] {
                    WorldView {
                        battery: w.battery.update(1, w.hot_bath[1]),
                        hot_bath: w.hot_bath.update(1, w.battery[1]),
                        ..w
                    }
                } else {
                    w
                }
            },
            Rule::FixedPermute(p) => WorldView {
                battery: apply_perm(p.battery@, w.battery),
                hot_bath: apply_perm(p.hot_bath@, w.hot_bath),
                cold_bath: apply_perm(p.cold_bath@, w.cold_bath),
                ..w
            },
            Rule::TimeVaryingPermute { seed, inverted } => {
                let key = permutation_key(seed, w.t, inverted);
                WorldView {
                    battery: timed_slot(key, inverted, w.battery),
                    hot_bath: timed_slot(key, inverted, w.hot_bath),
                    cold_bath: timed_slot(key, inverted, w.cold_bath),
                    ..w
                }
            },
            Rule::ConditionalSwap => {
                if pattern_a(w) || pattern_b(w) {
                    WorldView {
                        battery: w.battery.update(0, w.hot_bath[1]),
                        hot_bath: w.hot_bath.update(0, w.cold_bath[0]).update(1, w.battery[0]),
                        cold_bath: w.cold_bath.update(0, w.hot_bath[0]),
                        ..w
                    }
                } else {
                    w
                }
            },
            Rule::Composite(rules) => apply_prefix(rules@, rules@.len() as int, w),
        }
    }

    /// Each permutation this rule holds is a permutation of its own length.
    pub open spec fn well_formed(self) -> bool
        decreases self,
    {
        match self {
            Rule::FixedPermute(p) => {
                &&& is_permutation(p.battery@, p.battery@.len())
                &&& is_permutation(p.hot_bath@, p.hot_bath@.len())
                &&& is_permutation(p.cold_bath@, p.cold_bath@.len())
            },
            Rule::Composite(rules) => forall|i: int|
                #![trigger rules@[i]]
                0 <= i < rules@.len() ==> rules@[i].well_formed(),
            _ => true,
        }
    }

    /// The rule can step a world of the shape of `w`: the cells it reads
    /// exist, and each permutation it holds matches its slot.
    pub open spec fn fits(self, w: WorldView) -> bool
        decreases self,
    {
        match self {
            Rule::ProbeAndSwap => w.battery.len() >= 2 && w.hot_bath.len() >= 2,
            Rule::FixedPermute(p) => {
                &&& is_permutation(p.battery@, w.battery.len())
                &&& is_permutation(p.hot_bath@, w.hot_bath.len())
                &&& is_permutation(p.cold_bath@, w.cold_bath.len())
            },
            Rule::TimeVaryingPermute { .. } => true,
            Rule::ConditionalSwap => w.battery.len() >= 1 && w.hot_bath.len() >= 2
                && w.cold_bath.len() >= 1,
            Rule::Composite(rules) => forall|i: int|
                #![trigger rules@[i]]
                0 <= i < rules@.len() ==> rules@[i].fits(w),
        }
    }

    /// No timed permutation in this rule is inverted.
    pub open spec fn is_forward_timed(self) -> bool
        decreases self,
    {
        match self {
            Rule::TimeVaryingPermute { inverted, .. } => !inverted,
            Rule::Composite(rules) => forall|i: int|
                #![trigger rules@[i]]
                0 <= i < rules@.len() ==> rules@[i].is_forward_timed(),
            _ => true,
        }
    }

    /// `self` is the rule that `inverse` builds from `other`.
    pub open spec fn is_inverse_of(self, other: Rule) -> bool
        decreases self,
    {
        match self {
            Rule::ProbeAndSwap => other is ProbeAndSwap,
            Rule::FixedPermute(q) => match other {
                Rule::FixedPermute(p) => {
                    &&& q.battery@ == inverse_perm(p.battery@)
                    &&& q.hot_bath@ == inverse_perm(p.hot_bath@)
                    &&& q.cold_bath@ == inverse_perm(p.cold_bath@)
                },
                _ => false,
            },
            Rule::TimeVaryingPermute { seed, inverted } => match other {
                Rule::TimeVaryingPermute { seed: s, inverted: i } => seed == s && inverted == !i,
                _ => false,
            },
            Rule::ConditionalSwap => other is ConditionalSwap,
            Rule::Composite(qs) => match other {
                Rule::Composite(rs) => {
                    &&& qs@.len() == rs@.len()
                    &&& forall|i: int|
                        #![trigger qs@[i]]
                        0 <= i < qs@.len() ==> qs@[i].is_inverse_of(rs@[rs@.len() - 1 - i])
                },
                _ => false,
            },
        }
    }
}

/// The key for a timed permutation: `seed + t`, less one when inverted,
/// wrapped to 64 bits.
fn key_at(seed: u64, t: i64, inverted: bool) -> (k: u64)
    ensures
        k == permutation_key(seed, t as int, inverted),
{
    let k = seed.wrapping_add_signed(t);
    if inverted {
        k.wrapping_sub(1)
    } else {
        k
    }
}

/// Rearranges one slot by the permutation drawn from `key`, or by its inverse.
fn permute_timed(xs: &mut Vec<bool>, key: u64, inverted: bool)
    ensures
        final(xs)@ == timed_slot(key, inverted, old(xs)@),
{
    let perm = generate_random_permutation(xs.len(), key);
    if inverted {
        let inv = invert_permutation(&perm);
        permute(&inv, xs);
    } else {
        permute(&perm, xs);
    }
}

/// Exchanges `a[i]` with `b[j]`.
fn swap_cells(a: &mut Vec<bool>, i: usize, b: &mut Vec<bool>, j: usize)
    requires
        i < old(a).len(),
        j < old(b).len(),
    ensures
        final(a)@ == old(a)@.update(i as int, old(b)@[j as int]),
        final(b)@ == old(b)@.update(j as int, old(a)@[i as int]),
{
    let x = a[i];
    let y = b[j];
    a.set(i, y);
    b.set(j, x);
}

/// A rule keeps the tick and the length of every slot.
pub proof fn lemma_apply_keeps_shape(r: Rule, w: WorldView)
    requires
        r.fits(w),
    ensures
        r.apply(w).t == w.t,
        r.apply(w).same_shape(w),
    decreases r, 0int,
{
    match r {
        Rule::Composite(rules) => {
            lemma_prefix_keeps_shape(rules@, rules@.len() as int, w);
        },
        _ => {},
    }
}

/// A run of rules that all fit keeps the tick and the length of every slot.
pub proof fn lemma_prefix_keeps_shape(rules: Seq<Rule>, k: int, w: WorldView)
    requires
        forall|i: int| #![trigger rules[i]] 0 <= i < rules.len() ==> rules[i].fits(w),
    ensures
        apply_prefix(rules, k, w).t == w.t,
        apply_prefix(rules, k, w).same_shape(w),
    decreases rules, k,
{
    if 0 < k <= rules.len() {
        lemma_prefix_keeps_shape(rules, k - 1, w);
        let v = apply_prefix(rules, k - 1, w);
        lemma_fits_shape(rules[k - 1], w, v);
        lemma_apply_keeps_shape(rules[k - 1], v);
    }
}

/// Whether a rule fits depends on the lengths of the slots alone.
pub proof fn lemma_fits_shape(r: Rule, w: WorldView, v: WorldView)
    requires
        r.fits(w),
        v.same_shape(w),
    ensures
        r.fits(v),
    decreases r,
{
    match r {
        Rule::Composite(rules) => {
            assert forall|i: int| #![trigger rules@[i]] 0 <= i < rules@.len() implies rules@[i].fits(v) by {
                lemma_fits_shape(rules@[i], w, v);
            }
        },
        _ => {},
    }
}

impl Rule {
    /// Applies this rule to `world` once; the tick is left to the caller.
    pub fn step(&self, world: &mut World)
        requires
            self.fits(old(world)@),
        ensures
            final(world)@ == self.apply(old(world)@),
        decreases self,
    {
        match self {
            Rule::ProbeAndSwap => {
                if world.hot_bath[0] {
                    swap_cells(&mut world.battery, 1, &mut world.hot_bath, 1);
                }
            },
            Rule::FixedPermute(p) => {
                permute(&p.battery, &mut world.battery);
                permute(&p.hot_bath, &mut world.hot_bath);
                permute(&p.cold_bath, &mut world.cold_bath);
            },
            Rule::TimeVaryingPermute { seed, inverted } => {
                let key = key_at(*seed, world.t, *inverted);
                permute_timed(&mut world.battery, key, *inverted);
                permute_timed(&mut world.hot_bath, key, *inverted);
                permute_timed(&mut world.cold_bath, key, *inverted);
            },
            Rule::ConditionalSwap => {
                let h0 = world.hot_bath[0];
                let h1 = world.hot_bath[1];
                let c0 = world.cold_bath[0];
                let b0 = world.battery[0];
                if (h0 && h1 && !c0 && !b0) || (!h0 && !h1 && c0 && b0) {
                    swap_cells(&mut world.hot_bath, 0, &mut world.cold_bath, 0);
                    swap_cells(&mut world.hot_bath, 1, &mut world.battery, 0);
                }
            },
            Rule::Composite(rules) => {
                let ghost w0 = world@;
                let mut i: usize = 0;
                while i < rules.len()
                    invariant
                        *self == Rule::Composite(*rules),
                        i <= rules.len(),
                        forall|k: int| #![trigger rules@[k]] 0 <= k < rules@.len() ==> rules@[k].fits(w0),
                        world@ == apply_prefix(rules@, i as int, w0),
                    decreases rules.len() - i,
                {
                    proof {
                        lemma_prefix_keeps_shape(rules@, i as int, w0);
                        lemma_fits_shape(rules@[i as int], w0, world@);
                        assert(decreases_to!(*self => self->Composite_0@[i as int]));
                    }
                    rules[i].step(world);
                    i = i + 1;
                }
            },
        }
    }

    /// The rule that undoes one step of this one: each permutation inverted,
    /// the timed orientation flipped, a composite's inverses in reverse order.
    pub fn inverse(&self) -> (r: Rule)
        requires
            self.well_formed(),
        ensures
            r.is_inverse_of(*self),
            r.well_formed(),
        decreases self,
    {
        match self {
            Rule::ProbeAndSwap => Rule::ProbeAndSwap,
            Rule::FixedPermute(p) => {
                let battery = invert_permutation(&p.battery);
                let hot_bath = invert_permutation(&p.hot_bath);
                let cold_bath = invert_permutation(&p.cold_bath);
                Rule::FixedPermute(SlotPermutations { battery, hot_bath, cold_bath })
            },
            Rule::TimeVaryingPermute { seed, inverted } => Rule::TimeVaryingPermute {
                seed: *seed,
                inverted: !*inverted,
            },
            Rule::ConditionalSwap => Rule::ConditionalSwap,
            Rule::Composite(rules) => {
                let n = rules.len();
                let mut out: Vec<Rule> = Vec::new();
                let mut i: usize = n;
                while i > 0
                    invariant
                        *self == Rule::Composite(*rules),
                        i <= n,
                        n == rules.len(),
                        forall|k: int| #![trigger rules@[k]] 0 <= k < n ==> rules@[k].well_formed(),
                        out.len() == n - i,
                        forall|k: int|
                            #![trigger out@[k]]
                            0 <= k < out.len() ==> out@[k].is_inverse_of(rules@[n - 1 - k])
                                && out@[k].well_formed(),
                    decreases i,
                {
                    i = i - 1;
                    proof {
                        assert(decreases_to!(*self => self->Composite_0@[i as int]));
                    }
                    let r = rules[i].inverse();
                    out.push(r);
                }
                Rule::Composite(out)
            },
        }
    }
}


/// The inverse of a rule fits every world that the rule fits.
pub proof fn lemma_inverse_fits(r: Rule, inv: Rule, w: WorldView)
    requires
        r.fits(w),
        inv.is_inverse_of(r),
    ensures
        inv.fits(w),
    decreases inv,
{
    match inv {
        Rule::FixedPermute(q) => {
            let p = r->FixedPermute_0;
            lemma_inverse_is_permutation(p.battery@, w.battery.len());
            lemma_inverse_is_permutation(p.hot_bath@, w.hot_bath.len());
            lemma_inverse_is_permutation(p.cold_bath@, w.cold_bath.len());
        },
        Rule::Composite(qs) => {
            let rs = r->Composite_0;
            assert forall|i: int| #![trigger qs@[i]] 0 <= i < qs@.len() implies qs@[i].fits(w) by {
                let j = rs@.len() - 1 - i;
                assert(rs@[j].fits(w));
                lemma_inverse_fits(rs@[j], qs@[i], w);
            }
        },
        _ => {},
    }
}

proof fn lemma_round_trip(r: Rule, inv: Rule, w: WorldView)
    requires
        w.fits_in_memory(),
        r.fits(w),
        r.is_forward_timed(),
        inv.is_inverse_of(r),
    ensures
        inv.apply(r.apply(w).at(w.t + 1)) == w.at(w.t + 1),
    decreases r, 0int,
{
    let v = r.apply(w).at(w.t + 1);
    match r {
        Rule::ProbeAndSwap => {
            let u = inv.apply(v);
            assert(u.battery =~= w.battery);
            assert(u.hot_bath =~= w.hot_bath);
        },
        Rule::FixedPermute(p) => {
            lemma_inverse_undoes(p.battery@, w.battery);
            lemma_inverse_undoes(p.hot_bath@, w.hot_bath);
            lemma_inverse_undoes(p.cold_bath@, w.cold_bath);
        },
        Rule::TimeVaryingPermute { seed, inverted } => {
            let key = permutation_key(seed, w.t, false);
            assert(permutation_key(seed, w.t + 1, true) == key);
            lemma_generated_round_trip(w.battery.len(), key, w.battery);
            lemma_generated_round_trip(w.hot_bath.len(), key, w.hot_bath);
            lemma_generated_round_trip(w.cold_bath.len(), key, w.cold_bath);
        },
        Rule::ConditionalSwap => {
            let u = inv.apply(v);
            assert(u.battery =~= w.battery);
            assert(u.hot_bath =~= w.hot_bath);
            assert(u.cold_bath =~= w.cold_bath);
        },
        Rule::Composite(rules) => {
            let qs = inv->Composite_0;
            lemma_round_trip_prefix(rules@, qs@, rules@.len() as int, w);
        },
    }
}

proof fn lemma_round_trip_prefix(rs: Seq<Rule>, qs: Seq<Rule>, m: int, w: WorldView)
    requires
        w.fits_in_memory(),
        qs.len() == rs.len(),
        0 <= m <= rs.len(),
        forall|i: int| #![trigger rs[i]] 0 <= i < rs.len() ==> rs[i].fits(w) && rs[i].is_forward_timed(),
        forall|i: int| #![trigger qs[i]] 0 <= i < qs.len() ==> qs[i].is_inverse_of(rs[rs.len() - 1 - i]),
    ensures
        apply_prefix(qs, m, apply_prefix(rs, rs.len() as int, w).at(w.t + 1))
            == apply_prefix(rs, rs.len() - m, w).at(w.t + 1),
    decreases rs, m,
{
    if m > 0 {
        lemma_round_trip_prefix(rs, qs, m - 1, w);
        let j = rs.len() - m;
        let v = apply_prefix(rs, j, w);
        lemma_prefix_keeps_shape(rs, j, w);
        assert(rs[j].fits(w));
        lemma_fits_shape(rs[j], w, v);
        assert(qs[m - 1].is_inverse_of(rs[j]));
        lemma_round_trip(rs[j], qs[m - 1], v);
    }
}

/// Stepping a rule at tick `t`, moving to `t + 1`, stepping its inverse and
/// moving back to `t` restores the world exactly, for every rule whose timed
/// permutations run forward.
pub proof fn lemma_step_then_inverse(r: Rule, inv: Rule, w: WorldView)
    requires
        w.fits_in_memory(),
        r.fits(w),
        r.is_forward_timed(),
        inv.is_inverse_of(r),
    ensures
        inv.apply(r.apply(w).at(w.t + 1)).at(w.t) == w,
{
    lemma_round_trip(r, inv, w);
}

/// Two inverses of the same rule act alike on every world.
pub proof fn lemma_inverses_agree(a: Rule, b: Rule, r: Rule, w: WorldView)
    requires
        a.is_inverse_of(r),
        b.is_inverse_of(r),
    ensures
        a.apply(w) == b.apply(w),
    decreases a, 0int,
{
    match a {
        Rule::Composite(xs) => {
            let ys = b->Composite_0;
            let rs = r->Composite_0;
            lemma_inverses_agree_prefix(xs@, ys@, rs@, xs@.len() as int, w);
        },
        _ => {},
    }
}

proof fn lemma_inverses_agree_prefix(
    xs: Seq<Rule>,
    ys: Seq<Rule>,
    rs: Seq<Rule>,
    m: int,
    w: WorldView,
)
    requires
        xs.len() == rs.len(),
        ys.len() == rs.len(),
        0 <= m <= xs.len(),
        forall|i: int| #![trigger xs[i]] 0 <= i < xs.len() ==> xs[i].is_inverse_of(rs[rs.len() - 1 - i]),
        forall|i: int| #![trigger ys[i]] 0 <= i < ys.len() ==> ys[i].is_inverse_of(rs[rs.len() - 1 - i]),
    ensures
        apply_prefix(xs, m, w) == apply_prefix(ys, m, w),
    decreases xs, m,
{
    if m > 0 {
        lemma_inverses_agree_prefix(xs, ys, rs, m - 1, w);
        let v = apply_prefix(xs, m - 1, w);
        assert(xs[m - 1].is_inverse_of(rs[rs.len() - m]));
        assert(ys[m - 1].is_inverse_of(rs[rs.len() - m]));
        lemma_inverses_agree(xs[m - 1], ys[m - 1], rs[rs.len() - m], v);
    }
}

/// The inverse of a composite `[r1, ..., rk]` acts as the composite of
/// `[inverse of rk, ..., inverse of r1]`.
pub proof fn lemma_composite_reversal(c: Rule, inv: Rule, reversed: Seq<Rule>, w: WorldView)
    requires
        c is Composite,
        inv.is_inverse_of(c),
        reversed.len() == c->Composite_0@.len(),
        forall|i: int|
            #![trigger reversed[i]]
            0 <= i < reversed.len() ==> reversed[i].is_inverse_of(
                c->Composite_0@[reversed.len() - 1 - i],
            ),
    ensures
        inv.apply(w) == apply_prefix(reversed, reversed.len() as int, w),
{
    let qs = inv->Composite_0@;
    lemma_inverses_agree_prefix(qs, reversed, c->Composite_0@, reversed.len() as int, w);
}

/// The conditional swap turns the first trigger pattern into the second and
/// back, and leaves every other reading of its four cells unchanged.
pub proof fn lemma_conditional_swap_table(w: WorldView)
    requires
        Rule::ConditionalSwap.fits(w),
    ensures
        pattern_a(w) ==> pattern_b(Rule::ConditionalSwap.apply(w)),
        pattern_b(w) ==> pattern_a(Rule::ConditionalSwap.apply(w)),
        (pattern_a(w) || pattern_b(w)) <==> Rule::ConditionalSwap.apply(w) != w,
        Rule::ConditionalSwap.apply(Rule::ConditionalSwap.apply(w)) == w,
{
    let u = Rule::ConditionalSwap.apply(w);
    if pattern_a(w) || pattern_b(w) {
        assert(u.hot_bath[0] != w.hot_bath[0]);
        let x = Rule::ConditionalSwap.apply(u);
        assert(x.battery =~= w.battery);
        assert(x.hot_bath =~= w.hot_bath);
        assert(x.cold_bath =~= w.cold_bath);
    }
}


/// A timed permutation keeps the number of `true` cells of a slot.
proof fn lemma_timed_slot_keeps_count(key: u64, inverted: bool, s: Seq<bool>)
    requires
        s.len() <= usize::MAX,
    ensures
        crate::world::count_true(timed_slot(key, inverted, s)) == crate::world::count_true(s),
{
    let p = generated(s.len(), key);
    lemma_generated_is_permutation(s.len(), key);
    lemma_inverse_is_permutation(p, s.len());
    lemma_permutation_keeps_count(p, s);
    lemma_permutation_keeps_count(inverse_perm(p), s);
}

/// No rule creates or destroys a `true` cell: the total over all slots is
/// the same after a step.
pub proof fn lemma_apply_conserves(r: Rule, w: WorldView)
    requires
        w.fits_in_memory(),
        r.fits(w),
    ensures
        r.apply(w).total_true() == w.total_true(),
    decreases r, 0int,
{
    match r {
        Rule::ProbeAndSwap => {
            if w.hot_bath[0] {
                lemma_count_true_update(w.battery, 1, w.hot_bath[1]);
                lemma_count_true_update(w.hot_bath, 1, w.battery[1]);
            }
        },
        Rule::FixedPermute(p) => {
            lemma_permutation_keeps_count(p.battery@, w.battery);
            lemma_permutation_keeps_count(p.hot_bath@, w.hot_bath);
            lemma_permutation_keeps_count(p.cold_bath@, w.cold_bath);
        },
        Rule::TimeVaryingPermute { seed, inverted } => {
            let key = permutation_key(seed, w.t, inverted);
            lemma_timed_slot_keeps_count(key, inverted, w.battery);
            lemma_timed_slot_keeps_count(key, inverted, w.hot_bath);
            lemma_timed_slot_keeps_count(key, inverted, w.cold_bath);
        },
        Rule::ConditionalSwap => {
            if pattern_a(w) || pattern_b(w) {
                lemma_count_true_update(w.battery, 0, w.hot_bath[1]);
                lemma_count_true_update(w.hot_bath, 0, w.cold_bath[0]);
                lemma_count_true_update(w.hot_bath.update(0, w.cold_bath[0]), 1, w.battery[0]);
                lemma_count_true_update(w.cold_bath, 0, w.hot_bath[0]);
            }
        },
        Rule::Composite(rules) => {
            lemma_prefix_conserves(rules@, rules@.len() as int, w);
        },
    }
}

proof fn lemma_prefix_conserves(rules: Seq<Rule>, k: int, w: WorldView)
    requires
        w.fits_in_memory(),
        forall|i: int| #![trigger rules[i]] 0 <= i < rules.len() ==> rules[i].fits(w),
    ensures
        apply_prefix(rules, k, w).total_true() == w.total_true(),
    decreases rules, k,
{
    if 0 < k <= rules.len() {
        lemma_prefix_conserves(rules, k - 1, w);
        let v = apply_prefix(rules, k - 1, w);
        lemma_prefix_keeps_shape(rules, k - 1, w);
        assert(rules[k - 1].fits(w));
        lemma_fits_shape(rules[k - 1], w, v);
        lemma_apply_conserves(rules[k - 1], v);
    }
}


proof fn lemma_mirror_round_trip(r: Rule, inv: Rule, w: WorldView)
    requires
        w.fits_in_memory(),
        r.fits(w),
        r.is_forward_timed(),
        inv.is_inverse_of(r),
    ensures
        r.apply(inv.apply(w).at(w.t - 1)) == w.at(w.t - 1),
    decreases r, 0int,
{
    lemma_inverse_fits(r, inv, w);
    match r {
        Rule::ProbeAndSwap => {
            let u = r.apply(inv.apply(w).at(w.t - 1));
            assert(u.battery =~= w.battery);
            assert(u.hot_bath =~= w.hot_bath);
        },
        Rule::FixedPermute(p) => {
            lemma_inverse_then_permutation(p.battery@, w.battery);
            lemma_inverse_then_permutation(p.hot_bath@, w.hot_bath);
            lemma_inverse_then_permutation(p.cold_bath@, w.cold_bath);
        },
        Rule::TimeVaryingPermute { seed, inverted } => {
            let key = permutation_key(seed, w.t - 1, false);
            assert(permutation_key(seed, w.t, true) == key);
            lemma_generated_is_permutation(w.battery.len(), key);
            lemma_generated_is_permutation(w.hot_bath.len(), key);
            lemma_generated_is_permutation(w.cold_bath.len(), key);
            lemma_inverse_then_permutation(generated(w.battery.len(), key), w.battery);
            lemma_inverse_then_permutation(generated(w.hot_bath.len(), key), w.hot_bath);
            lemma_inverse_then_permutation(generated(w.cold_bath.len(), key), w.cold_bath);
        },
        Rule::ConditionalSwap => {
            let u = r.apply(inv.apply(w).at(w.t - 1));
            assert(u.battery =~= w.battery);
            assert(u.hot_bath =~= w.hot_bath);
            assert(u.cold_bath =~= w.cold_bath);
        },
        Rule::Composite(rules) => {
            let qs = inv->Composite_0;
            lemma_mirror_round_trip_prefix(rules@, qs@, rules@.len() as int, w);
        },
    }
}

proof fn lemma_mirror_round_trip_prefix(rs: Seq<Rule>, qs: Seq<Rule>, m: int, w: WorldView)
    requires
        w.fits_in_memory(),
        qs.len() == rs.len(),
        0 <= m <= rs.len(),
        forall|i: int| #![trigger rs[i]] 0 <= i < rs.len() ==> rs[i].fits(w) && rs[i].is_forward_timed(),
        forall|i: int| #![trigger qs[i]] 0 <= i < qs.len() ==> qs[i].is_inverse_of(rs[rs.len() - 1 - i]),
    ensures
        apply_prefix(rs, m, apply_prefix(qs, qs.len() as int, w).at(w.t - 1))
            == apply_prefix(qs, qs.len() - m, w).at(w.t - 1),
    decreases rs, m,
{
    if m > 0 {
        lemma_mirror_round_trip_prefix(rs, qs, m - 1, w);
        let j = qs.len() - m;
        let v = apply_prefix(qs, j, w);
        assert forall|i: int| #![trigger qs[i]] 0 <= i < qs.len() implies qs[i].fits(w) by {
            assert(rs[rs.len() - 1 - i].fits(w));
            lemma_inverse_fits(rs[rs.len() - 1 - i], qs[i], w);
        }
        lemma_prefix_keeps_shape(qs, j, w);
        assert(rs[m - 1].fits(w));
        lemma_fits_shape(rs[m - 1], w, v);
        assert(qs[j].is_inverse_of(rs[m - 1]));
        lemma_mirror_round_trip(rs[m - 1], qs[j], v);
    }
}

/// Stepping the inverse of a rule at tick `t`, moving to `t - 1`, stepping
/// the rule and moving back to `t` restores the world exactly, for every rule
/// whose timed permutations run forward: a world run backward under the
/// inverse is retraced by running it forward again.
pub proof fn lemma_inverse_then_step(r: Rule, inv: Rule, w: WorldView)
    requires
        w.fits_in_memory(),
        r.fits(w),
        r.is_forward_timed(),
        inv.is_inverse_of(r),
    ensures
        r.apply(inv.apply(w).at(w.t - 1)).at(w.t) == w,
{
    lemma_mirror_round_trip(r, inv, w);
}

} // verus!
