use reversible_world::permutation::generate_random_permutation;
use reversible_world::rule::{Rule, SlotPermutations};
use reversible_world::world::{sumbools, World};

fn total(w: &World) -> usize {
    sumbools(&w.battery) + sumbools(&w.hot_bath) + sumbools(&w.cold_bath)
}

fn sample_world(t: i64) -> World {
    World {
        t,
        battery: vec![true, false, true, true, false],
        hot_bath: vec![true, true, false, false, true, false, true],
        cold_bath: vec![false, true, false, false],
    }
}

fn fixed_permute(seed: u64) -> Rule {
    Rule::FixedPermute(SlotPermutations {
        battery: generate_random_permutation(5, seed),
        hot_bath: generate_random_permutation(7, seed + 1),
        cold_bath: generate_random_permutation(4, seed + 2),
    })
}

fn all_rules() -> Vec<Rule> {
    vec![
        Rule::ProbeAndSwap,
        fixed_permute(11),
        Rule::TimeVaryingPermute { seed: 3, inverted: false },
        Rule::ConditionalSwap,
        Rule::Composite(vec![
            Rule::ConditionalSwap,
            Rule::TimeVaryingPermute { seed: 9, inverted: false },
            Rule::Composite(vec![Rule::ProbeAndSwap, fixed_permute(4)]),
        ]),
    ]
}

#[test]
fn test_inverse() {
    let mut world = World {
        t: 0,
        battery: [false, true, false, true, false, true, false, true, false, true].to_vec(),
        hot_bath: [true, false, true, false, true, false, true, false, true, false].to_vec(),
        cold_bath: [false; 10].to_vec(),
    };
    let permute = Rule::TimeVaryingPermute { seed: 0, inverted: false };
    permute.step(&mut world);
    world.t += 1;
    permute.inverse().step(&mut world);
    world.t -= 1;
    assert_eq!(
        world,
        World {
            t: 0,
            battery: [false, true, false, true, false, true, false, true, false, true].to_vec(),
            hot_bath: [true, false, true, false, true, false, true, false, true, false].to_vec(),
            cold_bath: [false; 10].to_vec(),
        }
    );
}

#[test]
fn every_rule_is_undone_by_its_inverse() {
    for t in [-5i64, 0, 17] {
        for rule in all_rules() {
            let before = sample_world(t);
            let mut w = before.clone();
            rule.step(&mut w);
            w.t += 1;
            rule.inverse().step(&mut w);
            w.t -= 1;
            assert_eq!(w, before);
        }
    }
}

#[test]
fn probe_and_swap_exchanges_when_hot_cell_is_set() {
    let mut w = sample_world(0);
    Rule::ProbeAndSwap.step(&mut w);
    assert_eq!(w.battery, vec![true, true, true, true, false]);
    assert_eq!(w.hot_bath, vec![true, false, false, false, true, false, true]);

    let mut w = sample_world(0);
    w.hot_bath[0] = false;
    let before = w.clone();
    Rule::ProbeAndSwap.step(&mut w);
    assert_eq!(w, before);
}

#[test]
fn conditional_swap_table() {
    let mut triggered = 0;
    for bits in 0..16u32 {
        let h0 = bits & 1 != 0;
        let h1 = bits & 2 != 0;
        let c0 = bits & 4 != 0;
        let b0 = bits & 8 != 0;
        let before = World {
            t: 0,
            battery: vec![b0, true],
            hot_bath: vec![h0, h1, true],
            cold_bath: vec![c0, false],
        };
        let mut w = before.clone();
        Rule::ConditionalSwap.step(&mut w);
        let a = (h0, h1, c0, b0) == (true, true, false, false);
        let b = (h0, h1, c0, b0) == (false, false, true, true);
        if a || b {
            triggered += 1;
            let read = (w.hot_bath[0], w.hot_bath[1], w.cold_bath[0], w.battery[0]);
            assert_eq!(read, (!h0, !h1, !c0, !b0));
            assert_eq!(w.battery[1], true);
            assert_eq!(w.hot_bath[2], true);
            assert_eq!(w.cold_bath[1], false);
        } else {
            assert_eq!(w, before);
        }
        Rule::ConditionalSwap.step(&mut w);
        assert_eq!(w, before);
    }
    assert_eq!(triggered, 2);
}

#[test]
fn fixed_permute_inverse_holds_inverted_permutations() {
    let rule = Rule::FixedPermute(SlotPermutations {
        battery: vec![1, 0],
        hot_bath: vec![2, 0, 1],
        cold_bath: vec![0],
    });
    match rule.inverse() {
        Rule::FixedPermute(p) => {
            assert_eq!(p.battery, vec![1, 0]);
            assert_eq!(p.hot_bath, vec![1, 2, 0]);
            assert_eq!(p.cold_bath, vec![0]);
        }
        _ => panic!("the inverse of a fixed permutation is a fixed permutation"),
    }
    let mut w = World {
        t: 0,
        battery: vec![true, false],
        hot_bath: vec![true, false, false],
        cold_bath: vec![true],
    };
    rule.step(&mut w);
    assert_eq!(w.battery, vec![false, true]);
    assert_eq!(w.hot_bath, vec![false, true, false]);
}

#[test]
fn timed_permute_inverse_flips_orientation() {
    match (Rule::TimeVaryingPermute { seed: 5, inverted: false }).inverse() {
        Rule::TimeVaryingPermute { seed, inverted } => {
            assert_eq!(seed, 5);
            assert!(inverted);
        }
        _ => panic!("the inverse of a timed permutation is a timed permutation"),
    }
}

#[test]
fn timed_permute_depends_on_the_tick() {
    let mut a = World {
        t: 0,
        battery: vec![true, false],
        hot_bath: (0..40).map(|i| i % 3 == 0).collect(),
        cold_bath: vec![false, true, false],
    };
    let mut b = a.clone();
    b.t = 1;
    let rule = Rule::TimeVaryingPermute { seed: 1, inverted: false };
    rule.step(&mut a);
    rule.step(&mut b);
    assert_ne!(a.hot_bath, b.hot_bath);
}

#[test]
fn composite_inverse_reverses_the_order() {
    for k in 1..=4usize {
        let make = || -> Vec<Rule> {
            (0..k)
                .map(|i| match i % 4 {
                    0 => Rule::ConditionalSwap,
                    1 => Rule::TimeVaryingPermute { seed: i as u64, inverted: false },
                    2 => fixed_permute(i as u64),
                    _ => Rule::ProbeAndSwap,
                })
                .collect()
        };
        let composite = Rule::Composite(make());
        let reversed = Rule::Composite(make().iter().rev().map(|r| r.inverse()).collect());
        let inverse = composite.inverse();
        for t in [0i64, 3] {
            let mut x = sample_world(t);
            let mut y = sample_world(t);
            inverse.step(&mut x);
            reversed.step(&mut y);
            assert_eq!(x, y);
        }
    }
}

#[test]
fn every_rule_keeps_the_number_of_true_cells() {
    for rule in all_rules() {
        let mut w = sample_world(2);
        let start = total(&w);
        for _ in 0..20 {
            rule.step(&mut w);
            w.t += 1;
            assert_eq!(total(&w), start);
        }
        let inverse = rule.inverse();
        inverse.step(&mut w);
        assert_eq!(total(&w), start);
    }
}

fn scenario_start() -> World {
    let mut hot_bath = vec![true; 100];
    hot_bath.extend(vec![false; 100]);
    World::new(vec![false; 20], hot_bath, vec![false; 200]).unwrap()
}

fn scenario_trace(ticks: i64) -> Vec<World> {
    let rules = Rule::Composite(vec![
        Rule::ConditionalSwap,
        Rule::TimeVaryingPermute { seed: 42, inverted: false },
    ]);
    let mut world = scenario_start();
    let mut trace = vec![world.clone()];
    for _ in 0..ticks {
        rules.step(&mut world);
        world.t += 1;
        trace.push(world.clone());
    }
    trace
}

#[test]
fn scenario_is_reproducible_conserving_and_reversible() {
    let ticks = 1000;
    let first = scenario_trace(ticks);
    let second = scenario_trace(ticks);
    assert_eq!(first, second);
    for w in &first {
        assert_eq!(total(w), 100);
    }

    let rules = Rule::Composite(vec![
        Rule::ConditionalSwap,
        Rule::TimeVaryingPermute { seed: 42, inverted: false },
    ]);
    let inv_rules = rules.inverse();
    let mut world = first[ticks as usize].clone();
    for _ in 0..ticks {
        inv_rules.step(&mut world);
        world.t -= 1;
        assert_eq!(world, first[world.t as usize]);
    }
    assert_eq!(world, scenario_start());

    let mut mirror = scenario_start();
    for _ in 0..ticks {
        inv_rules.step(&mut mirror);
        mirror.t -= 1;
        assert_eq!(total(&mirror), 100);
    }
    for _ in 0..ticks {
        rules.step(&mut mirror);
        mirror.t += 1;
    }
    assert_eq!(mirror, scenario_start());
}
