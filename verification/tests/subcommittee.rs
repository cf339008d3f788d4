use rand::rngs::StdRng;
use rand::Rng;
use rand::SeedableRng;
use std::collections::hash_map::DefaultHasher;
use std::collections::HashSet;
use std::hash::{Hash, Hasher};
use tower_sim::bank::NUM_NODES;
use tower_sim::subcommittee::{hash, Phase, Subcommittee, SUBCOMMITTEE_EPOCH, SUBCOMMITTEE_SIZE};

fn drawn(epoch: u64) -> HashSet<usize> {
    let mut set = HashSet::new();
    let mut rng = StdRng::seed_from_u64(epoch);
    for _ in 0..SUBCOMMITTEE_SIZE {
        set.insert(rng.gen_range(0..NUM_NODES));
    }
    set
}

fn with_sets(primary: &[usize], secondary: &[usize]) -> Subcommittee {
    Subcommittee {
        primary: primary.iter().copied().collect(),
        secondary: secondary.iter().copied().collect(),
        num_super_roots: 0,
        parent_num_super_roots: 0,
        super_root: 0,
        parent_super_root: 0,
    }
}

#[test]
fn constants() {
    assert_eq!(NUM_NODES, 997);
    assert_eq!(SUBCOMMITTEE_SIZE, 200);
    assert_eq!(SUBCOMMITTEE_EPOCH, 1);
}

#[test]
fn the_first_subcommittees_are_drawn_from_seed_zero() {
    let sub = Subcommittee::default();
    let want = drawn(0);
    assert_eq!(sub.primary, want);
    assert_eq!(sub.secondary, want);
    assert!(sub.primary.len() <= SUBCOMMITTEE_SIZE);
    assert!(sub.primary.len() > SUBCOMMITTEE_SIZE / 2);
    assert!(sub.primary.iter().all(|id| *id < NUM_NODES));
    assert_eq!(sub.num_super_roots, 0);
    assert_eq!(sub.parent_num_super_roots, 0);
    assert_eq!(sub.super_root, 0);
    assert_eq!(sub.parent_super_root, 0);
}

#[test]
fn the_subcommittee_of_an_epoch_is_drawn_from_its_seed() {
    for epoch in [1u64, 2, 3, 17] {
        assert_eq!(Subcommittee::calc_subcommittee(epoch), drawn(epoch));
    }
    assert_ne!(Subcommittee::calc_subcommittee(1), Subcommittee::calc_subcommittee(3));
    assert_eq!(Subcommittee::calc_subcommittee(5), Subcommittee::calc_subcommittee(5));
}

#[test]
fn hash_is_the_default_hash_of_the_value() {
    for val in [0u64, 1, 5, 996, u64::MAX] {
        let mut h = DefaultHasher::new();
        h.write(&val.to_le_bytes());
        assert_eq!(hash(val), h.finish());
        assert_eq!(hash(val), hash(val));
    }
    assert_ne!(hash(1), hash(2));
    if 7u64.to_ne_bytes() == 7u64.to_le_bytes() {
        let mut h = DefaultHasher::new();
        7u64.hash(&mut h);
        assert_eq!(hash(7), h.finish());
    }
}

#[test]
fn a_child_inherits_and_starts_from_the_parent() {
    let mut parent = with_sets(&[1, 2, 3], &[4, 5]);
    parent.num_super_roots = 7;
    parent.parent_num_super_roots = 6;
    parent.super_root = 40;
    parent.parent_super_root = 33;
    let child = parent.child();
    assert_eq!(child.primary, parent.primary);
    assert_eq!(child.secondary, parent.secondary);
    assert_eq!(child.num_super_roots, 7);
    assert_eq!(child.parent_num_super_roots, 7);
    assert_eq!(child.super_root, 40);
    assert_eq!(child.parent_super_root, 40);
}

#[test]
fn an_even_epoch_flips_the_subcommittees() {
    let mut parent = with_sets(&[1, 2, 3], &[4, 5]);
    parent.parent_num_super_roots = 1;
    parent.num_super_roots = 2;
    parent.super_root = 9;
    let mut child = parent.child();
    assert_eq!(child.epoch(), 2);
    assert!(child.phase() == Phase::FlipPrimary);
    child.init_child(&parent);
    assert_eq!(child.primary, [4, 5].into_iter().collect());
    assert_eq!(child.secondary, [1, 2, 3].into_iter().collect());
    assert_eq!(child.num_super_roots, 2);
    assert_eq!(child.super_root, 9);
}

#[test]
fn an_odd_epoch_draws_the_secondary_anew() {
    let mut parent = with_sets(&[1, 2, 3], &[4, 5]);
    parent.parent_num_super_roots = 0;
    parent.num_super_roots = 1;
    parent.super_root = 3;
    let mut child = parent.child();
    assert_eq!(child.epoch(), 1);
    assert!(child.phase() == Phase::SwapSecondary);
    child.init_child(&parent);
    assert_eq!(child.primary, [1, 2, 3].into_iter().collect());
    assert_eq!(child.secondary, drawn(1));
}

#[test]
fn within_an_epoch_nothing_rotates() {
    let mut parent = with_sets(&[1, 2, 3], &[4, 5]);
    parent.parent_num_super_roots = 4;
    parent.num_super_roots = 4;
    parent.parent_super_root = 11;
    parent.super_root = 11;
    let mut child = parent.child();
    child.init_child(&parent);
    assert_eq!(child.primary, parent.primary);
    assert_eq!(child.secondary, parent.secondary);
}

#[test]
fn freeze_raises_the_super_root_to_the_lower_of_the_two() {
    let mut sub = with_sets(&[1], &[2]);
    sub.super_root = 5;
    sub.parent_super_root = 5;
    sub.num_super_roots = 3;
    sub.parent_num_super_roots = 3;
    sub.freeze(9, 7);
    assert_eq!(sub.super_root, 7);
    assert_eq!(sub.num_super_roots, 4);
    assert_eq!(sub.parent_super_root, 5);
    assert_eq!(sub.parent_num_super_roots, 3);
    sub.freeze(3, 100);
    assert_eq!(sub.super_root, 7);
    assert_eq!(sub.num_super_roots, 4);
    sub.freeze(7, 7);
    assert_eq!(sub.super_root, 7);
    assert_eq!(sub.num_super_roots, 4);
    sub.freeze(8, 12);
    assert_eq!(sub.super_root, 8);
    assert_eq!(sub.num_super_roots, 5);
}

#[test]
fn the_phase_follows_the_epoch() {
    let mut sub = with_sets(&[1], &[2]);
    for count in 0..6u64 {
        sub.parent_num_super_roots = count;
        sub.num_super_roots = count;
        sub.parent_super_root = count;
        sub.super_root = count;
        assert_eq!(sub.epoch(), count / SUBCOMMITTEE_EPOCH);
        let want = if count % 2 == 0 { Phase::FlipPrimary } else { Phase::SwapSecondary };
        assert!(sub.phase() == want);
    }
}

#[test]
fn the_count_of_super_roots_stays_at_or_below_the_super_root() {
    let mut sub = with_sets(&[1], &[2]);
    let mut slot = 0;
    for round in 0..50u64 {
        slot += 1 + round % 3;
        sub.freeze(slot, slot + round % 2);
        assert_eq!(sub.super_root, slot);
        assert_eq!(sub.num_super_roots, round + 1);
        assert!(sub.num_super_roots <= sub.super_root);
        sub.freeze(slot - 1, slot);
        assert_eq!(sub.super_root, slot);
        sub = sub.child();
    }
    let mut top = with_sets(&[1], &[2]);
    top.super_root = u64::MAX - 1;
    top.parent_super_root = u64::MAX - 1;
    top.freeze(u64::MAX, u64::MAX);
    assert_eq!(top.super_root, u64::MAX);
    assert_eq!(top.num_super_roots, 1);
}
