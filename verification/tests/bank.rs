use std::collections::HashMap;
use std::collections::HashSet;
use std::collections::VecDeque;
use tower_sim::bank::{Bank, Block, NUM_NODES};
use tower_sim::subcommittee::Subcommittee;
use tower_sim::tower::{Tower, Vote};

fn tower_on_slots(slots: &[u64]) -> Tower {
    let mut t = Tower::default();
    for slot in slots {
        assert_eq!(t.apply(&Vote::new(*slot)), Ok(()));
    }
    t
}

fn rooted_at(slot: u64) -> Tower {
    Tower { votes: VecDeque::new(), root: Vote { slot, lockout: 1 << 16 } }
}

fn committee(bank: &mut Bank, primary: &[usize], secondary: &[usize]) {
    bank.subcom.primary = primary.iter().copied().collect();
    bank.subcom.secondary = secondary.iter().copied().collect();
}

fn slots_of(t: &Tower) -> Vec<(u64, u64)> {
    t.votes.iter().map(|v| (v.slot, v.lockout)).collect()
}

#[test]
fn the_genesis_bank() {
    let b = Bank::zero();
    assert_eq!(b.nodes.len(), NUM_NODES);
    assert!(b.nodes.iter().all(|t| *t == Tower::default()));
    assert_eq!(b.slot, 0);
    assert_eq!(b.parent, 0);
    assert!(b.frozen);
    assert!(b.children.is_empty());
    assert_eq!(b.subcom.primary, Subcommittee::default().primary);
    assert_eq!(b.subcom.secondary, Subcommittee::default().secondary);
    assert_eq!(b.subcom.super_root, 0);
}

#[test]
fn a_child_starts_from_the_towers_of_its_parent() {
    let mut parent = Bank::zero();
    parent.nodes[3] = tower_on_slots(&[1, 2]);
    let b = parent.child(4);
    assert_eq!(b.slot, 4);
    assert_eq!(b.parent, 0);
    assert!(!b.frozen);
    assert!(b.children.is_empty());
    assert_eq!(b.nodes, parent.nodes);
    assert_eq!(b.subcom.primary, parent.subcom.primary);
    assert_eq!(b.subcom.secondary, parent.subcom.secondary);
    assert_eq!(parent.children, vec![4]);
    let c = parent.spawn(9);
    assert_eq!(c.slot, 9);
    assert_eq!(parent.children, vec![4]);
    let _ = parent.child(6);
    assert_eq!(parent.children, vec![4, 6]);
}

#[test]
fn a_child_of_a_new_epoch_rotates() {
    let mut parent = Bank::zero();
    parent.slot = 8;
    committee(&mut parent, &[1, 2, 3], &[4, 5, 6]);
    parent.subcom.parent_num_super_roots = 1;
    parent.subcom.num_super_roots = 2;
    parent.subcom.super_root = 5;
    parent.subcom.parent_super_root = 4;
    let b = parent.child(9);
    assert_eq!(b.subcom.primary, [4, 5, 6].into_iter().collect());
    assert_eq!(b.subcom.secondary, [1, 2, 3].into_iter().collect());
    assert_eq!(b.subcom.parent_super_root, 5);
    assert_eq!(b.subcom.parent_num_super_roots, 2);
}

#[test]
fn apply_casts_the_votes_and_freezes() {
    let mut parent = Bank::zero();
    let mut b = parent.child(1);
    let block = Block {
        slot: 1,
        parent: 0,
        votes: vec![(3, vec![Vote::new(0), Vote::new(1)]), (5, vec![Vote::new(1)]), (7, vec![])],
    };
    let fork: HashSet<u64> = [0, 1].into_iter().collect();
    assert!(block.fits(&fork));
    b.apply(&block, &fork);
    assert!(b.frozen);
    assert_eq!(slots_of(&b.nodes[3]), vec![(1, 2)]);
    assert_eq!(slots_of(&b.nodes[5]), vec![(1, 2)]);
    for (id, t) in b.nodes.iter().enumerate() {
        if id != 3 && id != 5 {
            assert_eq!(*t, Tower::default());
        }
    }
    assert_eq!(b.subcom.super_root, 0);
    assert_eq!(b.subcom.num_super_roots, 0);
}

#[test]
fn a_vote_below_the_fork_does_not_fit() {
    let fork: HashSet<u64> = [5, 6].into_iter().collect();
    let below = Block { slot: 6, parent: 5, votes: vec![(3, vec![Vote::new(2), Vote::new(5)])] };
    assert!(!below.fits(&fork));
    let on = Block { slot: 6, parent: 5, votes: vec![(3, vec![Vote::new(5), Vote::new(6)])] };
    assert!(on.fits(&fork));
    let mut parent = Bank::zero();
    parent.slot = 5;
    let mut b = parent.child(6);
    b.apply(&on, &fork);
    assert_eq!(slots_of(&b.nodes[3]), vec![(6, 2), (5, 4)]);
}

#[test]
fn apply_takes_the_votes_of_an_entry_in_order() {
    let mut parent = Bank::zero();
    parent.slot = 3;
    let mut b = parent.child(4);
    let block = Block {
        slot: 4,
        parent: 3,
        votes: vec![
            (9, vec![Vote::new(2), Vote::new(1), Vote::new(3)]),
            (9, vec![Vote::new(4)]),
        ],
    };
    let fork: HashSet<u64> = [0, 1, 2, 3, 4].into_iter().collect();
    b.apply(&block, &fork);
    assert_eq!(slots_of(&b.nodes[9]), vec![(4, 2), (3, 4), (2, 8)]);
}

#[test]
fn freezing_raises_the_super_root_to_the_lower_super_root() {
    let mut parent = Bank::zero();
    parent.slot = 20;
    committee(&mut parent, &[0, 1, 2], &[3, 4, 5]);
    for (id, slot) in [(0usize, 4u64), (1, 5), (2, 6), (3, 2), (4, 3), (5, 9)] {
        parent.nodes[id] = rooted_at(slot);
    }
    let mut b = parent.child(21);
    let block = Block { slot: 21, parent: 20, votes: vec![] };
    let fork: HashSet<u64> = [20, 21].into_iter().collect();
    assert!(b.can_freeze());
    b.apply(&block, &fork);
    assert_eq!(b.primary_super_root().slot, 5);
    assert_eq!(b.secondary_super_root().slot, 3);
    assert_eq!(b.subcom.super_root, 3);
    assert_eq!(b.subcom.parent_super_root, 0);
    assert_eq!(b.subcom.num_super_roots, 1);
    assert_eq!(b.subcom.parent_num_super_roots, 0);
}

#[test]
fn the_threshold_counts_the_towers_that_back_a_vote() {
    let mut b = Bank::zero();
    committee(&mut b, &[0, 1, 2, 3], &[]);
    b.nodes[0] = rooted_at(10);
    b.nodes[1] = tower_on_slots(&[7]);
    b.nodes[2] = tower_on_slots(&[6]);
    b.nodes[4] = tower_on_slots(&[8]);
    let vote = Vote { slot: 5, lockout: 4 };
    assert_eq!(b.primary_calc_threshold_slot(1, &vote), 2);
    assert_eq!(b.primary_calc_threshold_slot(2, &vote), 3);
    assert_eq!(b.primary_calc_threshold_slot(0, &vote), 1);
    assert!(b.primary_threshold_slot(&vote));
    let last = Vote { slot: 5, lockout: 64 };
    assert_eq!(b.primary_calc_threshold_slot(0, &last), 3);
    assert!(b.primary_threshold_slot(&last));
    let late = Vote { slot: 7, lockout: 64 };
    assert_eq!(b.primary_calc_threshold_slot(64, &late), 2);
    assert!(!b.primary_threshold_slot(&late));
    let far = Vote { slot: 6, lockout: 200 };
    assert_eq!(b.primary_calc_threshold_slot(64, &far), 1);
    assert_eq!(b.primary_calc_threshold_slot(100, &far), 3);
    let huge = Vote { slot: u64::MAX, lockout: u64::MAX };
    assert_eq!(b.primary_calc_threshold_slot(u64::MAX, &huge), 0);
}

#[test]
fn the_threshold_asks_for_more_than_two_thirds() {
    let mut b = Bank::zero();
    committee(&mut b, &[0, 1, 2], &[]);
    b.nodes[0] = rooted_at(9);
    b.nodes[1] = rooted_at(9);
    let vote = Vote { slot: 5, lockout: 64 };
    assert_eq!(b.primary_calc_threshold_slot(64, &vote), 2);
    assert!(!b.primary_threshold_slot(&vote));
    b.nodes[2] = rooted_at(5);
    assert!(b.primary_threshold_slot(&vote));
}

#[test]
fn the_super_root_stands_at_a_third_of_the_primary() {
    let mut b = Bank::zero();
    committee(&mut b, &[10, 11, 12, 13, 14, 15], &[20, 21, 22, 23, 24, 25, 26]);
    for (i, id) in (10..16).enumerate() {
        b.nodes[id] = rooted_at(5 - i as u64);
    }
    for (i, id) in (20..27).enumerate() {
        b.nodes[id] = rooted_at(100 + 2 * i as u64);
    }
    assert_eq!(b.primary_super_root(), Vote { slot: 2, lockout: 1 << 16 });
    assert_eq!(b.secondary_super_root(), Vote { slot: 104, lockout: 1 << 16 });
    let set: HashSet<usize> = [10, 20, 21].into_iter().collect();
    assert_eq!(b.group_super_root(&set).slot, 102);
}

#[test]
fn the_secondary_super_root_is_read_at_the_position_of_the_primary() {
    let mut b = Bank::zero();
    committee(&mut b, &[10, 11, 12, 13, 14, 15], &[20, 21, 22]);
    for (i, id) in (20..23).enumerate() {
        b.nodes[id] = rooted_at(7 + i as u64);
    }
    assert!(b.can_freeze());
    assert_eq!(b.secondary_super_root().slot, 9);
    committee(&mut b, &[10, 11, 12], &[20, 21, 22]);
    assert_eq!(b.secondary_super_root().slot, 8);
    committee(&mut b, &[10, 11, 12, 13, 14, 15, 16, 17, 18], &[20, 21, 22]);
    assert!(!b.can_freeze());
}

#[test]
fn equal_roots_share_a_position() {
    let mut b = Bank::zero();
    committee(&mut b, &[1, 2, 3, 4, 5, 6], &[1]);
    for id in [1, 2, 3] {
        b.nodes[id] = rooted_at(4);
    }
    for id in [4, 5, 6] {
        b.nodes[id] = rooted_at(9);
    }
    assert_eq!(b.primary_super_root().slot, 4);
    b.nodes[3] = rooted_at(9);
    assert_eq!(b.primary_super_root().slot, 9);
}

#[test]
fn the_lowest_primary_root() {
    let mut b = Bank::zero();
    committee(&mut b, &[3, 4, 5], &[6]);
    b.nodes[3] = rooted_at(8);
    b.nodes[4] = rooted_at(2);
    b.nodes[5] = rooted_at(5);
    b.nodes[6] = rooted_at(1);
    assert_eq!(b.lowest_primary_root(), Vote { slot: 2, lockout: 1 << 16 });
}

#[test]
fn the_latest_votes_take_the_newest_slot() {
    let mut b = Bank::zero();
    committee(&mut b, &[0, 1, 5], &[2]);
    b.nodes[0] = tower_on_slots(&[4, 7]);
    b.nodes[1] = rooted_at(3);
    b.nodes[2] = tower_on_slots(&[9]);
    b.nodes[5] = tower_on_slots(&[6]);
    let mut seen: HashMap<usize, u64> = [(0, 9), (2, 1), (5, 2)].into_iter().collect();
    b.primary_latest_votes(&mut seen);
    let want: HashMap<usize, u64> = [(0, 9), (1, 3), (2, 1), (5, 6)].into_iter().collect();
    assert_eq!(seen, want);
    let mut none = HashMap::new();
    b.primary_latest_votes(&mut none);
    let want: HashMap<usize, u64> = [(0, 7), (1, 3), (5, 6)].into_iter().collect();
    assert_eq!(none, want);
}

#[test]
fn membership() {
    let mut b = Bank::zero();
    committee(&mut b, &[1, 2], &[2, 3]);
    assert!(b.check_primary(1));
    assert!(b.check_primary(2));
    assert!(!b.check_primary(3));
    assert!(b.check_subcommittee(1));
    assert!(b.check_subcommittee(3));
    assert!(!b.check_subcommittee(4));
}

#[test]
fn a_block_fits_its_fork() {
    let fork: HashSet<u64> = [4, 5, 7].into_iter().collect();
    let good = Block {
        slot: 7,
        parent: 5,
        votes: vec![(1, vec![Vote::new(4), Vote::new(5)]), (996, vec![Vote::new(7)]), (5, vec![])],
    };
    assert!(good.fits(&fork));
    let off = Block { slot: 7, parent: 5, votes: vec![(1, vec![Vote::new(6)])] };
    assert!(!off.fits(&fork));
    let above = Block { slot: 7, parent: 5, votes: vec![(1, vec![Vote::new(8)])] };
    assert!(!above.fits(&fork));
    let below = Block { slot: 7, parent: 5, votes: vec![(1, vec![Vote::new(3)])] };
    assert!(!below.fits(&fork));
    let stale = Block { slot: 7, parent: 5, votes: vec![(1, vec![Vote { slot: 5, lockout: 4 }])] };
    assert!(!stale.fits(&fork));
    let nobody = Block { slot: 7, parent: 5, votes: vec![(997, vec![])] };
    assert!(!nobody.fits(&fork));
}

#[test]
fn the_lowest_root_is_taken_over_all_towers() {
    let mut b = Bank::zero();
    committee(&mut b, &[3, 4, 5], &[6]);
    for id in 0..NUM_NODES {
        b.nodes[id] = rooted_at(20 + id as u64 % 7);
    }
    assert_eq!(b.lowest_root(), Vote { slot: 20, lockout: 1 << 16 });
    b.nodes[3] = rooted_at(8);
    b.nodes[4] = rooted_at(12);
    assert_eq!(b.lowest_root().slot, 8);
    assert_eq!(b.lowest_primary_root().slot, 8);
    b.nodes[900] = rooted_at(5);
    assert_eq!(b.lowest_root().slot, 5);
    assert_eq!(b.lowest_primary_root().slot, 8);
    assert_eq!(Bank::zero().lowest_root(), Vote::zero());
}

#[test]
fn the_slots_that_are_optimistically_confirmed() {
    let mut b = Bank::zero();
    committee(&mut b, &[0, 1, 2, 3], &[0]);
    assert_eq!(b.oc_slots(), HashSet::new());
    b.nodes[0] = tower_on_slots(&[3, 5, 7]);
    b.nodes[1] = tower_on_slots(&[3, 5]);
    b.nodes[2] = tower_on_slots(&[4, 6]);
    b.nodes[9] = tower_on_slots(&[1, 2]);
    assert_eq!(b.oc_slots(), [3, 4, 5].into_iter().collect());
    b.nodes[3] = rooted_at(7);
    assert_eq!(b.oc_slots(), [3, 4, 5, 6].into_iter().collect());
    b.nodes[3] = tower_on_slots(&[8]);
    assert_eq!(b.oc_slots(), [3, 4, 5, 6].into_iter().collect());
    b.nodes[1] = tower_on_slots(&[9]);
    assert_eq!(b.oc_slots(), [3, 4, 5, 6, 7].into_iter().collect());
}

#[test]
fn after_a_flip_the_primary_can_stand_below_the_inherited_super_root() {
    let mut parent = Bank::zero();
    parent.slot = 30;
    committee(&mut parent, &[0, 1, 2, 3, 4, 5], &[6, 7, 8]);
    for id in 0..6 {
        parent.nodes[id] = rooted_at(10);
    }
    for (id, slot) in [(6usize, 1u64), (7, 2), (8, 9)] {
        parent.nodes[id] = rooted_at(slot);
    }
    let mut first = parent.spawn(31);
    let fork: HashSet<u64> = [30, 31].into_iter().collect();
    first.apply(&Block { slot: 31, parent: 30, votes: vec![] }, &fork);
    assert_eq!(first.primary_super_root().slot, 10);
    assert_eq!(first.secondary_super_root().slot, 9);
    assert_eq!(first.subcom.super_root, 9);
    assert_eq!(first.subcom.num_super_roots, 1);
    first.subcom.num_super_roots = 2;
    let mut second = first.spawn(32);
    assert_eq!(second.subcom.primary, [6, 7, 8].into_iter().collect());
    let fork: HashSet<u64> = [30, 31, 32].into_iter().collect();
    second.apply(&Block { slot: 32, parent: 31, votes: vec![] }, &fork);
    assert_eq!(second.subcom.parent_super_root, 9);
    assert_eq!(second.primary_super_root().slot, 2);
    assert_eq!(second.subcom.super_root, 9);
}
