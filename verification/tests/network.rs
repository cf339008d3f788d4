use rand::rngs::StdRng;
use rand::Rng;
use rand::SeedableRng;
use std::collections::HashMap;
use std::collections::HashSet;
use std::collections::VecDeque;
use tower_sim::forks::{Fault, Forks};
use tower_sim::network::Network;
use tower_sim::bank::{Bank, NUM_NODES};
use tower_sim::node::Node;
use tower_sim::subcommittee::{hash, Phase, Subcommittee};
use tower_sim::tower::Tower;
use tower_sim::tower::{Vote, DEPTH};

fn reachable(forks: &Forks) -> usize {
    let mut count = 0;
    let mut stack = vec![forks.lowest_root.slot];
    while let Some(slot) = stack.pop() {
        count += 1;
        stack.extend_from_slice(&forks.fork_map[&slot].children);
    }
    count
}

#[test]
fn warmup_roots_a_slot() {
    let mut network = Network::default();
    for _ in 0..(2 * DEPTH) {
        assert_eq!(network.step(1), Ok(()));
    }
    assert_eq!(network.slot, 2 * DEPTH as u64);
    let bank = &network.forks.fork_map[&network.slot];
    assert!(bank.lowest_primary_root().slot > 0);
    assert!(bank.subcom.super_root > 0);
    // validators outside the subcommittees never vote: their roots stay
    // where they were, and with them the lowest root of all towers
    assert_eq!(bank.lowest_root().slot, 0);
    assert_eq!(network.lowest_root().slot, 0);
    assert_eq!(network.lowest_root(), network.forks.lowest_root);
}

#[test]
fn the_network_at_the_start() {
    let network = Network::default();
    assert_eq!(network.nodes.len(), NUM_NODES);
    assert!(network.nodes.iter().enumerate().all(|(i, n)| n.id == i));
    assert_eq!(network.slot, 0);
    assert!(network.partitioned_blocks.is_empty());
    assert_eq!(network.lowest_root(), Vote::zero());
    assert_eq!(network.forks.fork_map.len(), 1);
}

#[test]
fn the_first_slot() {
    let mut network = Network::default();
    let leader = (hash(0) % NUM_NODES as u64) as usize;
    assert_eq!(network.step(1), Ok(()));
    assert_eq!(network.slot, 1);
    assert_eq!(network.forks.fork_map[&1].parent, 0);
    assert!(network.nodes.iter().all(|n| n.blocks.contains(&1)));
    assert!(network.nodes[leader].blocks.contains(&1));
    assert!(network.partitioned_blocks.is_empty());
    assert_eq!(network.step(1), Ok(()));
    let bank = &network.forks.fork_map[&2];
    assert_eq!(bank.parent, 1);
    for id in bank.subcom.primary.iter() {
        assert_eq!(bank.nodes[*id].latest_vote(), Some(&Vote::new(1)));
        assert_eq!(network.nodes[*id].tower.latest_vote(), Some(&Vote::new(1)));
    }
    let outside = (0..NUM_NODES).find(|id| !bank.check_subcommittee(*id)).unwrap();
    assert_eq!(bank.nodes[outside].latest_vote(), None);
    assert_eq!(network.nodes[outside].tower.latest_vote(), None);
}

#[test]
fn two_runs_agree() {
    let mut one = Network::default();
    let mut two = Network::default();
    for step in 0..40 {
        let partitions = 1 + step % 3;
        assert_eq!(one.step(partitions), Ok(()));
        assert_eq!(two.step(partitions), Ok(()));
    }
    assert_eq!(one.slot, two.slot);
    assert_eq!(one.lowest_root(), two.lowest_root());
    assert_eq!(one.forks.roots, two.forks.roots);
    assert_eq!(one.forks.primary_fork_weights, two.forks.primary_fork_weights);
    let a: HashSet<u64> = one.forks.fork_map.keys().copied().collect();
    let b: HashSet<u64> = two.forks.fork_map.keys().copied().collect();
    assert_eq!(a, b);
    for (x, y) in one.nodes.iter().zip(two.nodes.iter()) {
        assert_eq!(x.tower, y.tower);
        assert_eq!(x.blocks, y.blocks);
        assert_eq!(x.heaviest_fork, y.heaviest_fork);
    }
    for slot in a {
        assert_eq!(one.forks.fork_map[&slot].nodes, two.forks.fork_map[&slot].nodes);
        assert_eq!(one.forks.fork_map[&slot].subcom.primary, two.forks.fork_map[&slot].subcom.primary);
    }
}

#[test]
fn the_same_partition() {
    let ranges = [(0, 10), (10, 20), (20, 30)];
    let marks = [true, false, true];
    assert!(Network::check_same_partition(&ranges, &marks, 1, 9));
    assert!(Network::check_same_partition(&ranges, &marks, 20, 29));
    assert!(!Network::check_same_partition(&ranges, &marks, 1, 10));
    assert!(!Network::check_same_partition(&ranges, &marks, 11, 12));
    assert!(!Network::check_same_partition(&ranges, &marks, 1, 25));
    assert!(!Network::check_same_partition(&ranges, &marks, 1, 30));
    assert!(Network::check_same_partition(&[], &[], 1, 900));
    assert!(!Network::check_same_partition(&ranges, &[true], 20, 21));
    assert!(Network::check_same_partition(&[(0, 10), (5, 30)], &[false, true], 9, 25));
}

#[test]
fn the_tree_holds_what_descends_from_the_lowest_root() {
    let mut network = Network::default();
    for made in 1..=48 {
        assert_eq!(network.step(1), Ok(()));
        let low = network.lowest_root().slot;
        assert_eq!(network.forks.fork_map.len(), reachable(&network.forks));
        assert_eq!(network.forks.fork_map.len(), made + 1);
        assert!(network.forks.roots.contains(&low));
        assert!(network.forks.fork_map.contains_key(&low));
        let weighed: HashSet<u64> = network.forks.primary_fork_weights.keys().copied().collect();
        let kept: HashSet<u64> = network.forks.fork_map.keys().copied().collect();
        assert_eq!(weighed, kept);
    }
}

#[test]
fn the_super_root_and_its_count_never_fall() {
    let mut network = Network::default();
    let mut last = (0, 0);
    for _ in 0..64 {
        assert_eq!(network.step(1), Ok(()));
        let bank = &network.forks.fork_map[&network.slot];
        let sub = &bank.subcom;
        assert!(sub.super_root >= sub.parent_super_root);
        assert!(sub.num_super_roots >= sub.parent_num_super_roots);
        assert_eq!(sub.num_super_roots > sub.parent_num_super_roots, sub.super_root > sub.parent_super_root);
        assert_eq!((sub.parent_super_root, sub.parent_num_super_roots), last);
        last = (sub.super_root, sub.num_super_roots);
    }
    assert!(last.1 >= 2);
}

#[test]
fn the_subcommittees_rotate_with_the_epochs() {
    let mut network = Network::default();
    let mut events = Vec::new();
    let mut before = Subcommittee::default();
    for _ in 0..64 {
        assert_eq!(network.step(1), Ok(()));
        let sub = &network.forks.fork_map[&network.slot].subcom;
        if sub.epoch() != before.epoch() {
            events.push(sub.phase());
            if sub.phase() == Phase::FlipPrimary {
                assert_eq!(sub.primary, before.secondary);
                assert_eq!(sub.secondary, before.primary);
            } else {
                assert_eq!(sub.primary, before.primary);
                assert_eq!(sub.secondary, Subcommittee::calc_subcommittee(sub.epoch()));
            }
        } else {
            assert_eq!(sub.primary, before.primary);
            assert_eq!(sub.secondary, before.secondary);
        }
        before = sub.child();
        before.parent_num_super_roots = sub.parent_num_super_roots;
        if events.len() == 2 {
            break;
        }
    }
    assert!(events == vec![Phase::SwapSecondary, Phase::FlipPrimary]);
}

#[test]
fn a_leader_behind_the_slot_is_a_fault() {
    let mut network = Network::default();
    network.nodes[5].heaviest_fork = [0, 7].into_iter().collect();
    assert_eq!(network.partition_step(&[(0, 1)], &[true], 5), Err(Fault::SlotNotAbove));
    assert_eq!(network.slot, 0);
    assert_eq!(network.forks.fork_map.len(), 1);
    assert!(network.partitioned_blocks.is_empty());
}

#[test]
fn a_block_made_in_a_cut_waits_for_the_repair() {
    let mut network = Network::default();
    assert_eq!(network.step(1), Ok(()));
    let ranges = [(0, 500), (500, 997)];
    assert_eq!(network.partition_step(&ranges, &[true, false], 3), Ok(()));
    assert_eq!(network.slot, 2);
    assert_eq!(network.partitioned_blocks, vec![(3, 2)]);
    assert!(network.nodes[0].blocks.contains(&2));
    assert!(network.nodes[499].blocks.contains(&2));
    assert!(!network.nodes[500].blocks.contains(&2));
    assert_eq!(network.partition_step(&ranges, &[false, true], 600), Ok(()));
    assert_eq!(network.forks.fork_map[&3].parent, 1);
    assert!(!network.nodes[600].blocks.contains(&2));
    assert!(network.nodes[600].blocks.contains(&3));
    assert_eq!(network.partitioned_blocks, vec![(3, 2), (600, 3)]);
    network.repair_partitions(&[], &[]);
    assert!(network.nodes.iter().all(|n| n.blocks.contains(&2) && n.blocks.contains(&3)));
    assert_eq!(network.step(1), Ok(()));
    assert_eq!(network.partitioned_blocks, vec![(3, 2), (600, 3)]);
}

#[test]
fn the_super_root_rises_after_four_groups_are_repaired() {
    let mut network = Network::default();
    for _ in 0..DEPTH {
        assert_eq!(network.step(1), Ok(()));
    }
    let mut primary: Vec<usize> = network.forks.latest_primary().into_iter().collect();
    primary.sort();
    let max = primary.len();
    let big = 2 * primary.len() / 3 - 1;
    let partitions = [
        (primary[0], primary[big]),
        (primary[big], primary[max - 2]),
        (primary[max - 2], primary[max - 1]),
        (primary[max - 1], primary[max - 1] + 1),
    ];
    let first = partitions[0].0;
    for _ in 0..4 {
        assert_eq!(network.partition_step(&partitions, &[true, false, false, false], first), Ok(()));
    }
    assert_eq!(network.forks.fork_map[&20].parent, 19);
    let last = partitions[3].0;
    network.repair_partitions(&partitions, &[true, false, false, true]);
    for _ in 0..12 {
        assert_eq!(network.partition_step(&partitions, &[false, false, false, true], last), Ok(()));
    }
    assert_eq!(network.forks.fork_map[&21].parent, 16);
    assert_eq!(network.forks.fork_map[&32].parent, 31);
    let second = partitions[1].0;
    network.repair_partitions(&partitions, &[true, true, false, false]);
    for _ in 0..64 {
        assert_eq!(network.partition_step(&partitions, &[false, true, false, false], second), Ok(()));
    }
    assert_eq!(network.forks.fork_map[&33].parent, 16);
    assert_eq!(network.partitioned_blocks.len(), 4 + 12 + 64);
    let root = network.forks.fork_map[&network.slot].lowest_primary_root();
    let super_root = network.forks.fork_map[&network.slot].subcom.super_root;
    for _ in 0..128 {
        assert_eq!(network.step(1), Ok(()));
    }
    let bank = &network.forks.fork_map[&network.slot];
    assert!(bank.lowest_primary_root().slot > root.slot);
    assert!(bank.subcom.super_root > super_root);
    assert_eq!(network.lowest_root().slot, 0);
    assert!(network.nodes.iter().all(|n| n.blocks.contains(&20) && n.blocks.contains(&32)));
}

#[test]
fn no_confirmed_slot_falls_below_the_lowest_root_under_churn() {
    let mut network = Network::default();
    let mut num_partitions = 1;
    let mut time: usize = 32;
    let mut partition_slot = 0;
    let mut repair_time = 8;
    let mut low = 0;
    let mut confirmed = 0;
    for slot in 0..200 {
        assert_eq!(network.step(num_partitions), Ok(()));
        assert!(network.lowest_root().slot >= low);
        low = network.lowest_root().slot;
        assert!(network.forks.roots.contains(&low));
        assert!(network.partitioned_blocks.iter().all(|(_, made)| *made >= low));
        assert!(network.oc_slots.iter().all(|s| *s >= low && !network.forks.roots.contains(s)));
        confirmed = confirmed.max(network.oc_slots.len());
        if num_partitions <= 1 && slot >= partition_slot + time && slot % time == 0 {
            let mut rng = StdRng::seed_from_u64(slot as u64);
            num_partitions = rng.gen_range(2..6);
            time = rng.gen_range(16..64);
            repair_time = rng.gen_range(1..16);
            partition_slot = slot;
        }
        if num_partitions > 1 && partition_slot + repair_time <= slot && slot % repair_time == 0 {
            num_partitions = num_partitions - 1;
        }
    }
    assert!(confirmed > 100);
}

#[test]
fn a_slot_made_in_pieces_is_the_slot_of_a_step() {
    let mut whole = Network::default();
    let mut pieces = Network::default();
    for round in 0..20 {
        let num_partitions = 1 + round % 4;
        assert_eq!(whole.step(num_partitions), Ok(()));
        let (partitions, active, leader) = pieces.plan(num_partitions);
        assert_eq!(leader, (hash(pieces.slot) % NUM_NODES as u64) as usize);
        assert_eq!(partitions.len(), num_partitions - 1);
        assert_eq!(partitions.len(), active.len());
        for (i, range) in partitions.iter().enumerate() {
            assert_eq!(*range, (i * (NUM_NODES / num_partitions), NUM_NODES));
            assert_eq!(active[i], range.0 <= leader);
        }
        pieces.repair_partitions(&partitions, &active);
        for id in 0..NUM_NODES {
            if Network::votes_in(&partitions, &active, id) {
                assert!(pieces.nodes[id].vote(&pieces.forks).is_ok());
            }
        }
        assert_eq!(pieces.produce_block(&partitions, &active, leader), Ok(()));
        assert_eq!(whole.slot, pieces.slot);
        assert_eq!(whole.lowest_root(), pieces.lowest_root());
        assert_eq!(whole.partitioned_blocks, pieces.partitioned_blocks);
        assert_eq!(whole.forks.primary_fork_weights, pieces.forks.primary_fork_weights);
    }
    for (x, y) in whole.nodes.iter().zip(pieces.nodes.iter()) {
        assert_eq!(x.tower, y.tower);
        assert_eq!(x.blocks, y.blocks);
    }
}

/// A network on a tree made by hand: the bank of slot 4 is the lowest
/// root, the bank of slot 5 its child; every tower is rooted at 4.
fn rooted_network() -> Network {
    let mut fork_map = HashMap::new();
    for (slot, parent) in [(4u64, 3u64), (5, 4)] {
        let mut bank = Bank::zero();
        bank.slot = slot;
        bank.parent = parent;
        for tower in bank.nodes.iter_mut() {
            tower.root = Vote { slot: 4, lockout: 1 << 16 };
        }
        fork_map.insert(slot, bank);
    }
    fork_map.get_mut(&4).unwrap().children.push(5);
    let mut forks = Forks {
        fork_map,
        primary_fork_weights: HashMap::new(),
        lowest_root: Vote { slot: 4, lockout: 1 << 16 },
        roots: [4].into_iter().collect(),
    };
    forks.build_fork_weights();
    let mut nodes = Vec::new();
    for id in 0..NUM_NODES {
        let mut node = Node::zero(id);
        node.tower = Tower { votes: VecDeque::new(), root: Vote { slot: 4, lockout: 1 << 16 } };
        node.blocks = [4, 5].into_iter().collect();
        node.heaviest_fork = [4].into_iter().collect();
        nodes.push(node);
    }
    Network { nodes, forks, slot: 5, partitioned_blocks: VecDeque::new(), oc_slots: HashSet::new() }
}

#[test]
fn a_fault_of_a_validator_halts_the_step() {
    let mut network = rooted_network();
    network.nodes[5].blocks = [0].into_iter().collect();
    assert_eq!(network.step(1), Err(Fault::RootOffFork));
    assert_eq!(network.slot, 5);
    assert_eq!(network.forks.fork_map.len(), 2);
    assert!(network.partitioned_blocks.is_empty());
    let fork: HashSet<u64> = [3, 4, 5].into_iter().collect();
    for id in 0..5 {
        assert_eq!(network.nodes[id].heaviest_fork, fork);
    }
    for id in 5..NUM_NODES {
        assert_eq!(network.nodes[id].heaviest_fork, [4].into_iter().collect());
        assert!(network.nodes[id].tower.votes.is_empty());
    }
}

#[test]
fn a_confirmed_slot_below_the_lowest_root_is_a_fault() {
    let mut network = rooted_network();
    network.oc_slots = [4].into_iter().collect();
    assert_eq!(network.step(1), Ok(()));
    assert_eq!(network.slot, 6);
    assert_eq!(network.oc_slots, [5].into_iter().collect());
    assert_eq!(network.step(1), Ok(()));
    assert_eq!(network.oc_slots, [5, 6].into_iter().collect());
    assert_eq!(network.lowest_root().slot, 4);
    let mut network = rooted_network();
    network.oc_slots = [2, 4].into_iter().collect();
    assert_eq!(network.step(1), Err(Fault::ConfirmedPruned));
    assert_eq!(network.slot, 6);
    assert_eq!(network.oc_slots, [2, 5].into_iter().collect());
    assert!(network.forks.fork_map.contains_key(&6));
}

#[test]
fn who_votes_within_the_partitions() {
    let ranges = [(0, 10), (10, 20), (20, 30)];
    let marks = [true, false, true];
    assert!(Network::votes_in(&ranges, &marks, 0));
    assert!(Network::votes_in(&ranges, &marks, 9));
    assert!(!Network::votes_in(&ranges, &marks, 10));
    assert!(Network::votes_in(&ranges, &marks, 29));
    assert!(!Network::votes_in(&ranges, &marks, 30));
    assert!(Network::votes_in(&[], &[], 500));
    assert!(!Network::votes_in(&ranges, &[true], 25));
}
