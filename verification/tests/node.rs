use std::collections::HashMap;
use std::collections::HashSet;
use std::collections::VecDeque;
use tower_sim::bank::{Bank, Block, NUM_NODES};
use tower_sim::forks::{Fault, Forks};
use tower_sim::node::{Decision, Node, MAX_BLOCKS, THRESHOLD, THRESHOLD_LOCKOUT};
use tower_sim::tower::{Tower, Vote};

fn slots(list: &[u64]) -> HashSet<u64> {
    list.iter().copied().collect()
}

fn tower_of(list: &[u64]) -> Tower {
    let mut t = Tower::default();
    for slot in list {
        assert_eq!(t.apply(&Vote::new(*slot)), Ok(()));
    }
    t
}

fn root_on(slot: u64) -> Tower {
    Tower { votes: VecDeque::new(), root: Vote { slot, lockout: 1 << 16 } }
}

fn lockouts(t: &Tower) -> Vec<(u64, u64)> {
    t.votes.iter().map(|v| (v.slot, v.lockout)).collect()
}

fn seated(forks: &Forks) -> usize {
    *forks.fork_map[&0].subcom.primary.iter().min().unwrap()
}

fn unseated(forks: &Forks) -> usize {
    let bank = &forks.fork_map[&0];
    (0..NUM_NODES).find(|id| !bank.check_subcommittee(*id)).unwrap()
}

/// A tree made by hand of `(slot, parent)` pairs, first the root, with the
/// subcommittees of the genesis bank and the weights computed.
fn hand_tree(edges: &[(u64, u64)]) -> Forks {
    let mut fork_map = HashMap::new();
    for (slot, parent) in edges {
        let mut bank = Bank::zero();
        bank.slot = *slot;
        bank.parent = *parent;
        fork_map.insert(*slot, bank);
    }
    for (slot, parent) in edges {
        if slot != parent {
            if let Some(bank) = fork_map.get_mut(parent) {
                bank.children.push(*slot);
            }
        }
    }
    let mut forks = Forks {
        fork_map,
        primary_fork_weights: HashMap::new(),
        lowest_root: Vote { slot: edges[0].0, lockout: 1 << 16 },
        roots: slots(&[edges[0].0]),
    };
    forks.build_fork_weights();
    forks
}

#[test]
fn thresholds() {
    assert_eq!(THRESHOLD, 6);
    assert_eq!(THRESHOLD_LOCKOUT, 1 << THRESHOLD);
    assert_eq!(MAX_BLOCKS, 1024);
}

#[test]
fn a_validator_at_the_start() {
    let node = Node::zero(5);
    assert_eq!(node.id, 5);
    assert_eq!(node.blocks, slots(&[0]));
    assert_eq!(node.heaviest_fork, slots(&[0]));
    assert_eq!(node.tower, Tower::default());
    assert_eq!(node.votes(), vec![Vote { slot: 0, lockout: 2 }]);
}

#[test]
fn seen_blocks_below_the_root_are_forgotten_once_there_are_too_many() {
    let mut node = Node::zero(1);
    node.tower = root_on(2000);
    for slot in 1..1024 {
        node.set_active_block(slot);
    }
    assert_eq!(node.blocks.len(), 1024);
    assert!(node.blocks.contains(&0));
    node.set_active_block(2000);
    assert_eq!(node.blocks, slots(&[2000]));
    let mut node = Node::zero(1);
    for slot in 1..2000 {
        node.set_active_block(slot);
    }
    assert_eq!(node.blocks.len(), 2000);
    node.tower = root_on(1990);
    node.gc();
    assert_eq!(node.blocks, (1990..2000).collect());
}

#[test]
fn the_votes_of_a_validator_are_fresh() {
    let mut node = Node::zero(1);
    node.tower = tower_of(&[3, 4, 6]);
    assert_eq!(lockouts(&node.tower), vec![(6, 2), (4, 4), (3, 8)]);
    assert_eq!(node.votes(), vec![Vote::new(0), Vote::new(3), Vote::new(4), Vote::new(6)]);
}

#[test]
fn a_block_holds_the_entries_that_end_on_the_heaviest_fork() {
    let mut node = Node::zero(1);
    node.heaviest_fork = slots(&[0, 2, 5]);
    assert_eq!(node.heaviest_slot(), 5);
    let votes = vec![
        (1, vec![Vote::new(0), Vote::new(2)]),
        (2, vec![Vote::new(3)]),
        (3, vec![]),
        (4, vec![Vote::new(9), Vote::new(5)]),
        (5, vec![Vote::new(5), Vote::new(9)]),
    ];
    let block = node.make_block(6, votes);
    assert_eq!(block.slot, 6);
    assert_eq!(block.parent, 5);
    assert_eq!(
        block.votes,
        vec![(1, vec![Vote::new(0), Vote::new(2)]), (4, vec![Vote::new(9), Vote::new(5)])]
    );
}

#[test]
fn the_lockout_check_wants_every_entry_on_the_heaviest_fork() {
    let mut node = Node::zero(1);
    node.heaviest_fork = slots(&[0, 2, 5]);
    assert!(node.lockout_check(&tower_of(&[2, 5])));
    assert!(node.lockout_check(&tower_of(&[5])));
    assert!(!node.lockout_check(&tower_of(&[2, 3, 5])));
    assert!(!node.lockout_check(&tower_of(&[7])));
    assert!(node.lockout_check(&Tower::default()));
}

#[test]
fn a_validator_outside_the_subcommittees_abstains() {
    let forks = Forks::default();
    let mut node = Node::zero(unseated(&forks));
    assert_eq!(node.vote(&forks), Ok(Decision::NotSeated));
    assert_eq!(node.tower, Tower::default());
    assert_eq!(node.heaviest_fork, slots(&[0]));
}

#[test]
fn a_vote_that_the_tower_rejects_is_not_cast() {
    let mut forks = Forks::default();
    let id = seated(&forks);
    let mut node = Node::zero(id);
    assert_eq!(node.vote(&forks), Ok(Decision::Stale));
    forks.apply(&Block { slot: 1, parent: 0, votes: vec![] });
    assert_eq!(node.vote(&forks), Ok(Decision::Stale));
    assert_eq!(node.tower, Tower::default());
}

#[test]
fn a_vote_is_cast_on_the_heaviest_slot_seen() {
    let mut forks = Forks::default();
    let id = seated(&forks);
    let mut node = Node::zero(id);
    forks.apply(&Block { slot: 1, parent: 0, votes: vec![] });
    forks.apply(&Block { slot: 2, parent: 1, votes: vec![] });
    node.set_active_block(1);
    assert_eq!(node.vote(&forks), Ok(Decision::Voted));
    assert_eq!(lockouts(&node.tower), vec![(1, 2)]);
    assert_eq!(node.heaviest_fork, slots(&[0, 1]));
    assert_eq!(node.vote(&forks), Ok(Decision::Stale));
    node.set_active_block(2);
    assert_eq!(node.vote(&forks), Ok(Decision::Voted));
    assert_eq!(lockouts(&node.tower), vec![(2, 2), (1, 4)]);
    assert_eq!(node.heaviest_fork, slots(&[0, 1, 2]));
}

#[test]
fn the_heavier_fork_wins_over_the_higher_slot() {
    let mut forks = Forks::default();
    let id = seated(&forks);
    forks.apply(&Block { slot: 1, parent: 0, votes: vec![] });
    let voted = Block { slot: 2, parent: 1, votes: vec![(id, vec![Vote::new(1)])] };
    forks.apply(&voted);
    forks.apply(&Block { slot: 3, parent: 0, votes: vec![] });
    let members = forks.fork_map[&0].subcom.primary.len();
    assert_eq!(forks.primary_fork_weights[&3], members - 1);
    assert_eq!(forks.primary_fork_weights[&2], members);
    let mut node = Node::zero(id);
    for slot in 1..4 {
        node.set_active_block(slot);
    }
    assert_eq!(node.vote(&forks), Ok(Decision::Voted));
    assert_eq!(lockouts(&node.tower), vec![(2, 2)]);
    assert_eq!(node.heaviest_fork, slots(&[0, 1, 2]));
}

#[test]
fn a_locked_out_validator_abstains() {
    let mut forks = Forks::default();
    let id = seated(&forks);
    let mut node = Node::zero(id);
    forks.apply(&Block { slot: 1, parent: 0, votes: vec![] });
    forks.apply(&Block { slot: 2, parent: 0, votes: vec![] });
    node.set_active_block(1);
    assert_eq!(node.vote(&forks), Ok(Decision::Voted));
    node.set_active_block(2);
    assert_eq!(node.vote(&forks), Ok(Decision::LockedOut));
    assert_eq!(lockouts(&node.tower), vec![(1, 2)]);
    assert_eq!(node.heaviest_fork, slots(&[0, 2]));
}

#[test]
fn a_lockout_past_the_threshold_needs_the_primary_behind_it() {
    let mut forks = Forks::default();
    let id = seated(&forks);
    let mut node = Node::zero(id);
    for slot in 1..=6u64 {
        let block = Block { slot, parent: slot - 1, votes: vec![(id, node.votes())] };
        forks.apply(&block);
        node.set_active_block(slot);
        let decision = node.vote(&forks);
        if slot < 6 {
            assert_eq!(decision, Ok(Decision::Voted));
            assert_eq!(node.tower.latest_vote(), Some(&Vote::new(slot)));
        } else {
            assert_eq!(decision, Ok(Decision::BelowThreshold));
        }
    }
    assert_eq!(lockouts(&node.tower), vec![(5, 2), (4, 4), (3, 8), (2, 16), (1, 32)]);
    assert_eq!(node.heaviest_fork, slots(&[0, 1, 2, 3, 4, 5, 6]));
}

#[test]
fn leaving_a_fork_needs_weight_on_other_forks() {
    let forks = hand_tree(&[(1, 0), (2, 1), (3, 1), (4, 3), (5, 4)]);
    assert!(forks.primary_fork_weights.values().all(|w| *w == 0));
    let mut node = Node::zero(seated(&Forks::default()));
    node.tower = tower_of(&[2]);
    for slot in 1..6 {
        node.set_active_block(slot);
    }
    assert_eq!(node.vote(&forks), Ok(Decision::NoSwitchProof));
    assert_eq!(lockouts(&node.tower), vec![(2, 2)]);
    assert_eq!(node.heaviest_fork, slots(&[0, 1, 3, 4, 5]));
}

#[test]
fn the_switch_proof_asks_for_more_than_a_third() {
    let forks = hand_tree(&[(1, 0), (2, 1), (3, 1), (4, 3), (5, 4), (6, 2)]);
    let mut node = Node::zero(3);
    node.tower = tower_of(&[2]);
    for slot in 1..7 {
        node.set_active_block(slot);
    }
    let new_fork = slots(&[0, 1, 3, 4, 5]);
    let mut weights: HashMap<u64, usize> =
        [(1, 1000), (2, 1000), (3, 100), (4, 200), (5, 32), (6, 1000)].into_iter().collect();
    assert_eq!(NUM_NODES / 3, 332);
    assert!(!node.optimistic_conf_check(&new_fork, &weights, &forks));
    weights.insert(5, 33);
    assert!(node.optimistic_conf_check(&new_fork, &weights, &forks));
    node.blocks.remove(&4);
    assert!(!node.optimistic_conf_check(&new_fork, &weights, &forks));
    assert!(node.optimistic_conf_check(&slots(&[0, 1, 2]), &weights, &forks));
    node.tower = Tower::default();
    assert!(node.optimistic_conf_check(&new_fork, &HashMap::new(), &forks));
}

#[test]
fn a_heaviest_fork_without_the_lowest_root_is_a_fault() {
    let forks = hand_tree(&[(4, 3), (5, 4)]);
    let mut node = Node::zero(seated(&Forks::default()));
    assert_eq!(node.vote(&forks), Err(Fault::RootOffFork));
    assert_eq!(node.heaviest_fork, slots(&[0]));
    assert_eq!(node.tower, Tower::default());
}

fn deep_bank() -> HashMap<u64, Bank> {
    let mut bank = Bank::zero();
    bank.slot = 7;
    bank.parent = 6;
    bank.subcom.primary = [0, 1, 2].into_iter().collect();
    bank.nodes[0] = tower_of(&[1, 2, 3, 4, 5, 6]);
    bank.nodes[1] = root_on(9);
    [(7, bank)].into_iter().collect()
}

#[test]
fn the_threshold_check_looks_at_every_raised_lockout() {
    let mut fork_map = deep_bank();
    let node = Node::zero(0);
    let tower = tower_of(&[1, 2, 3, 4, 5, 6, 7]);
    let raised = fork_map[&7].nodes[0].get_incrased_lockouts(THRESHOLD_LOCKOUT, &tower);
    let want: HashMap<u64, u64> = [(2, 64), (1, 128)].into_iter().collect();
    assert_eq!(raised, want);
    assert_eq!(node.threshold_check(&tower, &fork_map), Ok(false));
    fork_map.get_mut(&7).unwrap().nodes[2] = root_on(1);
    assert_eq!(node.threshold_check(&tower, &fork_map), Ok(false));
    fork_map.get_mut(&7).unwrap().nodes[2] = root_on(2);
    assert_eq!(node.threshold_check(&tower, &fork_map), Ok(true));
    assert_eq!(node.threshold_check(&tower_of(&[7]), &fork_map), Ok(true));
    assert_eq!(node.threshold_check(&tower_of(&[1, 2, 3, 7]), &fork_map), Ok(true));
}

#[test]
fn the_threshold_check_needs_a_vote_a_bank_and_towers_to_compare() {
    let fork_map = deep_bank();
    let node = Node::zero(0);
    assert_eq!(node.threshold_check(&Tower::default(), &fork_map), Err(Fault::NoVote));
    assert_eq!(node.threshold_check(&tower_of(&[9]), &fork_map), Err(Fault::NoBank));
    let other = Node::zero(5);
    let mut far = root_on(5);
    assert_eq!(far.apply(&Vote::new(7)), Ok(()));
    assert_eq!(other.threshold_check(&far, &fork_map), Err(Fault::Incomparable));
    assert_eq!(other.threshold_check(&tower_of(&[7]), &fork_map), Ok(true));
}
