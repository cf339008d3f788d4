//! The local voting policy of a validator.

use crate::bank::Bank;
use crate::bank::BankView;
use crate::bank::entry_views;
use crate::bank::Block;
use crate::bank::BlockView;
use crate::bank::ID;
use crate::bank::NUM_NODES;
use crate::forks::ancestors;
use crate::forks::bank_views;
use crate::forks::is_forest;
use crate::forks::Fault;
use crate::forks::Forks;
use crate::forks::ForksView;
use crate::sets::keys_of;
use crate::sets::members;
use crate::tower::at_least;
use crate::tower::fresh;
use crate::tower::replayed;
use crate::tower::Slot;
use crate::tower::Tower;
use crate::tower::TowerView;
use crate::tower::Vote;
use crate::tower::FRESH_LOCKOUT;
use std::collections::HashMap;
use std::collections::HashSet;
use vstd::prelude::*;
use vstd::std_specs::iter::IteratorSpec;

verus! {

broadcast use vstd::std_specs::hash::group_hash_axioms;

/// Number of lockout doublings from which a raised lockout needs the
/// support of the primary subcommittee.
pub const THRESHOLD: usize = 6;

/// The lockout that `THRESHOLD` doublings give: two to the power `THRESHOLD`.
pub const THRESHOLD_LOCKOUT: u64 = 64;

/// Number of slots that a validator remembers before it forgets those
/// below its root.
pub const MAX_BLOCKS: usize = 1024;

/// A validator: its tower, the slots of which it has seen the block, and
/// the fork it found heaviest when it last voted.
pub struct Node {
    pub id: ID,
    pub blocks: HashSet<Slot>,
    pub tower: Tower,
    pub heaviest_fork: HashSet<Slot>,
}

/// The mathematical content of a `Node`.
pub struct NodeView {
    pub id: ID,
    pub blocks: Set<Slot>,
    pub tower: TowerView,
    pub heaviest_fork: Set<Slot>,
}

impl View for Node {
    type V = NodeView;

    open spec fn view(&self) -> NodeView {
        NodeView {
            id: self.id,
            blocks: self.blocks@,
            tower: self.tower@,
            heaviest_fork: self.heaviest_fork@,
        }
    }
}

/// The votes that a tower proposes: its root and its entries, oldest
/// first, each as a fresh vote.
pub open spec fn proposal(t: TowerView) -> Seq<Vote> {
    (seq![t.root] + t.votes.reverse()).map_values(|v: Vote| fresh(v))
}

/// The entries whose newest vote is on a slot of `fork`.
pub open spec fn lands_on(fork: Set<Slot>) -> spec_fn((ID, Seq<Vote>)) -> bool {
    |entry: (ID, Seq<Vote>)| entry.1.len() > 0 && fork.contains(entry.1.last().slot)
}

/// `top` is the highest slot of `fork`.
pub open spec fn is_top(fork: Set<Slot>, top: Slot) -> bool {
    fork.contains(top) && forall|s: Slot| fork.contains(s) ==> s <= top
}

/// The highest slot of a fork.
pub open spec fn top_of(fork: Set<Slot>) -> Slot {
    choose|top: Slot| is_top(fork, top)
}

/// What a validator decided about its vote.
#[derive(Clone, Copy, Debug, PartialEq, Eq, Structural)]
pub enum Decision {
    /// The vote was cast: the tower holds it.
    Voted,
    /// The validator sits in neither subcommittee of the heaviest bank.
    NotSeated,
    /// The tower does not accept a vote on the heaviest slot.
    Stale,
    /// An entry that the vote would leave in the tower is not on the
    /// heaviest fork.
    LockedOut,
    /// A lockout that the vote would raise lacks the support of the
    /// primary subcommittee.
    BelowThreshold,
    /// The vote would leave the fork of the newest entry while too little
    /// weight stands on other forks.
    NoSwitchProof,
}

/// In `weights`, `a` weighs at least as much as `b`: it has the greater
/// weight, or the same weight and no lower slot.
pub open spec fn outweighs(weights: Map<Slot, usize>, a: Slot, b: Slot) -> bool {
    weights[a] > weights[b] || (weights[a] == weights[b] && a >= b)
}

/// `slot` is the heaviest slot of `weights`.
pub open spec fn is_heaviest(weights: Map<Slot, usize>, slot: Slot) -> bool {
    weights.contains_key(slot) && forall|other: Slot|
        weights.contains_key(other) ==> outweighs(weights, slot, other)
}

/// The heaviest slot of `weights`; slot 0 where no slot has a weight.
pub open spec fn heaviest(weights: Map<Slot, usize>) -> Slot {
    if exists|slot: Slot| is_heaviest(weights, slot) {
        choose|slot: Slot| is_heaviest(weights, slot)
    } else {
        0
    }
}

/// Every lockout of `raised` has the support of more than two thirds of
/// the primary subcommittee of `bank`.
pub open spec fn backed(bank: BankView, raised: Map<Slot, u64>) -> bool {
    forall|slot: Slot| #[trigger]
        raised.contains_key(slot) ==> bank.primary_threshold(Vote { slot, lockout: raised[slot] })
}

/// Adds the weight of a slot to a sum.
pub open spec fn adding(weights: Map<Slot, usize>) -> spec_fn(nat, Slot) -> nat {
    |sum: nat, slot: Slot| sum + weights[slot] as nat
}

/// The slots that speak for leaving the fork of `last`: those seen that
/// are newer than `last` and neither on its fork nor have it on theirs.
pub open spec fn apart(blocks: Set<Slot>, banks: Map<Slot, BankView>, last: Slot) -> spec_fn(
    Slot,
) -> bool {
    |slot: Slot|
        blocks.contains(slot) && slot > last && !ancestors(banks, last).contains(slot)
            && !ancestors(banks, slot).contains(last)
}

impl NodeView {
    /// The weights of the slots of which the block was seen.
    pub open spec fn visible(self, forks: ForksView) -> Map<Slot, usize> {
        forks.weights.restrict(self.blocks)
    }

    /// The weight that stands on forks apart from that of `last`.
    pub open spec fn switch_weight(
        self,
        weights: Map<Slot, usize>,
        banks: Map<Slot, BankView>,
        last: Slot,
    ) -> nat {
        weights.dom().filter(apart(self.blocks, banks, last)).fold(0nat, adding(weights))
    }

    /// The validator may vote on `new_fork`: its tower has no entry, or the
    /// newest entry is on `new_fork`, or more than a third of the
    /// validators weigh on forks apart from that of the newest entry.
    pub open spec fn may_switch(
        self,
        new_fork: Set<Slot>,
        weights: Map<Slot, usize>,
        banks: Map<Slot, BankView>,
    ) -> bool {
        ||| self.tower.votes.len() == 0
        ||| new_fork.contains(self.tower.votes[0].slot)
        ||| self.switch_weight(weights, banks, self.tower.votes[0].slot) > NUM_NODES / 3
    }

    /// Whether the lockouts that `tower` raises over the tower that the
    /// bank of its newest entry holds for this validator have the support
    /// of the primary subcommittee of that bank.
    pub open spec fn threshold(self, tower: TowerView, banks: Map<Slot, BankView>) -> Result<
        bool,
        Fault,
    > {
        if tower.votes.len() == 0 {
            Err(Fault::NoVote)
        } else if !banks.contains_key(tower.votes[0].slot) {
            Err(Fault::NoBank)
        } else {
            let bank = banks[tower.votes[0].slot];
            let mine = bank.nodes[self.id as int];
            if !mine.tracks(THRESHOLD_LOCKOUT, tower) {
                Err(Fault::Incomparable)
            } else {
                Ok(backed(bank, mine.increased(THRESHOLD_LOCKOUT, tower)))
            }
        }
    }

    /// The slot that the validator finds heaviest.
    pub open spec fn heaviest_slot(self, forks: ForksView) -> Slot {
        heaviest(self.visible(forks))
    }

    /// The tower with a vote on the heaviest slot.
    pub open spec fn simulated(self, forks: ForksView) -> TowerView {
        self.tower.voted(self.heaviest_slot(forks))
    }

    /// The tower that the heaviest bank would hold for this validator once
    /// the votes of the simulated tower reached it.
    pub open spec fn landed(self, forks: ForksView) -> TowerView {
        replayed(
            forks.banks[self.heaviest_slot(forks)].nodes[self.id as int],
            proposal(self.simulated(forks)),
        )
    }

    /// What the validator decides about a vote on the slot it finds
    /// heaviest.
    pub open spec fn decide(self, forks: ForksView) -> Result<Decision, Fault> {
        let slot = self.heaviest_slot(forks);
        let fork = ancestors(forks.banks, slot);
        if !fork.contains(forks.lowest_root.slot) {
            Err(Fault::RootOffFork)
        } else if !forks.banks.contains_key(slot) {
            Err(Fault::NoBank)
        } else if !(forks.banks[slot].subcom.primary.contains(self.id)
            || forks.banks[slot].subcom.secondary.contains(self.id)) {
            Ok(Decision::NotSeated)
        } else if !self.tower.accepts(slot) {
            Ok(Decision::Stale)
        } else if !(NodeView { heaviest_fork: fork, ..self }).unlocked(self.simulated(forks)) {
            Ok(Decision::LockedOut)
        } else {
            match self.threshold(self.landed(forks), forks.banks) {
                Err(fault) => Err(fault),
                Ok(false) => Ok(Decision::BelowThreshold),
                Ok(true) => if self.may_switch(fork, self.visible(forks), forks.banks) {
                    Ok(Decision::Voted)
                } else {
                    Ok(Decision::NoSwitchProof)
                },
            }
        }
    }

    /// The validator after it decided: where nothing untoward was found
    /// the heaviest fork is the one it looked at, and the tower holds the
    /// vote if it was cast.
    pub open spec fn after_vote(self, forks: ForksView) -> NodeView {
        let fork = ancestors(forks.banks, self.heaviest_slot(forks));
        match self.decide(forks) {
            Err(_) => self,
            Ok(Decision::Voted) => NodeView {
                tower: self.simulated(forks),
                heaviest_fork: fork,
                ..self
            },
            Ok(_) => NodeView { heaviest_fork: fork, ..self },
        }
    }

    /// The invariant of a validator: it is one of the validators, and its
    /// tower is well-formed.
    pub open spec fn wf(self) -> bool {
        &&& self.id < NUM_NODES
        &&& self.tower.wf()
        &&& self.blocks.finite()
        &&& self.heaviest_fork.finite()
        &&& self.heaviest_fork.len() > 0
    }

    /// The validator `id` at the start.
    pub open spec fn zero(id: ID) -> NodeView {
        NodeView {
            id,
            blocks: set![0u64],
            tower: TowerView {
                votes: Seq::empty(),
                root: Vote { slot: 0, lockout: crate::tower::ROOT_LOCKOUT },
            },
            heaviest_fork: set![0u64],
        }
    }

    /// The slots remembered once those below the root are forgotten.
    pub open spec fn pruned(self) -> Set<Slot> {
        self.blocks.filter(at_least(self.tower.root.slot))
    }

    /// The slots remembered once the block of `slot` was seen.
    pub open spec fn seeing(self, slot: Slot) -> Set<Slot> {
        let blocks = self.blocks.insert(slot);
        if blocks.len() > MAX_BLOCKS {
            blocks.filter(at_least(self.tower.root.slot))
        } else {
            blocks
        }
    }

    /// Every entry of `tower` is on a slot of the heaviest fork.
    pub open spec fn unlocked(self, tower: TowerView) -> bool {
        forall|i: int| 0 <= i < tower.votes.len() ==> self.heaviest_fork.contains((#[trigger] tower.votes[i]).slot)
    }
}

impl Node {
    /// The validator `id` at the start: a fresh tower, the genesis block
    /// seen, the genesis slot as its heaviest fork.
    pub fn zero(id: ID) -> (node: Self)
        ensures
            node@ == NodeView::zero(id),
            id < NUM_NODES ==> node@.wf(),
    {
        let mut blocks: HashSet<Slot> = HashSet::new();
        blocks.insert(0);
        let mut set: HashSet<Slot> = HashSet::new();
        set.insert(0);
        let tower = Tower::default();
        assert(tower@.votes =~= Seq::empty());
        Node { id, blocks, tower, heaviest_fork: set }
    }

    /// Remembers that the block of `slot` was seen. Once more than
    /// `MAX_BLOCKS` slots are remembered, those below the root are
    /// forgotten.
    pub fn set_active_block(&mut self, slot: Slot)
        ensures
            final(self)@ == (NodeView { blocks: old(self)@.seeing(slot), ..old(self)@ }),
            old(self)@.wf() ==> final(self)@.wf(),
    {
        self.blocks.insert(slot);
        if self.blocks.len() > MAX_BLOCKS {
            self.gc();
        }
    }

    /// Forgets the slots below the root.
    pub fn gc(&mut self)
        ensures
            final(self)@ == (NodeView { blocks: old(self)@.pruned(), ..old(self)@ }),
    {
        let floor = self.tower.root.slot;
        let slots = members(&self.blocks);
        let mut kept: HashSet<Slot> = HashSet::new();
        let mut i: usize = 0;
        while i < slots.len()
            invariant
                i <= slots@.len(),
                kept@ == slots@.take(i as int).to_set().filter(at_least(floor)),
            decreases slots@.len() - i,
        {
            proof {
                crate::sets::lemma_take_next_to_set(slots@, i as int);
            }
            if slots[i] >= floor {
                kept.insert(slots[i]);
            }
            i += 1;
        }
        assert(slots@.take(slots@.len() as int) =~= slots@);
        self.blocks = kept;
    }

    /// The votes to put into a block: the root and the entries of the
    /// tower, oldest first, each as a fresh vote.
    pub fn votes(&self) -> (votes: Vec<Vote>)
        ensures
            votes@ == proposal(self@.tower),
    {
        proposal_of(&self.tower)
    }

    /// The weights of the slots of which the block was seen.
    fn visible_weights(&self, forks: &Forks) -> (weights: HashMap<Slot, usize>)
        ensures
            weights@ == self@.visible(forks@),
    {
        let slots = keys_of(&forks.primary_fork_weights);
        let mut weights: HashMap<Slot, usize> = HashMap::new();
        let mut i: usize = 0;
        while i < slots.len()
            invariant
                i <= slots@.len(),
                slots@.to_set() == forks@.weights.dom(),
                weights@ == forks@.weights.restrict(self@.blocks).restrict(
                    slots@.take(i as int).to_set(),
                ),
            decreases slots@.len() - i,
        {
            proof {
                crate::sets::lemma_take_next_to_set(slots@, i as int);
            }
            if self.blocks.contains(&slots[i]) {
                let w = *forks.primary_fork_weights.get(&slots[i]).unwrap();
                weights.insert(slots[i], w);
            }
            i += 1;
        }
        assert(slots@.take(slots@.len() as int) =~= slots@);
        weights
    }

    /// Whether the lockouts that `tower` raises have the support of the
    /// primary subcommittee of the bank of its newest entry.
    pub fn threshold_check(&self, tower: &Tower, fork_map: &HashMap<Slot, Bank>) -> (res: Result<
        bool,
        Fault,
    >)
        requires
            self@.id < NUM_NODES,
            tower@.wf(),
            forall|slot: Slot| #[trigger]
                fork_map@.contains_key(slot) ==> bank_views(fork_map@)[slot].wf(),
        ensures
            res == self@.threshold(tower@, bank_views(fork_map@)),
    {
        if tower.votes.len() == 0 {
            return Err(Fault::NoVote);
        }
        let vote = tower.votes[0];
        let bank = match fork_map.get(&vote.slot) {
            Some(bank) => bank,
            None => {
                return Err(Fault::NoBank);
            },
        };
        // the lockouts that the tower raises over the tower of the bank
        let proposed_lockouts = match bank.nodes[self.id].try_incrased_lockouts(THRESHOLD_LOCKOUT, tower) {
            Some(raised) => raised,
            None => {
                return Err(Fault::Incomparable);
            },
        };
        let ghost raised = proposed_lockouts@;
        let slots = keys_of(&proposed_lockouts);
        let mut i: usize = 0;
        while i < slots.len()
            invariant
                i <= slots@.len(),
                bank@.wf(),
                raised == proposed_lockouts@,
                self@.threshold(tower@, bank_views(fork_map@)) == Ok::<bool, Fault>(backed(bank@, raised)),
                slots@.to_set() == raised.dom(),
                forall|k: int|
                    0 <= k < i ==> bank@.primary_threshold(
                        Vote { slot: #[trigger] slots@[k], lockout: raised[slots@[k]] },
                    ),
            decreases slots@.len() - i,
        {
            let slot = slots[i];
            let lockout = *proposed_lockouts.get(&slot).unwrap();
            let v = Vote { slot, lockout };
            if !bank.primary_threshold_slot(&v) {
                return Ok(false);
            }
            i += 1;
        }
        Ok(true)
    }

    /// Whether the validator may vote on `new_fork`: its tower has no
    /// entry, or the newest entry is on `new_fork`, or more than a third of
    /// the validators weigh on forks apart from that of the newest entry.
    pub fn optimistic_conf_check(
        &self,
        new_fork: &HashSet<Slot>,
        fork_weights: &HashMap<Slot, usize>,
        forks: &Forks,
    ) -> (b: bool)
        requires
            is_forest(forks@.banks),
        ensures
            b == self@.may_switch(new_fork@, fork_weights@, forks@.banks),
    {
        // a tower without entries leaves no fork
        if self.tower.votes.len() == 0 {
            return true;
        }
        let last_vote = self.tower.votes[0];
        // a newest entry on the new fork stays on its fork
        if new_fork.contains(&last_vote.slot) {
            return true;
        }
        // the weight on the forks apart from that of the newest entry
        let ghost weights = fork_weights@;
        let ghost banks = forks@.banks;
        let ghost counts = apart(self@.blocks, banks, last_vote.slot);
        let ghost sum = adding(weights);
        let mut total: u128 = 0;
        let last_vote_fork = forks.compute_fork(last_vote.slot);
        let slots = keys_of(fork_weights);
        let mut i: usize = 0;
        proof {
            crate::sets::lemma_fold_none(slots@, counts, sum);
        }
        while i < slots.len()
            invariant
                i <= slots@.len(),
                is_forest(forks@.banks),
                banks == forks@.banks,
                weights == fork_weights@,
                counts == apart(self@.blocks, banks, last_vote.slot),
                sum == adding(weights),
                vstd::set::fold::is_fun_commutative(sum),
                slots@.no_duplicates(),
                slots@.to_set() == weights.dom(),
                last_vote_fork@ == ancestors(banks, last_vote.slot),
                total <= i * usize::MAX,
                total == slots@.take(i as int).to_set().filter(counts).fold(0nat, sum),
            decreases slots@.len() - i,
        {
            let slot = slots[i];
            proof {
                crate::sets::lemma_fold_next(slots@, i as int, counts, sum);
                assert(i * usize::MAX + usize::MAX == (i + 1) * usize::MAX) by (nonlinear_arith);
                assert(i * usize::MAX <= 0xffff_ffff_ffff_ffff * 0xffff_ffff_ffff_ffff) by (nonlinear_arith)
                    requires
                        0 <= i <= 0xffff_ffff_ffff_ffff,
                        usize::MAX <= 0xffff_ffff_ffff_ffff,
                ;
            }
            let stake = *fork_weights.get(&slot).unwrap();
            if self.blocks.contains(&slot) && slot > last_vote.slot && !last_vote_fork.contains(&slot) {
                let fork = forks.compute_fork(slot);
                if !fork.contains(&last_vote.slot) {
                    total = total + stake as u128;
                }
            }
            i += 1;
        }
        proof {
            assert(slots@.take(slots@.len() as int) =~= slots@);
        }
        total > (NUM_NODES / 3) as u128
    }

    /// The heaviest of the slots that have a weight in `weights`.
    fn heaviest_of(weights: &HashMap<Slot, usize>) -> (slot: Slot)
        ensures
            slot == heaviest(weights@),
    {
        let slots = keys_of(weights);
        if slots.len() == 0 {
            return 0;
        }
        let mut best = slots[0];
        let mut weight = *weights.get(&best).unwrap();
        let mut i: usize = 1;
        while i < slots.len()
            invariant
                1 <= i <= slots@.len(),
                slots@.to_set() == weights@.dom(),
                weights@.contains_key(best),
                weight == weights@[best],
                forall|k: int| 0 <= k < i ==> outweighs(weights@, best, #[trigger] slots@[k]),
            decreases slots@.len() - i,
        {
            let w = *weights.get(&slots[i]).unwrap();
            if w > weight || (w == weight && slots[i] >= best) {
                best = slots[i];
                weight = w;
            }
            i += 1;
        }
        proof {
            assert(is_heaviest(weights@, best));
        }
        best
    }

    /// Decides on a vote on the slot that the validator finds heaviest
    /// among the slots of which it has seen the block, and casts the vote
    /// if every check allows it. The heaviest fork of the validator
    /// becomes the fork of that slot. Where the fork tree or a tower is
    /// not as the checks need it, nothing changes.
    #[verifier::rlimit(100)]
    pub fn vote(&mut self, forks: &Forks) -> (res: Result<Decision, Fault>)
        requires
            old(self)@.wf(),
            forks@.wf(),
        ensures
            res == old(self)@.decide(forks@),
            final(self)@ == old(self)@.after_vote(forks@),
            final(self)@.wf(),
    {
        let primary_weights = self.visible_weights(forks);
        let heaviest_slot = Self::heaviest_of(&primary_weights);
        let heaviest_fork = forks.compute_fork(heaviest_slot);
        if !heaviest_fork.contains(&forks.lowest_root.slot) {
            return Err(Fault::RootOffFork);
        }
        let bank = match forks.fork_map.get(&heaviest_slot) {
            Some(bank) => bank,
            None => {
                return Err(Fault::NoBank);
            },
        };
        if !bank.check_subcommittee(self.id) {
            self.heaviest_fork = heaviest_fork;
            return Ok(Decision::NotSeated);
        }
        // the vote is tried on a copy of the tower
        let mut tower = self.tower.clone();
        let vote = Vote { slot: heaviest_slot, lockout: FRESH_LOCKOUT };
        if tower.apply(&vote).is_err() {
            self.heaviest_fork = heaviest_fork;
            return Ok(Decision::Stale);
        }
        // what the vote leaves in the tower must be on the heaviest fork
        if !fork_holds(&heaviest_fork, &tower) {
            self.heaviest_fork = heaviest_fork;
            return Ok(Decision::LockedOut);
        }
        // the tower that the bank would hold once the votes reached it
        let result = land(&bank.nodes[self.id], &tower);
        // a lockout raised past the threshold needs the primary behind it
        match self.threshold_check(&result, &forks.fork_map) {
            Err(fault) => {
                return Err(fault);
            },
            Ok(false) => {
                self.heaviest_fork = heaviest_fork;
                return Ok(Decision::BelowThreshold);
            },
            Ok(true) => {},
        }
        // leaving the fork of the newest entry needs weight on other forks
        if !self.optimistic_conf_check(&heaviest_fork, &primary_weights, forks) {
            self.heaviest_fork = heaviest_fork;
            return Ok(Decision::NoSwitchProof);
        }
        self.heaviest_fork = heaviest_fork;
        self.tower = tower;
        Ok(Decision::Voted)
    }

    /// The highest slot of the heaviest fork.
    pub fn heaviest_slot(&self) -> (top: Slot)
        requires
            self@.heaviest_fork.len() > 0,
        ensures
            is_top(self@.heaviest_fork, top),
            top == top_of(self@.heaviest_fork),
    {
        let slots = members(&self.heaviest_fork);
        let mut top = slots[0];
        let mut i: usize = 1;
        while i < slots.len()
            invariant
                1 <= i <= slots@.len(),
                slots@.to_set() == self@.heaviest_fork,
                self@.heaviest_fork.contains(top),
                forall|k: int| 0 <= k < i ==> #[trigger] slots@[k] <= top,
            decreases slots@.len() - i,
        {
            if slots[i] > top {
                top = slots[i];
            }
            i += 1;
        }
        top
    }

    /// The block that this validator, as leader of `slot`, makes of the
    /// votes it gathered: its parent is the highest slot of the heaviest
    /// fork, and it holds the entries whose newest vote is on that fork.
    pub fn make_block(&self, slot: Slot, votes: Vec<(ID, Vec<Vote>)>) -> (block: Block)
        requires
            self@.heaviest_fork.len() > 0,
            slot > top_of(self@.heaviest_fork),
        ensures
            block@ == (BlockView {
                slot,
                parent: top_of(self@.heaviest_fork),
                votes: entry_views(votes@).filter(lands_on(self@.heaviest_fork)),
            }),
    {
        let heaviest_slot = self.heaviest_slot();
        let ghost all = votes@;
        let ghost views = entry_views(votes@);
        let ghost keep = lands_on(self@.heaviest_fork);
        let mut kept: Vec<(ID, Vec<Vote>)> = Vec::new();
        for entry in it: votes.into_iter()
            invariant
                it.seq() == all,
                views == entry_views(all),
                keep == lands_on(self@.heaviest_fork),
                entry_views(kept@) == views.take(it.index()).filter(keep),
        {
            proof {
                let i = it.index();
                assert(views.take(i + 1) =~= views.take(i).push(views[i]));
                views.take(i).lemma_filter_push(views[i], keep);
            }
            let n = entry.1.len();
            if n > 0 && self.heaviest_fork.contains(&entry.1[n - 1].slot) {
                kept.push(entry);
            }
        }
        assert(views.take(views.len() as int) =~= views);
        Block { slot, parent: heaviest_slot, votes: kept }
    }

    /// Whether every entry of `tower` is on a slot of the heaviest fork.
    pub fn lockout_check(&self, tower: &Tower) -> (b: bool)
        requires
            tower@.votes.len() == 0 ==> self@.heaviest_fork.contains(tower@.root.slot),
        ensures
            b == self@.unlocked(tower@),
    {
        fork_holds(&self.heaviest_fork, tower)
    }
}

/// The tower `held` once the votes that `tower` proposes were applied to
/// it in order, those that it rejects passed over.
fn land(held: &Tower, tower: &Tower) -> (result: Tower)
    requires
        held@.wf(),
    ensures
        result@.wf(),
        result@ == replayed(held@, proposal(tower@)),
{
    let mut result = held.clone();
    let proposed = proposal_of(tower);
    let mut i: usize = 0;
    while i < proposed.len()
        invariant
            i <= proposed@.len(),
            result@.wf(),
            forall|k: int| 0 <= k < proposed@.len() ==> (#[trigger] proposed@[k]).lockout == FRESH_LOCKOUT,
            result@ == replayed(held@, proposed@.take(i as int)),
        decreases proposed@.len() - i,
    {
        proof {
            assert(proposed@.take(i + 1).drop_last() =~= proposed@.take(i as int));
        }
        let _ = result.apply(&proposed[i]);
        i += 1;
    }
    proof {
        assert(proposed@.take(proposed@.len() as int) =~= proposed@);
    }
    result
}

/// Whether every entry of `tower` is on a slot of `fork`.
fn fork_holds(fork: &HashSet<Slot>, tower: &Tower) -> (b: bool)
    ensures
        b == forall|i: int| 0 <= i < tower@.votes.len() ==> fork@.contains((#[trigger] tower@.votes[i]).slot),
{
    let mut i: usize = 0;
    while i < tower.votes.len()
        invariant
            i <= tower.votes@.len(),
            forall|k: int| 0 <= k < i ==> fork@.contains((#[trigger] tower@.votes[k]).slot),
        decreases tower.votes@.len() - i,
    {
        if !fork.contains(&tower.votes[i].slot) {
            assert(!fork@.contains(tower@.votes[i as int].slot));
            return false;
        }
        i += 1;
    }
    true
}

/// The votes that a tower proposes: its root and its entries, oldest
/// first, each as a fresh vote.
fn proposal_of(tower: &Tower) -> (votes: Vec<Vote>)
    ensures
        votes@ == proposal(tower@),
        forall|k: int| 0 <= k < votes@.len() ==> (#[trigger] votes@[k]).lockout == FRESH_LOCKOUT,
{
    let all = tower.votes();
    let mut votes: Vec<Vote> = Vec::new();
    let mut i: usize = 0;
    while i < all.len()
        invariant
            i <= all@.len(),
            votes@.len() == i,
            forall|k: int| 0 <= k < i ==> #[trigger] votes@[k] == fresh(all@[k]),
        decreases all@.len() - i,
    {
        votes.push(Vote { slot: all[i].slot, lockout: FRESH_LOCKOUT });
        i += 1;
    }
    votes
}

} // verus!
