//! The driver: it advances the slots, lets the validators vote, has a
//! leader make a block and applies it, within the partitions it is told.

use crate::bank::entry_views;
use crate::bank::BlockView;
use crate::bank::ID;
use crate::bank::NUM_NODES;
use crate::forks::Fault;
use crate::forks::Forks;
use crate::forks::ForksView;
use crate::node::lands_on;
use crate::node::proposal;
use crate::node::top_of;
use crate::node::Node;
use crate::node::NodeView;
use crate::subcommittee::hash;
use crate::tower::Slot;
use crate::tower::Vote;
use std::collections::hash_map::DefaultHasher;
use std::collections::HashSet;
use std::collections::VecDeque;
use vstd::bytes::spec_u64_to_le_bytes;
use vstd::prelude::*;
use vstd::std_specs::hash::DefaultHasherAdditionalSpecFns;

verus! {

broadcast use vstd::std_specs::hash::group_hash_axioms;

/// The validators, the fork tree they share, the slot that was last
/// produced, the blocks that were made while a partition was cut off,
/// each with its leader, and the slots that were optimistically confirmed
/// and are no roots yet.
pub struct Network {
    pub nodes: Vec<Node>,
    pub forks: Forks,
    pub slot: Slot,
    pub partitioned_blocks: VecDeque<(ID, Slot)>,
    pub oc_slots: HashSet<Slot>,
}

/// The mathematical content of a `Network`.
pub struct NetworkView {
    pub nodes: Seq<NodeView>,
    pub forks: ForksView,
    pub slot: Slot,
    pub partitioned_blocks: Seq<(ID, Slot)>,
    pub oc_slots: Set<Slot>,
}

/// The contents of a row of validators.
pub open spec fn node_views(nodes: Seq<Node>) -> Seq<NodeView> {
    Seq::new(nodes.len(), |i: int| nodes[i]@)
}

impl View for Network {
    type V = NetworkView;

    open spec fn view(&self) -> NetworkView {
        NetworkView {
            nodes: node_views(self.nodes@),
            forks: self.forks@,
            slot: self.slot,
            partitioned_blocks: self.partitioned_blocks@,
            oc_slots: self.oc_slots@,
        }
    }
}

/// The partitions: ranges of validators, each with the mark that says
/// whether it is active. A range without a mark does not count.
pub struct Partitions {
    pub ranges: Seq<(usize, usize)>,
    pub active: Seq<bool>,
}

impl Partitions {
    /// The range `r` is active and holds `id`.
    pub open spec fn holds(self, r: int, id: ID) -> bool {
        &&& 0 <= r < self.ranges.len()
        &&& r < self.active.len()
        &&& self.active[r]
        &&& self.ranges[r].0 <= id < self.ranges[r].1
    }

    /// `id` is in an active range.
    pub open spec fn live(self, id: ID) -> bool {
        exists|r: int| #[trigger] self.holds(r, id)
    }

    /// `id` votes: no partition is drawn, or it is in an active range.
    pub open spec fn votes(self, id: ID) -> bool {
        self.ranges.len() == 0 || self.live(id)
    }

    /// `a` and `b` are in the same partition: no partition is drawn, or
    /// one active range holds both.
    pub open spec fn together(self, a: ID, b: ID) -> bool {
        self.ranges.len() == 0 || exists|r: int| #[trigger] self.holds(r, a) && self.holds(r, b)
    }

    /// Some range is marked as not active.
    pub open spec fn cut(self) -> bool {
        some_off(self.active)
    }
}

/// One of the marks is off.
pub open spec fn some_off(marks: Seq<bool>) -> bool {
    exists|r: int| 0 <= r < marks.len() && !#[trigger] marks[r]
}

/// The first `n` validators have decided, those of them that vote.
#[verifier::opaque]
pub open spec fn voted_upto(nodes: Seq<NodeView>, forks: ForksView, parts: Partitions, n: int) -> Seq<
    NodeView,
> {
    Seq::new(
        nodes.len(),
        |i: int|
            if i < n && parts.votes(i as usize) {
                nodes[i].after_vote(forks)
            } else {
                nodes[i]
            },
    )
}

/// The validator once the blocks of `queue` that were made in its
/// partition were delivered to it.
pub open spec fn delivered(node: NodeView, queue: Seq<(ID, Slot)>, parts: Partitions) -> NodeView
    decreases queue.len(),
{
    if queue.len() == 0 {
        node
    } else {
        let before = delivered(node, queue.drop_last(), parts);
        if parts.together(queue.last().0, node.id) {
            NodeView { blocks: before.seeing(queue.last().1), ..before }
        } else {
            before
        }
    }
}

/// The validators once those that vote have decided.
pub open spec fn voted(nodes: Seq<NodeView>, forks: ForksView, parts: Partitions) -> Seq<NodeView> {
    Seq::new(
        nodes.len(),
        |i: int|
            if parts.votes(i as usize) {
                nodes[i].after_vote(forks)
            } else {
                nodes[i]
            },
    )
}

/// The validators once those in the partition of `leader` saw the block
/// of `slot`.
pub open spec fn shown(nodes: Seq<NodeView>, parts: Partitions, leader: ID, slot: Slot) -> Seq<
    NodeView,
> {
    Seq::new(
        nodes.len(),
        |i: int|
            if parts.together(leader, i as usize) {
                NodeView { blocks: nodes[i].seeing(slot), ..nodes[i] }
            } else {
                nodes[i]
            },
    )
}

/// Delivering blocks leaves a validator well-formed and touches nothing
/// but the slots it remembers.
pub proof fn lemma_delivered_wf(node: NodeView, queue: Seq<(ID, Slot)>, parts: Partitions)
    requires
        node.wf(),
    ensures
        delivered(node, queue, parts).wf(),
        delivered(node, queue, parts) == (NodeView {
            blocks: delivered(node, queue, parts).blocks,
            ..node
        }),
    decreases queue.len(),
{
    if queue.len() > 0 {
        lemma_delivered_wf(node, queue.drop_last(), parts);
        let before = delivered(node, queue.drop_last(), parts);
        before.blocks.insert(queue.last().1).lemma_len_filter(
            crate::tower::at_least(before.tower.root.slot),
        );
    }
}

/// How far the first `n` validators get with their decisions: the place of
/// the first that meets a fault, or `n` where none does.
#[verifier::opaque]
pub open spec fn stalled_at(nodes: Seq<NodeView>, forks: ForksView, parts: Partitions, n: int) -> int
    decreases n,
{
    if n <= 0 {
        0
    } else {
        let before = stalled_at(nodes, forks, parts, n - 1);
        if before < n - 1 {
            before
        } else if parts.votes((n - 1) as usize) && nodes[n - 1].decide(forks) is Err {
            n - 1
        } else {
            n
        }
    }
}

/// What keeps the first `n` validators from deciding on their votes, if
/// anything does: the fault of the first that meets one.
#[verifier::opaque]
pub open spec fn vote_fault(nodes: Seq<NodeView>, forks: ForksView, parts: Partitions, n: int) -> Option<
    Fault,
>
    decreases n,
{
    if n <= 0 {
        None
    } else {
        match vote_fault(nodes, forks, parts, n - 1) {
            Some(fault) => Some(fault),
            None => if parts.votes((n - 1) as usize) {
                match nodes[n - 1].decide(forks) {
                    Err(fault) => Some(fault),
                    Ok(_) => None,
                }
            } else {
                None
            },
        }
    }
}

/// The votes that the first `n` validators hand to the leader `leader`:
/// those of the validators in its partition, in their order.
pub open spec fn gathered(nodes: Seq<NodeView>, parts: Partitions, leader: ID, n: int) -> Seq<
    (ID, Seq<Vote>),
>
    decreases n,
{
    if n <= 0 {
        Seq::empty()
    } else {
        let before = gathered(nodes, parts, leader, n - 1);
        if parts.together(leader, (n - 1) as usize) {
            before.push(((n - 1) as usize, proposal(nodes[n - 1].tower)))
        } else {
            before
        }
    }
}

/// No slot of `slots` lies below `low`.
pub open spec fn none_below(slots: Set<Slot>, low: Slot) -> bool {
    forall|slot: Slot| #[trigger] slots.contains(slot) ==> slot >= low
}

/// The blocks that are still of use below the lowest root `low`.
pub open spec fn not_below(low: Slot) -> spec_fn((ID, Slot)) -> bool {
    |made: (ID, Slot)| made.1 >= low
}

/// The ranges that `step` draws for `num_partitions` partitions: one less
/// than partitions, each from a multiple of the share of a partition to
/// the last validator.
pub open spec fn step_ranges(num_partitions: usize) -> Seq<(usize, usize)> {
    Seq::new(
        if num_partitions >= 1 {
            (num_partitions - 1) as nat
        } else {
            0
        },
        |i: int| ((i * (NUM_NODES / num_partitions)) as usize, NUM_NODES),
    )
}

/// The marks that `step` gives its ranges: a range is active if it holds
/// the leader.
pub open spec fn step_marks(num_partitions: usize, leader: ID) -> Seq<bool> {
    Seq::new(
        step_ranges(num_partitions).len(),
        |i: int| step_ranges(num_partitions)[i].0 <= leader < step_ranges(num_partitions)[i].1,
    )
}

/// The leader of the step that follows slot `slot`.
pub open spec fn leader_after(slot: Slot) -> ID {
    (DefaultHasher::spec_finish(seq![spec_u64_to_le_bytes(slot)]) % (NUM_NODES as u64)) as usize
}

impl NetworkView {
    /// The invariant of the network: one well-formed validator for each
    /// identifier, and a well-formed fork tree.
    pub open spec fn wf(self) -> bool {
        &&& self.nodes.len() == NUM_NODES
        &&& forall|i: int|
            0 <= i < self.nodes.len() ==> (#[trigger] self.nodes[i]).wf() && self.nodes[i].id == i
        &&& self.forks.wf()
    }

    /// The validators once the blocks that wait were delivered.
    pub open spec fn repaired(self, parts: Partitions) -> Seq<NodeView> {
        Seq::new(self.nodes.len(), |i: int| delivered(self.nodes[i], self.partitioned_blocks, parts))
    }

    /// The validators once the blocks that wait were delivered and those
    /// that vote have decided.
    pub open spec fn balloted(self, parts: Partitions) -> Seq<NodeView> {
        voted(self.repaired(parts), self.forks, parts)
    }

    /// The network once the blocks that wait were delivered and those that
    /// vote have decided.
    pub open spec fn voting(self, parts: Partitions) -> NetworkView {
        NetworkView { nodes: self.balloted(parts), ..self }
    }

    /// The block that the leader makes for the next slot of the votes that
    /// the validators of its partition hold.
    pub open spec fn block(self, parts: Partitions, leader: ID) -> BlockView {
        BlockView {
            slot: (self.slot + 1) as Slot,
            parent: top_of(self.nodes[leader as int].heaviest_fork),
            votes: gathered(self.nodes, parts, leader, self.nodes.len() as int).filter(
                lands_on(self.nodes[leader as int].heaviest_fork),
            ),
        }
    }

    /// The slots that stay optimistically confirmed once the leader made
    /// the block of the next slot: those that were, and those that are at
    /// the bank of the block, but for the roots.
    pub open spec fn confirmed(self, parts: Partitions, leader: ID) -> Set<Slot> {
        let block = self.block(parts, leader);
        self.oc_slots.union(self.forks.grown(block).oc_slots()).difference(self.forks.applied(block).roots)
    }

    /// No slot that is optimistically confirmed lies below the lowest root.
    pub open spec fn oc_safe(self) -> bool {
        none_below(self.oc_slots, self.forks.lowest_root.slot)
    }

    /// What keeps the leader from making the block of the next slot, or
    /// the block from being applied, if anything does; else the fault that
    /// the block brings to light: a slot that was optimistically confirmed
    /// and now lies below the lowest root without being a root.
    pub open spec fn block_fault(self, parts: Partitions, leader: ID) -> Option<Fault> {
        if self.slot + 1 <= top_of(self.nodes[leader as int].heaviest_fork) {
            Some(Fault::SlotNotAbove)
        } else if self.forks.fault(self.block(parts, leader)) is Some {
            self.forks.fault(self.block(parts, leader))
        } else if !self.produced(parts, leader).oc_safe() {
            Some(Fault::ConfirmedPruned)
        } else {
            None
        }
    }

    /// The network once the leader made the block of the next slot: the
    /// block is applied and shown to the partition of the leader, and it
    /// waits for delivery if a range is cut off; what waits below the lowest
    /// root is dropped; the slots that are optimistically confirmed at the
    /// bank of the block join those that were, and the roots leave them.
    pub open spec fn produced(self, parts: Partitions, leader: ID) -> NetworkView {
        let slot = (self.slot + 1) as Slot;
        let forks = self.forks.applied(self.block(parts, leader));
        let queue = if parts.cut() {
            self.partitioned_blocks.push((leader, slot))
        } else {
            self.partitioned_blocks
        };
        NetworkView {
            nodes: shown(self.nodes, parts, leader, slot),
            forks,
            slot,
            partitioned_blocks: queue.filter(not_below(forks.lowest_root.slot)),
            oc_slots: self.confirmed(parts, leader),
        }
    }

    /// The network after the leader was asked for the block of the next
    /// slot: the block was made unless the leader or the fork tree kept it
    /// from being made.
    pub open spec fn after_block(self, parts: Partitions, leader: ID) -> NetworkView {
        if self.slot + 1 <= top_of(self.nodes[leader as int].heaviest_fork) || self.forks.fault(
            self.block(parts, leader),
        ) is Some {
            self
        } else {
            self.produced(parts, leader)
        }
    }

    /// The network where a fault kept it from making the next slot: the
    /// blocks that wait were delivered, and the validators before the first
    /// that met a fault have decided.
    pub open spec fn halted(self, parts: Partitions) -> NetworkView {
        NetworkView {
            nodes: voted_upto(
                self.repaired(parts),
                self.forks,
                parts,
                stalled_at(self.repaired(parts), self.forks, parts, self.nodes.len() as int),
            ),
            ..self
        }
    }

    /// What keeps the network from making the next slot, if anything
    /// does.
    pub open spec fn fault(self, parts: Partitions, leader: ID) -> Option<Fault> {
        let voting = vote_fault(self.repaired(parts), self.forks, parts, self.nodes.len() as int);
        if voting is Some {
            voting
        } else {
            self.voting(parts).block_fault(parts, leader)
        }
    }

    /// The network after the next slot was made.
    pub open spec fn stepped(self, parts: Partitions, leader: ID) -> NetworkView {
        self.voting(parts).produced(parts, leader)
    }

    /// The network after a step: halted where a validator met a fault, else
    /// as the leader's block leaves it.
    pub open spec fn after_step(self, parts: Partitions, leader: ID) -> NetworkView {
        if vote_fault(self.repaired(parts), self.forks, parts, self.nodes.len() as int) is Some {
            self.halted(parts)
        } else {
            self.voting(parts).after_block(parts, leader)
        }
    }
}

/// Whether an active range holds `id`.
fn is_live(partitions: &[(usize, usize)], active: &[bool], id: ID) -> (b: bool)
    ensures
        b == (Partitions { ranges: partitions@, active: active@ }).live(id),
{
    let ghost parts = Partitions { ranges: partitions@, active: active@ };
    let mut r: usize = 0;
    while r < partitions.len() && r < active.len()
        invariant
            parts == (Partitions { ranges: partitions@, active: active@ }),
            forall|k: int| 0 <= k < r ==> !#[trigger] parts.holds(k, id),
        decreases partitions@.len() - r,
    {
        if active[r] && partitions[r].0 <= id && id < partitions[r].1 {
            assert(parts.holds(r as int, id));
            return true;
        }
        r += 1;
    }
    false
}

/// Whether some range is marked as not active.
fn has_cut(active: &[bool]) -> (b: bool)
    ensures
        b == some_off(active@),
{
    let mut r: usize = 0;
    while r < active.len()
        invariant
            forall|k: int| 0 <= k < r ==> #[trigger] active@[k],
        decreases active@.len() - r,
    {
        if !active[r] {
            return true;
        }
        r += 1;
    }
    false
}

/// What the decision of one more validator adds.
proof fn lemma_vote_next(nodes: Seq<NodeView>, forks: ForksView, parts: Partitions, i: int)
    requires
        0 <= i < nodes.len(),
        vote_fault(nodes, forks, parts, i) is None,
    ensures
        vote_fault(nodes, forks, parts, i + 1) == if parts.votes(i as usize) {
            match nodes[i].decide(forks) {
                Err(fault) => Some(fault),
                Ok(_) => None::<Fault>,
            }
        } else {
            None
        },
        voted_upto(nodes, forks, parts, i + 1) == voted_upto(nodes, forks, parts, i).update(
            i,
            if parts.votes(i as usize) {
                nodes[i].after_vote(forks)
            } else {
                nodes[i]
            },
        ),
        voted_upto(nodes, forks, parts, i)[i] == nodes[i],
        voted_upto(nodes, forks, parts, i).len() == nodes.len(),
        stalled_at(nodes, forks, parts, i) == i ==> stalled_at(nodes, forks, parts, i + 1) == if parts.votes(
            i as usize,
        ) && nodes[i].decide(forks) is Err {
            i
        } else {
            i + 1
        },
{
    reveal(vote_fault);
    reveal(voted_upto);
    reveal(stalled_at);
}

/// Before any validator has decided all are as they were; once all of
/// them have, those that vote have decided.
proof fn lemma_vote_ends(nodes: Seq<NodeView>, forks: ForksView, parts: Partitions)
    ensures
        vote_fault(nodes, forks, parts, 0) is None,
        stalled_at(nodes, forks, parts, 0) == 0,
        voted_upto(nodes, forks, parts, 0) == nodes,
        voted_upto(nodes, forks, parts, nodes.len() as int) == voted(nodes, forks, parts),
{
    reveal(vote_fault);
    reveal(voted_upto);
    reveal(stalled_at);
}

/// A fault that one of the first validators meets is the fault of the
/// whole row.
proof fn lemma_vote_fault_holds(nodes: Seq<NodeView>, forks: ForksView, parts: Partitions, n: int, m: int)
    requires
        vote_fault(nodes, forks, parts, n) is Some,
        stalled_at(nodes, forks, parts, n) < n,
        n <= m,
    ensures
        vote_fault(nodes, forks, parts, m) == vote_fault(nodes, forks, parts, n),
        stalled_at(nodes, forks, parts, m) == stalled_at(nodes, forks, parts, n),
    decreases m,
{
    reveal(vote_fault);
    reveal(stalled_at);
    if n < m {
        lemma_vote_fault_holds(nodes, forks, parts, n, m - 1);
    }
}

/// Delivers to `node` the blocks of `queue` that were made in its
/// partition.
fn deliver(node: &mut Node, queue: &VecDeque<(ID, Slot)>, partitions: &[(usize, usize)], active: &[bool])
    ensures
        final(node)@ == delivered(
            old(node)@,
            queue@,
            Partitions { ranges: partitions@, active: active@ },
        ),
{
    let ghost parts = Partitions { ranges: partitions@, active: active@ };
    let ghost start = node@;
    let mut k: usize = 0;
    while k < queue.len()
        invariant
            k <= queue@.len(),
            parts == (Partitions { ranges: partitions@, active: active@ }),
            node@ == delivered(start, queue@.take(k as int), parts),
            node@.id == start.id,
        decreases queue@.len() - k,
    {
        proof {
            assert(queue@.take(k + 1).drop_last() =~= queue@.take(k as int));
        }
        let made = queue[k];
        if Network::check_same_partition(partitions, active, made.0, node.id) {
            node.set_active_block(made.1);
        }
        k += 1;
    }
    assert(queue@.take(queue@.len() as int) =~= queue@);
}

impl Default for Network {
    /// The network at the start: every validator at its start, and the
    /// fork tree with the genesis bank alone.
    fn default() -> (network: Self)
        ensures
            network@.wf(),
            network@.slot == 0,
            network@.partitioned_blocks.len() == 0,
            network@.oc_slots == Set::<Slot>::empty(),
            network@.forks.is_genesis(),
            forall|i: int| 0 <= i < NUM_NODES ==> #[trigger] network@.nodes[i] == NodeView::zero(i as usize),
    {
        let mut nodes: Vec<Node> = Vec::new();
        let mut i: usize = 0;
        while i < NUM_NODES
            invariant
                i <= NUM_NODES,
                nodes@.len() == i,
                forall|k: int|
                    0 <= k < i ==> (#[trigger] nodes@[k])@.wf() && nodes@[k]@ == NodeView::zero(k as usize),
            decreases NUM_NODES - i,
        {
            nodes.push(Node::zero(i));
            i += 1;
        }
        Network {
            forks: Forks::default(),
            nodes,
            slot: 0,
            partitioned_blocks: VecDeque::new(),
            oc_slots: HashSet::new(),
        }
    }
}

impl Network {

    /// Whether the validator `id` votes within the partitions: no
    /// partition is drawn, or an active range holds it.
    pub fn votes_in(partitions: &[(usize, usize)], active: &[bool], id: ID) -> (b: bool)
        ensures
            b == (Partitions { ranges: partitions@, active: active@ }).votes(id),
    {
        partitions.len() == 0 || is_live(partitions, active, id)
    }

    /// Whether `a` and `b` are in the same partition.
    pub fn check_same_partition(partitions: &[(usize, usize)], active: &[bool], a: ID, b: ID) -> (same:
        bool)
        ensures
            same == (Partitions { ranges: partitions@, active: active@ }).together(a, b),
    {
        if partitions.len() == 0 {
            return true;
        }
        let ghost parts = Partitions { ranges: partitions@, active: active@ };
        let mut r: usize = 0;
        while r < partitions.len() && r < active.len()
            invariant
                parts == (Partitions { ranges: partitions@, active: active@ }),
                forall|k: int| 0 <= k < r ==> !(#[trigger] parts.holds(k, a) && parts.holds(k, b)),
            decreases partitions@.len() - r,
        {
            if active[r] && partitions[r].0 <= a && a < partitions[r].1 && partitions[r].0 <= b && b
                < partitions[r].1 {
                assert(parts.holds(r as int, a) && parts.holds(r as int, b));
                return true;
            }
            r += 1;
        }
        false
    }

    /// Delivers to each validator the blocks that wait and were made in
    /// its partition.
    pub fn repair_partitions(&mut self, partitions: &[(usize, usize)], active: &[bool])
        requires
            old(self)@.wf(),
        ensures
            final(self)@ == (NetworkView {
                nodes: old(self)@.repaired(Partitions { ranges: partitions@, active: active@ }),
                ..old(self)@
            }),
            final(self)@.wf(),
    {
        let ghost parts = Partitions { ranges: partitions@, active: active@ };
        let ghost before = self@;
        let mut i: usize = 0;
        while i < self.nodes.len()
            invariant
                i <= self.nodes@.len(),
                self.nodes@.len() == before.nodes.len(),
                before.wf(),
                parts == (Partitions { ranges: partitions@, active: active@ }),
                self.forks == old(self).forks,
                self.slot == old(self).slot,
                self.partitioned_blocks == old(self).partitioned_blocks,
                self.oc_slots == old(self).oc_slots,
                before.partitioned_blocks == self.partitioned_blocks@,
                forall|j: int|
                    0 <= j < i ==> #[trigger] self@.nodes[j] == delivered(
                        before.nodes[j],
                        before.partitioned_blocks,
                        parts,
                    ),
                forall|j: int| i <= j < self.nodes@.len() ==> #[trigger] self@.nodes[j] == before.nodes[j],
            decreases self.nodes@.len() - i,
        {
            let ghost row = self.nodes@;
            let ghost prev = self@.nodes;
            assert(prev[i as int] == self.nodes@[i as int]@);
            deliver(&mut self.nodes[i], &self.partitioned_blocks, partitions, active);
            proof {
                assert forall|j: int| 0 <= j < row.len() && j != i implies #[trigger] self@.nodes[j]
                    == prev[j] by {
                }
            }
            i += 1;
        }
        proof {
            assert(self@.nodes =~= before.repaired(parts));
            assert forall|j: int| 0 <= j < self@.nodes.len() implies (#[trigger] self@.nodes[j]).wf()
                && self@.nodes[j].id == j by {
                lemma_delivered_wf(before.nodes[j], before.partitioned_blocks, parts);
            }
        }
    }

    /// Lets every validator that votes decide on its vote, one after the
    /// other, up to the first that meets a fault.
    fn vote(&mut self, partitions: &[(usize, usize)], active: &[bool]) -> (res: Result<(), Fault>)
        requires
            old(self)@.wf(),
        ensures
            final(self)@.wf(),
            final(self)@.forks == old(self)@.forks,
            final(self)@.slot == old(self)@.slot,
            final(self)@.partitioned_blocks == old(self)@.partitioned_blocks,
            final(self)@.oc_slots == old(self)@.oc_slots,
            res == match vote_fault(
                old(self)@.nodes,
                old(self)@.forks,
                Partitions { ranges: partitions@, active: active@ },
                NUM_NODES as int,
            ) {
                Some(fault) => Err::<(), Fault>(fault),
                None => Ok(()),
            },
            res is Ok ==> final(self)@.nodes == voted(
                old(self)@.nodes,
                old(self)@.forks,
                Partitions { ranges: partitions@, active: active@ },
            ),
            final(self)@.nodes == voted_upto(
                old(self)@.nodes,
                old(self)@.forks,
                Partitions { ranges: partitions@, active: active@ },
                stalled_at(
                    old(self)@.nodes,
                    old(self)@.forks,
                    Partitions { ranges: partitions@, active: active@ },
                    NUM_NODES as int,
                ),
            ),
    {
        let ghost parts = Partitions { ranges: partitions@, active: active@ };
        let ghost before = self@;
        let mut i: usize = 0;
        proof {
            lemma_vote_ends(before.nodes, before.forks, parts);
        }
        while i < self.nodes.len()
            invariant
                i <= NUM_NODES,
                before == old(self)@,
                before.wf(),
                self@.wf(),
                parts == (Partitions { ranges: partitions@, active: active@ }),
                self@.forks == before.forks,
                self@.slot == before.slot,
                self@.partitioned_blocks == before.partitioned_blocks,
                self@.oc_slots == before.oc_slots,
                vote_fault(before.nodes, before.forks, parts, i as int) is None,
                stalled_at(before.nodes, before.forks, parts, i as int) == i,
                self@.nodes == voted_upto(before.nodes, before.forks, parts, i as int),
            decreases NUM_NODES - i,
        {
            proof {
                lemma_vote_next(before.nodes, before.forks, parts, i as int);
            }
            if Self::votes_in(partitions, active, i) {
                let res = self.ballot(i);
                match res {
                    Err(fault) => {
                        proof {
                            lemma_vote_fault_holds(before.nodes, before.forks, parts, i + 1, NUM_NODES as int);
                        }
                        return Err(fault);
                    },
                    Ok(_) => {},
                }
            }
            i += 1;
        }
        Ok(())
    }

    /// Lets the validator `i` decide on its vote.
    fn ballot(&mut self, i: usize) -> (res: Result<crate::node::Decision, Fault>)
        requires
            old(self)@.wf(),
            i < NUM_NODES,
        ensures
            final(self)@.wf(),
            res == old(self)@.nodes[i as int].decide(old(self)@.forks),
            final(self)@ == (NetworkView {
                nodes: old(self)@.nodes.update(
                    i as int,
                    old(self)@.nodes[i as int].after_vote(old(self)@.forks),
                ),
                ..old(self)@
            }),
    {
        let ghost prev = self@.nodes;
        let res = self.nodes[i].vote(&self.forks);
        proof {
            assert(self@.nodes =~= prev.update(i as int, prev[i as int].after_vote(self@.forks)));
        }
        res
    }

    /// The votes that the validators in the partition of `leader` hand to
    /// it, in the order of the validators.
    fn gather(&self, partitions: &[(usize, usize)], active: &[bool], leader: ID) -> (votes: Vec<
        (ID, Vec<Vote>),
    >)
        requires
            self@.nodes.len() == NUM_NODES,
        ensures
            entry_views(votes@) == gathered(
                self@.nodes,
                Partitions { ranges: partitions@, active: active@ },
                leader,
                NUM_NODES as int,
            ),
    {
        let ghost parts = Partitions { ranges: partitions@, active: active@ };
        let mut votes: Vec<(ID, Vec<Vote>)> = Vec::new();
        let mut i: usize = 0;
        while i < self.nodes.len()
            invariant
                i <= self.nodes@.len(),
                self.nodes@.len() == NUM_NODES,
                parts == (Partitions { ranges: partitions@, active: active@ }),
                entry_views(votes@) == gathered(self@.nodes, parts, leader, i as int),
            decreases self.nodes@.len() - i,
        {
            if Self::check_same_partition(partitions, active, leader, i) {
                let ballot = self.nodes[i].votes();
                votes.push((i, ballot));
            }
            i += 1;
        }
        votes
    }

    /// Shows the block of `slot` to the validators in the partition of
    /// `leader`.
    fn show(&mut self, partitions: &[(usize, usize)], active: &[bool], leader: ID, slot: Slot)
        requires
            old(self)@.nodes.len() == NUM_NODES,
            forall|j: int| 0 <= j < NUM_NODES ==> (#[trigger] old(self)@.nodes[j]).wf() && old(self)@.nodes[j].id == j,
        ensures
            final(self)@ == (NetworkView {
                nodes: shown(
                    old(self)@.nodes,
                    Partitions { ranges: partitions@, active: active@ },
                    leader,
                    slot,
                ),
                ..old(self)@
            }),
            forall|j: int| 0 <= j < NUM_NODES ==> (#[trigger] final(self)@.nodes[j]).wf() && final(self)@.nodes[j].id == j,
    {
        let ghost parts = Partitions { ranges: partitions@, active: active@ };
        let ghost before = self@;
        let mut i: usize = 0;
        while i < self.nodes.len()
            invariant
                i <= self.nodes@.len(),
                self.nodes@.len() == NUM_NODES,
                before.nodes.len() == NUM_NODES,
                parts == (Partitions { ranges: partitions@, active: active@ }),
                self.forks == old(self).forks,
                self.slot == old(self).slot,
                self.partitioned_blocks == old(self).partitioned_blocks,
                self.oc_slots == old(self).oc_slots,
                forall|j: int| 0 <= j < NUM_NODES ==> (#[trigger] self@.nodes[j]).wf() && self@.nodes[j].id
                    == j,
                forall|j: int|
                    0 <= j < i ==> #[trigger] self@.nodes[j] == shown(before.nodes, parts, leader, slot)[j],
                forall|j: int| i <= j < NUM_NODES ==> #[trigger] self@.nodes[j] == before.nodes[j],
            decreases self.nodes@.len() - i,
        {
            let ghost prev = self@.nodes;
            assert(prev[i as int] == self.nodes@[i as int]@);
            if Self::check_same_partition(partitions, active, leader, i) {
                self.nodes[i].set_active_block(slot);
                proof {
                    assert forall|j: int| 0 <= j < NUM_NODES && j != i implies #[trigger] self@.nodes[j]
                        == prev[j] by {
                    }
                }
            }
            i += 1;
        }
        proof {
            assert(self@.nodes =~= shown(before.nodes, parts, leader, slot));
        }
    }

    /// Drops the waiting blocks that lie below the lowest root.
    fn prune(&mut self)
        ensures
            final(self)@ == (NetworkView {
                partitioned_blocks: old(self)@.partitioned_blocks.filter(
                    not_below(old(self)@.forks.lowest_root.slot),
                ),
                ..old(self)@
            }),
    {
        let low = self.forks.lowest_root.slot;
        let ghost queue = self.partitioned_blocks@;
        let ghost keep = not_below(low);
        let mut kept: VecDeque<(ID, Slot)> = VecDeque::new();
        let mut i: usize = 0;
        while i < self.partitioned_blocks.len()
            invariant
                i <= queue.len(),
                queue == self.partitioned_blocks@,
                self.oc_slots == old(self).oc_slots,
                self.nodes == old(self).nodes,
                self.forks == old(self).forks,
                self.slot == old(self).slot,
                keep == not_below(low),
                kept@ == queue.take(i as int).filter(keep),
            decreases queue.len() - i,
        {
            proof {
                assert(queue.take(i + 1) =~= queue.take(i as int).push(queue[i as int]));
                queue.take(i as int).lemma_filter_push(queue[i as int], keep);
            }
            let made = self.partitioned_blocks[i];
            if made.1 >= low {
                kept.push_back(made);
            }
            i += 1;
        }
        assert(queue.take(queue.len() as int) =~= queue);
        self.partitioned_blocks = kept;
    }

    /// Takes in the slots that are optimistically confirmed at a new bank,
    /// lets go of those that are roots, and says whether none of the rest
    /// lies below the lowest root.
    fn settle(&mut self, found: &HashSet<Slot>) -> (safe: bool)
        ensures
            final(self)@ == (NetworkView {
                oc_slots: old(self)@.oc_slots.union(found@).difference(old(self)@.forks.roots),
                ..old(self)@
            }),
            safe == final(self)@.oc_safe(),
    {
        crate::sets::extend(&mut self.oc_slots, found);
        let ghost roots = self.forks.roots@;
        let low = self.forks.lowest_root.slot;
        let slots = crate::sets::members(&self.oc_slots);
        let mut kept: HashSet<Slot> = HashSet::new();
        let mut safe = true;
        let mut i: usize = 0;
        assert(kept@ =~= slots@.take(0).to_set().difference(roots));
        assert(none_below(kept@, low));
        while i < slots.len()
            invariant
                i <= slots@.len(),
                roots == self.forks.roots@,
                low == self.forks.lowest_root.slot,
                self.nodes == old(self).nodes,
                self.forks == old(self).forks,
                self.slot == old(self).slot,
                self.partitioned_blocks == old(self).partitioned_blocks,
                kept@ == slots@.take(i as int).to_set().difference(roots),
                safe == none_below(kept@, low),
            decreases slots@.len() - i,
        {
            proof {
                crate::sets::lemma_take_next_to_set(slots@, i as int);
            }
            let ghost had = kept@;
            if !self.forks.roots.contains(&slots[i]) {
                kept.insert(slots[i]);
                if slots[i] < low {
                    safe = false;
                }
                proof {
                    if none_below(kept@, low) {
                        assert(kept@.contains(slots@[i as int]));
                        assert forall|slot: Slot| #[trigger] had.contains(slot) implies slot >= low by {
                            assert(kept@.contains(slot));
                        }
                    }
                }
            }
            assert(kept@ =~= slots@.take(i + 1).to_set().difference(roots));
            i += 1;
        }
        assert(slots@.take(slots@.len() as int) =~= slots@);
        self.oc_slots = kept;
        safe
    }

    /// Has the leader make the block of the next slot of the votes that the
    /// validators of its partition hold, applies it and shows it to that
    /// partition. A block that was made while a range was cut off waits for
    /// delivery as long as it does not lie below the lowest root. The slots
    /// that are optimistically confirmed at the bank of the block are kept
    /// until they are roots; one of them below the lowest root is a fault
    /// that the block brings to light. After any other fault nothing has
    /// changed.
    pub fn produce_block(
        &mut self,
        partitions: &[(usize, usize)],
        active: &[bool],
        block_producer_ix: usize,
    ) -> (res: Result<(), Fault>)
        requires
            old(self)@.wf(),
            old(self)@.slot < u64::MAX,
            block_producer_ix < NUM_NODES,
        ensures
            final(self)@.wf(),
            res == match old(self)@.block_fault(
                Partitions { ranges: partitions@, active: active@ },
                block_producer_ix,
            ) {
                Some(fault) => Err::<(), Fault>(fault),
                None => Ok(()),
            },
            final(self)@ == old(self)@.after_block(
                Partitions { ranges: partitions@, active: active@ },
                block_producer_ix,
            ),
            res is Ok ==> final(self)@ == old(self)@.produced(
                Partitions { ranges: partitions@, active: active@ },
                block_producer_ix,
            ),
            res is Ok ==> final(self)@.oc_safe(),
    {
        let ghost parts = Partitions { ranges: partitions@, active: active@ };
        let ghost before = self@;
        let slot = self.slot + 1;
        let top = self.nodes[block_producer_ix].heaviest_slot();
        if slot <= top {
            return Err(Fault::SlotNotAbove);
        }
        let votes = self.gather(partitions, active, block_producer_ix);
        let block = self.nodes[block_producer_ix].make_block(slot, votes);
        assert(block@ == before.block(parts, block_producer_ix));
        let bank = match self.forks.grow(&block) {
            Ok(bank) => bank,
            Err(fault) => {
                return Err(fault);
            },
        };
        let found = bank.oc_slots();
        self.forks.apply(&block);
        self.show(partitions, active, block_producer_ix, slot);
        if has_cut(active) {
            self.partitioned_blocks.push_back((block_producer_ix, slot));
        }
        self.prune();
        self.slot = slot;
        let safe = self.settle(&found);
        assert(self@ == before.produced(parts, block_producer_ix));
        if !safe {
            return Err(Fault::ConfirmedPruned);
        }
        Ok(())
    }

    /// Makes the next slot within the partitions given: the blocks that
    /// wait are delivered, the validators that vote decide, and the leader
    /// makes the block. Where a validator meets a fault the step halts
    /// there; where the leader or the fork tree keeps the block from being
    /// made, no slot is made.
    pub fn partition_step(
        &mut self,
        partitions: &[(usize, usize)],
        active: &[bool],
        block_producer_ix: usize,
    ) -> (res: Result<(), Fault>)
        requires
            old(self)@.wf(),
            old(self)@.slot < u64::MAX,
            block_producer_ix < NUM_NODES,
        ensures
            final(self)@.wf(),
            res == match old(self)@.fault(
                Partitions { ranges: partitions@, active: active@ },
                block_producer_ix,
            ) {
                Some(fault) => Err::<(), Fault>(fault),
                None => Ok(()),
            },
            final(self)@ == old(self)@.after_step(
                Partitions { ranges: partitions@, active: active@ },
                block_producer_ix,
            ),
            res is Ok ==> final(self)@ == old(self)@.stepped(
                Partitions { ranges: partitions@, active: active@ },
                block_producer_ix,
            ),
            res is Ok ==> final(self)@.oc_safe(),
    {
        let ghost parts = Partitions { ranges: partitions@, active: active@ };
        let ghost before = self@;
        self.repair_partitions(partitions, active);
        match self.vote(partitions, active) {
            Err(fault) => {
                return Err(fault);
            },
            Ok(_) => {},
        }
        proof {
            lemma_vote_ends(before.repaired(parts), before.forks, parts);
            assert(self@ == before.voting(parts));
        }
        self.produce_block(partitions, active, block_producer_ix)
    }

    /// The partitions and the leader of the step that `step` makes with
    /// `num_partitions` partitions: the leader is drawn by the hash of the
    /// slot, and a range is active if it holds the leader.
    pub fn plan(&self, num_partitions: usize) -> (plan: (Vec<(usize, usize)>, Vec<bool>, ID))
        requires
            num_partitions <= NUM_NODES,
        ensures
            plan.0@ == step_ranges(num_partitions),
            plan.1@ == step_marks(num_partitions, leader_after(self@.slot)),
            plan.2 == leader_after(self@.slot),
            plan.2 < NUM_NODES,
    {
        let block_producer_ix = (hash(self.slot) % (NUM_NODES as u64)) as usize;
        let mut partitions: Vec<(usize, usize)> = Vec::new();
        let mut i: usize = 1;
        while i < num_partitions
            invariant
                1 <= i,
                num_partitions == 0 ==> i == 1,
                num_partitions <= NUM_NODES,
                i <= num_partitions || num_partitions == 0,
                partitions@.len() == i - 1,
                forall|k: int| 0 <= k < partitions@.len() ==> #[trigger] partitions@[k] == step_ranges(
                    num_partitions,
                )[k],
            decreases num_partitions - i,
        {
            let num = NUM_NODES / num_partitions;
            assert((i - 1) * num <= 1000 * 1000) by (nonlinear_arith)
                requires
                    1 <= i <= 1000,
                    0 <= num <= 1000,
            ;
            let min = (i - 1) * num;
            partitions.push((min, NUM_NODES));
            i += 1;
        }
        let mut active: Vec<bool> = Vec::new();
        let mut k: usize = 0;
        while k < partitions.len()
            invariant
                k <= partitions@.len(),
                active@.len() == k,
                forall|j: int| 0 <= j < k ==> #[trigger] active@[j] == (partitions@[j].0
                    <= block_producer_ix < partitions@[j].1),
            decreases partitions@.len() - k,
        {
            let range = partitions[k];
            active.push(block_producer_ix >= range.0 && block_producer_ix < range.1);
            k += 1;
        }
        (partitions, active, block_producer_ix)
    }

    /// Makes the next slot with `num_partitions` partitions, as `plan`
    /// draws them.
    pub fn step(&mut self, num_partitions: usize) -> (res: Result<(), Fault>)
        requires
            old(self)@.wf(),
            old(self)@.slot < u64::MAX,
            num_partitions <= NUM_NODES,
        ensures
            final(self)@.wf(),
            res == match old(self)@.fault(
                Partitions {
                    ranges: step_ranges(num_partitions),
                    active: step_marks(num_partitions, leader_after(old(self)@.slot)),
                },
                leader_after(old(self)@.slot),
            ) {
                Some(fault) => Err::<(), Fault>(fault),
                None => Ok(()),
            },
            final(self)@ == old(self)@.after_step(
                Partitions {
                    ranges: step_ranges(num_partitions),
                    active: step_marks(num_partitions, leader_after(old(self)@.slot)),
                },
                leader_after(old(self)@.slot),
            ),
            res is Ok ==> final(self)@ == old(self)@.stepped(
                Partitions {
                    ranges: step_ranges(num_partitions),
                    active: step_marks(num_partitions, leader_after(old(self)@.slot)),
                },
                leader_after(old(self)@.slot),
            ),
            res is Ok ==> final(self)@.oc_safe(),
    {
        let plan = self.plan(num_partitions);
        self.partition_step(plan.0.as_slice(), plan.1.as_slice(), plan.2)
    }

    /// The lowest root of the fork tree.
    pub fn lowest_root(&self) -> (root: Vote)
        ensures
            root == self@.forks.lowest_root,
    {
        self.forks.lowest_root
    }
}

} // verus!
