//! The voting state at one slot of one fork.

use crate::node::THRESHOLD_LOCKOUT;
use crate::sets::lemma_bounded_len;
use crate::sets::lemma_count_next;
use crate::sets::lemma_count_none;
use crate::sets::members;
use crate::subcommittee::Subcommittee;
use crate::subcommittee::SubcommitteeView;
use crate::tower::lemma_replayed;
use crate::tower::replayed;
use crate::tower::Slot;
use crate::tower::Tower;
use crate::tower::TowerView;
use crate::tower::Vote;
use crate::tower::FRESH_LOCKOUT;
use crate::tower::ROOT_LOCKOUT;
use std::collections::HashMap;
use std::collections::HashSet;
use vstd::prelude::*;

verus! {

broadcast use vstd::std_specs::hash::group_hash_axioms;

/// Number of validators.
pub const NUM_NODES: usize = 997;

/// Identifier of a validator: its index among the validators.
pub type ID = usize;

/// The towers of all validators, the subcommittees and the place in the
/// fork tree of one slot.
pub struct Bank {
    pub nodes: Vec<Tower>,
    pub slot: Slot,
    pub parent: Slot,
    pub frozen: bool,
    pub children: Vec<Slot>,
    pub subcom: Subcommittee,
}

/// The votes that a leader gathered for one slot: for each validator its
/// votes, oldest first.
pub struct Block {
    pub slot: Slot,
    pub parent: Slot,
    pub votes: Vec<(ID, Vec<Vote>)>,
}

/// The mathematical content of a `Bank`.
pub struct BankView {
    pub nodes: Seq<TowerView>,
    pub slot: Slot,
    pub parent: Slot,
    pub frozen: bool,
    pub children: Seq<Slot>,
    pub subcom: SubcommitteeView,
}

/// The mathematical content of a `Block`.
pub struct BlockView {
    pub slot: Slot,
    pub parent: Slot,
    pub votes: Seq<(ID, Seq<Vote>)>,
}

/// The contents of the entries of a block.
pub open spec fn entry_views(entries: Seq<(ID, Vec<Vote>)>) -> Seq<(ID, Seq<Vote>)> {
    Seq::new(entries.len(), |j: int| (entries[j].0, entries[j].1@))
}

impl View for Block {
    type V = BlockView;

    open spec fn view(&self) -> BlockView {
        BlockView { slot: self.slot, parent: self.parent, votes: entry_views(self.votes@) }
    }
}

/// The contents of a row of towers.
pub open spec fn tower_views(towers: Seq<Tower>) -> Seq<TowerView> {
    Seq::new(towers.len(), |i: int| towers[i]@)
}

impl View for Bank {
    type V = BankView;

    open spec fn view(&self) -> BankView {
        BankView {
            nodes: tower_views(self.nodes@),
            slot: self.slot,
            parent: self.parent,
            frozen: self.frozen,
            children: self.children@,
            subcom: self.subcom@,
        }
    }
}

/// An entry `v` of a tower backs `vote`: it is on the slot of `vote` or above
/// and, unless `vote` carries the threshold lockout, its lockout taken
/// `mult` times reaches as far as that of `vote`.
pub open spec fn entry_supports(v: Vote, mult: u64, vote: Vote) -> bool {
    v.slot >= vote.slot && (vote.lockout == THRESHOLD_LOCKOUT || v.slot + mult * v.lockout
        >= vote.slot + vote.lockout)
}

/// A tower backs `vote`: its root is on the slot of `vote` or above, or one
/// of its entries backs `vote`.
pub open spec fn supports(t: TowerView, mult: u64, vote: Vote) -> bool {
    ||| t.root.slot >= vote.slot
    ||| exists|i: int| 0 <= i < t.votes.len() && entry_supports(#[trigger] t.votes[i], mult, vote)
}

/// The validators whose tower backs `vote`.
pub open spec fn supporters(nodes: Seq<TowerView>, mult: u64, vote: Vote) -> spec_fn(ID) -> bool {
    |id: ID| supports(nodes[id as int], mult, vote)
}

/// The validators whose root lies below `bound`.
pub open spec fn rooted_below(nodes: Seq<TowerView>, bound: int) -> spec_fn(ID) -> bool {
    |id: ID| nodes[id as int].root.slot < bound
}

/// How many of `roots` lie below `bound`.
pub open spec fn slots_below(roots: Seq<Vote>, bound: int) -> nat
    decreases roots.len(),
{
    if roots.len() == 0 {
        0
    } else {
        slots_below(roots.drop_last(), bound) + if roots.last().slot < bound {
            1nat
        } else {
            0nat
        }
    }
}

/// The slot of the newest entry of a tower, or of its root where it has no
/// entry.
pub open spec fn latest_slot(t: TowerView) -> Slot {
    if t.votes.len() > 0 {
        t.votes[0].slot
    } else {
        t.root.slot
    }
}

/// The towers after the entries of a block were applied in order, each to
/// the tower of its validator.
pub open spec fn cast(nodes: Seq<TowerView>, entries: Seq<(ID, Seq<Vote>)>) -> Seq<TowerView>
    decreases entries.len(),
{
    if entries.len() == 0 {
        nodes
    } else {
        let before = cast(nodes, entries.drop_last());
        let id = entries.last().0 as int;
        before.update(id, replayed(before[id], entries.last().1))
    }
}

/// The entries of a block can be applied on `fork`: each names a
/// validator, and each of its votes is fresh and on a slot of the fork.
pub open spec fn fits(entries: Seq<(ID, Seq<Vote>)>, fork: Set<Slot>) -> bool {
    &&& forall|j: int| 0 <= j < entries.len() ==> (#[trigger] entries[j]).0 < NUM_NODES
    &&& forall|j: int, i: int|
        0 <= j < entries.len() && 0 <= i < entries[j].1.len() ==> fork.contains(
            (#[trigger] entries[j].1[i]).slot,
        ) && entries[j].1[i].lockout == FRESH_LOCKOUT
}

impl BankView {
    /// The invariant of a bank: a well-formed tower for each validator,
    /// and well-formed subcommittees.
    pub open spec fn wf(self) -> bool {
        &&& self.nodes.len() == NUM_NODES
        &&& forall|i: int| 0 <= i < self.nodes.len() ==> (#[trigger] self.nodes[i]).wf()
        &&& self.subcom.wf()
    }

    /// How many members of the primary subcommittee back `vote`.
    pub open spec fn primary_support(self, mult: u64, vote: Vote) -> nat {
        self.subcom.primary.filter(supporters(self.nodes, mult, vote)).len()
    }

    /// More than two thirds of the primary subcommittee back `vote`.
    pub open spec fn primary_threshold(self, vote: Vote) -> bool {
        self.primary_support(THRESHOLD_LOCKOUT, vote) > (2 * self.subcom.primary.len()) / 3
    }

    /// How many members of `set` have their root below `bound`.
    pub open spec fn roots_below(self, set: Set<ID>, bound: int) -> nat {
        set.filter(rooted_below(self.nodes, bound)).len()
    }

    /// `root` is the root of a member of `set` and stands at position `k`
    /// when the roots of the members are put in the order of their slots:
    /// at most `k` of the roots lie below it and more than `k` do not lie
    /// above it.
    pub open spec fn is_root_at(self, set: Set<ID>, k: int, root: Vote) -> bool {
        &&& exists|id: ID| set.contains(id) && (#[trigger] self.nodes[id as int]).root == root
        &&& self.roots_below(set, root.slot as int) <= k
        &&& k < self.roots_below(set, root.slot + 1)
    }

    /// `root` is the lowest root among the members of `set`.
    pub open spec fn is_lowest_root(self, set: Set<ID>, root: Vote) -> bool {
        &&& exists|id: ID| set.contains(id) && (#[trigger] self.nodes[id as int]).root == root
        &&& forall|id: ID| set.contains(id) ==> root.slot <= (#[trigger] self.nodes[id as int]).root.slot
    }

    /// The slot of the root that stands at position `k` among the roots of
    /// the members of `set`.
    pub open spec fn root_slot_at(self, set: Set<ID>, k: int) -> Slot {
        choose|slot: Slot| self.is_root_at(set, k, Vote { slot, lockout: ROOT_LOCKOUT })
    }

    /// The latest votes seen, once the primary subcommittee of this bank was
    /// looked at: each member stands with the newest slot of its tower,
    /// unless a slot at least as new was seen of it before.
    pub open spec fn with_latest(self, seen: Map<ID, Slot>) -> Map<ID, Slot> {
        Map::new(
            |id: ID| seen.contains_key(id) || self.subcom.primary.contains(id),
            |id: ID|
                if self.subcom.primary.contains(id) && !(seen.contains_key(id) && seen[id]
                    >= latest_slot(self.nodes[id as int])) {
                    latest_slot(self.nodes[id as int])
                } else {
                    seen[id]
                },
        )
    }

    /// The bank that a child at `slot` starts from.
    pub open spec fn child(self, slot: Slot) -> BankView {
        BankView {
            nodes: self.nodes,
            slot,
            parent: self.slot,
            frozen: false,
            children: Seq::empty(),
            subcom: self.subcom.child().rotated(self.subcom),
        }
    }

    /// The super-root of the bank lies at or below the super-root that its
    /// primary subcommittee has reached and, where it rose at this bank, at
    /// or below that of its secondary.
    pub open spec fn settled(self) -> bool {
        &&& self.subcom.super_root <= self.root_slot_at(self.subcom.primary, self.super_root_position())
        &&& self.subcom.num_super_roots > self.subcom.parent_num_super_roots
            ==> self.subcom.super_root <= self.root_slot_at(
            self.subcom.secondary,
            self.super_root_position(),
        )
    }

    /// The bank once `slot` was entered in the list of its children.
    pub open spec fn with_child(self, slot: Slot) -> BankView {
        BankView { children: self.children.push(slot), ..self }
    }

    /// The lowest root among the members of the primary subcommittee.
    pub open spec fn lowest_primary_root(self) -> Vote {
        Vote {
            slot: choose|slot: Slot|
                self.is_lowest_root(self.subcom.primary, Vote { slot, lockout: ROOT_LOCKOUT }),
            lockout: ROOT_LOCKOUT,
        }
    }

    /// `root` is the lowest root of all towers of the bank.
    pub open spec fn is_lowest_of_all(self, root: Vote) -> bool {
        &&& exists|i: int| 0 <= i < self.nodes.len() && (#[trigger] self.nodes[i]).root == root
        &&& forall|i: int| 0 <= i < self.nodes.len() ==> root.slot <= (#[trigger] self.nodes[i]).root.slot
    }

    /// The lowest root of all towers of the bank.
    pub open spec fn lowest_root(self) -> Vote {
        Vote {
            slot: choose|slot: Slot| self.is_lowest_of_all(Vote { slot, lockout: ROOT_LOCKOUT }),
            lockout: ROOT_LOCKOUT,
        }
    }

    /// A member of the primary subcommittee has an entry on `slot`.
    pub open spec fn voted_on(self, slot: Slot) -> bool {
        exists|id: ID| self.subcom.primary.contains(id) && (#[trigger] self.nodes[id as int]).has_entry_on(slot)
    }

    /// The slots that are optimistically confirmed at the bank: a member
    /// of the primary subcommittee has an entry on the slot, and more than
    /// two thirds of the primary subcommittee back a vote on it that
    /// carries the threshold lockout.
    pub open spec fn oc_slots(self) -> Set<Slot> {
        Set::new(
            |slot: Slot|
                self.voted_on(slot) && self.primary_threshold(Vote { slot, lockout: THRESHOLD_LOCKOUT }),
        )
    }

    /// The two super-roots can be read: the position lies within each of
    /// the two subcommittees.
    pub open spec fn can_freeze(self) -> bool {
        &&& self.super_root_position() < self.subcom.primary.len()
        &&& self.super_root_position() < self.subcom.secondary.len()
    }

    /// The bank after a block was applied on `fork`: the votes are cast,
    /// the super-roots of the two subcommittees are read and the bank is
    /// frozen.
    pub open spec fn applied(self, entries: Seq<(ID, Seq<Vote>)>, fork: Set<Slot>) -> BankView {
        let voted = BankView { nodes: cast(self.nodes, entries), ..self };
        let k = self.super_root_position();
        BankView {
            frozen: true,
            subcom: self.subcom.frozen(
                voted.root_slot_at(self.subcom.primary, k),
                voted.root_slot_at(self.subcom.secondary, k),
            ),
            ..voted
        }
    }

    /// The position at which the super-root of a subcommittee is read: a
    /// third of the size of the primary subcommittee, whichever of the two
    /// is asked for.
    pub open spec fn super_root_position(self) -> int {
        self.subcom.primary.len() as int / 3
    }
}

/// The genesis bank at slot 0 holds a fresh tower for each validator and is
/// frozen.
pub open spec fn is_genesis(b: BankView) -> bool {
    &&& b.nodes.len() == NUM_NODES
    &&& forall|i: int|
        0 <= i < b.nodes.len() ==> (#[trigger] b.nodes[i]) == (TowerView {
            votes: Seq::empty(),
            root: Vote { slot: 0, lockout: ROOT_LOCKOUT },
        })
    &&& b.slot == 0
    &&& b.parent == 0
    &&& b.frozen
    &&& b.children.len() == 0
    &&& b.subcom == SubcommitteeView::genesis()
}

/// A root that joins a row counts once where it lies below the bound.
proof fn lemma_slots_below_insert(roots: Seq<Vote>, at: int, root: Vote, bound: int)
    requires
        0 <= at <= roots.len(),
    ensures
        slots_below(roots.insert(at, root), bound) == slots_below(roots, bound) + if root.slot
            < bound {
            1nat
        } else {
            0nat
        },
    decreases roots.len(),
{
    let longer = roots.insert(at, root);
    if at == roots.len() {
        assert(longer.drop_last() =~= roots);
    } else {
        assert(longer.drop_last() =~= roots.drop_last().insert(at, root));
        lemma_slots_below_insert(roots.drop_last(), at, root, bound);
    }
}

/// Where the roots from position `k` on do not lie below the bound, at
/// most `k` roots do.
proof fn lemma_slots_below_upper(roots: Seq<Vote>, k: int, bound: int)
    requires
        0 <= k,
        forall|j: int| k <= j < roots.len() ==> (#[trigger] roots[j]).slot >= bound,
    ensures
        slots_below(roots, bound) <= k,
        slots_below(roots, bound) <= roots.len(),
    decreases roots.len(),
{
    if roots.len() > 0 {
        lemma_slots_below_upper(roots.drop_last(), k, bound);
    }
}

/// Where the first `m` roots lie below the bound, at least `m` roots do.
proof fn lemma_slots_below_lower(roots: Seq<Vote>, m: int, bound: int)
    requires
        0 <= m <= roots.len(),
        forall|j: int| 0 <= j < m ==> (#[trigger] roots[j]).slot < bound,
    ensures
        slots_below(roots, bound) >= m,
    decreases roots.len(),
{
    if roots.len() > 0 {
        if m == roots.len() {
            lemma_slots_below_lower(roots.drop_last(), m - 1, bound);
        } else {
            lemma_slots_below_lower(roots.drop_last(), m, bound);
        }
    }
}

/// The more slots count as below, the more roots lie below.
pub proof fn lemma_roots_below_grows(b: BankView, set: Set<ID>, low: int, high: int)
    requires
        set.finite(),
        low <= high,
    ensures
        b.roots_below(set, low) <= b.roots_below(set, high),
{
    let lower = set.filter(rooted_below(b.nodes, low));
    let higher = set.filter(rooted_below(b.nodes, high));
    vstd::set_lib::lemma_len_subset(lower, higher);
}

/// Two roots that stand at the same position among the roots of a set are
/// on the same slot.
pub proof fn lemma_root_at_unique(b: BankView, set: Set<ID>, k: int, first: Vote, second: Vote)
    requires
        set.finite(),
        b.is_root_at(set, k, first),
        b.is_root_at(set, k, second),
    ensures
        first.slot == second.slot,
{
    if first.slot < second.slot {
        lemma_roots_below_grows(b, set, first.slot + 1, second.slot as int);
    }
    if second.slot < first.slot {
        lemma_roots_below_grows(b, set, second.slot + 1, first.slot as int);
    }
}

/// Casting the votes of a block leaves every tower well-formed and lets
/// no root fall.
pub proof fn lemma_cast(nodes: Seq<TowerView>, entries: Seq<(ID, Seq<Vote>)>)
    requires
        forall|i: int| 0 <= i < nodes.len() ==> (#[trigger] nodes[i]).wf(),
        forall|j: int| 0 <= j < entries.len() ==> (#[trigger] entries[j]).0 < nodes.len(),
    ensures
        cast(nodes, entries).len() == nodes.len(),
        forall|i: int|
            0 <= i < nodes.len() ==> (#[trigger] cast(nodes, entries)[i]).wf() && cast(nodes, entries)[i].root.slot
                >= nodes[i].root.slot,
    decreases entries.len(),
{
    if entries.len() > 0 {
        let fewer = entries.drop_last();
        lemma_cast(nodes, fewer);
        let before = cast(nodes, fewer);
        let id = entries.last().0 as int;
        lemma_replayed(before[id], entries.last().1);
    }
}

/// The least slot from `from` on up to which more than `k` roots of the
/// members of `set` lie.
pub open spec fn first_reaching(b: BankView, set: Set<ID>, k: int, from: int) -> int
    decreases 0x1_0000_0000_0000_0000 - from,
{
    if from >= 0x1_0000_0000_0000_0000 || b.roots_below(set, from + 1) > k {
        from
    } else {
        first_reaching(b, set, k, from + 1)
    }
}

/// The search for the slot up to which more than `k` roots lie ends at
/// such a slot, below which at most `k` roots lie.
proof fn lemma_first_reaching(b: BankView, set: Set<ID>, k: int, from: int)
    requires
        set.finite(),
        0 <= k < set.len(),
        0 <= from,
        b.roots_below(set, from) <= k,
    ensures
        from <= first_reaching(b, set, k, from) <= u64::MAX,
        b.roots_below(set, first_reaching(b, set, k, from)) <= k,
        k < b.roots_below(set, first_reaching(b, set, k, from) + 1),
    decreases 0x1_0000_0000_0000_0000 - from,
{
    if from >= 0x1_0000_0000_0000_0000 {
        assert(set.filter(rooted_below(b.nodes, from)) =~= set);
    } else if b.roots_below(set, from + 1) <= k {
        lemma_first_reaching(b, set, k, from + 1);
    }
}

/// Where the position lies within the set, a root stands at it.
pub proof fn lemma_root_at_exists(b: BankView, set: Set<ID>, k: int)
    requires
        set.finite(),
        0 <= k < set.len(),
        forall|id: ID| set.contains(id) ==> id < b.nodes.len() && (#[trigger] b.nodes[id as int]).wf(),
    ensures
        b.is_root_at(set, k, Vote { slot: b.root_slot_at(set, k), lockout: ROOT_LOCKOUT }),
{
    assert(set.filter(rooted_below(b.nodes, 0)) =~= Set::<ID>::empty());
    lemma_first_reaching(b, set, k, 0);
    let slot = first_reaching(b, set, k, 0);
    let below = set.filter(rooted_below(b.nodes, slot));
    let upto = set.filter(rooted_below(b.nodes, slot + 1));
    let found = Vote { slot: slot as Slot, lockout: ROOT_LOCKOUT };
    assert(exists|id: ID| set.contains(id) && (#[trigger] b.nodes[id as int]).root == found) by {
        if forall|id: ID| set.contains(id) ==> (#[trigger] b.nodes[id as int]).root.slot != slot {
            assert(below =~= upto);
        }
    }
}

/// The root at a position does not fall when no root of a member falls.
pub proof fn lemma_root_at_rises(
    low: BankView,
    high: BankView,
    set: Set<ID>,
    k: int,
    first: Vote,
    second: Vote,
)
    requires
        set.finite(),
        forall|id: ID|
            set.contains(id) ==> (#[trigger] low.nodes[id as int]).root.slot <= high.nodes[id as int].root.slot,
        low.is_root_at(set, k, first),
        high.is_root_at(set, k, second),
    ensures
        first.slot <= second.slot,
{
    if second.slot < first.slot {
        let before = set.filter(rooted_below(low.nodes, first.slot as int));
        let after = set.filter(rooted_below(high.nodes, second.slot + 1));
        vstd::set_lib::lemma_len_subset(after, before);
    }
}

/// The root at a later position does not lie below the root at an earlier
/// one.
pub proof fn lemma_root_at_later(b: BankView, set: Set<ID>, k: int, later: int, first: Vote, second: Vote)
    requires
        set.finite(),
        k <= later,
        b.is_root_at(set, k, first),
        b.is_root_at(set, later, second),
    ensures
        first.slot <= second.slot,
{
    if second.slot < first.slot {
        lemma_roots_below_grows(b, set, second.slot + 1, first.slot as int);
    }
}

/// Along the way from a bank to its child the super-root of a bank stays
/// at or below the super-root that its primary subcommittee has reached,
/// and so does the super-root that the child inherits. Where the child
/// opens a phase in which the subcommittees trade places, this holds if
/// the secondary is read at no earlier a position as primary than it was
/// read as secondary.
pub proof fn lemma_super_root_within_primary(
    parent: BankView,
    slot: Slot,
    entries: Seq<(ID, Seq<Vote>)>,
    fork: Set<Slot>,
)
    requires
        parent.wf(),
        parent.child(slot).wf(),
        fits(entries, fork),
        parent.can_freeze(),
        parent.child(slot).can_freeze(),
        parent.settled(),
        parent.child(slot).subcom.primary != parent.subcom.primary ==> parent.subcom.primary.len() / 3
            <= parent.subcom.secondary.len() / 3,
    ensures
        parent.child(slot).applied(entries, fork).settled(),
        parent.child(slot).applied(entries, fork).subcom.parent_super_root <= parent.child(
            slot,
        ).applied(entries, fork).root_slot_at(
            parent.child(slot).applied(entries, fork).subcom.primary,
            parent.child(slot).applied(entries, fork).super_root_position(),
        ),
{
    let child = parent.child(slot);
    let bank = child.applied(entries, fork);
    let voted = BankView { nodes: cast(child.nodes, entries), ..child };
    let k = child.super_root_position();
    let primary = child.subcom.primary;
    let secondary = child.subcom.secondary;
    lemma_cast(parent.nodes, entries);
    // the roots that stand at the positions, before and after the votes
    lemma_root_at_exists(voted, primary, k);
    lemma_root_at_exists(voted, secondary, k);
    let p_after = Vote { slot: voted.root_slot_at(primary, k), lockout: ROOT_LOCKOUT };
    let s_after = Vote { slot: voted.root_slot_at(secondary, k), lockout: ROOT_LOCKOUT };
    let p_bank = Vote { slot: bank.root_slot_at(primary, k), lockout: ROOT_LOCKOUT };
    let s_bank = Vote { slot: bank.root_slot_at(secondary, k), lockout: ROOT_LOCKOUT };
    lemma_root_at_unique(bank, primary, k, p_after, p_bank);
    lemma_root_at_unique(bank, secondary, k, s_after, s_bank);
    // the super-root that the child inherits lies at or below that of its primary
    let pk = parent.super_root_position();
    assert(parent.subcom.super_root <= p_after.slot) by {
        if primary == parent.subcom.primary {
            lemma_root_at_exists(parent, primary, k);
            let p_before = Vote { slot: parent.root_slot_at(primary, k), lockout: ROOT_LOCKOUT };
            lemma_root_at_rises(parent, voted, primary, k, p_before, p_after);
        } else {
            lemma_root_at_exists(parent, primary, pk);
            lemma_root_at_exists(parent, primary, k);
            let s_before = Vote { slot: parent.root_slot_at(primary, pk), lockout: ROOT_LOCKOUT };
            let s_later = Vote { slot: parent.root_slot_at(primary, k), lockout: ROOT_LOCKOUT };
            lemma_root_at_later(parent, primary, pk, k, s_before, s_later);
            lemma_root_at_rises(parent, voted, primary, k, s_later, p_after);
        }
    }
}

/// The genesis bank is settled: its super-root is the first slot.
pub proof fn lemma_genesis_settled(b: BankView)
    requires
        is_genesis(b),
    ensures
        b.settled(),
{
}

impl Block {
    /// Whether the entries of the block can be applied on `fork`.
    pub fn fits(&self, fork: &HashSet<Slot>) -> (b: bool)
        ensures
            b == fits(self@.votes, fork@),
    {
        let mut j: usize = 0;
        while j < self.votes.len()
            invariant
                j <= self.votes@.len(),
                fits(self@.votes.take(j as int), fork@),
            decreases self.votes@.len() - j,
        {
            if self.votes[j].0 >= NUM_NODES {
                assert(!(self@.votes[j as int].0 < NUM_NODES));
                return false;
            }
            let mut i: usize = 0;
            while i < self.votes[j].1.len()
                invariant
                    j < self.votes@.len(),
                    i <= self.votes@[j as int].1@.len(),
                    forall|k: int|
                        0 <= k < i ==> fork@.contains((#[trigger] self.votes@[j as int].1@[k]).slot)
                            && self.votes@[j as int].1@[k].lockout == FRESH_LOCKOUT,
                decreases self.votes@[j as int].1@.len() - i,
            {
                let v = self.votes[j].1[i];
                if !(fork.contains(&v.slot) && v.lockout == FRESH_LOCKOUT) {
                    assert(self@.votes[j as int].1[i as int] == v);
                    return false;
                }
                i += 1;
            }
            proof {
                let done = self@.votes.take(j as int);
                let next = self@.votes.take(j + 1);
                assert forall|a: int| 0 <= a < next.len() implies (#[trigger] next[a]).0 < NUM_NODES by {
                    if a < j {
                        assert(next[a] == done[a]);
                    }
                }
                assert forall|a: int, k: int| 0 <= a < next.len() && 0 <= k < next[a].1.len() implies fork@.contains(
                    (#[trigger] next[a].1[k]).slot,
                ) && next[a].1[k].lockout == FRESH_LOCKOUT by {
                    if a < j {
                        assert(next[a] == done[a]);
                        assert(fork@.contains(done[a].1[k].slot));
                    } else {
                        assert(next[a].1[k] == self.votes@[j as int].1@[k]);
                    }
                }
            }
            j += 1;
        }
        assert(self@.votes.take(self.votes@.len() as int) =~= self@.votes);
        true
    }
}

/// One of the first `n` entries of the tower is on `slot`.
pub open spec fn entry_among(t: TowerView, n: int, slot: Slot) -> bool {
    exists|k: int| 0 <= k < n && k < t.votes.len() && (#[trigger] t.votes[k]).slot == slot
}

/// One of the first `n` validators of `ids` has an entry on `slot`.
pub open spec fn voted_among(nodes: Seq<TowerView>, ids: Seq<ID>, n: int, slot: Slot) -> bool {
    exists|a: int| 0 <= a < n && a < ids.len() && nodes[(#[trigger] ids[a]) as int].has_entry_on(slot)
}

proof fn lemma_entry_among_next(t: TowerView, i: int, slot: Slot)
    requires
        0 <= i < t.votes.len(),
    ensures
        entry_among(t, i + 1, slot) <==> entry_among(t, i, slot) || t.votes[i].slot == slot,
        entry_among(t, t.votes.len() as int, slot) <==> t.has_entry_on(slot),
{
    if entry_among(t, i + 1, slot) {
        let k = choose|k: int| 0 <= k < i + 1 && k < t.votes.len() && (#[trigger] t.votes[k]).slot == slot;
        if k < i {
            assert(entry_among(t, i, slot));
        }
    }
    if t.votes[i].slot == slot {
        assert(entry_among(t, i + 1, slot));
    }
}

proof fn lemma_voted_among_next(nodes: Seq<TowerView>, ids: Seq<ID>, j: int, slot: Slot)
    requires
        0 <= j < ids.len(),
    ensures
        voted_among(nodes, ids, j + 1, slot) <==> voted_among(nodes, ids, j, slot) || entry_among(
            nodes[ids[j] as int],
            nodes[ids[j] as int].votes.len() as int,
            slot,
        ),
{
    let t = nodes[ids[j] as int];
    assert(entry_among(t, t.votes.len() as int, slot) <==> t.has_entry_on(slot));
    if voted_among(nodes, ids, j + 1, slot) {
        let a = choose|a: int| 0 <= a < j + 1 && a < ids.len() && nodes[(#[trigger] ids[a]) as int].has_entry_on(slot);
        if a < j {
            assert(voted_among(nodes, ids, j, slot));
        }
    }
    if t.has_entry_on(slot) {
        assert(nodes[ids[j] as int].has_entry_on(slot));
        assert(voted_among(nodes, ids, j + 1, slot));
    }
}

/// Whether a tower backs `vote`.
fn tower_supports(t: &Tower, mult: u64, vote: &Vote) -> (b: bool)
    ensures
        b == supports(t@, mult, *vote),
{
    if t.root.slot >= vote.slot {
        return true;
    }
    let mut i: usize = 0;
    while i < t.votes.len()
        invariant
            i <= t.votes@.len(),
            forall|k: int| 0 <= k < i ==> !entry_supports(#[trigger] t@.votes[k], mult, *vote),
        decreases t.votes@.len() - i,
    {
        let v = t.votes[i];
        if v.slot >= vote.slot {
            if vote.lockout == THRESHOLD_LOCKOUT {
                assert(entry_supports(t@.votes[i as int], mult, *vote));
                return true;
            }
            assert(mult as u128 * v.lockout as u128 <= 0xffff_ffff_ffff_ffff * 0xffff_ffff_ffff_ffff)
                by (nonlinear_arith)
                requires
                    mult <= 0xffff_ffff_ffff_ffff,
                    v.lockout <= 0xffff_ffff_ffff_ffff,
            ;
            let reach: u128 = v.slot as u128 + mult as u128 * v.lockout as u128;
            if reach >= vote.slot as u128 + vote.lockout as u128 {
                assert(entry_supports(t@.votes[i as int], mult, *vote));
                return true;
            }
        }
        i += 1;
    }
    false
}

impl Bank {
    /// The genesis bank.
    pub fn zero() -> (b: Self)
        ensures
            is_genesis(b@),
            b@.wf(),
    {
        let mut nodes: Vec<Tower> = Vec::new();
        let mut i: usize = 0;
        while i < NUM_NODES
            invariant
                i <= NUM_NODES,
                nodes@.len() == i,
                forall|k: int|
                    0 <= k < i ==> (#[trigger] nodes@[k])@ == (TowerView {
                        votes: Seq::empty(),
                        root: Vote { slot: 0, lockout: ROOT_LOCKOUT },
                    }),
            decreases NUM_NODES - i,
        {
            let t = Tower::default();
            assert(t@.votes =~= Seq::empty());
            nodes.push(t);
            i += 1;
        }
        Bank {
            frozen: true,
            nodes,
            slot: 0,
            parent: 0,
            subcom: Subcommittee::default(),
            children: Vec::new(),
        }
    }

    /// The bank that a child at `slot` starts from: the towers of this bank
    /// and its subcommittees, rotated where a new epoch begins.
    pub fn spawn(&self, slot: Slot) -> (b: Self)
        requires
            self@.wf(),
            self@.frozen,
            self@.slot < slot,
        ensures
            b@ == self@.child(slot),
            b@.wf(),
    {
        let mut nodes: Vec<Tower> = Vec::new();
        let mut i: usize = 0;
        while i < self.nodes.len()
            invariant
                i <= self.nodes@.len(),
                nodes@.len() == i,
                forall|k: int| 0 <= k < i ==> (#[trigger] nodes@[k])@ == self.nodes@[k]@,
            decreases self.nodes@.len() - i,
        {
            nodes.push(self.nodes[i].clone());
            i += 1;
        }
        assert(tower_views(nodes@) =~= tower_views(self.nodes@));
        let mut subcom = self.subcom.child();
        subcom.init_child(&self.subcom);
        Bank { nodes, slot, parent: self.slot, children: Vec::new(), subcom, frozen: false }
    }

    /// Opens a child bank at `slot` and enters it in the list of children
    /// of this bank.
    pub fn child(&mut self, slot: Slot) -> (b: Self)
        requires
            old(self)@.wf(),
            old(self)@.frozen,
            old(self)@.slot < slot,
        ensures
            b@ == old(self)@.child(slot),
            b@.wf(),
            final(self)@ == old(self)@.with_child(slot),
            final(self)@.wf(),
    {
        let b = self.spawn(slot);
        self.children.push(slot);
        b
    }

    /// Whether the super-roots of the two subcommittees can be read.
    pub fn can_freeze(&self) -> (b: bool)
        requires
            self@.wf(),
        ensures
            b == self@.can_freeze(),
    {
        let k = self.subcom.primary.len() / 3;
        k < self.subcom.primary.len() && k < self.subcom.secondary.len()
    }

    /// Applies a block on `fork`, the slots from which the votes of the
    /// block may come, and freezes the bank. The votes of each entry are
    /// applied in order to the tower of its validator; a vote that a tower
    /// rejects is passed over. Then the super-root rises to the lower of
    /// the super-roots of the two subcommittees, if that is above it.
    pub fn apply(&mut self, block: &Block, fork: &HashSet<Slot>)
        requires
            old(self)@.wf(),
            !old(self)@.frozen,
            old(self)@.slot == block.slot,
            old(self)@.parent == block.parent,
            fits(block@.votes, fork@),
            old(self)@.can_freeze(),
        ensures
            final(self)@ == old(self)@.applied(block@.votes, fork@),
            final(self)@.wf(),
            final(self)@.frozen,
            final(self)@.subcom.super_root >= old(self)@.subcom.super_root,
    {
        let ghost before = self@;
        let mut j: usize = 0;
        while j < block.votes.len()
            invariant
                j <= block.votes@.len(),
                self@.wf(),
                self@ == (BankView { nodes: self@.nodes, ..before }),
                self@.nodes == cast(before.nodes, block@.votes.take(j as int)),
                fits(block@.votes, fork@),
            decreases block.votes@.len() - j,
        {
            let id = block.votes[j].0;
            let ghost start = self@.nodes;
            let mut i: usize = 0;
            assert(block@.votes[j as int].0 < NUM_NODES);
            while i < block.votes[j].1.len()
                invariant
                    i <= block.votes@[j as int].1@.len(),
                    j < block.votes@.len(),
                    id == block.votes@[j as int].0,
                    id < NUM_NODES,
                    start.len() == NUM_NODES,
                    self@.wf(),
                    self@ == (BankView { nodes: self@.nodes, ..before }),
                    forall|k: int| 0 <= k < NUM_NODES && k != id ==> #[trigger] self@.nodes[k] == start[k],
                    self@.nodes[id as int] == replayed(
                        start[id as int],
                        block.votes@[j as int].1@.take(i as int),
                    ),
                    fits(block@.votes, fork@),
                decreases block.votes@[j as int].1@.len() - i,
            {
                let v = block.votes[j].1[i];
                let ghost votes = block.votes@[j as int].1@;
                proof {
                    assert(block@.votes[j as int].1[i as int] == v);
                    assert(votes.take(i + 1).drop_last() =~= votes.take(i as int));
                }
                let ghost prev = self@.nodes;
                let _e = self.nodes[id].apply(&v);
                proof {
                    assert forall|k: int| 0 <= k < NUM_NODES && k != id implies #[trigger] self@.nodes[k]
                        == prev[k] by {
                    }
                }
                i += 1;
            }
            proof {
                let entries = block@.votes;
                assert(entries.take(j + 1).drop_last() =~= entries.take(j as int));
                assert(entries[j as int].1.take(entries[j as int].1.len() as int) =~= entries[j as int].1);
            }
            j += 1;
        }
        proof {
            assert(block@.votes.take(block.votes@.len() as int) =~= block@.votes);
        }
        let primary = self.primary_super_root().slot;
        let secondary = self.secondary_super_root().slot;
        self.subcom.freeze(primary, secondary);
        self.frozen = true;
    }

    /// How many members of the primary subcommittee back `vote`, the
    /// lockout of an entry counted `mult` times.
    pub fn primary_calc_threshold_slot(&self, mult: u64, vote: &Vote) -> (count: usize)
        requires
            self@.wf(),
        ensures
            count == self@.primary_support(mult, *vote),
    {
        let ids = members(&self.subcom.primary);
        let ghost p = supporters(self@.nodes, mult, *vote);
        let mut count: usize = 0;
        let mut i: usize = 0;
        proof {
            lemma_count_none(ids@, p);
        }
        while i < ids.len()
            invariant
                i <= ids@.len(),
                count <= i,
                self@.wf(),
                ids@.no_duplicates(),
                ids@.to_set() == self@.subcom.primary,
                p == supporters(self@.nodes, mult, *vote),
                count == ids@.take(i as int).to_set().filter(p).len(),
            decreases ids@.len() - i,
        {
            proof {
                lemma_count_next(ids@, i as int, p);
                assert(ids@.to_set().contains(ids@[i as int]));
            }
            if tower_supports(&self.nodes[ids[i]], mult, vote) {
                count += 1;
            }
            i += 1;
        }
        assert(ids@.take(ids@.len() as int) =~= ids@);
        count
    }

    /// Whether more than two thirds of the primary subcommittee back `vote`.
    pub fn primary_threshold_slot(&self, vote: &Vote) -> (b: bool)
        requires
            self@.wf(),
        ensures
            b == self@.primary_threshold(*vote),
    {
        proof {
            lemma_bounded_len(self@.subcom.primary, NUM_NODES);
        }
        self.primary_calc_threshold_slot(THRESHOLD_LOCKOUT, vote) > (2 * self.subcom.primary.len()) / 3
    }

    /// The root that stands at a third of the size of the primary
    /// subcommittee when the roots of the members of `set` are put in the
    /// order of their slots: two thirds of the members have rooted it or a
    /// later slot.
    pub fn group_super_root(&self, set: &HashSet<ID>) -> (root: Vote)
        requires
            self@.wf(),
            forall|id: ID| set@.contains(id) ==> id < NUM_NODES,
            self@.super_root_position() < set@.len(),
        ensures
            self@.is_root_at(set@, self@.super_root_position(), root),
            root.slot == self@.root_slot_at(set@, self@.super_root_position()),
            root.lockout == ROOT_LOCKOUT,
    {
        let ids = members(set);
        let ghost nodes = self@.nodes;
        let mut roots: Vec<Vote> = Vec::new();
        let ghost mut origin: Seq<ID> = Seq::empty();
        let mut i: usize = 0;
        proof {
            assert forall|x: int| #[trigger]
                slots_below(roots@, x) == ids@.take(0).to_set().filter(rooted_below(nodes, x)).len() by {
                lemma_count_none(ids@, rooted_below(nodes, x));
            }
        }
        while i < ids.len()
            invariant
                i <= ids@.len(),
                roots@.len() == i,
                origin.len() == i,
                self@.wf(),
                nodes == self@.nodes,
                ids@.no_duplicates(),
                ids@.to_set() == set@,
                forall|id: ID| set@.contains(id) ==> id < NUM_NODES,
                forall|a: int, b: int|
                    0 <= a < b < roots@.len() ==> (#[trigger] roots@[a]).slot <= (
                    #[trigger] roots@[b]).slot,
                forall|j: int|
                    0 <= j < roots@.len() ==> set@.contains(#[trigger] origin[j]) && nodes[origin[j] as int].root
                        == roots@[j],
                forall|x: int| #[trigger]
                    slots_below(roots@, x) == ids@.take(i as int).to_set().filter(
                        rooted_below(nodes, x),
                    ).len(),
            decreases ids@.len() - i,
        {
            proof {
                assert(ids@.to_set().contains(ids@[i as int]));
            }
            let r = self.nodes[ids[i]].root;
            let mut at: usize = 0;
            while at < roots.len() && roots[at].slot <= r.slot
                invariant
                    at <= roots@.len(),
                    forall|j: int| 0 <= j < at ==> (#[trigger] roots@[j]).slot <= r.slot,
                decreases roots@.len() - at,
            {
                at += 1;
            }
            let ghost sorted = roots@;
            roots.insert(at, r);
            proof {
                origin = origin.insert(at as int, ids@[i as int]);
                assert forall|x: int| #[trigger]
                    slots_below(roots@, x) == ids@.take(i + 1).to_set().filter(
                        rooted_below(nodes, x),
                    ).len() by {
                    lemma_slots_below_insert(sorted, at as int, r, x);
                    lemma_count_next(ids@, i as int, rooted_below(nodes, x));
                }
            }
            i += 1;
        }
        let k = self.subcom.primary.len() / 3;
        let root = roots[k];
        proof {
            assert(ids@.take(ids@.len() as int) =~= ids@);
            lemma_slots_below_upper(roots@, k as int, root.slot as int);
            lemma_slots_below_lower(roots@, k + 1, root.slot + 1);
            assert(set@.contains(origin[k as int]));
            let chosen = Vote { slot: self@.root_slot_at(set@, k as int), lockout: ROOT_LOCKOUT };
            lemma_root_at_unique(self@, set@, k as int, root, chosen);
        }
        root
    }

    /// The super-root of the primary subcommittee.
    pub fn primary_super_root(&self) -> (root: Vote)
        requires
            self@.wf(),
            self@.super_root_position() < self@.subcom.primary.len(),
        ensures
            self@.is_root_at(self@.subcom.primary, self@.super_root_position(), root),
            root.slot == self@.root_slot_at(self@.subcom.primary, self@.super_root_position()),
            root.lockout == ROOT_LOCKOUT,
    {
        self.group_super_root(&self.subcom.primary)
    }

    /// The super-root of the secondary subcommittee, read at the position
    /// that the size of the primary gives.
    pub fn secondary_super_root(&self) -> (root: Vote)
        requires
            self@.wf(),
            self@.super_root_position() < self@.subcom.secondary.len(),
        ensures
            self@.is_root_at(self@.subcom.secondary, self@.super_root_position(), root),
            root.slot == self@.root_slot_at(self@.subcom.secondary, self@.super_root_position()),
            root.lockout == ROOT_LOCKOUT,
    {
        self.group_super_root(&self.subcom.secondary)
    }

    /// The lowest root among the members of the primary subcommittee.
    pub fn lowest_primary_root(&self) -> (root: Vote)
        requires
            self@.wf(),
            self@.subcom.primary.len() > 0,
        ensures
            self@.is_lowest_root(self@.subcom.primary, root),
            root == self@.lowest_primary_root(),
    {
        let ids = members(&self.subcom.primary);
        let ghost nodes = self@.nodes;
        proof {
            assert(ids@.to_set().contains(ids@[0]));
        }
        let mut root = self.nodes[ids[0]].root;
        let ghost mut origin = ids@[0];
        let mut i: usize = 1;
        while i < ids.len()
            invariant
                1 <= i <= ids@.len(),
                self@.wf(),
                nodes == self@.nodes,
                ids@.to_set() == self@.subcom.primary,
                self@.subcom.primary.contains(origin),
                nodes[origin as int].root == root,
                forall|j: int| 0 <= j < i ==> root.slot <= (#[trigger] nodes[ids@[j] as int]).root.slot,
            decreases ids@.len() - i,
        {
            proof {
                assert(ids@.to_set().contains(ids@[i as int]));
            }
            let r = self.nodes[ids[i]].root;
            if r.slot < root.slot {
                root = r;
                proof {
                    origin = ids@[i as int];
                }
            }
            i += 1;
        }
        proof {
            assert(root == Vote { slot: root.slot, lockout: ROOT_LOCKOUT });
        }
        root
    }

    /// The lowest root of all towers of the bank.
    pub fn lowest_root(&self) -> (root: Vote)
        requires
            self@.wf(),
        ensures
            self@.is_lowest_of_all(root),
            root == self@.lowest_root(),
    {
        let ghost nodes = self@.nodes;
        let mut root = self.nodes[0].root;
        let ghost mut origin = 0int;
        let mut i: usize = 1;
        while i < self.nodes.len()
            invariant
                1 <= i <= self.nodes@.len(),
                self@.wf(),
                nodes == self@.nodes,
                0 <= origin < nodes.len(),
                nodes[origin].root == root,
                forall|j: int| 0 <= j < i ==> root.slot <= (#[trigger] nodes[j]).root.slot,
            decreases self.nodes@.len() - i,
        {
            let r = self.nodes[i].root;
            assert(nodes[i as int].root == r);
            if r.slot < root.slot {
                root = r;
                proof {
                    origin = i as int;
                }
            }
            i += 1;
        }
        proof {
            assert(nodes[origin].wf());
            assert(root == Vote { slot: root.slot, lockout: ROOT_LOCKOUT });
            assert(self@.is_lowest_of_all(root));
            let chosen = self@.lowest_root();
            assert(self@.is_lowest_of_all(chosen));
        }
        root
    }

    /// The slots on which a member of the primary subcommittee has an
    /// entry.
    fn slots_voted(&self) -> (seen: HashSet<Slot>)
        requires
            self@.wf(),
        ensures
            forall|slot: Slot| #[trigger] seen@.contains(slot) <==> self@.voted_on(slot),
    {
        let ids = members(&self.subcom.primary);
        let ghost nodes = self@.nodes;
        let mut seen: HashSet<Slot> = HashSet::new();
        let mut j: usize = 0;
        while j < ids.len()
            invariant
                j <= ids@.len(),
                self@.wf(),
                nodes == self@.nodes,
                ids@.to_set() == self@.subcom.primary,
                forall|slot: Slot| #[trigger] seen@.contains(slot) <==> voted_among(nodes, ids@, j as int, slot),
            decreases ids@.len() - j,
        {
            proof {
                assert(ids@.to_set().contains(ids@[j as int]));
            }
            let tower = &self.nodes[ids[j]];
            let ghost before = seen@;
            let mut i: usize = 0;
            while i < tower.votes.len()
                invariant
                    i <= tower@.votes.len(),
                    forall|slot: Slot| #[trigger]
                        seen@.contains(slot) <==> before.contains(slot) || entry_among(tower@, i as int, slot),
                decreases tower@.votes.len() - i,
            {
                let ghost had = seen@;
                seen.insert(tower.votes[i].slot);
                proof {
                    assert forall|slot: Slot| #[trigger]
                        seen@.contains(slot) <==> before.contains(slot) || entry_among(
                            tower@,
                            i + 1,
                            slot,
                        ) by {
                        assert(had.contains(slot) <==> before.contains(slot) || entry_among(
                            tower@,
                            i as int,
                            slot,
                        ));
                        lemma_entry_among_next(tower@, i as int, slot);
                    }
                }
                i += 1;
            }
            proof {
                assert(tower@ == nodes[ids@[j as int] as int]);
                assert forall|slot: Slot| #[trigger]
                    seen@.contains(slot) <==> voted_among(nodes, ids@, j + 1, slot) by {
                    assert(before.contains(slot) <==> voted_among(nodes, ids@, j as int, slot));
                    lemma_voted_among_next(nodes, ids@, j as int, slot);
                }
            }
            j += 1;
        }
        proof {
            assert forall|slot: Slot| #[trigger] seen@.contains(slot) <==> self@.voted_on(slot) by {
                if voted_among(nodes, ids@, ids@.len() as int, slot) {
                    let a = choose|a: int|
                        0 <= a < ids@.len() && nodes[(#[trigger] ids@[a]) as int].has_entry_on(slot);
                    assert(ids@.to_set().contains(ids@[a]));
                }
                if self@.voted_on(slot) {
                    let id = choose|id: ID|
                        self@.subcom.primary.contains(id) && (#[trigger] nodes[id as int]).has_entry_on(slot);
                    assert(ids@.contains(id));
                    let a = choose|a: int| 0 <= a < ids@.len() && ids@[a] == id;
                    assert(nodes[ids@[a] as int].has_entry_on(slot));
                }
            }
        }
        seen
    }

    /// The slots that are optimistically confirmed at the bank.
    pub fn oc_slots(&self) -> (slots: HashSet<Slot>)
        requires
            self@.wf(),
        ensures
            slots@ == self@.oc_slots(),
    {
        let seen = self.slots_voted();
        let tried = members(&seen);
        let mut slots: HashSet<Slot> = HashSet::new();
        let mut i: usize = 0;
        while i < tried.len()
            invariant
                i <= tried@.len(),
                self@.wf(),
                tried@.to_set() == seen@,
                forall|slot: Slot|
                    slots@.contains(slot) <==> self@.primary_threshold(
                        Vote { slot, lockout: THRESHOLD_LOCKOUT },
                    ) && exists|k: int| 0 <= k < i && tried@[k] == slot,
            decreases tried@.len() - i,
        {
            let vote = Vote { slot: tried[i], lockout: THRESHOLD_LOCKOUT };
            if self.primary_threshold_slot(&vote) {
                slots.insert(tried[i]);
            }
            proof {
                assert forall|slot: Slot|
                    slots@.contains(slot) <==> self@.primary_threshold(
                        Vote { slot, lockout: THRESHOLD_LOCKOUT },
                    ) && exists|k: int| 0 <= k < i + 1 && tried@[k] == slot by {
                    if slot == tried@[i as int] {
                        assert(tried@[i as int] == slot);
                    } else if exists|k: int| 0 <= k < i + 1 && tried@[k] == slot {
                        let k = choose|k: int| 0 <= k < i + 1 && tried@[k] == slot;
                        assert(k < i);
                    }
                }
            }
            i += 1;
        }
        proof {
            assert forall|slot: Slot| slots@.contains(slot) <==> self@.oc_slots().contains(slot) by {
                if self@.voted_on(slot) {
                    assert(tried@.to_set().contains(slot));
                    assert(tried@.contains(slot));
                }
                if exists|k: int| 0 <= k < tried@.len() && tried@[k] == slot {
                    let k = choose|k: int| 0 <= k < tried@.len() && tried@[k] == slot;
                    assert(tried@.to_set().contains(tried@[k]));
                }
            }
            assert(slots@ =~= self@.oc_slots());
        }
        slots
    }

    /// Brings the latest votes seen up to date with the towers of the
    /// primary subcommittee of this bank.
    pub fn primary_latest_votes(&self, latest_votes: &mut HashMap<ID, Slot>)
        requires
            self@.wf(),
        ensures
            final(latest_votes)@ == self@.with_latest(old(latest_votes)@),
    {
        let ids = members(&self.subcom.primary);
        let ghost nodes = self@.nodes;
        let ghost seen = latest_votes@;
        let ghost primary = self@.subcom.primary;
        let mut i: usize = 0;
        while i < ids.len()
            invariant
                i <= ids@.len(),
                self@.wf(),
                nodes == self@.nodes,
                primary == self@.subcom.primary,
                ids@.no_duplicates(),
                ids@.to_set() == primary,
                forall|id: ID| #[trigger]
                    latest_votes@.contains_key(id) <==> seen.contains_key(id) || exists|j: int|
                        0 <= j < i && ids@[j] == id,
                forall|id: ID| #[trigger]
                    latest_votes@.contains_key(id) ==> latest_votes@[id] == if exists|j: int|
                        0 <= j < i && ids@[j] == id {
                        self@.with_latest(seen)[id]
                    } else {
                        seen[id]
                    },
            decreases ids@.len() - i,
        {
            let id = ids[i];
            proof {
                assert(ids@.to_set().contains(ids@[i as int]));
            }
            let n = &self.nodes[id];
            let latest = match n.latest_vote() {
                Some(v) => v.slot,
                None => n.root.slot,
            };
            let newer = match latest_votes.get(&id) {
                Some(e) => *e < latest,
                None => true,
            };
            if newer {
                latest_votes.insert(id, latest);
            }
            i += 1;
        }
    }

    /// Whether `id` is a member of the primary subcommittee.
    pub fn check_primary(&self, id: ID) -> (b: bool)
        ensures
            b == self@.subcom.primary.contains(id),
    {
        self.subcom.primary.contains(&id)
    }

    /// Whether `id` is a member of one of the two subcommittees.
    pub fn check_subcommittee(&self, id: ID) -> (b: bool)
        ensures
            b == (self@.subcom.primary.contains(id) || self@.subcom.secondary.contains(id)),
    {
        self.subcom.primary.contains(&id) || self.subcom.secondary.contains(&id)
    }
}

} // verus!
