//! The tree of banks, its lowest root and the weights of its forks.

use crate::bank::fits;
use crate::bank::latest_slot;
use crate::bank::Bank;
use crate::bank::BankView;
use crate::bank::Block;
use crate::bank::BlockView;
use crate::bank::ID;
use crate::sets::keys_of;
use crate::subcommittee::Phase;
use crate::tower::at_least;
use crate::tower::Slot;
use crate::tower::Vote;
use crate::tower::ROOT_LOCKOUT;
use std::collections::HashMap;
use std::collections::HashSet;
use vstd::prelude::*;

verus! {

broadcast use vstd::std_specs::hash::group_hash_axioms;

/// What keeps a block from being applied to the fork tree, or a validator
/// from deciding on its vote.
#[derive(Clone, Copy, Debug, PartialEq, Eq, Structural)]
pub enum Fault {
    /// A bank is kept at the slot of the block.
    SlotTaken,
    /// No bank is kept at the parent of the block.
    NoParent,
    /// The slot of the block does not lie above its parent.
    SlotNotAbove,
    /// An entry names no validator, or a vote is not fresh or on no slot of
    /// the fork.
    VoteOffFork,
    /// A subcommittee is too small for its super-root to be read.
    ShortCommittee,
    /// The super-roots of the two subcommittees are on different forks.
    Diverged,
    /// The fork in question does not hold the lowest root.
    RootOffFork,
    /// No bank is kept at the slot in question.
    NoBank,
    /// The tower in question has no entry.
    NoVote,
    /// Two towers cannot be compared: one holds a root that the other
    /// never voted for, or raises a lockout by more than one doubling.
    Incomparable,
    /// A slot that was optimistically confirmed lies below the lowest root
    /// and is none of the roots.
    ConfirmedPruned,
}

/// The banks that are kept, by slot, with the weight of each fork, the
/// lowest root and the slots that were ever on the way to a lowest root.
pub struct Forks {
    pub fork_map: HashMap<Slot, Bank>,
    pub primary_fork_weights: HashMap<Slot, usize>,
    pub lowest_root: Vote,
    pub roots: HashSet<Slot>,
}

/// The mathematical content of `Forks`.
pub struct ForksView {
    pub banks: Map<Slot, BankView>,
    pub weights: Map<Slot, usize>,
    pub lowest_root: Vote,
    pub roots: Set<Slot>,
}

/// The contents of the banks of a map.
pub open spec fn bank_views(banks: Map<Slot, Bank>) -> Map<Slot, BankView> {
    Map::new(|slot: Slot| banks.contains_key(slot), |slot: Slot| banks[slot]@)
}

impl View for Forks {
    type V = ForksView;

    open spec fn view(&self) -> ForksView {
        ForksView {
            banks: bank_views(self.fork_map@),
            weights: self.primary_fork_weights@,
            lowest_root: self.lowest_root,
            roots: self.roots@,
        }
    }
}

/// The fork of `slot`: the slots met on the way from `slot` along the
/// parents, up to and with the first that has no bank or is its own parent.
pub open spec fn ancestors(banks: Map<Slot, BankView>, slot: Slot) -> Set<Slot>
    decreases slot,
{
    if banks.contains_key(slot) && banks[slot].parent < slot {
        ancestors(banks, banks[slot].parent).insert(slot)
    } else {
        set![slot]
    }
}

/// `slot` is met when descending from `root` through the children of the
/// banks.
pub open spec fn reached(banks: Map<Slot, BankView>, root: Slot, slot: Slot) -> bool
    decreases slot,
{
    slot == root || (banks.contains_key(slot) && banks[slot].parent < slot && banks.contains_key(
        banks[slot].parent,
    ) && banks[banks[slot].parent].children.contains(slot) && reached(
        banks,
        root,
        banks[slot].parent,
    ))
}

/// The banks of `banks` that are met when descending from `root`.
pub open spec fn descent(banks: Map<Slot, BankView>, root: Slot) -> Set<Slot> {
    Set::new(|slot: Slot| banks.contains_key(slot) && reached(banks, root, slot))
}

/// The banks form a forest: each bank is kept under its slot, is frozen
/// and well-formed, does not lie below its parent, and each child that a
/// bank lists is kept, lies above the bank and names it as its parent.
pub open spec fn is_forest(banks: Map<Slot, BankView>) -> bool {
    &&& banks.dom().finite()
    &&& forall|slot: Slot| #[trigger]
        banks.contains_key(slot) ==> {
            &&& banks[slot].slot == slot
            &&& banks[slot].wf()
            &&& banks[slot].frozen
            &&& banks[slot].parent <= slot
        }
    &&& forall|slot: Slot, i: int|
        banks.contains_key(slot) && 0 <= i < banks[slot].children.len() ==> {
            let child = #[trigger] banks[slot].children[i];
            &&& banks.contains_key(child)
            &&& banks[child].parent == slot
            &&& slot < child
        }
}

/// What is kept of `banks` when the lowest root is `root`.
pub open spec fn collected(banks: Map<Slot, BankView>, root: Slot) -> Map<Slot, BankView> {
    banks.restrict(descent(banks, root))
}

/// A descent does not leave the slots it started above.
pub proof fn lemma_reached_above(banks: Map<Slot, BankView>, root: Slot, slot: Slot)
    requires
        reached(banks, root, slot),
    ensures
        root <= slot,
    decreases slot,
{
    if slot != root {
        lemma_reached_above(banks, root, banks[slot].parent);
    }
}

/// A set of banks that holds the root and, with a bank, the children it
/// lists, holds every bank that is reached from the root.
pub proof fn lemma_closed_holds_descent(
    banks: Map<Slot, BankView>,
    root: Slot,
    seen: Set<Slot>,
    slot: Slot,
)
    requires
        seen.contains(root),
        forall|p: Slot, i: int|
            seen.contains(p) && banks.contains_key(p) && 0 <= i < banks[p].children.len()
                ==> seen.contains(#[trigger] banks[p].children[i]),
        reached(banks, root, slot),
    ensures
        seen.contains(slot),
    decreases slot,
{
    if slot != root {
        let parent = banks[slot].parent;
        lemma_closed_holds_descent(banks, root, seen, parent);
    }
}

/// What is reached from `root` stays reached from it when only the banks
/// reached from `root` are kept.
pub proof fn lemma_reached_in_collected(banks: Map<Slot, BankView>, root: Slot, slot: Slot)
    requires
        banks.contains_key(root),
        banks.contains_key(slot),
        reached(banks, root, slot),
    ensures
        reached(collected(banks, root), root, slot),
        collected(banks, root).contains_key(slot),
    decreases slot,
{
    if slot != root {
        lemma_reached_in_collected(banks, root, banks[slot].parent);
    }
}

/// Keeping only what is reached from a bank of a forest leaves a forest in
/// which every bank is reached from that bank.
pub proof fn lemma_collected_forest(banks: Map<Slot, BankView>, root: Slot)
    requires
        is_forest(banks),
        banks.contains_key(root),
    ensures
        is_forest(collected(banks, root)),
        collected(banks, root).contains_key(root),
        forall|slot: Slot| #[trigger]
            collected(banks, root).contains_key(slot) ==> reached(collected(banks, root), root, slot),
{
    let kept = collected(banks, root);
    vstd::set_lib::lemma_set_subset_finite(banks.dom(), kept.dom());
    assert forall|slot: Slot| #[trigger] kept.contains_key(slot) implies reached(kept, root, slot) by {
        lemma_reached_in_collected(banks, root, slot);
    }
}

/// The validators that sit in the primary subcommittee of some bank.
pub open spec fn voters(banks: Map<Slot, BankView>) -> Set<ID> {
    Set::new(
        |id: ID| exists|slot: Slot| banks.contains_key(slot) && (#[trigger] banks[slot]).subcom.primary.contains(id),
    )
}

/// `latest` is the newest slot that the tower of `id` shows in any bank in
/// whose primary subcommittee `id` sits.
pub open spec fn is_latest(banks: Map<Slot, BankView>, id: ID, latest: Slot) -> bool {
    &&& exists|slot: Slot|
        banks.contains_key(slot) && (#[trigger] banks[slot]).subcom.primary.contains(id)
            && latest_slot(banks[slot].nodes[id as int]) == latest
    &&& forall|slot: Slot|
        banks.contains_key(slot) && (#[trigger] banks[slot]).subcom.primary.contains(id)
            ==> latest_slot(banks[slot].nodes[id as int]) <= latest
}

/// The latest vote of each validator that sits in a primary subcommittee.
pub open spec fn latest_votes(banks: Map<Slot, BankView>) -> Map<ID, Slot> {
    Map::new(
        |id: ID| voters(banks).contains(id),
        |id: ID| choose|latest: Slot| is_latest(banks, id, latest),
    )
}

/// `seen` holds the latest vote of each validator of `banks`.
pub open spec fn tallied(banks: Map<Slot, BankView>, seen: Map<ID, Slot>) -> bool {
    &&& forall|id: ID| #[trigger] seen.contains_key(id) <==> voters(banks).contains(id)
    &&& forall|id: ID| #[trigger] seen.contains_key(id) ==> is_latest(banks, id, seen[id])
}

/// The slots from `tip` along the parents down to `root`.
pub open spec fn fork_from(banks: Map<Slot, BankView>, root: Slot, tip: Slot) -> Set<Slot>
    decreases tip,
{
    if tip != root && banks.contains_key(tip) && banks[tip].parent < tip {
        fork_from(banks, root, banks[tip].parent).insert(tip)
    } else {
        set![tip]
    }
}

/// The validators whose latest vote is on a slot of `fork`.
pub open spec fn voting_on(latest: Map<ID, Slot>, fork: Set<Slot>) -> spec_fn(ID) -> bool {
    |id: ID| fork.contains(latest[id])
}

/// How many validators have their latest vote on a slot of `fork`.
pub open spec fn votes_on(latest: Map<ID, Slot>, fork: Set<Slot>) -> nat {
    latest.dom().filter(voting_on(latest, fork)).len()
}

/// The weight of the fork that ends at `tip`: the number of validators
/// whose latest vote is on `tip` or on an ancestor of it down to `root`.
pub open spec fn fork_weight(banks: Map<Slot, BankView>, root: Slot, tip: Slot) -> nat {
    votes_on(latest_votes(banks), fork_from(banks, root, tip))
}

/// The weight of each bank that is met when descending from `root`.
pub open spec fn fork_weights(banks: Map<Slot, BankView>, root: Slot) -> Map<Slot, usize> {
    Map::new(
        |slot: Slot| descent(banks, root).contains(slot),
        |slot: Slot| fork_weight(banks, root, slot) as usize,
    )
}

/// The count that `counts` holds for `slot`: none where it holds no count.
pub open spec fn count_at(counts: Map<Slot, usize>, slot: Slot) -> nat {
    if counts.contains_key(slot) {
        counts[slot] as nat
    } else {
        0
    }
}

/// Taking the towers of one more bank into account keeps the latest votes
/// up to date.
pub proof fn lemma_tallied_next(
    banks: Map<Slot, BankView>,
    seen: Map<ID, Slot>,
    slot: Slot,
    bank: BankView,
)
    requires
        tallied(banks, seen),
        !banks.contains_key(slot),
    ensures
        tallied(banks.insert(slot, bank), bank.with_latest(seen)),
{
    let more = banks.insert(slot, bank);
    let next = bank.with_latest(seen);
    assert forall|id: ID| #[trigger] next.contains_key(id) implies is_latest(more, id, next[id]) by {
        if seen.contains_key(id) {
            let s = choose|s: Slot|
                banks.contains_key(s) && (#[trigger] banks[s]).subcom.primary.contains(id) && latest_slot(
                    banks[s].nodes[id as int],
                ) == seen[id];
            assert(more.contains_key(s) && more[s] == banks[s]);
        }
        if bank.subcom.primary.contains(id) {
            assert(more.contains_key(slot) && more[slot] == bank);
        }
    }
}

/// No slot of the fork that ends at `tip` lies above `tip`.
pub proof fn lemma_fork_from_below(banks: Map<Slot, BankView>, root: Slot, tip: Slot, slot: Slot)
    requires
        fork_from(banks, root, tip).contains(slot),
    ensures
        slot <= tip,
    decreases tip,
{
    if tip != root && banks.contains_key(tip) && banks[tip].parent < tip && slot != tip {
        lemma_fork_from_below(banks, root, banks[tip].parent, slot);
    }
}

/// The votes on two sets of slots that share no slot add up.
pub proof fn lemma_votes_on_add(latest: Map<ID, Slot>, first: Set<Slot>, second: Set<Slot>)
    requires
        latest.dom().finite(),
        first.disjoint(second),
    ensures
        votes_on(latest, first.union(second)) == votes_on(latest, first) + votes_on(latest, second),
        votes_on(latest, first) <= latest.dom().len(),
{
    let a = latest.dom().filter(voting_on(latest, first));
    let b = latest.dom().filter(voting_on(latest, second));
    let both = latest.dom().filter(voting_on(latest, first.union(second)));
    latest.dom().lemma_len_filter(voting_on(latest, first));
    assert(a + b =~= both);
    vstd::set_lib::lemma_set_disjoint_lens(a, b);
}

/// The weight of a fork is that of the fork of the parent and the votes on
/// its tip.
pub proof fn lemma_fork_weight_next(banks: Map<Slot, BankView>, root: Slot, tip: Slot)
    requires
        latest_votes(banks).dom().finite(),
        tip != root,
        banks.contains_key(tip),
        banks[tip].parent < tip,
    ensures
        fork_weight(banks, root, tip) == fork_weight(banks, root, banks[tip].parent) + votes_on(
            latest_votes(banks),
            set![tip],
        ),
        fork_weight(banks, root, tip) <= latest_votes(banks).dom().len(),
{
    let below = fork_from(banks, root, banks[tip].parent);
    assert(below.disjoint(set![tip])) by {
        if below.contains(tip) {
            lemma_fork_from_below(banks, root, banks[tip].parent, tip);
        }
    }
    assert(below.union(set![tip]) =~= fork_from(banks, root, tip));
    lemma_votes_on_add(latest_votes(banks), below, set![tip]);
    lemma_votes_on_add(latest_votes(banks), fork_from(banks, root, tip), Set::empty());
}

/// What the weight of the bank at position `j` of a walk down from `root`
/// is made of.
proof fn lemma_weigh(banks: Map<Slot, BankView>, root: Slot, order: Seq<Slot>, j: int)
    requires
        latest_votes(banks).dom().finite(),
        order.to_set() == descent(banks, root),
        parents_first(banks, root, order),
        0 <= j < order.len(),
    ensures
        banks.contains_key(order[j]),
        fork_weight(banks, root, order[j]) <= latest_votes(banks).dom().len(),
        order[j] == root ==> fork_weight(banks, root, order[j]) == votes_on(
            latest_votes(banks),
            set![order[j]],
        ),
        order[j] != root ==> order.take(j).contains(banks[order[j]].parent) && fork_weight(
            banks,
            root,
            order[j],
        ) == fork_weight(banks, root, banks[order[j]].parent) + votes_on(
            latest_votes(banks),
            set![order[j]],
        ),
{
    let child = order[j];
    assert(order.to_set().contains(child));
    if child != root {
        lemma_fork_weight_next(banks, root, child);
    } else {
        lemma_votes_on_add(latest_votes(banks), set![child], Set::empty());
    }
}

/// In `order` each slot but `root` comes after the parent of its bank.
pub open spec fn parents_first(banks: Map<Slot, BankView>, root: Slot, order: Seq<Slot>) -> bool {
    forall|i: int|
        0 <= i < order.len() && #[trigger] order[i] != root ==> order.take(i).contains(
            banks[order[i]].parent,
        )
}

/// The slot of the highest bank.
pub open spec fn highest(banks: Map<Slot, BankView>) -> Slot {
    choose|top: Slot| banks.contains_key(top) && forall|slot: Slot| banks.contains_key(slot) ==> slot <= top
}

/// The state of a walk down from `root`: `order` holds the banks visited,
/// each once and after its parent, `stack` those still to visit; whatever a
/// visited bank lists as a child is visited or still to visit.
pub open spec fn walking(
    banks: Map<Slot, BankView>,
    root: Slot,
    order: Seq<Slot>,
    stack: Seq<Slot>,
) -> bool {
    &&& order.no_duplicates()
    &&& forall|i: int|
        0 <= i < order.len() ==> banks.contains_key(#[trigger] order[i]) && reached(
            banks,
            root,
            order[i],
        )
    &&& parents_first(banks, root, order)
    &&& forall|k: int|
        0 <= k < stack.len() ==> banks.contains_key(#[trigger] stack[k]) && reached(
            banks,
            root,
            stack[k],
        ) && (stack[k] != root ==> order.contains(banks[stack[k]].parent))
    &&& forall|j: int, i: int|
        0 <= j < order.len() && 0 <= i < banks[order[j]].children.len() ==> order.contains(
            #[trigger] banks[order[j]].children[i],
        ) || stack.contains(banks[order[j]].children[i])
    &&& order.contains(root) || stack.contains(root)
}

/// A slot that was visited leaves the stack.
proof fn lemma_walk_skip(banks: Map<Slot, BankView>, root: Slot, order: Seq<Slot>, stack: Seq<Slot>)
    requires
        walking(banks, root, order, stack),
        stack.len() > 0,
        order.contains(stack.last()),
    ensures
        walking(banks, root, order, stack.drop_last()),
{
    let rest = stack.drop_last();
    assert forall|c: Slot| stack.contains(c) implies c == stack.last() || rest.contains(c) by {
        let k = choose|k: int| 0 <= k < stack.len() && stack[k] == c;
        if k < rest.len() {
            assert(rest[k] == c);
        }
    }
}

/// A slot that was not visited is visited, and its children wait.
#[verifier::rlimit(100)]
#[verifier::spinoff_prover]
proof fn lemma_walk_visit(banks: Map<Slot, BankView>, root: Slot, order: Seq<Slot>, stack: Seq<Slot>)
    requires
        is_forest(banks),
        walking(banks, root, order, stack),
        stack.len() > 0,
        !order.contains(stack.last()),
    ensures
        walking(banks, root, order.push(stack.last()), stack.drop_last() + banks[stack.last()].children),
{
    let slot = stack.last();
    let rest = stack.drop_last();
    let children = banks[slot].children;
    let longer = order.push(slot);
    let next = rest + children;
    assert forall|c: Slot| stack.contains(c) implies c == slot || next.contains(c) by {
        let k = choose|k: int| 0 <= k < stack.len() && stack[k] == c;
        if k < rest.len() {
            assert(next[k] == c);
        }
    }
    assert forall|c: Slot| order.contains(c) implies longer.contains(c) by {
        let k = choose|k: int| 0 <= k < order.len() && order[k] == c;
        assert(longer[k] == c);
    }
    assert(longer[order.len() as int] == slot);
    assert(longer.no_duplicates());
    assert(parents_first(banks, root, longer)) by {
        assert forall|i: int| 0 <= i < longer.len() && #[trigger] longer[i] != root implies longer.take(
            i,
        ).contains(banks[longer[i]].parent) by {
            if i < order.len() {
                assert(longer.take(i) =~= order.take(i));
            } else {
                assert(longer.take(i) =~= order);
            }
        }
    }
    assert forall|j: int, i: int|
        0 <= j < longer.len() && 0 <= i < banks[longer[j]].children.len() implies longer.contains(
        #[trigger] banks[longer[j]].children[i],
    ) || next.contains(banks[longer[j]].children[i]) by {
        let c = banks[longer[j]].children[i];
        if j == order.len() {
            assert(next[rest.len() + i] == c);
        }
    }
}

/// No more banks are visited than are kept.
proof fn lemma_walk_bounded(banks: Map<Slot, BankView>, root: Slot, order: Seq<Slot>, stack: Seq<Slot>)
    requires
        banks.dom().finite(),
        walking(banks, root, order, stack),
    ensures
        order.to_set().finite(),
        order.to_set().len() <= banks.dom().len(),
{
    vstd::set_lib::lemma_len_subset(order.to_set(), banks.dom());
}

/// Once nothing waits, the banks visited are those met when descending
/// from the root.
proof fn lemma_walk_done(banks: Map<Slot, BankView>, root: Slot, order: Seq<Slot>)
    requires
        walking(banks, root, order, Seq::<Slot>::empty()),
    ensures
        order.to_set() == descent(banks, root),
{
    let seen = order.to_set();
    assert forall|slot: Slot| descent(banks, root).contains(slot) implies seen.contains(slot) by {
        lemma_closed_holds_descent(banks, root, seen, slot);
    }
}

/// The banks once the bank `bank` of a child at `slot` was entered under
/// `parent`.
pub open spec fn adopted(
    banks: Map<Slot, BankView>,
    parent: Slot,
    slot: Slot,
    bank: BankView,
) -> Map<Slot, BankView> {
    banks.insert(parent, banks[parent].with_child(slot)).insert(slot, bank)
}

/// No slot of the fork of `slot` lies above `slot`.
pub proof fn lemma_ancestors_below(banks: Map<Slot, BankView>, slot: Slot, a: Slot)
    requires
        ancestors(banks, slot).contains(a),
    ensures
        a <= slot,
    decreases slot,
{
    if banks.contains_key(slot) && banks[slot].parent < slot && a != slot {
        lemma_ancestors_below(banks, banks[slot].parent, a);
    }
}

/// The forks after a bank was entered: a fork that ended at the slot of
/// the new bank goes on along the fork of that bank, every other fork is
/// as it was.
pub proof fn lemma_ancestors_adopted(
    banks: Map<Slot, BankView>,
    parent: Slot,
    slot: Slot,
    bank: BankView,
    start: Slot,
)
    requires
        banks.contains_key(parent),
        !banks.contains_key(slot),
        parent < slot,
        bank.parent == parent,
    ensures
        ancestors(adopted(banks, parent, slot, bank), start) == if ancestors(banks, start).contains(
            slot,
        ) {
            ancestors(banks, start).union(ancestors(banks, parent).insert(slot))
        } else {
            ancestors(banks, start)
        },
    decreases start,
{
    if start == slot {
        lemma_ancestors_adopted(banks, parent, slot, bank, parent);
    } else if banks.contains_key(start) && banks[start].parent < start {
        let up = banks[start].parent;
        lemma_ancestors_adopted(banks, parent, slot, bank, up);
    }
}

/// What was reached stays reached when a bank is entered.
pub proof fn lemma_reached_adopted(
    banks: Map<Slot, BankView>,
    parent: Slot,
    slot: Slot,
    bank: BankView,
    root: Slot,
    s: Slot,
)
    requires
        banks.contains_key(parent),
        !banks.contains_key(slot),
        banks.contains_key(s),
        reached(banks, root, s),
    ensures
        reached(adopted(banks, parent, slot, bank), root, s),
    decreases s,
{
    let more = adopted(banks, parent, slot, bank);
    if s != root {
        let up = banks[s].parent;
        lemma_reached_adopted(banks, parent, slot, bank, root, up);
        let i = choose|i: int| 0 <= i < banks[up].children.len() && banks[up].children[i] == s;
        if up == parent {
            assert(more[up].children[i] == s);
        }
    }
}

/// Entering the frozen bank of a child under its parent leaves a forest, in
/// which the child is reached from wherever its parent was reached.
pub proof fn lemma_adopted_forest(
    banks: Map<Slot, BankView>,
    parent: Slot,
    slot: Slot,
    bank: BankView,
)
    requires
        is_forest(banks),
        banks.contains_key(parent),
        !banks.contains_key(slot),
        parent < slot,
        bank.wf(),
        bank.frozen,
        bank.slot == slot,
        bank.parent == parent,
        bank.children.len() == 0,
    ensures
        is_forest(adopted(banks, parent, slot, bank)),
        forall|root: Slot|
            reached(banks, root, parent) ==> #[trigger] reached(
                adopted(banks, parent, slot, bank),
                root,
                slot,
            ),
{
    let more = adopted(banks, parent, slot, bank);
    assert forall|root: Slot| reached(banks, root, parent) implies #[trigger] reached(
        more,
        root,
        slot,
    ) by {
        lemma_reached_adopted(banks, parent, slot, bank, root, parent);
        assert(more[parent].children[banks[parent].children.len() as int] == slot);
    }
}

impl ForksView {
    /// The tree holds the genesis bank alone, slot 0 is the lowest root and
    /// the only root, and no fork has a weight.
    pub open spec fn is_genesis(self) -> bool {
        &&& self.banks.dom() == set![0u64]
        &&& crate::bank::is_genesis(self.banks[0])
        &&& self.weights == Map::<Slot, usize>::empty()
        &&& self.lowest_root == (Vote { slot: 0, lockout: ROOT_LOCKOUT })
        &&& self.roots == set![0u64]
    }

    /// The fork on which `block` is applied: that of its parent, and its
    /// own slot.
    pub open spec fn fork_of(self, block: BlockView) -> Set<Slot> {
        ancestors(self.banks, block.parent).insert(block.slot)
    }

    /// The bank that the child for `block` starts from.
    pub open spec fn opened(self, block: BlockView) -> BankView {
        self.banks[block.parent].child(block.slot)
    }

    /// The frozen bank that `block` gives.
    pub open spec fn grown(self, block: BlockView) -> BankView {
        self.opened(block).applied(block.votes, self.fork_of(block))
    }

    /// The banks once the bank of `block` was entered.
    pub open spec fn with_bank(self, block: BlockView) -> Map<Slot, BankView> {
        adopted(self.banks, block.parent, block.slot, self.grown(block))
    }

    /// The two super-roots of `bank` are not on one fork: where both lie at
    /// or above the lowest root, the higher of them does not have the lower
    /// on its fork; else one that lies below the lowest root never was on
    /// the way to a lowest root.
    pub open spec fn splits(self, bank: BankView) -> bool {
        let k = bank.super_root_position();
        let primary = bank.root_slot_at(bank.subcom.primary, k);
        let secondary = bank.root_slot_at(bank.subcom.secondary, k);
        let low = self.lowest_root.slot;
        if secondary >= low && primary >= low {
            ||| secondary > primary && !ancestors(self.banks, secondary).contains(primary)
            ||| secondary < primary && !ancestors(self.banks, primary).contains(secondary)
        } else {
            ||| secondary < low && !self.roots.contains(secondary)
            ||| primary < low && !self.roots.contains(primary)
        }
    }

    /// The bank of `block` opens a phase in which the two subcommittees
    /// trade places while their super-roots are not on one fork.
    pub open spec fn diverged(self, block: BlockView) -> bool {
        &&& self.grown(block).subcom.phase() == Phase::FlipPrimary
        &&& self.banks[block.parent].subcom.phase() != Phase::FlipPrimary
        &&& self.splits(self.grown(block))
    }

    /// The lowest root rises with `block`.
    pub open spec fn rises(self, block: BlockView) -> bool {
        self.grown(block).lowest_root().slot > self.lowest_root.slot
    }

    /// The fork of the lowest root that `block` gives.
    pub open spec fn new_roots(self, block: BlockView) -> Set<Slot> {
        ancestors(self.with_bank(block), self.grown(block).lowest_root().slot)
    }

    /// The slots on the way from the lowest root that `block` gives down
    /// to the lowest root, both counted.
    pub open spec fn risen_over(self, block: BlockView) -> Set<Slot> {
        self.new_roots(block).filter(at_least(self.lowest_root.slot))
    }

    /// What keeps `block` from being applied, if anything does.
    pub open spec fn fault(self, block: BlockView) -> Option<Fault> {
        if self.banks.contains_key(block.slot) {
            Some(Fault::SlotTaken)
        } else if !self.banks.contains_key(block.parent) {
            Some(Fault::NoParent)
        } else if block.slot <= block.parent {
            Some(Fault::SlotNotAbove)
        } else if !fits(block.votes, self.fork_of(block)) {
            Some(Fault::VoteOffFork)
        } else if !self.opened(block).can_freeze() {
            Some(Fault::ShortCommittee)
        } else if self.diverged(block) {
            Some(Fault::Diverged)
        } else if self.rises(block) && !self.new_roots(block).contains(self.lowest_root.slot) {
            Some(Fault::RootOffFork)
        } else {
            None
        }
    }

    /// The fork tree after `block` was applied: the bank of the block is
    /// entered under its parent; where the lowest root rises, the slots on
    /// the way down to the lowest root before join the roots and only the
    /// banks below the new lowest root are kept; the weights are those of
    /// the banks kept.
    pub open spec fn applied(self, block: BlockView) -> ForksView {
        let banks = self.with_bank(block);
        if self.rises(block) {
            let low = self.grown(block).lowest_root();
            ForksView {
                banks: collected(banks, low.slot),
                weights: fork_weights(collected(banks, low.slot), low.slot),
                lowest_root: low,
                roots: self.roots.union(self.risen_over(block)),
            }
        } else {
            ForksView {
                banks,
                weights: fork_weights(banks, self.lowest_root.slot),
                lowest_root: self.lowest_root,
                roots: self.roots,
            }
        }
    }

    /// The invariant of the fork tree: it is a tree below the lowest root,
    /// only banks that are kept have a weight, and the lowest root carries
    /// the lockout of a root and is among the roots.
    pub open spec fn wf(self) -> bool {
        &&& self.is_tree()
        &&& self.weights.dom().subset_of(self.banks.dom())
        &&& self.roots.contains(self.lowest_root.slot)
        &&& self.lowest_root.lockout == ROOT_LOCKOUT
    }

    /// The banks form a forest, the bank of the lowest root is kept, and
    /// every bank is reached from it.
    pub open spec fn is_tree(self) -> bool {
        &&& is_forest(self.banks)
        &&& self.banks.contains_key(self.lowest_root.slot)
        &&& forall|slot: Slot| #[trigger]
            self.banks.contains_key(slot) ==> reached(self.banks, self.lowest_root.slot, slot)
    }
}

/// The parent of a bank that is kept is kept too, or lies below the
/// lowest root.
pub proof fn lemma_parent_kept_or_below(forks: ForksView, slot: Slot)
    requires
        forks.wf(),
        forks.banks.contains_key(slot),
    ensures
        forks.banks.contains_key(forks.banks[slot].parent) || forks.banks[slot].parent
            < forks.lowest_root.slot,
{
}

/// Where a block is applied whose bank opens a phase in which the two
/// subcommittees trade places, and the super-roots of both lie at or above
/// the lowest root, the two super-roots are the same slot or one of them
/// is on the fork of the other.
pub proof fn lemma_flip_on_one_fork(forks: ForksView, block: BlockView)
    requires
        forks.fault(block) is None,
        forks.grown(block).subcom.phase() == Phase::FlipPrimary,
        forks.banks[block.parent].subcom.phase() != Phase::FlipPrimary,
        forks.grown(block).root_slot_at(
            forks.grown(block).subcom.primary,
            forks.grown(block).super_root_position(),
        ) >= forks.lowest_root.slot,
        forks.grown(block).root_slot_at(
            forks.grown(block).subcom.secondary,
            forks.grown(block).super_root_position(),
        ) >= forks.lowest_root.slot,
    ensures
        ({
            let bank = forks.grown(block);
            let primary = bank.root_slot_at(bank.subcom.primary, bank.super_root_position());
            let secondary = bank.root_slot_at(bank.subcom.secondary, bank.super_root_position());
            ||| primary == secondary
            ||| ancestors(forks.banks, secondary).contains(primary)
            ||| ancestors(forks.banks, primary).contains(secondary)
        }),
{
}

impl Default for Forks {
    /// The tree that holds the genesis bank alone: slot 0 is the lowest
    /// root, and no weight was computed yet.
    fn default() -> (forks: Self)
        ensures
            forks@.is_genesis(),
            forks@.wf(),
    {
        let bank_zero = Bank::zero();
        let mut fork_map: HashMap<Slot, Bank> = HashMap::new();
        fork_map.insert(0, bank_zero);
        let mut roots: HashSet<Slot> = HashSet::new();
        roots.insert(0);
        let forks = Self {
            roots,
            fork_map,
            primary_fork_weights: HashMap::new(),
            lowest_root: Vote::zero(),
        };
        assert(forks@.banks.dom() =~= set![0u64]);
        forks
    }
}

impl Forks {
    /// The slots of the banks that are met when descending from `root`
    /// through the children, each once, a bank before its children.
    pub fn descendants(&self, root: Slot) -> (order: Vec<Slot>)
        requires
            is_forest(self@.banks),
            self@.banks.contains_key(root),
        ensures
            order@.no_duplicates(),
            order@.to_set() == descent(self@.banks, root),
            parents_first(self@.banks, root, order@),
    {
        let ghost banks = self@.banks;
        let mut order: Vec<Slot> = Vec::new();
        let mut seen: HashSet<Slot> = HashSet::new();
        let mut stack: Vec<Slot> = Vec::new();
        stack.push(root);
        proof {
            assert(stack@[0] == root);
        }
        while stack.len() > 0
            invariant
                banks == self@.banks,
                is_forest(banks),
                banks.contains_key(root),
                order@.to_set() == seen@,
                walking(banks, root, order@, stack@),
            decreases banks.dom().len() - seen@.len(), stack@.len(),
        {
            let ghost full = stack@;
            let ghost listed = order@;
            proof {
                lemma_walk_bounded(banks, root, listed, full);
            }
            let slot = stack.pop().unwrap();
            if !seen.contains(&slot) {
                seen.insert(slot);
                order.push(slot);
                assert(banks.contains_key(full[full.len() - 1]));
                let bank = self.fork_map.get(&slot).unwrap();
                let ghost base = stack@;
                let mut k: usize = 0;
                while k < bank.children.len()
                    invariant
                        k <= bank.children@.len(),
                        stack@ == base + bank.children@.take(k as int),
                    decreases bank.children@.len() - k,
                {
                    stack.push(bank.children[k]);
                    k += 1;
                }
                proof {
                    assert(bank.children@.take(bank.children@.len() as int) =~= banks[slot].children);
                    listed.lemma_push_to_set_commute(slot);
                    lemma_walk_visit(banks, root, listed, full);
                    lemma_walk_bounded(banks, root, order@, stack@);
                }
            } else {
                proof {
                    lemma_walk_skip(banks, root, listed, full);
                }
            }
        }
        proof {
            lemma_walk_done(banks, root, order@);
        }
        order
    }

    /// Keeps only the banks that are met when descending from the lowest
    /// root; all others are dropped.
    pub fn gc(&mut self)
        requires
            is_forest(old(self)@.banks),
            old(self)@.banks.contains_key(old(self)@.lowest_root.slot),
        ensures
            final(self)@ == (ForksView {
                banks: collected(old(self)@.banks, old(self)@.lowest_root.slot),
                ..old(self)@
            }),
    {
        let ghost banks = self@.banks;
        let ghost root = self.lowest_root.slot;
        let valid = self.descendants(self.lowest_root.slot);
        let mut new_banks: HashMap<Slot, Bank> = HashMap::new();
        let mut i: usize = 0;
        while i < valid.len()
            invariant
                i <= valid@.len(),
                valid@.no_duplicates(),
                valid@.to_set() == descent(banks, root),
                self.lowest_root == old(self).lowest_root,
                self.roots == old(self).roots,
                self.primary_fork_weights == old(self).primary_fork_weights,
                bank_views(new_banks@) == banks.restrict(valid@.take(i as int).to_set()),
                self@.banks == banks.remove_keys(valid@.take(i as int).to_set()),
            decreases valid@.len() - i,
        {
            let v = valid[i];
            let ghost left = self.fork_map@;
            let ghost moved = new_banks@;
            proof {
                crate::sets::lemma_take_next_to_set(valid@, i as int);
                assert(valid@.to_set().contains(valid@[i as int]));
                assert(self@.banks.contains_key(v));
            }
            let ghost kept = self@.banks;
            assert(kept[v] == banks[v]);
            match self.fork_map.remove(&v) {
                Some(bank) => {
                    new_banks.insert(v, bank);
                },
                None => {},
            }
            proof {
                let more = valid@.take(i + 1).to_set();
                assert forall|slot: Slot|
                    bank_views(new_banks@).contains_key(slot) <==> banks.restrict(more).contains_key(
                        slot,
                    ) by {
                    assert(bank_views(moved).contains_key(slot) == moved.contains_key(slot));
                }
                assert forall|slot: Slot| bank_views(new_banks@).contains_key(slot) implies bank_views(
                    new_banks@,
                )[slot] == banks.restrict(more)[slot] by {
                    if slot != v {
                        assert(bank_views(moved)[slot] == moved[slot]@);
                    }
                }
                assert forall|slot: Slot|
                    self@.banks.contains_key(slot) <==> banks.remove_keys(more).contains_key(slot) by {
                    assert(kept.contains_key(slot) == left.contains_key(slot));
                }
                assert forall|slot: Slot| self@.banks.contains_key(slot) implies self@.banks[slot]
                    == banks.remove_keys(more)[slot] by {
                    assert(kept[slot] == left[slot]@);
                }
            }
            i += 1;
        }
        proof {
            assert(valid@.take(valid@.len() as int) =~= valid@);
        }
        self.fork_map = new_banks;
    }

    /// The primary subcommittee at the highest bank.
    pub fn latest_primary(&self) -> (primary: HashSet<ID>)
        requires
            self@.banks.dom().len() > 0,
        ensures
            self@.banks.contains_key(highest(self@.banks)),
            primary@ == self@.banks[highest(self@.banks)].subcom.primary,
    {
        let ghost banks = self@.banks;
        assert(banks.dom() =~= self.fork_map@.dom());
        let slots = keys_of(&self.fork_map);
        let mut top = slots[0];
        let mut i: usize = 1;
        while i < slots.len()
            invariant
                1 <= i <= slots@.len(),
                slots@.to_set() == banks.dom(),
                banks.contains_key(top),
                forall|k: int| 0 <= k < i ==> #[trigger] slots@[k] <= top,
            decreases slots@.len() - i,
        {
            if slots[i] > top {
                top = slots[i];
            }
            i += 1;
        }
        let bank = self.fork_map.get(&top).unwrap();
        crate::sets::copy_of(&bank.subcom.primary)
    }

    /// Whether the two super-roots of `bank` are not on one fork.
    fn splits(&self, bank: &Bank) -> (b: bool)
        requires
            is_forest(self@.banks),
            bank@.wf(),
            bank@.can_freeze(),
        ensures
            b == self@.splits(bank@),
    {
        let primary = bank.primary_super_root().slot;
        let secondary = bank.secondary_super_root().slot;
        let s = self.compute_fork(secondary);
        let p = self.compute_fork(primary);
        if secondary >= self.lowest_root.slot && primary >= self.lowest_root.slot {
            (secondary > primary && !s.contains(&primary)) || (secondary < primary && !p.contains(
                &secondary,
            ))
        } else {
            (secondary < self.lowest_root.slot && !self.roots.contains(&secondary)) || (primary
                < self.lowest_root.slot && !self.roots.contains(&primary))
        }
    }

    /// The frozen bank that `block` gives, unless the block cannot be
    /// applied.
    fn vet(&self, block: &Block) -> (res: Result<Bank, Fault>)
        requires
            self@.wf(),
        ensures
            match res {
                Ok(bank) => {
                    &&& bank@ == self@.grown(block@)
                    &&& bank@.wf()
                    &&& bank@.can_freeze()
                    &&& !self@.banks.contains_key(block.slot)
                    &&& self@.banks.contains_key(block.parent)
                    &&& block.parent < block.slot
                    &&& (self@.fault(block@) is None || self@.fault(block@) == Some(Fault::RootOffFork))
                },
                Err(fault) => self@.fault(block@) == Some(fault) && fault != Fault::RootOffFork,
            },
    {
        if self.fork_map.contains_key(&block.slot) {
            return Err(Fault::SlotTaken);
        }
        let parent = match self.fork_map.get(&block.parent) {
            Some(parent) => parent,
            None => {
                return Err(Fault::NoParent);
            },
        };
        if block.slot <= block.parent {
            return Err(Fault::SlotNotAbove);
        }
        let parent_phase = parent.subcom.phase();
        let mut fork = self.compute_fork(block.parent);
        fork.insert(block.slot);
        if !block.fits(&fork) {
            return Err(Fault::VoteOffFork);
        }
        let mut bank = parent.spawn(block.slot);
        if !bank.can_freeze() {
            return Err(Fault::ShortCommittee);
        }
        bank.apply(block, &fork);
        if bank.subcom.phase() == Phase::FlipPrimary && parent_phase != Phase::FlipPrimary {
            if self.splits(&bank) {
                return Err(Fault::Diverged);
            }
        }
        Ok(bank)
    }

    /// Enters the bank of a child under its parent.
    fn adopt(&mut self, parent: Slot, slot: Slot, bank: Bank)
        requires
            old(self)@.banks.contains_key(parent),
            !old(self)@.banks.contains_key(slot),
            parent != slot,
        ensures
            final(self)@ == (ForksView {
                banks: adopted(old(self)@.banks, parent, slot, bank@),
                ..old(self)@
            }),
    {
        let ghost banks = self@.banks;
        match self.fork_map.remove(&parent) {
            Some(above) => {
                let mut above = above;
                above.children.push(slot);
                self.fork_map.insert(parent, above);
            },
            None => {},
        }
        self.fork_map.insert(slot, bank);
        proof {
            let after = adopted(banks, parent, slot, bank@);
            assert(self@.banks =~= after);
        }
    }

    /// Puts the slots of `chain` from `floor` on among the roots.
    fn join_roots(&mut self, chain: &HashSet<Slot>, floor: Slot)
        ensures
            final(self)@ == (ForksView {
                roots: old(self)@.roots.union(chain@.filter(at_least(floor))),
                ..old(self)@
            }),
    {
        let ghost before = self.roots@;
        let slots = crate::sets::members(chain);
        let mut i: usize = 0;
        while i < slots.len()
            invariant
                i <= slots@.len(),
                self.fork_map == old(self).fork_map,
                self.primary_fork_weights == old(self).primary_fork_weights,
                self.lowest_root == old(self).lowest_root,
                self.roots@ == before.union(slots@.take(i as int).to_set().filter(at_least(floor))),
            decreases slots@.len() - i,
        {
            proof {
                crate::sets::lemma_take_next_to_set(slots@, i as int);
            }
            if slots[i] >= floor {
                self.roots.insert(slots[i]);
            }
            i += 1;
        }
        assert(slots@.take(slots@.len() as int) =~= slots@);
    }

    /// The frozen bank that `block` gives, the lowest root of its towers
    /// and, where the lowest root rises with it, the fork of that root;
    /// or what keeps the block from being applied.
    fn examine(&self, block: &Block) -> (res: Result<(Bank, Vote, HashSet<Slot>), Fault>)
        requires
            self@.wf(),
        ensures
            match res {
                Ok(found) => {
                    &&& self@.fault(block@) is None
                    &&& found.0@ == self@.grown(block@)
                    &&& found.0@.wf()
                    &&& found.0@.frozen
                    &&& found.1 == self@.grown(block@).lowest_root()
                    &&& self@.rises(block@) ==> found.2@ == self@.new_roots(block@)
                    &&& !self@.banks.contains_key(block.slot)
                    &&& self@.banks.contains_key(block.parent)
                    &&& block.parent < block.slot
                },
                Err(fault) => self@.fault(block@) == Some(fault),
            },
    {
        let ghost before = self@;
        let bank = match self.vet(block) {
            Ok(bank) => bank,
            Err(fault) => {
                return Err(fault);
            },
        };
        let lowest_root = bank.lowest_root();
        let mut new_roots: HashSet<Slot> = HashSet::new();
        if lowest_root.slot > self.lowest_root.slot {
            new_roots = self.compute_fork(lowest_root.slot);
            proof {
                lemma_ancestors_adopted(before.banks, block.parent, block.slot, bank@, lowest_root.slot);
            }
            if new_roots.contains(&block.slot) {
                let fork = self.compute_fork(block.parent);
                crate::sets::extend(&mut new_roots, &fork);
                new_roots.insert(block.slot);
                assert(new_roots@ =~= before.new_roots(block@));
            }
            if !new_roots.contains(&self.lowest_root.slot) {
                return Err(Fault::RootOffFork);
            }
        }
        Ok((bank, lowest_root, new_roots))
    }

    /// The frozen bank that `block` gives, or what keeps the block from
    /// being applied.
    pub fn grow(&self, block: &Block) -> (res: Result<Bank, Fault>)
        requires
            self@.wf(),
        ensures
            match res {
                Ok(bank) => self@.fault(block@) is None && bank@ == self@.grown(block@) && bank@.wf(),
                Err(fault) => self@.fault(block@) == Some(fault),
            },
    {
        match self.examine(block) {
            Ok(found) => Ok(found.0),
            Err(fault) => Err(fault),
        }
    }

    /// What keeps `block` from being applied, if anything does.
    pub fn fault_of(&self, block: &Block) -> (f: Option<Fault>)
        requires
            self@.wf(),
        ensures
            f == self@.fault(block@),
    {
        match self.examine(block) {
            Ok(_) => None,
            Err(fault) => Some(fault),
        }
    }

    /// Applies a block that nothing keeps from being applied: opens the
    /// bank of its slot under the bank of its parent, applies the votes to
    /// it and freezes it, and enters it. Where the lowest root rises with
    /// it, the slots on the way from the new lowest root down to the lowest
    /// root before join the roots, and the banks that are not below the new
    /// lowest root are dropped. Then the weights are computed anew.
    pub fn apply(&mut self, block: &Block)
        requires
            old(self)@.wf(),
            old(self)@.fault(block@) is None,
        ensures
            final(self)@.wf(),
            final(self)@ == old(self)@.applied(block@),
            final(self)@.lowest_root.slot >= old(self)@.lowest_root.slot,
            old(self)@.roots.subset_of(final(self)@.roots),
    {
        let ghost before = self@;
        match self.examine(block) {
            Ok(found) => {
                let (bank, lowest_root, new_roots) = found;
                let ghost after = adopted(before.banks, block.parent, block.slot, bank@);
                let rises = lowest_root.slot > self.lowest_root.slot;
                proof {
                    lemma_adopted_forest(before.banks, block.parent, block.slot, bank@);
                    assert forall|s: Slot| #[trigger] after.contains_key(s) implies reached(
                        after,
                        before.lowest_root.slot,
                        s,
                    ) by {
                        if s != block.slot {
                            lemma_reached_adopted(
                                before.banks,
                                block.parent,
                                block.slot,
                                bank@,
                                before.lowest_root.slot,
                                s,
                            );
                        }
                    }
                }
                self.adopt(block.parent, block.slot, bank);
                if rises {
                    self.join_roots(&new_roots, self.lowest_root.slot);
                    self.lowest_root = lowest_root;
                    proof {
                        lemma_collected_forest(after, lowest_root.slot);
                    }
                    self.gc();
                }
                self.build_fork_weights();
            },
            Err(_) => {},
        }
    }

    /// The latest vote of each validator that sits in the primary
    /// subcommittee of a bank.
    fn latest_votes(&self) -> (latest: HashMap<ID, Slot>)
        requires
            is_forest(self@.banks),
        ensures
            latest@ == latest_votes(self@.banks),
    {
        let ghost banks = self@.banks;
        let slots = keys_of(&self.fork_map);
        let mut latest: HashMap<ID, Slot> = HashMap::new();
        let mut i: usize = 0;
        while i < slots.len()
            invariant
                i <= slots@.len(),
                banks == self@.banks,
                is_forest(banks),
                slots@.no_duplicates(),
                slots@.to_set() == banks.dom(),
                tallied(banks.restrict(slots@.take(i as int).to_set()), latest@),
            decreases slots@.len() - i,
        {
            let ghost seen = latest@;
            let ghost done = banks.restrict(slots@.take(i as int).to_set());
            proof {
                assert(slots@.to_set().contains(slots@[i as int]));
            }
            let bank = self.fork_map.get(&slots[i]).unwrap();
            bank.primary_latest_votes(&mut latest);
            proof {
                let slot = slots@[i as int];
                crate::sets::lemma_take_next_to_set(slots@, i as int);
                lemma_tallied_next(done, seen, slot, banks[slot]);
                assert(done.insert(slot, banks[slot]) =~= banks.restrict(slots@.take(i + 1).to_set()));
            }
            i += 1;
        }
        proof {
            assert(slots@.take(slots@.len() as int) =~= slots@);
            assert(banks.restrict(banks.dom()) =~= banks);
        }
        latest
    }

    /// Computes the weight of each fork anew. A validator counts for the
    /// fork of a bank if the latest vote seen of it, in any bank, is on the
    /// slot of the bank or on an ancestor down to the lowest root.
    pub fn build_fork_weights(&mut self)
        requires
            old(self)@.is_tree(),
        ensures
            final(self)@ == (ForksView {
                weights: fork_weights(old(self)@.banks, old(self)@.lowest_root.slot),
                ..old(self)@
            }),
            final(self)@.is_tree(),
            final(self)@.weights.dom().subset_of(final(self)@.banks.dom()),
    {
        let ghost banks = self@.banks;
        let ghost root = self.lowest_root.slot;
        let primary_latest_votes = self.latest_votes();
        let ghost latest = primary_latest_votes@;
        // how many validators have their latest vote on each slot
        let ids = keys_of(&primary_latest_votes);
        let mut slot_votes: HashMap<Slot, usize> = HashMap::new();
        let mut i: usize = 0;
        proof {
            assert forall|slot: Slot| #[trigger]
                count_at(slot_votes@, slot) == ids@.take(0).to_set().filter(
                    voting_on(latest, set![slot]),
                ).len() by {
                crate::sets::lemma_count_none(ids@, voting_on(latest, set![slot]));
            }
        }
        while i < ids.len()
            invariant
                i <= ids@.len(),
                latest == primary_latest_votes@,
                ids@.no_duplicates(),
                ids@.to_set() == latest.dom(),
                forall|slot: Slot| #[trigger] count_at(slot_votes@, slot) <= i,
                forall|slot: Slot| #[trigger]
                    count_at(slot_votes@, slot) == ids@.take(i as int).to_set().filter(
                        voting_on(latest, set![slot]),
                    ).len(),
            decreases ids@.len() - i,
        {
            let ghost counts = slot_votes@;
            let v = *primary_latest_votes.get(&ids[i]).unwrap();
            let count = match slot_votes.get(&v) {
                Some(e) => *e,
                None => 0,
            };
            assert(count == count_at(counts, v));
            slot_votes.insert(v, count + 1);
            proof {
                assert forall|slot: Slot| #[trigger]
                    count_at(slot_votes@, slot) == ids@.take(i + 1).to_set().filter(
                        voting_on(latest, set![slot]),
                    ).len() by {
                    crate::sets::lemma_count_next(ids@, i as int, voting_on(latest, set![slot]));
                    assert(count_at(counts, slot) == ids@.take(i as int).to_set().filter(
                        voting_on(latest, set![slot]),
                    ).len());
                }
                assert forall|slot: Slot| #[trigger] count_at(slot_votes@, slot) <= i + 1 by {
                    assert(count_at(counts, slot) <= i);
                }
            }
            i += 1;
        }
        proof {
            assert(ids@.take(ids@.len() as int) =~= ids@);
        }
        // a bank weighs what its parent weighs and the votes on its slot
        let order = self.descendants(self.lowest_root.slot);
        let mut weights: HashMap<Slot, usize> = HashMap::new();
        let mut j: usize = 0;
        while j < order.len()
            invariant
                j <= order@.len(),
                banks == self@.banks,
                root == self.lowest_root.slot,
                self.primary_fork_weights == old(self).primary_fork_weights,
                order@.to_set() == descent(banks, root),
                parents_first(banks, root, order@),
                latest == latest_votes(banks),
                latest.dom().finite(),
                latest.dom().len() <= usize::MAX,
                forall|slot: Slot| #[trigger] count_at(slot_votes@, slot) == votes_on(latest, set![slot]),
                forall|slot: Slot| #[trigger]
                    weights@.contains_key(slot) <==> order@.take(j as int).contains(slot),
                forall|slot: Slot| #[trigger]
                    weights@.contains_key(slot) ==> weights@[slot] == fork_weight(banks, root, slot),
            decreases order@.len() - j,
        {
            let child = order[j];
            proof {
                lemma_weigh(banks, root, order@, j as int);
            }
            let bank = self.fork_map.get(&child).unwrap();
            let votes = match slot_votes.get(&child) {
                Some(e) => *e,
                None => 0,
            };
            assert(votes == count_at(slot_votes@, child));
            let mut parent_weight: usize = 0;
            if child != self.lowest_root.slot {
                parent_weight = *weights.get(&bank.parent).unwrap();
            }
            weights.insert(child, parent_weight + votes);
            proof {
                assert forall|slot: Slot| #[trigger]
                    weights@.contains_key(slot) <==> order@.take(j + 1).contains(slot) by {
                    crate::sets::lemma_take_next_contains(order@, j as int, slot);
                }
            }
            j += 1;
        }
        proof {
            assert(order@.take(order@.len() as int) =~= order@);
            assert(weights@ =~= fork_weights(banks, root));
        }
        self.primary_fork_weights = weights;
    }

    /// The fork of `slot`.
    pub fn compute_fork(&self, slot: Slot) -> (fork: HashSet<Slot>)
        requires
            is_forest(self@.banks),
        ensures
            fork@ == ancestors(self@.banks, slot),
            fork@.contains(slot),
            fork@.finite(),
    {
        let ghost banks = self@.banks;
        let mut fork: HashSet<Slot> = HashSet::new();
        let mut last = slot;
        fork.insert(last);
        loop
            invariant
                banks == self@.banks,
                is_forest(banks),
                fork@.contains(last),
                fork@.contains(slot),
                fork@.finite(),
                ancestors(banks, slot) == fork@.union(ancestors(banks, last)),
            ensures
                !(banks.contains_key(last) && banks[last].parent < last),
            decreases last,
        {
            match self.fork_map.get(&last) {
                Some(b) => {
                    if last == b.parent {
                        break ;
                    }
                    last = b.parent;
                    fork.insert(last);
                },
                None => {
                    break ;
                },
            }
        }
        fork
    }
}

} // verus!
