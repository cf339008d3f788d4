//! The lockout tower of one validator.

use std::collections::HashMap;
use std::collections::VecDeque;
use vstd::prelude::*;

verus! {

broadcast use vstd::std_specs::hash::group_hash_axioms;

/// Number of lockout doublings after which a vote becomes the root.
pub const DEPTH: usize = 16;

/// The lockout carried by a root: two to the power `DEPTH`.
pub const ROOT_LOCKOUT: u64 = 65536;

/// The lockout of a fresh vote.
pub const FRESH_LOCKOUT: u64 = 2;

/// A block height.
pub type Slot = u64;

/// A vote on a slot together with the lockout it has accumulated.
#[derive(Clone, Copy, PartialOrd, PartialEq, Eq, Ord, Debug)]
pub struct Vote {
    pub slot: Slot,
    pub lockout: u64,
}

impl Vote {
    /// A fresh vote on `slot`.
    pub fn new(slot: Slot) -> (v: Self)
        ensures
            v.slot == slot,
            v.lockout == FRESH_LOCKOUT,
    {
        Vote { slot, lockout: 2 }
    }

    /// The root every tower starts from.
    pub fn zero() -> (v: Self)
        ensures
            v.slot == 0,
            v.lockout == ROOT_LOCKOUT,
    {
        Vote { slot: 0, lockout: ROOT_LOCKOUT }
    }
}

/// A power of two that an entry above the root can carry.
pub open spec fn is_lockout(l: u64) -> bool {
    l == 2 || l == 4 || l == 8 || l == 16 || l == 32 || l == 64 || l == 128 || l == 256 || l == 512
        || l == 1024 || l == 2048 || l == 4096 || l == 8192 || l == 16384 || l == 32768
}

/// The mathematical content of a tower: the entries, newest first, and the root.
pub struct TowerView {
    pub votes: Seq<Vote>,
    pub root: Vote,
}

/// The votes of one validator: the entries, newest first, each with the
/// lockout it has reached, above the root, the vote that can no longer be
/// left.
#[derive(Debug, PartialEq)]
pub struct Tower {
    pub votes: VecDeque<Vote>,
    pub root: Vote,
}

impl View for Tower {
    type V = TowerView;

    open spec fn view(&self) -> TowerView {
        TowerView { votes: self.votes@, root: self.root }
    }
}

/// What is left of `votes` once every leading entry whose lockout has run out
/// before `slot` is dropped.
pub open spec fn unexpired(votes: Seq<Vote>, slot: Slot) -> Seq<Vote>
    decreases votes.len(),
{
    if votes.len() > 0 && votes[0].slot + votes[0].lockout < slot {
        unexpired(votes.drop_first(), slot)
    } else {
        votes
    }
}

/// One forward pass over the positions `1..=n`: an entry whose lockout equals
/// that of its newer neighbour, as the pass left it, has its lockout doubled.
pub open spec fn doubled(votes: Seq<Vote>, n: nat) -> Seq<Vote>
    decreases n,
{
    if n == 0 {
        votes
    } else {
        let prev = doubled(votes, (n - 1) as nat);
        if n < prev.len() && prev[n as int].lockout == prev[n - 1].lockout {
            prev.update(
                n as int,
                Vote { slot: prev[n as int].slot, lockout: (2 * prev[n as int].lockout) as u64 },
            )
        } else {
            prev
        }
    }
}

impl TowerView {
    /// The invariant of a tower: the root carries the lockout of a root;
    /// there are no more than `DEPTH` entries; each entry carries a power of
    /// two below that lockout and is on a slot above the root; from the
    /// newest entry to the oldest the slots fall and the lockouts rise.
    pub open spec fn wf(self) -> bool {
        &&& self.root.lockout == ROOT_LOCKOUT
        &&& self.votes.len() <= DEPTH
        &&& forall|i: int|
            0 <= i < self.votes.len() ==> is_lockout(#[trigger] self.votes[i].lockout)
                && self.votes[i].slot > self.root.slot
        &&& forall|i: int, j: int|
            0 <= i < j < self.votes.len() ==> (#[trigger] self.votes[i]).slot > (
            #[trigger] self.votes[j]).slot && self.votes[i].lockout < self.votes[j].lockout
    }

    /// A vote on `slot` moves the tower forward: the slot is above the root
    /// and above every entry.
    pub open spec fn accepts(self, slot: Slot) -> bool {
        &&& slot > self.root.slot
        &&& forall|i: int| 0 <= i < self.votes.len() ==> (#[trigger] self.votes[i]).slot < slot
    }

    /// The tower has an entry on `slot`.
    pub open spec fn has_entry_on(self, slot: Slot) -> bool {
        exists|i: int| 0 <= i < self.votes.len() && (#[trigger] self.votes[i]).slot == slot
    }

    /// The lockout that the tower holds on `slot`: that of the entry on the
    /// slot if an entry of at least `skip` lockout is on it, else the root's
    /// if the root is on it. Entries below `skip` hide the slot.
    pub open spec fn counted_on(self, skip: u64, slot: Slot) -> Option<u64> {
        if exists|i: int| 0 <= i < self.votes.len() && (#[trigger] self.votes[i]).slot == slot {
            let i = choose|i: int| 0 <= i < self.votes.len() && (#[trigger] self.votes[i]).slot == slot;
            if self.votes[i].lockout >= skip {
                Some(self.votes[i].lockout)
            } else {
                None
            }
        } else if self.root.slot == slot {
            Some(self.root.lockout)
        } else {
            None
        }
    }

    /// The lockout that the tower holds on `slot`, if it holds the slot.
    pub open spec fn lockout_on(self, slot: Slot) -> Option<u64> {
        self.counted_on(0, slot)
    }

    /// `other` holds `slot` with a strictly greater lockout than this tower
    /// does, entries of `other` below `skip` not counted.
    pub open spec fn raised_on(self, skip: u64, other: TowerView, slot: Slot) -> bool {
        &&& other.counted_on(skip, slot) is Some
        &&& self.lockout_on(slot) is Some
        &&& self.lockout_on(slot)->0 < other.counted_on(skip, slot)->0
    }

    /// The slots on which `other` raises the lockout of this tower, each with
    /// the lockout that `other` holds on it.
    pub open spec fn increased(self, skip: u64, other: TowerView) -> Map<Slot, u64> {
        Map::new(
            |slot: Slot| self.raised_on(skip, other, slot),
            |slot: Slot| other.counted_on(skip, slot)->0,
        )
    }

    /// The two towers can be compared: this tower holds the slot of the
    /// root of `other`, and where an entry of `other` raises a lockout it
    /// doubles it exactly.
    pub open spec fn tracks(self, skip: u64, other: TowerView) -> bool {
        &&& self.lockout_on(other.root.slot) is Some
        &&& forall|i: int|
            0 <= i < other.votes.len() && self.raised_on(skip, other, (#[trigger] other.votes[i]).slot)
                ==> 2 * self.lockout_on(other.votes[i].slot)->0 == other.votes[i].lockout
    }

    /// The tower after an accepted fresh vote on `slot`.
    pub open spec fn voted(self, slot: Slot) -> TowerView {
        let pushed = seq![Vote { slot, lockout: FRESH_LOCKOUT }] + unexpired(self.votes, slot);
        let merged = doubled(pushed, (DEPTH - 1) as nat);
        if merged.last().lockout == ROOT_LOCKOUT {
            TowerView { votes: merged.drop_last(), root: merged.last() }
        } else {
            TowerView { votes: merged, root: self.root }
        }
    }
}

impl Default for Tower {
    /// A tower without entries on the first root.
    fn default() -> (t: Self)
        ensures
            t@.votes.len() == 0,
            t@.root == (Vote { slot: 0, lockout: ROOT_LOCKOUT }),
            t@.wf(),
    {
        Tower { votes: VecDeque::with_capacity(DEPTH), root: Vote { slot: 0, lockout: ROOT_LOCKOUT } }
    }
}

/// A well-formed tower has at most `DEPTH - 1` entries: the lockouts are
/// distinct powers of two below the root's.
pub proof fn lemma_wf_len(t: TowerView)
    requires
        t.wf(),
    ensures
        t.votes.len() < DEPTH,
{
    if t.votes.len() >= DEPTH {
        let v = t.votes;
        assert(v[0].lockout >= 2);
        assert(v[1].lockout >= 4);
        assert(v[2].lockout >= 8);
        assert(v[3].lockout >= 16);
        assert(v[4].lockout >= 32);
        assert(v[5].lockout >= 64);
        assert(v[6].lockout >= 128);
        assert(v[7].lockout >= 256);
        assert(v[8].lockout >= 512);
        assert(v[9].lockout >= 1024);
        assert(v[10].lockout >= 2048);
        assert(v[11].lockout >= 4096);
        assert(v[12].lockout >= 8192);
        assert(v[13].lockout >= 16384);
        assert(v[14].lockout >= 32768);
        assert(v[15].lockout > 32768);
    }
}

/// The pass keeps the number of entries.
proof fn lemma_doubled_len(votes: Seq<Vote>, n: nat)
    ensures
        doubled(votes, n).len() == votes.len(),
    decreases n,
{
    if n > 0 {
        lemma_doubled_len(votes, (n - 1) as nat);
    }
}

/// Positions past the end take no part in the pass.
proof fn lemma_doubled_past_end(votes: Seq<Vote>, m: nat, n: nat)
    requires
        m + 1 >= votes.len(),
        m <= n,
    ensures
        doubled(votes, n) == doubled(votes, m),
    decreases n,
{
    if n > m {
        lemma_doubled_past_end(votes, m, (n - 1) as nat);
        lemma_doubled_len(votes, (n - 1) as nat);
    }
}

/// The slots at or above `floor`.
pub open spec fn at_least(floor: Slot) -> spec_fn(Slot) -> bool {
    |slot: Slot| slot >= floor
}

/// A vote with its lockout set back to that of a fresh vote.
pub open spec fn fresh(v: Vote) -> Vote {
    Vote { slot: v.slot, lockout: FRESH_LOCKOUT }
}

/// The tower after the votes of `votes` were applied in order; a vote
/// that the tower rejects changes nothing.
pub open spec fn replayed(t: TowerView, votes: Seq<Vote>) -> TowerView
    decreases votes.len(),
{
    if votes.len() == 0 {
        t
    } else {
        let before = replayed(t, votes.drop_last());
        let v = votes.last();
        if before.accepts(v.slot) {
            before.voted(v.slot)
        } else {
            before
        }
    }
}

/// How many leading entries of `votes` have run out before `slot`.
pub open spec fn expired_count(votes: Seq<Vote>, slot: Slot) -> nat
    decreases votes.len(),
{
    if votes.len() > 0 && votes[0].slot + votes[0].lockout < slot {
        1 + expired_count(votes.drop_first(), slot)
    } else {
        0
    }
}

/// What is left after the expiry is what follows the expired entries.
pub proof fn lemma_unexpired_is_rest(votes: Seq<Vote>, slot: Slot)
    ensures
        expired_count(votes, slot) <= votes.len(),
        unexpired(votes, slot) == votes.skip(expired_count(votes, slot) as int),
    decreases votes.len(),
{
    if votes.len() > 0 && votes[0].slot + votes[0].lockout < slot {
        lemma_unexpired_is_rest(votes.drop_first(), slot);
    }
}

/// A row of votes as it stands once a fresh vote was put in front of the
/// entries of a well-formed tower: the lockouts behind the first are
/// distinct powers of two in rising order.
pub open spec fn is_pushed(pushed: Seq<Vote>) -> bool {
    &&& 1 <= pushed.len() <= DEPTH
    &&& pushed[0].lockout == FRESH_LOCKOUT
    &&& forall|k: int| 1 <= k < pushed.len() ==> is_lockout(#[trigger] pushed[k].lockout)
    &&& forall|a: int, b: int|
        1 <= a < b < pushed.len() ==> (#[trigger] pushed[a]).lockout < (#[trigger] pushed[b]).lockout
}

/// What the pass over the positions `1..=n` leaves: the slots stay, each
/// lockout stays or doubles, and the lockouts passed over rise strictly.
pub open spec fn is_doubled(pushed: Seq<Vote>, n: nat, d: Seq<Vote>) -> bool {
    &&& d.len() == pushed.len()
    &&& d[0] == pushed[0]
    &&& forall|k: int| 0 <= k < d.len() ==> (#[trigger] d[k]).slot == pushed[k].slot
    &&& forall|k: int| n < k < d.len() ==> #[trigger] d[k] == pushed[k]
    &&& forall|k: int|
        1 <= k < d.len() ==> (is_lockout(#[trigger] d[k].lockout) || d[k].lockout == ROOT_LOCKOUT) && (
        d[k].lockout == pushed[k].lockout || d[k].lockout == 2 * pushed[k].lockout)
    &&& forall|a: int, b: int|
        0 <= a < b < d.len() && b <= n ==> (#[trigger] d[a]).lockout < (#[trigger] d[b]).lockout
    &&& n + 1 < d.len() ==> d[n as int].lockout <= pushed[n as int + 1].lockout
}

/// The pass keeps what `is_doubled` says.
pub proof fn lemma_doubled(pushed: Seq<Vote>, n: nat)
    requires
        is_pushed(pushed),
    ensures
        is_doubled(pushed, n, doubled(pushed, n)),
    decreases n,
{
    if n > 0 {
        lemma_doubled(pushed, (n - 1) as nat);
    }
}

/// A fresh vote in front of what is left of a well-formed tower that
/// accepts it.
pub proof fn lemma_pushed(t: TowerView, slot: Slot)
    requires
        t.wf(),
        t.accepts(slot),
    ensures
        is_pushed(seq![Vote { slot, lockout: FRESH_LOCKOUT }] + unexpired(t.votes, slot)),
{
    lemma_wf_len(t);
    lemma_unexpired_is_rest(t.votes, slot);
}

/// A fresh vote that a well-formed tower accepts leaves a well-formed
/// tower: the vote is its newest entry, every other entry is on the slot
/// that an entry had before, and the root does not fall.
pub proof fn lemma_voted(t: TowerView, slot: Slot)
    requires
        t.wf(),
        t.accepts(slot),
    ensures
        t.voted(slot).wf(),
        t.voted(slot).votes.len() >= 1,
        t.voted(slot).votes[0].slot == slot,
        t.voted(slot).root.slot >= t.root.slot,
        t.voted(slot).root == t.root || exists|j: int|
            0 <= j < t.votes.len() && (#[trigger] t.votes[j]).slot == t.voted(slot).root.slot,
        forall|i: int|
            1 <= i < t.voted(slot).votes.len() ==> exists|j: int|
                0 <= j < t.votes.len() && (#[trigger] t.votes[j]).slot == (
                #[trigger] t.voted(slot).votes[i]).slot,
{
    lemma_wf_len(t);
    lemma_unexpired_is_rest(t.votes, slot);
    let kept = unexpired(t.votes, slot);
    let pushed = seq![Vote { slot, lockout: FRESH_LOCKOUT }] + kept;
    lemma_doubled(pushed, (DEPTH - 1) as nat);
}

/// Replaying votes leaves a well-formed tower whose root has not fallen.
pub proof fn lemma_replayed(t: TowerView, votes: Seq<Vote>)
    requires
        t.wf(),
    ensures
        replayed(t, votes).wf(),
        replayed(t, votes).root.slot >= t.root.slot,
    decreases votes.len(),
{
    if votes.len() > 0 {
        lemma_replayed(t, votes.drop_last());
        let before = replayed(t, votes.drop_last());
        if before.accepts(votes.last().slot) {
            lemma_voted(before, votes.last().slot);
        }
    }
}

/// A vote that was applied is rejected when it comes again.
pub proof fn lemma_vote_twice(t: TowerView, slot: Slot)
    requires
        t.wf(),
        t.accepts(slot),
    ensures
        !t.voted(slot).accepts(slot),
{
    lemma_voted(t, slot);
}

/// The lockout of the entry at position `i` of a tower in which no entry
/// ever expired: two doubled `i` times.
pub open spec fn level_lockout(i: nat) -> nat
    decreases i,
{
    if i == 0 {
        2
    } else {
        2 * level_lockout((i - 1) as nat)
    }
}

/// Every entry carries the lockout of its position: the tower is as if no
/// entry ever expired under it.
pub open spec fn is_dense(t: TowerView) -> bool {
    forall|i: int| 0 <= i < t.votes.len() ==> (#[trigger] t.votes[i]).lockout == level_lockout(i as nat)
}

/// Each entry came no more than two slots after the entry before it.
pub open spec fn is_close(t: TowerView) -> bool {
    forall|i: int| 0 <= i < t.votes.len() - 1 ==> (#[trigger] t.votes[i]).slot <= t.votes[i + 1].slot + 2
}

/// The entries of a tower, oldest first, each as a fresh vote: what comes
/// after the root in the votes of the tower.
pub open spec fn tail(t: TowerView) -> Seq<Vote> {
    t.votes.reverse().map_values(|v: Vote| fresh(v))
}

/// A tower without entries that stands on the first root.
pub open spec fn blank() -> TowerView {
    TowerView { votes: Seq::empty(), root: Vote { slot: 0, lockout: ROOT_LOCKOUT } }
}

/// The `j` oldest entries of `t`, each with the lockout of its position.
pub open spec fn rebuilt(t: TowerView, j: int) -> Seq<Vote> {
    Seq::new(
        j as nat,
        |i: int| Vote { slot: t.votes[t.votes.len() - j + i].slot, lockout: level_lockout(i as nat) as u64 },
    )
}

/// The pass over a row in which each entry behind the first carries the
/// lockout of the position before its own doubles every lockout it passes.
proof fn lemma_doubled_dense(pushed: Seq<Vote>, n: nat)
    requires
        1 <= pushed.len() <= DEPTH,
        pushed[0].lockout == FRESH_LOCKOUT,
        forall|k: int| 1 <= k < pushed.len() ==> (#[trigger] pushed[k]).lockout == level_lockout((k - 1) as nat),
    ensures
        doubled(pushed, n).len() == pushed.len(),
        forall|k: int|
            0 <= k < pushed.len() ==> (#[trigger] doubled(pushed, n)[k]).slot == pushed[k].slot,
        forall|k: int|
            0 <= k < pushed.len() && k <= n ==> (#[trigger] doubled(pushed, n)[k]).lockout == level_lockout(
                k as nat,
            ),
        forall|k: int| n < k < pushed.len() ==> #[trigger] doubled(pushed, n)[k] == pushed[k],
    decreases n,
{
    reveal_with_fuel(level_lockout, 17);
    if n > 0 {
        lemma_doubled_dense(pushed, (n - 1) as nat);
    }
}

/// Replaying the entries of a tower, oldest first, into a blank tower
/// gives the entries back with their lockouts, provided that no entry ever
/// expired under the tower and that each vote came no more than two slots
/// after the vote before it.
pub proof fn lemma_replay_rebuilds(t: TowerView)
    requires
        t.wf(),
        is_dense(t),
        is_close(t),
    ensures
        replayed(blank(), tail(t)).votes == t.votes,
{
    lemma_replay_upto(t, t.votes.len() as int);
    assert(tail(t).take(t.votes.len() as int) =~= tail(t));
}

/// What the replay of the `j` oldest entries gives.
proof fn lemma_replay_upto(t: TowerView, j: int)
    requires
        t.wf(),
        is_dense(t),
        is_close(t),
        0 <= j <= t.votes.len(),
    ensures
        replayed(blank(), tail(t).take(j)) == (TowerView { votes: rebuilt(t, j), root: blank().root }),
    decreases j,
{
    lemma_wf_len(t);
    if j == 0 {
        assert(rebuilt(t, 0) =~= Seq::empty());
    } else {
        lemma_replay_upto(t, j - 1);
        let votes = tail(t).take(j);
        assert(votes.drop_last() =~= tail(t).take(j - 1));
        lemma_replay_next(t, j);
    }
}

/// The lockouts of the positions of a tower lie below that of a root.
proof fn lemma_level_bound(i: nat)
    requires
        i < DEPTH - 1,
    ensures
        2 <= level_lockout(i) <= 32768,
{
    reveal_with_fuel(level_lockout, 17);
}

/// One more vote of the replay: the vote is accepted, nothing expires, and
/// every lockout doubles.
proof fn lemma_replay_next(t: TowerView, j: int)
    requires
        t.votes.len() < DEPTH,
        forall|a: int, b: int|
            0 <= a < b < t.votes.len() ==> (#[trigger] t.votes[a]).slot > (#[trigger] t.votes[b]).slot,
        is_close(t),
        1 <= j <= t.votes.len(),
        t.votes[t.votes.len() - 1].slot > 0,
    ensures
        (TowerView { votes: rebuilt(t, j - 1), root: blank().root }).accepts(t.votes[t.votes.len() - j].slot),
        (TowerView { votes: rebuilt(t, j - 1), root: blank().root }).voted(
            t.votes[t.votes.len() - j].slot,
        ) == (TowerView { votes: rebuilt(t, j), root: blank().root }),
{
    let n = t.votes.len() as int;
    let slot = t.votes[n - j].slot;
    let before = TowerView { votes: rebuilt(t, j - 1), root: blank().root };
    let pushed = seq![Vote { slot, lockout: FRESH_LOCKOUT }] + before.votes;
    assert forall|k: int| 1 <= k < pushed.len() implies (#[trigger] pushed[k]).lockout == level_lockout(
        (k - 1) as nat,
    ) by {
        lemma_level_bound((k - 1) as nat);
    }
    lemma_doubled_dense(pushed, (DEPTH - 1) as nat);
    let merged = doubled(pushed, (DEPTH - 1) as nat);
    lemma_level_bound((j - 1) as nat);
    assert(merged =~= rebuilt(t, j));
}

impl Clone for Tower {
    /// A tower with the same entries and the same root.
    fn clone(&self) -> (t: Self)
        ensures
            t@ == self@,
    {
        Tower { votes: self.votes.clone(), root: self.root }
    }
}

impl Tower {
    /// The lockout held on `slot`, entries below `skip` hiding their slot.
    fn held(&self, skip: u64, slot: Slot) -> (res: Option<u64>)
        requires
            self@.wf(),
        ensures
            res == self@.counted_on(skip, slot),
    {
        let mut i: usize = 0;
        while i < self.votes.len()
            invariant
                i <= self.votes@.len(),
                self@.wf(),
                forall|k: int| 0 <= k < i ==> (#[trigger] self.votes@[k]).slot != slot,
            decreases self.votes@.len() - i,
        {
            if self.votes[i].slot == slot {
                if self.votes[i].lockout >= skip {
                    return Some(self.votes[i].lockout);
                } else {
                    return None;
                }
            }
            i += 1;
        }
        if self.root.slot == slot {
            Some(self.root.lockout)
        } else {
            None
        }
    }

    /// Compares the lockouts of `tower` with those of this tower. Gives the
    /// slots on which `tower` holds the greater lockout, with that lockout,
    /// or `None` where the two towers cannot be compared.
    pub fn try_incrased_lockouts(&self, skip_lockout: u64, tower: &Tower) -> (res: Option<
        HashMap<Slot, u64>,
    >)
        requires
            self@.wf(),
            tower@.wf(),
        ensures
            res is Some <==> self@.tracks(skip_lockout, tower@),
            res is Some ==> res->0@ == self@.increased(skip_lockout, tower@),
    {
        let ghost me = self@;
        let ghost other = tower@;
        let ghost full = me.increased(skip_lockout, other);
        let mut rv: HashMap<Slot, u64> = HashMap::new();
        match self.held(0, tower.root.slot) {
            None => {
                return None;
            },
            Some(lockout) => {
                if lockout < tower.root.lockout {
                    rv.insert(tower.root.slot, tower.root.lockout);
                }
            },
        }
        let mut i: usize = 0;
        while i < tower.votes.len()
            invariant
                i <= tower.votes@.len(),
                me == self@,
                other == tower@,
                me.wf(),
                other.wf(),
                full == me.increased(skip_lockout, other),
                me.lockout_on(other.root.slot) is Some,
                forall|s: Slot| #[trigger]
                    rv@.contains_key(s) <==> full.contains_key(s) && (s == other.root.slot
                        || exists|k: int| 0 <= k < i && (#[trigger] other.votes[k]).slot == s),
                forall|s: Slot| #[trigger] rv@.contains_key(s) ==> rv@[s] == full[s],
                forall|k: int|
                    0 <= k < i && me.raised_on(skip_lockout, other, (#[trigger] other.votes[k]).slot)
                        ==> 2 * me.lockout_on(other.votes[k].slot)->0 == other.votes[k].lockout,
            decreases tower.votes@.len() - i,
        {
            let e = tower.votes[i];
            if e.lockout >= skip_lockout {
                match self.held(0, e.slot) {
                    Some(lockout) => {
                        if lockout < e.lockout {
                            if lockout * 2 != e.lockout {
                                return None;
                            }
                            rv.insert(e.slot, e.lockout);
                        }
                    },
                    None => {},
                }
            }
            i += 1;
        }
        Some(rv)
    }

    /// The slots on which `tower` holds a strictly greater lockout than this
    /// tower, each with the lockout that `tower` holds on it. The root of
    /// `tower` counts; its entries below `skip_lockout` do not.
    pub fn get_incrased_lockouts(&self, skip_lockout: u64, tower: &Tower) -> (rv: HashMap<Slot, u64>)
        requires
            self@.wf(),
            tower@.wf(),
            self@.tracks(skip_lockout, tower@),
        ensures
            rv@ == self@.increased(skip_lockout, tower@),
    {
        match self.try_incrased_lockouts(skip_lockout, tower) {
            Some(rv) => rv,
            None => {
                assert(false);
                HashMap::new()
            },
        }
    }

    /// Whether `tower` holds a strictly greater lockout than this tower on
    /// some slot.
    pub fn compare_lockouts(&self, skip_lockout: u64, tower: &Tower) -> (b: bool)
        requires
            self@.wf(),
            tower@.wf(),
            self@.tracks(skip_lockout, tower@),
        ensures
            b <==> exists|slot: Slot| self@.raised_on(skip_lockout, tower@, slot),
    {
        let rv = self.get_incrased_lockouts(skip_lockout, tower);
        let ghost full = self@.increased(skip_lockout, tower@);
        proof {
            if exists|slot: Slot| self@.raised_on(skip_lockout, tower@, slot) {
                let slot = choose|slot: Slot| self@.raised_on(skip_lockout, tower@, slot);
                assert(full.contains_key(slot));
            }
        }
        !rv.is_empty()
    }

    /// The root followed by the entries, oldest first.
    pub fn votes(&self) -> (votes: Vec<Vote>)
        ensures
            votes@ == seq![self@.root] + self@.votes.reverse(),
    {
        let mut votes: Vec<Vote> = Vec::new();
        votes.push(self.root);
        let n = self.votes.len();
        let mut i: usize = n;
        while i > 0
            invariant
                i <= n,
                n == self.votes@.len(),
                votes@.len() == 1 + n - i,
                votes@[0] == self.root,
                forall|j: int| 1 <= j < votes@.len() ==> #[trigger] votes@[j] == self.votes@[n - j],
            decreases i,
        {
            i -= 1;
            votes.push(self.votes[i]);
        }
        votes
    }

    /// The newest entry, if there is one.
    pub fn latest_vote(&self) -> (latest: Option<&Vote>)
        ensures
            match latest {
                Some(v) => self@.votes.len() > 0 && *v == self@.votes[0],
                None => self@.votes.len() == 0,
            },
    {
        if self.votes.len() > 0 {
            Some(&self.votes[0])
        } else {
            None
        }
    }

    /// Applies a fresh vote. A vote that does not move the tower forward is
    /// rejected and the tower stays as it was; otherwise expired entries
    /// leave, the vote enters in front, lockouts double along the run of
    /// equal neighbours, and an entry that reached the root's lockout becomes
    /// the root.
    pub fn apply(&mut self, vote: &Vote) -> (res: Result<(), ()>)
        requires
            old(self)@.wf(),
            vote.lockout == FRESH_LOCKOUT,
        ensures
            final(self)@.wf(),
            res is Ok <==> old(self)@.accepts(vote.slot),
            res is Ok ==> final(self)@ == old(self)@.voted(vote.slot),
            res is Err ==> final(self)@ == old(self)@,
    {
        let ghost before = self@;
        if self.root.slot >= vote.slot {
            return Err(());
        }
        if self.votes.len() > 0 && self.votes[0].slot >= vote.slot {
            return Err(());
        }
        while self.votes.len() > 0 && vote.slot - self.votes[0].slot > self.votes[0].lockout
            invariant
                self.root == before.root,
                unexpired(self.votes@, vote.slot) == unexpired(before.votes, vote.slot),
                forall|i: int| 0 <= i < self.votes@.len() ==> (#[trigger] self.votes@[i]).slot < vote.slot,
            decreases self.votes@.len(),
        {
            self.votes.pop_front();
        }
        self.votes.push_front(*vote);
        let ghost pushed = self.votes@;
        proof {
            lemma_pushed(before, vote.slot);
        }
        let mut i: usize = 1;
        while i < DEPTH && i < self.votes.len()
            invariant
                1 <= i <= self.votes@.len(),
                self.root == before.root,
                is_pushed(pushed),
                self.votes@ == doubled(pushed, (i - 1) as nat),
            decreases DEPTH - i,
        {
            proof {
                lemma_doubled(pushed, (i - 1) as nat);
            }
            if self.votes[i].lockout == self.votes[i - 1].lockout {
                let v = self.votes[i];
                self.votes.remove(i);
                self.votes.insert(i, Vote { slot: v.slot, lockout: v.lockout * 2 });
            }
            i += 1;
        }
        proof {
            lemma_doubled(pushed, (i - 1) as nat);
            lemma_doubled_past_end(pushed, (i - 1) as nat, (DEPTH - 1) as nat);
            lemma_voted(before, vote.slot);
        }
        let n = self.votes.len();
        if self.votes[n - 1].lockout == ROOT_LOCKOUT {
            self.root = self.votes[n - 1];
            self.votes.pop_back();
        }
        Ok(())
    }
}

} // verus!
