//! The rotating primary and secondary subcommittees.

use crate::bank::ID;
use crate::bank::NUM_NODES;
use crate::sets::copy_of;
use crate::tower::Slot;
use rand::rngs::StdRng;
use rand::Rng;
use rand::SeedableRng;
use std::collections::hash_map::DefaultHasher;
use std::collections::HashSet;
use std::hash::Hasher;
use vstd::bytes::spec_u64_to_le_bytes;
use vstd::bytes::u64_to_le_bytes;
use vstd::prelude::*;
use vstd::std_specs::hash::DefaultHasherAdditionalSpecFns;

verus! {

broadcast use vstd::std_specs::hash::group_hash_axioms;

/// Number of super-roots after which the subcommittees rotate.
pub const SUBCOMMITTEE_EPOCH: u64 = 1;

/// Number of draws that make a subcommittee.
pub const SUBCOMMITTEE_SIZE: usize = 200;

/// `rand::rngs::StdRng`, the seeded generator of the `rand` crate. Nothing
/// of its inside is seen here.
#[verifier::external_type_specification]
#[verifier::external_body]
pub struct ExStdRng(StdRng);

/// The state of a `StdRng`, as bytes: what decides every value that the
/// generator will hand out.
pub uninterp spec fn rng_state(rng: StdRng) -> Seq<u8>;

/// The state of the generator that `StdRng::seed_from_u64` makes of `seed`.
pub uninterp spec fn seeded_state(seed: u64) -> Seq<u8>;

/// What `Rng::gen_range` does on the range `0..bound` with a generator in
/// `state`: the value it hands out, and the state it leaves the generator
/// in.
pub uninterp spec fn draw(state: Seq<u8>, bound: u64) -> (u64, Seq<u8>);

/// Calls `StdRng::seed_from_u64`. Taken on trust: the generator that comes
/// back is a function of the seed alone, whatever the process or the
/// machine.
#[verifier::external_body]
fn rng_from_seed(seed: u64) -> (rng: StdRng)
    ensures
        rng_state(rng) == seeded_state(seed),
{
    StdRng::seed_from_u64(seed)
}

/// Calls `Rng::gen_range` on `0..bound`, which must hold a value. Taken on
/// trust: the value lies below the bound, and the value and the state that
/// the generator is left in are functions of the state it was in and of
/// the bound.
#[verifier::external_body]
fn draw_below(rng: &mut StdRng, bound: u64) -> (x: u64)
    requires
        bound > 0,
    ensures
        x < bound,
        (x, rng_state(*final(rng))) == draw(rng_state(*old(rng)), bound),
{
    rng.gen_range(0..bound)
}

/// The values that a generator in `state` hands out in `n` draws below
/// `bound`.
pub open spec fn draws(state: Seq<u8>, bound: u64, n: nat) -> Set<ID>
    decreases n,
{
    if n == 0 {
        Set::empty()
    } else {
        draws(draw(state, bound).1, bound, (n - 1) as nat).insert(draw(state, bound).0 as usize)
    }
}

/// The subcommittee of an epoch: what `SUBCOMMITTEE_SIZE` draws among the
/// validators give, from a generator seeded with the epoch. A validator
/// drawn twice is one member.
pub open spec fn committee(epoch: u64) -> Set<ID> {
    draws(seeded_state(epoch), NUM_NODES as u64, SUBCOMMITTEE_SIZE as nat)
}

/// The two phases of the rotation.
#[derive(PartialEq, Eq, Structural, Clone, Copy, Debug)]
pub enum Phase {
    FlipPrimary,
    SwapSecondary,
}

/// The two subcommittees in force at a bank, and the super-roots seen.
pub struct Subcommittee {
    pub primary: HashSet<ID>,
    pub secondary: HashSet<ID>,
    /// Number of times the super-root has risen up to this bank.
    pub num_super_roots: u64,
    pub parent_num_super_roots: u64,
    pub super_root: Slot,
    pub parent_super_root: Slot,
}

/// The mathematical content of a `Subcommittee`.
pub struct SubcommitteeView {
    pub primary: Set<ID>,
    pub secondary: Set<ID>,
    pub num_super_roots: u64,
    pub parent_num_super_roots: u64,
    pub super_root: Slot,
    pub parent_super_root: Slot,
}

impl View for Subcommittee {
    type V = SubcommitteeView;

    open spec fn view(&self) -> SubcommitteeView {
        SubcommitteeView {
            primary: self.primary@,
            secondary: self.secondary@,
            num_super_roots: self.num_super_roots,
            parent_num_super_roots: self.parent_num_super_roots,
            super_root: self.super_root,
            parent_super_root: self.parent_super_root,
        }
    }
}

/// The epoch that `count` super-roots amount to.
pub open spec fn epoch_of(count: u64) -> u64 {
    count / SUBCOMMITTEE_EPOCH
}

/// The phase that an epoch opens.
pub open spec fn phase_of(epoch: u64) -> Phase {
    if epoch % 2 == 0 {
        Phase::FlipPrimary
    } else {
        Phase::SwapSecondary
    }
}

impl SubcommitteeView {
    /// The invariant of a subcommittee: its members are validators, the
    /// super-root and its count do not fall below the parent's, the count
    /// has risen exactly if the super-root has, and the super-root has not
    /// risen more often than slots lie below it.
    pub open spec fn wf(self) -> bool {
        &&& self.primary.finite()
        &&& self.secondary.finite()
        &&& forall|id: ID| self.primary.contains(id) ==> id < NUM_NODES
        &&& forall|id: ID| self.secondary.contains(id) ==> id < NUM_NODES
        &&& self.super_root >= self.parent_super_root
        &&& self.num_super_roots >= self.parent_num_super_roots
        &&& self.num_super_roots <= self.super_root
        &&& (self.num_super_roots > self.parent_num_super_roots) == (self.super_root
            > self.parent_super_root)
    }

    /// The subcommittees of the first bank: both are the committee of
    /// epoch 0, and no super-root was seen.
    pub open spec fn genesis() -> SubcommitteeView {
        SubcommitteeView {
            primary: committee(0),
            secondary: committee(0),
            num_super_roots: 0,
            parent_num_super_roots: 0,
            super_root: 0,
            parent_super_root: 0,
        }
    }

    /// The epoch in force at the bank.
    pub open spec fn epoch(self) -> u64 {
        epoch_of(self.parent_num_super_roots)
    }

    /// The phase that the epoch of the bank opens.
    pub open spec fn phase(self) -> Phase {
        phase_of(self.epoch())
    }

    /// What a child bank starts from, before any rotation.
    pub open spec fn child(self) -> SubcommitteeView {
        SubcommitteeView {
            primary: self.primary,
            secondary: self.secondary,
            num_super_roots: self.num_super_roots,
            parent_num_super_roots: self.num_super_roots,
            super_root: self.super_root,
            parent_super_root: self.super_root,
        }
    }

    /// The subcommittee of a child once the rotation that its epoch calls
    /// for was made: none where the epoch is the parent's, else the two
    /// sets trade places or the secondary is drawn anew.
    pub open spec fn rotated(self, parent: SubcommitteeView) -> SubcommitteeView {
        if self.epoch() == parent.epoch() {
            self
        } else if self.phase() == Phase::FlipPrimary {
            SubcommitteeView { primary: self.secondary, secondary: self.primary, ..self }
        } else {
            SubcommitteeView { secondary: committee(self.epoch()), ..self }
        }
    }

    /// The subcommittee after a freeze at the two super-roots given: the
    /// super-root rises to the lower of the two if that is above it, and
    /// the count rises with it.
    pub open spec fn frozen(self, primary: Slot, secondary: Slot) -> SubcommitteeView {
        let lower = if primary <= secondary {
            primary
        } else {
            secondary
        };
        if self.super_root < lower {
            SubcommitteeView {
                super_root: lower,
                num_super_roots: if lower != self.parent_super_root {
                    (self.num_super_roots + 1) as u64
                } else {
                    self.num_super_roots
                },
                ..self
            }
        } else {
            self
        }
    }
}

/// A child rotates exactly if the super-root rose at its parent, and then
/// by the count that the parent reached: the two subcommittees trade places
/// at an even count, and the secondary is drawn anew at an odd one.
pub proof fn lemma_rotation_follows_the_count(parent: SubcommitteeView)
    requires
        parent.wf(),
    ensures
        parent.child().rotated(parent) == if parent.num_super_roots == parent.parent_num_super_roots {
            parent.child()
        } else if parent.num_super_roots % 2 == 0 {
            SubcommitteeView { primary: parent.secondary, secondary: parent.primary, ..parent.child() }
        } else {
            SubcommitteeView { secondary: committee(parent.num_super_roots), ..parent.child() }
        },
{
}

/// One epoch after the other, the two phases take turns: of two rotations
/// in a row one trades the subcommittees and one draws the secondary anew.
pub proof fn lemma_phases_take_turns(epoch: u64)
    requires
        epoch < u64::MAX,
    ensures
        phase_of(epoch) != phase_of((epoch + 1) as u64),
{
}

impl Default for Subcommittee {
    /// The subcommittees of the first bank.
    fn default() -> (s: Self)
        ensures
            s@.wf(),
            s@ == SubcommitteeView::genesis(),
    {
        let primary = Self::calc_subcommittee(0);
        let secondary = copy_of(&primary);
        Self {
            parent_super_root: 0,
            super_root: 0,
            num_super_roots: 0,
            parent_num_super_roots: 0,
            primary,
            secondary,
        }
    }
}

impl Subcommittee {
    /// What a child bank inherits.
    pub fn child(self: &Self) -> (c: Self)
        ensures
            c@ == self@.child(),
    {
        Self {
            parent_super_root: self.super_root,
            super_root: self.super_root,
            num_super_roots: self.num_super_roots,
            parent_num_super_roots: self.num_super_roots,
            primary: copy_of(&self.primary),
            secondary: copy_of(&self.secondary),
        }
    }

    /// Rotates the subcommittees of a child where its epoch differs from
    /// that of `parent`.
    pub fn init_child(&mut self, parent: &Self)
        requires
            old(self)@.wf(),
        ensures
            final(self)@ == old(self)@.rotated(parent@),
            final(self)@.wf(),
    {
        if self.epoch() != parent.epoch() {
            let epoch = self.epoch();
            match self.phase() {
                Phase::FlipPrimary => {
                    std::mem::swap(&mut self.primary, &mut self.secondary);
                },
                Phase::SwapSecondary => {
                    self.secondary = Self::calc_subcommittee(epoch);
                },
            }
        }
    }

    /// Records the super-roots of the two subcommittees at the bank that is
    /// being frozen.
    pub fn freeze(&mut self, primary: Slot, secondary: Slot)
        requires
            old(self)@.wf(),
        ensures
            final(self)@ == old(self)@.frozen(primary, secondary),
            final(self)@.wf(),
            final(self)@.super_root >= old(self)@.super_root,
    {
        let super_root = if primary <= secondary {
            primary
        } else {
            secondary
        };
        if self.super_root < super_root {
            self.super_root = super_root;
            if self.super_root != self.parent_super_root {
                self.num_super_roots = self.num_super_roots + 1;
            }
        }
    }

    /// Draws the subcommittee of an epoch.
    pub fn calc_subcommittee(epoch: u64) -> (set: HashSet<ID>)
        ensures
            set@ == committee(epoch),
            set@.finite(),
            forall|id: ID| set@.contains(id) ==> id < NUM_NODES,
    {
        let mut set: HashSet<ID> = HashSet::new();
        let mut rng = rng_from_seed(epoch);
        let mut i: usize = 0;
        while i < SUBCOMMITTEE_SIZE
            invariant
                i <= SUBCOMMITTEE_SIZE,
                committee(epoch) == set@.union(
                    draws(rng_state(rng), NUM_NODES as u64, (SUBCOMMITTEE_SIZE - i) as nat),
                ),
                forall|id: ID| set@.contains(id) ==> id < NUM_NODES,
                set@.finite(),
            decreases SUBCOMMITTEE_SIZE - i,
        {
            let id = draw_below(&mut rng, NUM_NODES as u64);
            set.insert(id as usize);
            i += 1;
        }
        set
    }

    /// The epoch in force at this bank.
    pub fn epoch(&self) -> (e: u64)
        ensures
            e == self@.epoch(),
    {
        self.parent_num_super_roots / SUBCOMMITTEE_EPOCH
    }

    /// The phase that the epoch of this bank opens.
    pub fn phase(&self) -> (p: Phase)
        ensures
            p == self@.phase(),
    {
        if self.epoch() % 2 == 0 {
            Phase::FlipPrimary
        } else {
            Phase::SwapSecondary
        }
    }
}

/// A stable 64-bit hash of `val`: the default hasher's digest of the eight
/// bytes of `val`, lowest first.
pub fn hash(val: u64) -> (h: u64)
    ensures
        h == DefaultHasher::spec_finish(seq![spec_u64_to_le_bytes(val)]),
{
    let mut hasher = DefaultHasher::new();
    let bytes = u64_to_le_bytes(val);
    hasher.write(bytes.as_slice());
    hasher.finish()
}

} // verus!
