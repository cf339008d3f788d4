//! Walking hash sets in verified code: the members as a vector, and what a
//! count over the vector says of the set.

use std::collections::HashMap;
use std::collections::HashSet;
use std::hash::Hash;
use vstd::prelude::*;
use vstd::std_specs::hash::obeys_key_model;
use vstd::std_specs::hash::spec_hash_keys_iter;
use vstd::std_specs::hash::spec_keys_iter;
use vstd::std_specs::iter::IteratorSpec;

verus! {

broadcast use vstd::std_specs::hash::group_hash_axioms;

/// The members of `set`, each once, in the order in which the set hands
/// them out.
pub fn members<K: Copy + Eq + Hash>(set: &HashSet<K>) -> (ids: Vec<K>)
    requires
        obeys_key_model::<K>(),
    ensures
        ids@.no_duplicates(),
        ids@.to_set() == set@,
        ids@.len() == set@.len(),
        set@.finite(),
{
    let mut ids: Vec<K> = Vec::new();
    for id in it: set.iter()
        invariant
            ids@.len() == it.index(),
            forall|k: int| 0 <= k < ids@.len() ==> #[trigger] ids@[k] == *it.seq()[k],
            it.seq() == spec_hash_keys_iter(set).remaining(),
    {
        ids.push(*id);
    }
    proof {
        let all = spec_hash_keys_iter(set).remaining();
        assert(ids@ =~= all.unref());
        ids@.unique_seq_to_set();
    }
    ids
}

/// The keys of `map`, each once, in the order in which the map hands them
/// out.
pub fn keys_of<K: Copy + Eq + Hash, V>(map: &HashMap<K, V>) -> (keys: Vec<K>)
    requires
        obeys_key_model::<K>(),
    ensures
        keys@.no_duplicates(),
        keys@.to_set() == map@.dom(),
        keys@.len() == map@.dom().len(),
{
    let mut keys: Vec<K> = Vec::new();
    for key in it: map.keys()
        invariant
            keys@.len() == it.index(),
            forall|k: int| 0 <= k < keys@.len() ==> #[trigger] keys@[k] == *it.seq()[k],
            it.seq() == spec_keys_iter(map).remaining(),
    {
        keys.push(*key);
    }
    proof {
        let all = spec_keys_iter(map).remaining();
        assert(keys@ =~= all.unref());
    }
    keys
}

/// Taking one more element of a sequence adds that element to the set of
/// the elements taken.
pub proof fn lemma_take_next_to_set<A>(s: Seq<A>, i: int)
    requires
        0 <= i < s.len(),
    ensures
        s.take(i + 1).to_set() == s.take(i).to_set().insert(s[i]),
{
    let longer = s.take(i + 1);
    let shorter = s.take(i);
    let a = longer.to_set();
    let b = shorter.to_set().insert(s[i]);
    assert forall|x: A| b.contains(x) implies a.contains(x) by {
        if x == s[i] {
            assert(longer[i] == x);
        }
    }
}

/// Taking one more element of a sequence adds that element to what the
/// elements taken contain.
pub proof fn lemma_take_next_contains<A>(s: Seq<A>, i: int, x: A)
    requires
        0 <= i < s.len(),
    ensures
        s.take(i + 1).contains(x) <==> s.take(i).contains(x) || x == s[i],
{
    lemma_take_next_to_set(s, i);
    assert(s.take(i + 1).to_set().contains(x) <==> s.take(i).to_set().contains(x) || x == s[i]);
}

/// How many members of a finite set satisfy `p`, counted along a walk
/// through the set: the next element of the walk adds one if it satisfies
/// `p`.
pub proof fn lemma_count_next<A>(s: Seq<A>, i: int, p: spec_fn(A) -> bool)
    requires
        s.no_duplicates(),
        0 <= i < s.len(),
    ensures
        s.take(i).to_set().finite(),
        s.take(i + 1).to_set().filter(p).len() == s.take(i).to_set().filter(p).len() + (if p(s[i]) {
            1int
        } else {
            0int
        }),
{
    let seen = s.take(i).to_set();
    lemma_take_next_to_set(s, i);
    if p(s[i]) {
        assert(seen.insert(s[i]).filter(p) =~= seen.filter(p).insert(s[i]));
    } else {
        assert(seen.insert(s[i]).filter(p) =~= seen.filter(p));
    }
}

/// A walk that has not started has counted nothing.
pub proof fn lemma_count_none<A>(s: Seq<A>, p: spec_fn(A) -> bool)
    ensures
        s.take(0).to_set().filter(p).len() == 0,
{
    assert(s.take(0).to_set().filter(p) =~= Set::<A>::empty());
}

/// A finite set of numbers below `n` has at most `n` members.
pub proof fn lemma_bounded_len(s: Set<usize>, n: usize)
    requires
        s.finite(),
        forall|id: usize| s.contains(id) ==> id < n,
    ensures
        s.len() <= n,
    decreases n,
{
    if n == 0 {
        assert(s =~= Set::<usize>::empty());
    } else {
        let last = (n - 1) as usize;
        lemma_bounded_len(s.remove(last), last);
    }
}

/// A sum that is taken along a walk through a finite set: the next element
/// of the walk adds its share if it satisfies `p`.
pub proof fn lemma_fold_next<A>(s: Seq<A>, i: int, p: spec_fn(A) -> bool, f: spec_fn(nat, A) -> nat)
    requires
        s.no_duplicates(),
        0 <= i < s.len(),
        vstd::set::fold::is_fun_commutative(f),
    ensures
        s.take(i + 1).to_set().filter(p).fold(0nat, f) == if p(s[i]) {
            f(s.take(i).to_set().filter(p).fold(0nat, f), s[i])
        } else {
            s.take(i).to_set().filter(p).fold(0nat, f)
        },
{
    let seen = s.take(i).to_set();
    lemma_take_next_to_set(s, i);
    if p(s[i]) {
        assert(seen.insert(s[i]).filter(p) =~= seen.filter(p).insert(s[i]));
        vstd::set::fold::lemma_fold_insert(seen.filter(p), 0nat, f, s[i]);
    } else {
        assert(seen.insert(s[i]).filter(p) =~= seen.filter(p));
    }
}

/// A sum along a walk that has not started is nothing.
pub proof fn lemma_fold_none<A>(s: Seq<A>, p: spec_fn(A) -> bool, f: spec_fn(nat, A) -> nat)
    ensures
        s.take(0).to_set().filter(p).fold(0nat, f) == 0,
{
    assert(s.take(0).to_set().filter(p) =~= Set::<A>::empty());
    vstd::set::fold::lemma_fold_empty(0nat, f);
}

/// Puts the members of `from` into `into`.
pub fn extend<K: Copy + Eq + Hash>(into: &mut HashSet<K>, from: &HashSet<K>)
    requires
        obeys_key_model::<K>(),
    ensures
        final(into)@ == old(into)@.union(from@),
{
    let ghost before = into@;
    let items = members(from);
    let mut i: usize = 0;
    while i < items.len()
        invariant
            i <= items@.len(),
            obeys_key_model::<K>(),
            into@ == before.union(items@.take(i as int).to_set()),
        decreases items@.len() - i,
    {
        proof {
            lemma_take_next_to_set(items@, i as int);
        }
        into.insert(items[i]);
        i += 1;
    }
    assert(items@.take(items@.len() as int) =~= items@);
}

/// A set with the members of `set`.
pub fn copy_of(set: &HashSet<usize>) -> (copy: HashSet<usize>)
    ensures
        copy@ == set@,
{
    let ids = members(set);
    let mut copy: HashSet<usize> = HashSet::new();
    let mut i: usize = 0;
    while i < ids.len()
        invariant
            i <= ids@.len(),
            copy@ == ids@.take(i as int).to_set(),
        decreases ids@.len() - i,
    {
        proof {
            lemma_take_next_to_set(ids@, i as int);
        }
        copy.insert(ids[i]);
        i += 1;
    }
    assert(ids@.take(ids@.len() as int) =~= ids@);
    copy
}

} // verus!
