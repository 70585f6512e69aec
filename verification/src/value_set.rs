//! Set algebra on the hash sets that hold broadcast values.
//!
//! Each function walks one set with its iterator and is specified over the
//! mathematical sets that the two arguments stand for.

use std::collections::HashSet;
use vstd::prelude::*;
use vstd::std_specs::hash::spec_hash_keys_iter;
use vstd::std_specs::iter::IteratorSpec;

verus! {

/// The values that the first `n` items of `keys` hold.
pub open spec fn prefix_values(keys: Seq<&u64>, n: int) -> Set<u64> {
    Set::new(|v: u64| exists|i: int| 0 <= i < n && i < keys.len() && *keys[i] == v)
}

/// Walking every item of a set's iterator visits exactly the set.
proof fn lemma_all_keys(a: &HashSet<u64>)
    ensures
        prefix_values(spec_hash_keys_iter(a).remaining(), spec_hash_keys_iter(a).remaining().len() as int)
            == a@,
{
    broadcast use vstd::std_specs::hash::group_hash_axioms;

    let keys = spec_hash_keys_iter(a).remaining();
    let all = prefix_values(keys, keys.len() as int);
    assert forall|v: u64| a@.contains(v) implies all.contains(v) by {
        assert(keys.unref().to_set().contains(v));
        let i = choose|i: int| 0 <= i < keys.unref().len() && keys.unref()[i] == v;
        assert(*keys[i] == v);
    }
    assert forall|v: u64| all.contains(v) implies a@.contains(v) by {
        let i = choose|i: int| 0 <= i < keys.len() && *keys[i] == v;
        assert(keys.unref()[i] == v);
        assert(keys.unref().to_set().contains(v));
    }
    assert(all =~= a@);
}

/// The values of `a` that `b` lacks.
pub fn difference(a: &HashSet<u64>, b: &HashSet<u64>) -> (d: HashSet<u64>)
    ensures
        d@ == a@.difference(b@),
{
    broadcast use vstd::std_specs::hash::group_hash_axioms;

    let mut d: HashSet<u64> = HashSet::new();
    let ghost keys = spec_hash_keys_iter(a).remaining();
    for x in it: a.iter()
        invariant
            it.seq() == keys,
            d@ == prefix_values(keys, it.index()).difference(b@),
    {
        let ghost before = d@;
        if !b.contains(x) {
            d.insert(*x);
        }
        assert(d@ =~= prefix_values(keys, it.index() + 1).difference(b@)) by {
            assert(prefix_values(keys, it.index() + 1) =~= prefix_values(keys, it.index()).insert(
                *x,
            ));
        }
    }
    proof {
        lemma_all_keys(a);
    }
    d
}

/// Adds every value of `from` to `into`.
pub fn merge(into: &mut HashSet<u64>, from: &HashSet<u64>)
    ensures
        final(into)@ == old(into)@.union(from@),
{
    broadcast use vstd::std_specs::hash::group_hash_axioms;

    let ghost keys = spec_hash_keys_iter(from).remaining();
    for x in it: from.iter()
        invariant
            it.seq() == keys,
            into@ == old(into)@.union(prefix_values(keys, it.index())),
    {
        into.insert(*x);
        assert(into@ =~= old(into)@.union(prefix_values(keys, it.index() + 1))) by {
            assert(prefix_values(keys, it.index() + 1) =~= prefix_values(keys, it.index()).insert(
                *x,
            ));
        }
    }
    proof {
        lemma_all_keys(from);
    }
}

/// A set with the same values as `a`.
pub fn copy(a: &HashSet<u64>) -> (c: HashSet<u64>)
    ensures
        c@ == a@,
{
    let mut c: HashSet<u64> = HashSet::new();
    merge(&mut c, a);
    assert(c@ =~= a@);
    c
}

} // verus!
