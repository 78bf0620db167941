//! Small helpers over the standard hash map.

use std::collections::HashMap;
use vstd::prelude::*;

verus! {

broadcast use vstd::std_specs::hash::group_hash_axioms;

/// The keys of a map, each once, in the map's own order.
pub fn keys_of<V>(m: &HashMap<u64, V>) -> (r: Vec<u64>)
    ensures
        r@.to_set() == m@.dom(),
        r@.no_duplicates(),
{
    let mut out: Vec<u64> = Vec::new();
    for k in it: m.keys()
        invariant
            out@.len() == it.index(),
            forall|j: int| 0 <= j < it.index() ==> out@[j] == *it.seq()[j],
            it.seq().unref().to_set() == m@.dom(),
            it.seq().unref().no_duplicates(),
            it.index() == it.seq().len() ==> out@ == it.seq().unref(),
    {
        out.push(*k);
        assert(it.index() + 1 == it.seq().len() ==> out@ =~= it.seq().unref());
    }
    out
}

/// The entries of `m` whose value exceeds `floor`.
pub open spec fn keep_above(m: Map<u64, u64>, floor: u64) -> Map<u64, u64> {
    Map::new(|k: u64| m.contains_key(k) && m[k] > floor, |k: u64| m[k])
}

/// The keys of `m` whose value is at most `floor`.
pub open spec fn keys_at_most(m: Map<u64, u64>, floor: u64) -> Set<u64> {
    Set::new(|k: u64| m.contains_key(k) && m[k] <= floor)
}

/// Drops the entries whose value is at most `floor` and returns their keys, each once.
pub fn retain_above(m: &mut HashMap<u64, u64>, floor: u64) -> (r: Vec<u64>)
    ensures
        final(m)@ == keep_above(old(m)@, floor),
        r@.to_set() == keys_at_most(old(m)@, floor),
        r@.no_duplicates(),
{
    let ghost m0 = m@;
    let keys = keys_of(m);
    let mut removed: Vec<u64> = Vec::new();
    let mut i: usize = 0;
    while i < keys.len()
        invariant
            i <= keys.len(),
            keys@.to_set() == m0.dom(),
            keys@.no_duplicates(),
            m@ == Map::new(
                |k: u64| m0.contains_key(k) && (!keys@.subrange(0, i as int).contains(k) || m0[k] > floor),
                |k: u64| m0[k],
            ),
            removed@.to_set() == Set::new(|k: u64| keys@.subrange(0, i as int).contains(k) && m0[k] <= floor),
            removed@.no_duplicates(),
        decreases keys.len() - i,
    {
        let k = keys[i];
        let ghost done = keys@.subrange(0, i as int);
        let ghost next = keys@.subrange(0, i as int + 1);
        proof {
            assert(next =~= done.push(k));
            assert(keys@.to_set().contains(k));
            assert(!done.contains(k)) by {
                if done.contains(k) {
                    let j = choose|j: int| 0 <= j < done.len() && done[j] == k;
                    assert(keys@[j] == keys@[i as int]);
                }
            }
            assert(m@.contains_key(k));
        }
        let value: u64 = match m.get(&k) {
            Some(v) => *v,
            None => 0,
        };
        assert(value == m0[k]);
        if value <= floor {
            let ghost before = m@;
            let ghost removed0 = removed@;
            m.remove(&k);
            removed.push(k);
            proof {
                assert(!removed0.contains(k)) by {
                    if removed0.contains(k) {
                        assert(removed0.to_set().contains(k));
                    }
                }
                assert(removed@.to_set() =~= removed0.to_set().insert(k)) by {
                    broadcast use vstd::seq_lib::group_seq_properties;
                }
                assert(removed@.no_duplicates()) by {
                    broadcast use vstd::seq_lib::group_seq_properties;
                }
            }
        }
        proof {
            assert forall|j: u64| #[trigger] next.contains(j) == (done.contains(j) || j == k) by {
                broadcast use vstd::seq_lib::group_seq_properties;
            }
            assert(m@ =~= Map::new(
                |j: u64| m0.contains_key(j) && (!next.contains(j) || m0[j] > floor),
                |j: u64| m0[j],
            ));
            assert(removed@.to_set() =~= Set::new(|j: u64| next.contains(j) && m0[j] <= floor));
        }
        i = i + 1;
    }
    proof {
        assert(keys@.subrange(0, keys.len() as int) =~= keys@);
        assert forall|k: u64| keys@.contains(k) <==> m0.contains_key(k) by {
            assert(keys@.to_set().contains(k) == m0.dom().contains(k));
        }
        assert(m@ =~= keep_above(m0, floor));
        assert(removed@.to_set() =~= keys_at_most(m0, floor));
    }
    removed
}

} // verus!
