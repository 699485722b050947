//! The order in which a hash map's keys are walked, and the sequence lemmas
//! the walking loops share.
use vstd::prelude::*;
use std::collections::HashMap;
use vstd::std_specs::hash::{into_iter_keys, spec_keys_iter};

verus! {

broadcast use vstd::std_specs::hash::group_hash_axioms;

/// The keys of a map in the order its `keys()` iterator yields them.
pub open spec fn walk_order<V>(m: &HashMap<u64, V>) -> Seq<u64> {
    into_iter_keys(spec_keys_iter(m))
}

/// The keys of `m`, in walk order: each key exactly once.
pub fn keys_in_walk_order<V>(m: &HashMap<u64, V>) -> (r: Vec<u64>)
    ensures
        r@ == walk_order(m),
        r@.to_set() == m@.dom(),
        r@.no_duplicates(),
{
    let mut out: Vec<u64> = Vec::new();
    for k in it: m.keys()
        invariant
            out@ == it.seq().take(it.index() as int).map_values(|k: &u64| *k),
    {
        out.push(*k);
        proof {
            assert(out@ =~= it.seq().take(it.index() + 1).map_values(|k: &u64| *k));
        }
    }
    assert(out@ =~= walk_order(m));
    out
}

/// Filtering one element further along a sequence.
pub proof fn lemma_filter_step<T>(s: Seq<T>, i: int, pred: spec_fn(T) -> bool)
    requires
        0 <= i < s.len(),
    ensures
        s.subrange(0, i + 1).filter(pred) == (if pred(s[i]) {
            s.subrange(0, i).filter(pred).push(s[i])
        } else {
            s.subrange(0, i).filter(pred)
        }),
{
    reveal(Seq::filter);
    assert(s.subrange(0, i + 1).drop_last() =~= s.subrange(0, i));
    assert(s.subrange(0, i + 1).last() == s[i]);
}

/// Filtering nothing yet.
pub proof fn lemma_filter_empty<T>(s: Seq<T>, pred: spec_fn(T) -> bool)
    ensures
        s.subrange(0, 0).filter(pred) == Seq::<T>::empty(),
{
    reveal(Seq::filter);
    assert(s.subrange(0, 0) =~= Seq::<T>::empty());
}

/// The set of a prefix one element longer.
pub proof fn lemma_prefix_set_step<T>(s: Seq<T>, i: int)
    requires
        0 <= i < s.len(),
    ensures
        s.subrange(0, i + 1).to_set() == s.subrange(0, i).to_set().insert(s[i]),
{
    let a = s.subrange(0, i + 1);
    let b = s.subrange(0, i);
    assert forall|x: T| a.contains(x) <==> (b.contains(x) || x == s[i]) by {
        if a.contains(x) {
            let j = choose|j: int| 0 <= j < a.len() && a[j] == x;
            if j < i {
                assert(b[j] == x);
            }
        }
        if b.contains(x) {
            let j = choose|j: int| 0 <= j < b.len() && b[j] == x;
            assert(a[j] == x);
        }
        if x == s[i] {
            assert(a[i] == s[i]);
        }
    }
    assert(a.to_set() =~= b.to_set().insert(s[i]));
}

/// `e` placed after every element whose key is at least its own.
pub open spec fn insert_desc<T>(r: Seq<T>, e: T, key: spec_fn(T) -> int) -> Seq<T>
    decreases r.len(),
{
    if r.len() == 0 {
        seq![e]
    } else if key(r.last()) < key(e) {
        insert_desc(r.drop_last(), e, key).push(r.last())
    } else {
        r.push(e)
    }
}

/// The elements ordered by key, largest first, equal keys in their
/// original order.
pub open spec fn sorted_desc<T>(s: Seq<T>, key: spec_fn(T) -> int) -> Seq<T>
    decreases s.len(),
{
    if s.len() == 0 {
        Seq::empty()
    } else {
        insert_desc(sorted_desc(s.drop_last(), key), s.last(), key)
    }
}

/// Inserting at the first position whose key is smaller, found from the end.
pub proof fn lemma_insert_desc<T>(r: Seq<T>, e: T, key: spec_fn(T) -> int, pos: int)
    requires
        0 <= pos <= r.len(),
        forall|k: int| pos <= k < r.len() ==> key(#[trigger] r[k]) < key(e),
        pos > 0 ==> key(r[pos - 1]) >= key(e),
    ensures
        insert_desc(r, e, key) == r.insert(pos, e),
    decreases r.len(),
{
    if r.len() == 0 {
        assert(r.insert(pos, e) =~= seq![e]);
    } else if pos == r.len() {
        assert(r[r.len() - 1] == r.last());
        assert(r.insert(pos, e) =~= r.push(e));
    } else {
        let k = r.len() - 1;
        assert(key(r[k]) < key(e));
        assert(r[k] == r.last());
        let d = r.drop_last();
        assert forall|j: int| pos <= j < d.len() implies key(#[trigger] d[j]) < key(e) by {
            assert(d[j] == r[j]);
        }
        if pos > 0 {
            assert(d[pos - 1] == r[pos - 1]);
        }
        lemma_insert_desc(d, e, key, pos);
        assert(d.insert(pos, e).push(r.last()) =~= r.insert(pos, e));
    }
}

} // verus!
