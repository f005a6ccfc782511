//! Properties relating several calls on a tree, stated over the contracts of `put`, `delete`
//! and `size`.
use vstd::prelude::*;
use crate::node::value_of;
use crate::tree::BTree;

verus! {

/// Storing `v1` and then `v2` under one key: the second `put` hands back `v1`, and `get` then
/// returns `v2`.
pub proof fn law_upsert<V: Copy, const S: usize>(t0: BTree<V, S>, t1: BTree<V, S>, t2: BTree<V, S>, k: u64, v1: V, v2: V, r2: Option<V>)
    requires
        t1@ == t0@.insert(k, v1),
        t2@ == t1@.insert(k, v2),
        r2 == value_of(t1@, k),
    ensures
        r2 == Some(v1),
        value_of(t2@, k) == Some(v2),
{
}

/// Deleting an absent key returns nothing and leaves the size alone; deleting a present key
/// returns its value and lowers the size by one.
pub proof fn law_delete<V: Copy, const S: usize>(t0: BTree<V, S>, t1: BTree<V, S>, k: u64, r: Option<V>)
    requires
        t0.wf(),
        t1@ == t0@.remove(k),
        r == value_of(t0@, k),
    ensures
        !t0@.contains_key(k) ==> r is None && t1@.len() == t0@.len(),
        t0@.contains_key(k) ==> r == Some(t0@[k]) && t1@.len() == t0@.len() - 1,
{
    t0.lemma_view_finite();
    if !t0@.contains_key(k) {
        assert(t1@ =~= t0@);
    }
}

/// The size counts distinct keys: a `put` adds one exactly when its key was absent, a
/// `delete` takes one away exactly when its key was present.
pub proof fn law_size<V: Copy, const S: usize>(t0: BTree<V, S>, t_put: BTree<V, S>, t_del: BTree<V, S>, k: u64, v: V)
    requires
        t0.wf(),
        t_put@ == t0@.insert(k, v),
        t_del@ == t0@.remove(k),
    ensures
        t_put@.len() == if t0@.contains_key(k) { t0@.len() } else { t0@.len() + 1 },
        t_del@.len() == if t0@.contains_key(k) { t0@.len() - 1 } else { t0@.len() as int },
{
    t0.lemma_view_finite();
    if t0@.contains_key(k) {
        assert(t_put@.dom() =~= t0@.dom());
    } else {
        assert(t_del@ =~= t0@);
    }
}

/// The keys left after a sequence of calls on an empty tree: `(true, k)` stands for a `put`
/// of `k`, `(false, k)` for a `delete` of `k`.
pub open spec fn keys_after(ops: Seq<(bool, u64)>) -> Set<u64>
    decreases ops.len(),
{
    if ops.len() == 0 {
        Set::empty()
    } else {
        let (is_put, k) = ops.last();
        if is_put {
            keys_after(ops.drop_last()).insert(k)
        } else {
            keys_after(ops.drop_last()).remove(k)
        }
    }
}

/// Over any sequence of calls from an empty tree (`ts[j + 1]` is `ts[j]` after call `j`), the
/// size is the number of distinct keys put and not deleted since.
pub proof fn law_size_accounting<V: Copy, const S: usize>(ts: Seq<BTree<V, S>>, ops: Seq<(bool, u64)>, vals: Seq<V>)
    requires
        ts.len() == ops.len() + 1,
        vals.len() == ops.len(),
        ts[0]@ == Map::<u64, V>::empty(),
        forall|j: int| 0 <= j < ts.len() ==> (#[trigger] ts[j]).wf(),
        forall|j: int|
            0 <= j < ops.len() ==> ts[j + 1]@ == (if (#[trigger] ops[j]).0 {
                ts[j]@.insert(ops[j].1, vals[j])
            } else {
                ts[j]@.remove(ops[j].1)
            }),
    ensures
        ts.last()@.dom() == keys_after(ops),
        ts.last()@.len() == keys_after(ops).len(),
    decreases ops.len(),
{
    if ops.len() > 0 {
        let n = ops.len() - 1;
        let ts2 = ts.drop_last();
        assert(ts2[0] == ts[0]);
        assert forall|j: int| 0 <= j < ops.drop_last().len() implies ts2[j + 1]@ == (if (#[trigger] ops.drop_last()[j]).0 {
            ts2[j]@.insert(ops.drop_last()[j].1, vals.drop_last()[j])
        } else {
            ts2[j]@.remove(ops.drop_last()[j].1)
        }) by {
            assert(ops.drop_last()[j] == ops[j]);
            assert(ts2[j] == ts[j] && ts2[j + 1] == ts[j + 1]);
        }
        assert forall|j: int| 0 <= j < ts2.len() implies (#[trigger] ts2[j]).wf() by {
            assert(ts2[j] == ts[j]);
        }
        law_size_accounting(ts2, ops.drop_last(), vals.drop_last());
        assert(ts[n + 1]@ == (if ops[n].0 { ts[n]@.insert(ops[n].1, vals[n]) } else { ts[n]@.remove(ops[n].1) }));
        assert(ts.last()@.dom() =~= keys_after(ops));
    } else {
        assert(ts.last()@.dom() =~= Set::<u64>::empty());
    }
    ts.last().lemma_view_finite();
}

/// Deleting one key twice: the first call returns its value, the second returns nothing and
/// changes nothing.
pub proof fn law_delete_twice<V: Copy, const S: usize>(t0: BTree<V, S>, t1: BTree<V, S>, t2: BTree<V, S>, k: u64, r1: Option<V>, r2: Option<V>)
    requires
        t1@ == t0@.remove(k),
        r1 == value_of(t0@, k),
        t2@ == t1@.remove(k),
        r2 == value_of(t1@, k),
    ensures
        t0@.contains_key(k) ==> r1 == Some(t0@[k]),
        r2 is None,
        t2@ == t1@,
{
    assert(t2@ =~= t1@);
}

} // verus!
