//! The tree: its invariant, its map view, and the public operations.
use vstd::prelude::*;
use crate::lemmas::{lemma_count_height, lemma_count_len, lemma_height};
use crate::node::{
    content, count, entries_map, height, min_entries, union_of, value_of, wf_in, wf_node, KeyVal,
    Node, MAX_ORDER,
};

verus! {

/// Exclusive upper bound of the keys, one past `u64::MAX`.
pub open spec fn key_limit() -> int {
    0x1_0000_0000_0000_0000
}

/// A B-tree of order `S`: every node but the root holds between `S` and `2 * S` entries.
pub struct BTree<V, const S: usize> {
    root: Node<V>,
}

impl<V: Copy, const S: usize> BTree<V, S> {
    /// The tree's invariants hold.
    pub closed spec fn wf(&self) -> bool {
        &&& 1 <= S <= MAX_ORDER
        &&& wf_node(self.root, S as nat, height(self.root), -1, key_limit(), true)
        &&& count(self.root) <= usize::MAX
    }

    /// The key-value pairs stored in the tree.
    pub closed spec fn view(&self) -> Map<u64, V> {
        content(self.root)
    }

    /// Number of levels, leaves counted as one.
    pub closed spec fn depth(&self) -> nat {
        height(self.root)
    }

    /// A well-formed tree stores finitely many keys.
    pub proof fn lemma_view_finite(&self)
        requires
            self.wf(),
        ensures
            self@.dom().finite(),
    {
        lemma_count_len(self.root, S as nat, height(self.root), -1, key_limit(), min_entries(self.root, S as nat, true), 2 * S as nat);
    }

    /// An empty tree: a single empty leaf.
    pub fn new() -> (r: Self)
        requires
            1 <= S <= MAX_ORDER,
        ensures
            r.wf(),
            r@ == Map::<u64, V>::empty(),
            r.depth() == 1,
    {
        let r = BTree { root: Node::new(true) };
        assert(r@ =~= Map::<u64, V>::empty());
        r
    }

    /// Whether the tree meets its invariants, checked by walking every node.
    pub fn check(&self) -> (r: bool)
        ensures
            r == self.wf(),
    {
        if S < 1 || S > MAX_ORDER {
            return false;
        }
        let h = match self.root.checked_level() {
            Some(h) => h,
            None => {
                proof {
                    if self.wf() && !self.root.is_leaf {
                        lemma_count_height(self.root, S as nat, height(self.root), -1, key_limit(), 1, 2 * S as nat);
                    }
                }
                return false;
            },
        };
        let mn: usize = if self.root.is_leaf { 0 } else { 1 };
        if !self.root.is_valid(S, h, None, None, mn, 2 * S) {
            return false;
        }
        self.root.checked_size().is_some()
    }

    /// A tree with the given root, where that node meets the invariants of a root of order `S`.
    pub fn from_root(root: Node<V>) -> (r: Option<Self>)
        ensures
            r is Some <==> (1 <= S <= MAX_ORDER && wf_node(root, S as nat, height(root), -1, key_limit(), true)
                && count(root) <= usize::MAX),
            r matches Some(t) ==> t.wf() && t@ == content(root),
    {
        let t = BTree { root };
        if t.check() {
            Some(t)
        } else {
            None
        }
    }

    /// The root node.
    pub fn root(&self) -> (r: &Node<V>)
        ensures
            content(*r) == self@,
            height(*r) == self.depth(),
            self.wf() ==> wf_node(*r, S as nat, height(*r), -1, key_limit(), true),
    {
        &self.root
    }

    /// Number of keys stored.
    pub fn size(&self) -> (r: usize)
        requires
            self.wf(),
        ensures
            r == self@.len(),
            self@.dom().finite(),
    {
        proof {
            lemma_count_len(self.root, S as nat, height(self.root), -1, key_limit(), min_entries(self.root, S as nat, true), 2 * S as nat);
        }
        self.root.size()
    }

    /// Number of levels from the root down to the leaves, leaves counted as one.
    pub fn level(&self) -> (r: usize)
        requires
            self.wf(),
        ensures
            r == self.depth(),
            r >= 1,
            r == 1 || r <= self@.len(),
    {
        proof {
            let h = height(self.root);
            lemma_count_len(self.root, S as nat, h, -1, key_limit(), min_entries(self.root, S as nat, true), 2 * S as nat);
            lemma_height(self.root, S as nat, h, -1, key_limit(), min_entries(self.root, S as nat, true), 2 * S as nat);
            if !self.root.is_leaf {
                lemma_count_height(self.root, S as nat, h, -1, key_limit(), 1, 2 * S as nat);
            }
        }
        self.root.level(0)
    }

    /// The value stored under `key`, if any.
    pub fn get(&self, key: &u64) -> (r: Option<V>)
        requires
            self.wf(),
        ensures
            r == value_of(self@, *key),
    {
        self.root.lookup(*key, Ghost(S as nat), Ghost(height(self.root)), Ghost(-1), Ghost(key_limit()), Ghost(min_entries(self.root, S as nat, true)), Ghost(2 * S as nat))
    }

    /// Stores `value` under `key` and returns the value it replaced, if any. A split of the
    /// root adds a level on top.
    pub fn put(&mut self, key: u64, value: V) -> (r: Option<V>)
        requires
            old(self).wf(),
            old(self)@.len() < usize::MAX,
        ensures
            final(self).wf(),
            final(self)@ == old(self)@.insert(key, value),
            r == value_of(old(self)@, key),
            final(self).depth() == old(self).depth()
                || (final(self).depth() == old(self).depth() + 1 && !old(self)@.contains_key(key)),
            old(self)@.contains_key(key) ==> final(self).depth() == old(self).depth(),
            final(self).depth() != old(self).depth() ==> old(self)@.len() >= 2 * S,
    {
        let ghost h = height(self.root);
        let ghost mn = min_entries(self.root, S as nat, true);
        proof {
            lemma_height(self.root, S as nat, h, -1, key_limit(), mn, 2 * S as nat);
            lemma_count_len(self.root, S as nat, h, -1, key_limit(), mn, 2 * S as nat);
        }
        let (prop, result) = self.root.upsert(S, key, value, Ghost(h), Ghost(-1), Ghost(key_limit()), Ghost(mn));
        match prop {
            Some((keyval, pivot)) => {
                let mut new_root = Node::new(false);
                new_root.keys.push(keyval);
                std::mem::swap(&mut self.root, &mut new_root);
                self.root.pivots.push(new_root);
                self.root.pivots.push(pivot);
                proof {
                    let r = self.root;
                    assert(r.keys@[0] == keyval);
                    assert(wf_in(r, S as nat, h + 1, -1, key_limit(), 1, 2 * S as nat));
                    lemma_height(r, S as nat, h + 1, -1, key_limit(), 1, 2 * S as nat);
                    assert(r.pivots@[0] == new_root && r.pivots@[1] == pivot);
                    assert(union_of(r.pivots@, 0) == Map::<u64, V>::empty());
                    assert(r.pivots@.len() == 2);
                    assert(union_of(r.pivots@, 1) == union_of(r.pivots@, 0).union_prefer_right(content(r.pivots@[0])));
                    assert(union_of(r.pivots@, 2) == union_of(r.pivots@, 1).union_prefer_right(content(r.pivots@[1])));
                    assert(union_of(r.pivots@, 2) =~= content(new_root).union_prefer_right(content(pivot)));
                    assert(entries_map(r.keys@) =~= Map::<u64, V>::empty().insert(keyval.key, keyval.value)) by {
                        assert(r.keys@.len() == 1);
                        assert(r.keys@.drop_last() =~= Seq::<KeyVal<V>>::empty());
                        assert(entries_map(r.keys@.drop_last()) == Map::<u64, V>::empty());
                        assert(r.keys@.last() == keyval);
                    }
                    assert(content(r) =~= content(new_root).union_prefer_right(content(pivot)).insert(keyval.key, keyval.value));
                    lemma_count_len(r, S as nat, h + 1, -1, key_limit(), 1, 2 * S as nat);
                }
            },
            None => {
                proof {
                    lemma_height(self.root, S as nat, h, -1, key_limit(), mn, 2 * S as nat);
                    lemma_count_len(self.root, S as nat, h, -1, key_limit(), mn, 2 * S as nat);
                }
            },
        }
        result
    }

    /// Removes `key` and returns its value, if it was stored. A root left with no entries and
    /// a single child is replaced by that child.
    pub fn delete(&mut self, key: &u64) -> (r: Option<V>)
        requires
            old(self).wf(),
        ensures
            final(self).wf(),
            final(self)@ == old(self)@.remove(*key),
            r == value_of(old(self)@, *key),
            final(self).depth() == old(self).depth()
                || (final(self).depth() + 1 == old(self).depth() && old(self)@.contains_key(*key)),
            !old(self)@.contains_key(*key) ==> final(self).depth() == old(self).depth(),
    {
        let ghost h = height(self.root);
        let ghost mn = min_entries(self.root, S as nat, true);
        let ghost sn = S as nat;
        proof {
            lemma_height(self.root, sn, h, -1, key_limit(), mn, 2 * sn);
            lemma_count_len(self.root, sn, h, -1, key_limit(), mn, 2 * sn);
        }
        let old_value = self.root.delete(S, *key, Ghost(h), Ghost(-1), Ghost(key_limit()), Ghost(mn));
        if !self.root.is_leaf && self.root.pivots.len() == 1 {
            let ghost r = self.root;
            let new_root = self.root.pivots.remove(0);
            self.root = new_root;
            proof {
                assert(r.keys@.len() == 0);
                assert(wf_in(new_root, sn, (h - 1) as nat, -1, key_limit(), sn, 2 * sn));
                assert(wf_node(new_root, sn, (h - 1) as nat, -1, key_limit(), true));
                lemma_height(new_root, sn, (h - 1) as nat, -1, key_limit(), min_entries(new_root, sn, true), 2 * sn);
                assert(union_of(r.pivots@, 0) == Map::<u64, V>::empty());
                assert(union_of(r.pivots@, 1) =~= content(new_root));
                assert(entries_map(r.keys@) == Map::<u64, V>::empty());
                assert(content(r) =~= content(new_root));
            }
        } else {
            proof {
                assert(wf_node(self.root, sn, h, -1, key_limit(), true));
                lemma_height(self.root, sn, h, -1, key_limit(), min_entries(self.root, sn, true), 2 * sn);
            }
        }
        proof {
            lemma_count_len(self.root, sn, height(self.root), -1, key_limit(), min_entries(self.root, sn, true), 2 * sn);
            assert(self@.dom() =~= old(self)@.dom().remove(*key));
        }
        old_value
    }
}

} // verus!
