//! Nodes of the tree: their invariants, what they store, and the recursive operations
//! on them.
use vstd::prelude::*;
use crate::lemmas::{
    lemma_child_removed, lemma_child_replaced, lemma_child_split, lemma_content_child,
    lemma_content_entry, lemma_content_leaf, lemma_content_outside, lemma_count_of_mono,
    lemma_donate, lemma_edge_join, lemma_edge_split, lemma_entries_map, lemma_join_content,
    lemma_join_wf, lemma_leaf_insert, lemma_leaf_remove, lemma_parent_merge, lemma_parent_pair,
    lemma_rotate, lemma_split, lemma_under_bst, lemma_under_ok, lemma_union_of_congruent,
    lemma_update_entry, lemma_wf_bst, lemma_widen,
};

verus! {

/// One stored entry: a key and its value.
pub struct KeyVal<V> {
    pub key: u64,
    pub value: V,
}

/// A leaf or internal page of the tree. An internal node holds one more child than entries.
pub struct Node<V> {
    pub is_leaf: bool,
    pub keys: Vec<KeyVal<V>>,
    pub pivots: Vec<Node<V>>,
}

/// What a node hands to its parent when it overflows: the median entry and the new right sibling.
pub type SplitPropagation<V> = Option<(KeyVal<V>, Node<V>)>;

/// Entries strictly ascending by key.
pub open spec fn sorted<V>(s: Seq<KeyVal<V>>) -> bool {
    forall|a: int, b: int| 0 <= a < b < s.len() ==> s[a].key < s[b].key
}

/// Lower bound (exclusive) of the keys of child `j`.
pub open spec fn lo_of<V>(n: Node<V>, j: int, lo: int) -> int {
    if j == 0 { lo } else { n.keys@[j - 1].key as int }
}

/// Upper bound (exclusive) of the keys of child `j`.
pub open spec fn hi_of<V>(n: Node<V>, j: int, hi: int) -> int {
    if j == n.keys@.len() { hi } else { n.keys@[j].key as int }
}

/// The B-tree invariants of the subtree at `n`: order `s`, all leaves at height `h` below
/// and including `n`, every key strictly between `lo` and `hi`, and between `mn` and `mx`
/// entries in `n` itself (every node below holds between `s` and `2 * s`).
pub open spec fn wf_in<V>(n: Node<V>, s: nat, h: nat, lo: int, hi: int, mn: nat, mx: nat) -> bool
    decreases n,
{
    &&& h >= 1
    &&& sorted(n.keys@)
    &&& forall|j: int| 0 <= j < n.keys@.len() ==> lo < #[trigger] n.keys@[j].key < hi
    &&& mn <= n.keys@.len() <= mx
    &&& (n.is_leaf <==> h == 1)
    &&& if n.is_leaf {
        n.pivots@.len() == 0
    } else {
        &&& n.pivots@.len() == n.keys@.len() + 1
        &&& forall|j: int|
            0 <= j < n.pivots@.len() ==> wf_in(
                #[trigger] n.pivots@[j],
                s,
                (h - 1) as nat,
                lo_of(n, j, lo),
                hi_of(n, j, hi),
                s,
                2 * s,
            )
    }
}

/// The lower bound that `lo` stands for: none is below every key.
pub open spec fn lower(lo: Option<u64>) -> int {
    match lo {
        Some(x) => x as int,
        None => -1,
    }
}

/// The upper bound that `hi` stands for: none is above every key.
pub open spec fn upper(hi: Option<u64>) -> int {
    match hi {
        Some(x) => x as int,
        None => 0x1_0000_0000_0000_0000,
    }
}

/// Least number of entries of a node: `s` below the root, none in a leaf root, one in an
/// internal root.
pub open spec fn min_entries<V>(n: Node<V>, s: nat, is_root: bool) -> nat {
    if !is_root { s } else if n.is_leaf { 0 } else { 1 }
}

/// The B-tree invariants of a (root or non-root) node.
pub open spec fn wf_node<V>(n: Node<V>, s: nat, h: nat, lo: int, hi: int, is_root: bool) -> bool {
    wf_in(n, s, h, lo, hi, min_entries(n, s, is_root), 2 * s)
}

/// The search-tree shape of the subtree at `n`, without the occupancy bounds.
pub open spec fn bst<V>(n: Node<V>, h: nat, lo: int, hi: int) -> bool
    decreases n,
{
    &&& h >= 1
    &&& sorted(n.keys@)
    &&& forall|j: int| 0 <= j < n.keys@.len() ==> lo < #[trigger] n.keys@[j].key < hi
    &&& (n.is_leaf <==> h == 1)
    &&& if n.is_leaf {
        n.pivots@.len() == 0
    } else {
        &&& n.pivots@.len() == n.keys@.len() + 1
        &&& forall|j: int|
            0 <= j < n.pivots@.len() ==> bst(#[trigger] n.pivots@[j], (h - 1) as nat, lo_of(n, j, lo), hi_of(n, j, hi))
    }
}

/// An internal node that meets the invariants, except that child `i` may hold one entry
/// fewer than `s`.
pub open spec fn wf_under<V>(n: Node<V>, s: nat, h: nat, lo: int, hi: int, mn: nat, mx: nat, i: int) -> bool {
    &&& h >= 2
    &&& sorted(n.keys@)
    &&& forall|j: int| 0 <= j < n.keys@.len() ==> lo < #[trigger] n.keys@[j].key < hi
    &&& mn <= n.keys@.len() <= mx
    &&& !n.is_leaf
    &&& n.pivots@.len() == n.keys@.len() + 1
    &&& 0 <= i < n.pivots@.len()
    &&& forall|j: int|
        0 <= j < n.pivots@.len() && j != i ==> wf_in(
            #[trigger] n.pivots@[j],
            s,
            (h - 1) as nat,
            lo_of(n, j, lo),
            hi_of(n, j, hi),
            s,
            2 * s,
        )
    &&& wf_in(n.pivots@[i], s, (h - 1) as nat, lo_of(n, i, lo), hi_of(n, i, hi), (s - 1) as nat, 2 * s)
}

/// The key-value pairs of a sequence of entries (a later entry wins on a repeated key).
pub open spec fn entries_map<V>(es: Seq<KeyVal<V>>) -> Map<u64, V>
    decreases es.len(),
{
    if es.len() == 0 {
        Map::empty()
    } else {
        entries_map(es.drop_last()).insert(es.last().key, es.last().value)
    }
}

/// The key-value pairs stored in the subtree at `n`.
pub open spec fn content<V>(n: Node<V>) -> Map<u64, V>
    decreases n, 0nat,
{
    union_of(n.pivots@, n.pivots@.len()).union_prefer_right(entries_map(n.keys@))
}

/// The key-value pairs stored in the first `j` subtrees of `cs`.
pub open spec fn union_of<V>(cs: Seq<Node<V>>, j: nat) -> Map<u64, V>
    decreases cs, j,
{
    if j == 0 || j > cs.len() {
        Map::empty()
    } else {
        union_of(cs, (j - 1) as nat).union_prefer_right(content(cs[j - 1]))
    }
}

/// Number of entries stored in the subtree at `n`.
pub open spec fn count<V>(n: Node<V>) -> nat
    decreases n, 0nat,
{
    n.keys@.len() + count_of(n.pivots@, n.pivots@.len())
}

/// Number of entries stored in the first `j` subtrees of `cs`.
pub open spec fn count_of<V>(cs: Seq<Node<V>>, j: nat) -> nat
    decreases cs, j,
{
    if j == 0 || j > cs.len() {
        0
    } else {
        count_of(cs, (j - 1) as nat) + count(cs[j - 1])
    }
}

/// Number of levels from `n` down to a leaf along the leftmost path.
pub open spec fn height<V>(n: Node<V>) -> nat
    decreases n,
{
    if n.is_leaf || n.pivots@.len() == 0 {
        1
    } else {
        1 + height(n.pivots@[0])
    }
}

/// The value stored under `k` in `m`, if any.
pub open spec fn value_of<V>(m: Map<u64, V>, k: u64) -> Option<V> {
    if m.contains_key(k) { Some(m[k]) } else { None }
}

/// Largest order a node can be used with: `2 * s + 1` entries must fit in `usize`.
pub const MAX_ORDER: usize = (usize::MAX - 1) / 2;

/// `l`, `m` and `r` are the parts of `o` around its entry `p`.
pub open spec fn parts<V>(o: Node<V>, l: Node<V>, m: KeyVal<V>, r: Node<V>, p: int) -> bool {
    &&& 0 <= p < o.keys@.len()
    &&& l.is_leaf == o.is_leaf
    &&& r.is_leaf == o.is_leaf
    &&& l.keys@ == o.keys@.subrange(0, p)
    &&& m == o.keys@[p]
    &&& r.keys@ == o.keys@.subrange(p + 1, o.keys@.len() as int)
    &&& o.is_leaf ==> l.pivots@.len() == 0 && r.pivots@.len() == 0 && o.pivots@.len() == 0
    &&& !o.is_leaf ==> l.pivots@ == o.pivots@.subrange(0, p + 1)
        && r.pivots@ == o.pivots@.subrange(p + 1, o.pivots@.len() as int)
}

/// The content of two subtrees and the entry between them.
pub open spec fn joined<V>(l: Node<V>, m: KeyVal<V>, r: Node<V>) -> Map<u64, V> {
    content(l).union_prefer_right(content(r)).insert(m.key, m.value)
}

/// Every child of `o` other than `a` and `b` meets the invariants.
pub open spec fn others_wf<V>(o: Node<V>, sn: nat, h: nat, lo: int, hi: int, a: int, b: int) -> bool {
    forall|j: int|
        0 <= j < o.pivots@.len() && j != a && j != b ==> wf_in(
            #[trigger] o.pivots@[j],
            sn,
            (h - 1) as nat,
            lo_of(o, j, lo),
            hi_of(o, j, hi),
            sn,
            2 * sn,
        )
}

/// `small` is `big` without its first (`front`) or last entry `e` and, if internal, without
/// the outer child `c` on that side.
pub open spec fn edge<V>(big: Node<V>, small: Node<V>, e: KeyVal<V>, c: Node<V>, front: bool) -> bool {
    &&& small.is_leaf == big.is_leaf
    &&& big.keys@.len() >= 1
    &&& if front {
        e == big.keys@[0] && small.keys@ == big.keys@.subrange(1, big.keys@.len() as int)
    } else {
        e == big.keys@.last() && small.keys@ == big.keys@.subrange(0, big.keys@.len() - 1)
    }
    &&& big.is_leaf ==> small.pivots@.len() == 0 && big.pivots@.len() == 0
    &&& !big.is_leaf ==> big.pivots@.len() == big.keys@.len() + 1
    &&& !big.is_leaf ==> if front {
        c == big.pivots@[0] && small.pivots@ == big.pivots@.subrange(1, big.pivots@.len() as int)
    } else {
        c == big.pivots@.last() && small.pivots@ == big.pivots@.subrange(0, big.pivots@.len() - 1)
    }
}

/// The content of `small`, the entry `e` and, if internal, the outer child `c`.
pub open spec fn edge_content<V>(small: Node<V>, e: KeyVal<V>, c: Node<V>, front: bool) -> Map<u64, V> {
    if small.is_leaf {
        content(small).insert(e.key, e.value)
    } else if front {
        joined(c, e, small)
    } else {
        joined(small, e, c)
    }
}

/// `n` is `o` after rotating left at child `i`: the entry after child `i` moved down to its
/// end, the first entry of child `i + 1` moved up in its place, and, if internal, the first
/// child of child `i + 1` moved to the end of child `i`.
pub open spec fn rotated_left<V>(o: Node<V>, n: Node<V>, i: int) -> bool {
    let (a, b) = (o.pivots@[i], o.pivots@[i + 1]);
    let (a2, b2) = (n.pivots@[i], n.pivots@[i + 1]);
    &&& n.is_leaf == o.is_leaf
    &&& n.keys@ == o.keys@.update(i, b.keys@[0])
    &&& n.pivots@.len() == o.pivots@.len()
    &&& forall|j: int| 0 <= j < o.pivots@.len() && j != i && j != i + 1 ==> n.pivots@[j] == o.pivots@[j]
    &&& a2.is_leaf == a.is_leaf && b2.is_leaf == b.is_leaf
    &&& a2.keys@ == a.keys@.push(o.keys@[i])
    &&& b2.keys@ == b.keys@.subrange(1, b.keys@.len() as int)
    &&& !a.is_leaf ==> a2.pivots@ == a.pivots@.push(b.pivots@[0])
        && b2.pivots@ == b.pivots@.subrange(1, b.pivots@.len() as int)
}

/// `n` is `o` after rotating right at child `i`: the entry before child `i` moved down to
/// its front, the last entry of child `i - 1` moved up in its place, and, if internal, the
/// last child of child `i - 1` moved to the front of child `i`.
pub open spec fn rotated_right<V>(o: Node<V>, n: Node<V>, i: int) -> bool {
    let (a, b) = (o.pivots@[i - 1], o.pivots@[i]);
    let (a2, b2) = (n.pivots@[i - 1], n.pivots@[i]);
    &&& n.is_leaf == o.is_leaf
    &&& n.keys@ == o.keys@.update(i - 1, a.keys@.last())
    &&& n.pivots@.len() == o.pivots@.len()
    &&& forall|j: int| 0 <= j < o.pivots@.len() && j != i - 1 && j != i ==> n.pivots@[j] == o.pivots@[j]
    &&& a2.is_leaf == a.is_leaf && b2.is_leaf == b.is_leaf
    &&& a2.keys@ == a.keys@.drop_last()
    &&& b2.keys@ == b.keys@.insert(0, o.keys@[i - 1])
    &&& !a.is_leaf ==> a2.pivots@ == a.pivots@.drop_last()
        && b2.pivots@ == b.pivots@.insert(0, a.pivots@.last())
}

/// `n` is `o` after merging child `j`, the entry after it and child `j + 1` into child `j`.
pub open spec fn merged<V>(o: Node<V>, n: Node<V>, j: int) -> bool {
    let (a, b) = (o.pivots@[j], o.pivots@[j + 1]);
    let m = n.pivots@[j];
    &&& n.is_leaf == o.is_leaf
    &&& n.keys@ == o.keys@.remove(j)
    &&& n.pivots@.len() + 1 == o.pivots@.len()
    &&& forall|t: int| 0 <= t < j ==> n.pivots@[t] == o.pivots@[t]
    &&& forall|t: int| j < t < n.pivots@.len() ==> n.pivots@[t] == o.pivots@[t + 1]
    &&& m.is_leaf == a.is_leaf
    &&& m.keys@ == a.keys@.push(o.keys@[j]) + b.keys@
    &&& !a.is_leaf ==> m.pivots@ == a.pivots@ + b.pivots@
}

/// The leftmost (`leftmost`) or rightmost leaf of the subtree at `n`.
pub open spec fn edge_leaf<V>(n: Node<V>, leftmost: bool) -> Node<V>
    decreases n,
{
    if n.is_leaf || n.pivots@.len() == 0 {
        n
    } else if leftmost {
        edge_leaf(n.pivots@[0], leftmost)
    } else {
        edge_leaf(n.pivots@[n.pivots@.len() - 1], leftmost)
    }
}

/// The entry of `n`'s outermost leaf on the chosen side: its first on the left, its last on
/// the right.
pub open spec fn edge_entry<V>(n: Node<V>, leftmost: bool) -> KeyVal<V> {
    if leftmost {
        edge_leaf(n, true).keys@[0]
    } else {
        edge_leaf(n, false).keys@.last()
    }
}

/// One less than `mn`, or zero.
pub open spec fn pred(mn: nat) -> nat {
    if mn == 0 { 0 } else { (mn - 1) as nat }
}


impl<V: Copy> KeyVal<V> {
    pub fn new(key: u64, value: V) -> (r: KeyVal<V>)
        ensures
            r.key == key,
            r.value == value,
    {
        KeyVal { key, value }
    }
}

impl<V: Copy> Node<V> {
    /// An empty node.
    pub fn new(is_leaf: bool) -> (r: Node<V>)
        ensures
            r.is_leaf == is_leaf,
            r.keys@.len() == 0,
            r.pivots@.len() == 0,
    {
        Node { is_leaf, keys: Vec::new(), pivots: Vec::new() }
    }

    /// Binary search of this node's entries: `Ok` with the index of `key`, or `Err` with the
    /// index where it would be inserted.
    pub fn find_index(&self, key: u64) -> (r: Result<usize, usize>)
        requires
            sorted(self.keys@),
        ensures
            match r {
                Ok(i) => i < self.keys@.len() && self.keys@[i as int].key == key,
                Err(i) => i <= self.keys@.len()
                    && (forall|j: int| 0 <= j < i ==> #[trigger] self.keys@[j].key < key)
                    && (forall|j: int| i <= j < self.keys@.len() ==> key < #[trigger] self.keys@[j].key),
            },
    {
        let mut lo: usize = 0;
        let mut hi: usize = self.keys.len();
        while lo < hi
            invariant
                lo <= hi <= self.keys@.len(),
                sorted(self.keys@),
                forall|j: int| 0 <= j < lo ==> #[trigger] self.keys@[j].key < key,
                forall|j: int| hi <= j < self.keys@.len() ==> key < #[trigger] self.keys@[j].key,
            decreases hi - lo,
        {
            let mid: usize = lo + (hi - lo) / 2;
            let k = self.keys[mid].key;
            if k == key {
                return Ok(mid);
            } else if k < key {
                lo = mid + 1;
            } else {
                hi = mid;
            }
        }
        Err(lo)
    }

    /// Removes `key` from this subtree and returns its value. On the way back up, each child
    /// the descent passed through is rebalanced.
    pub fn delete(&mut self, s: usize, key: u64, Ghost(h): Ghost<nat>, Ghost(lo): Ghost<int>, Ghost(hi): Ghost<int>, Ghost(mn): Ghost<nat>) -> (r: Option<V>)
        requires
            1 <= s <= MAX_ORDER,
            mn <= s,
            !old(self).is_leaf ==> 1 <= mn,
            wf_in(*old(self), s as nat, h, lo, hi, mn, 2 * s as nat),
            lo < key < hi,
        ensures
            r == value_of(content(*old(self)), key),
            content(*final(self)) == content(*old(self)).remove(key),
            wf_in(*final(self), s as nat, h, lo, hi, pred(mn), 2 * s as nat),
            final(self).is_leaf == old(self).is_leaf,
            r is None ==> final(self).keys@ == old(self).keys@,
            final(self).keys@.len() + 1 >= old(self).keys@.len(),
        decreases h,
    {
        let ghost o = *self;
        let ghost sn = s as nat;
        match self.find_index(key) {
            Ok(i) => {
                if self.is_leaf {
                    let kv = self.keys.remove(i);
                    proof {
                        lemma_leaf_remove(o, *self, sn, lo, hi, mn, i as int);
                    }
                    return Some(kv.value);
                }
                let old_value = self.keys[i].value;
                proof {
                    lemma_content_entry(o, i as int);
                }
                let _replacement = self.delete_entry(s, i, Ghost(h), Ghost(lo), Ghost(hi), Ghost(mn));
                Some(old_value)
            },
            Err(i) => {
                if self.is_leaf {
                    proof {
                        lemma_content_leaf(o, key);
                        assert(content(o).remove(key) =~= content(o));
                    }
                    return None;
                }
                proof {
                    lemma_content_child(o, sn, h, lo, hi, mn, 2 * sn, i as int, key);
                    assert(wf_in(o.pivots@[i as int], sn, (h - 1) as nat, lo_of(o, i as int, lo), hi_of(o, i as int, hi), sn, 2 * sn));
                }
                let mut child = self.pivots.remove(i);
                let old_value = child.delete(s, key, Ghost((h - 1) as nat), Ghost(lo_of(o, i as int, lo)), Ghost(hi_of(o, i as int, hi)), Ghost(sn));
                self.pivots.insert(i, child);
                proof {
                    assert(self.pivots@ =~= o.pivots@.update(i as int, child));
                    lemma_child_removed(o, *self, sn, h, lo, hi, mn, i as int, child, (sn - 1) as nat, key, lo, hi);
                }
                self.rebalance(s, i, Ghost(h), Ghost(lo), Ghost(hi), Ghost(mn));
                old_value
            },
        }
    }

    /// Removes entry `i` of an internal node: a leaf below it with entries to spare gives up
    /// its neighbouring entry as the new separator, or else one is taken by force from the
    /// side that `i`'s parity picks and that side is rebalanced.
    #[verifier::rlimit(100)]
    fn delete_entry(&mut self, s: usize, i: usize, Ghost(h): Ghost<nat>, Ghost(lo): Ghost<int>, Ghost(hi): Ghost<int>, Ghost(mn): Ghost<nat>) -> (r: KeyVal<V>)
        requires
            1 <= s <= MAX_ORDER,
            1 <= mn <= s,
            !old(self).is_leaf,
            i < old(self).keys@.len(),
            wf_in(*old(self), s as nat, h, lo, hi, mn, 2 * s as nat),
        ensures
            content(*final(self)) == content(*old(self)).remove(old(self).keys@[i as int].key),
            wf_in(*final(self), s as nat, h, lo, hi, pred(mn), 2 * s as nat),
            ({
                let (l, rt) = (old(self).pivots@[i as int], old(self).pivots@[i + 1]);
                let spare_left = edge_leaf(l, false).keys@.len() > s;
                let spare_right = edge_leaf(rt, true).keys@.len() > s;
                &&& r == (if spare_left {
                    edge_entry(l, false)
                } else if spare_right {
                    edge_entry(rt, true)
                } else if i % 2 == 0 {
                    edge_entry(l, false)
                } else {
                    edge_entry(rt, true)
                })
                &&& spare_left || spare_right ==> final(self).keys@ == old(self).keys@.update(i as int, r)
            }),
            final(self).keys@.len() + 1 >= old(self).keys@.len(),
    {
        let ghost o = *self;
        let ghost sn = s as nat;
        let key = self.keys[i].key;
        let ghost lo_a = lo_of(o, i as int, lo);
        let ghost hi_b = hi_of(o, i + 1, hi);
        proof {
            lemma_content_entry(o, i as int);
            assert(wf_in(o.pivots@[i as int], sn, (h - 1) as nat, lo_a, key as int, sn, 2 * sn));
            assert(wf_in(o.pivots@[i + 1], sn, (h - 1) as nat, key as int, hi_b, sn, 2 * sn));
            lemma_wf_bst(o, sn, h, lo, hi, mn, 2 * sn);
        }
        let mut right = self.pivots.remove(i + 1);
        let mut left = self.pivots.remove(i);
        let ghost a = left;
        let ghost b = right;
        let donated = match left.remove_most_leftright(s, false, false, Ghost((h - 1) as nat), Ghost(lo_a), Ghost(key as int), Ghost(sn)) {
            Some(keyval) => Some(keyval),
            None => right.remove_most_leftright(s, true, false, Ghost((h - 1) as nat), Ghost(key as int), Ghost(hi_b), Ghost(sn)),
        };
        match donated {
            Some(keyval) => {
                let replacement = KeyVal::new(keyval.key, keyval.value);
                self.keys.set(i, keyval);
                self.pivots.insert(i, left);
                self.pivots.insert(i + 1, right);
                proof {
                    if content(left) != content(a) {
                        lemma_widen(right, sn, (h - 1) as nat, key as int, hi_b, sn, 2 * sn, keyval.key as int, hi_b);
                        lemma_wf_bst(left, sn, (h - 1) as nat, lo_a, keyval.key as int, sn, 2 * sn);
                        lemma_donate(a, b, left, right, o.keys@[i as int], keyval, true, (h - 1) as nat, lo_a, hi_b);
                    } else {
                        lemma_widen(left, sn, (h - 1) as nat, lo_a, key as int, sn, 2 * sn, lo_a, keyval.key as int);
                        lemma_wf_bst(right, sn, (h - 1) as nat, keyval.key as int, hi_b, sn, 2 * sn);
                        lemma_donate(a, b, left, right, o.keys@[i as int], keyval, false, (h - 1) as nat, lo_a, hi_b);
                    }
                    assert(self.pivots@ =~= o.pivots@.update(i as int, left).update(i + 1, right));
                    lemma_parent_pair(o, *self, sn, h, lo, hi, mn, i as int, left, keyval, right, sn, sn, true, key);
                }
                replacement
            },
            None => {
                let remove_from_left = i % 2 == 0;
                if remove_from_left {
                    let keyval = left.remove_most_leftright(s, false, true, Ghost((h - 1) as nat), Ghost(lo_a), Ghost(key as int), Ghost(sn)).unwrap();
                    let replacement = KeyVal::new(keyval.key, keyval.value);
                    self.keys.set(i, keyval);
                    self.pivots.insert(i, left);
                    self.pivots.insert(i + 1, right);
                    proof {
                        lemma_widen(right, sn, (h - 1) as nat, key as int, hi_b, sn, 2 * sn, keyval.key as int, hi_b);
                        lemma_wf_bst(left, sn, (h - 1) as nat, lo_a, keyval.key as int, (sn - 1) as nat, 2 * sn);
                        lemma_donate(a, b, left, right, o.keys@[i as int], keyval, true, (h - 1) as nat, lo_a, hi_b);
                        assert(self.pivots@ =~= o.pivots@.update(i as int, left).update(i + 1, right));
                        lemma_parent_pair(o, *self, sn, h, lo, hi, mn, i as int, left, keyval, right, (sn - 1) as nat, sn, true, key);
                    }
                    self.rebalance(s, i, Ghost(h), Ghost(lo), Ghost(hi), Ghost(mn));
                    replacement
                } else {
                    let keyval = right.remove_most_leftright(s, true, true, Ghost((h - 1) as nat), Ghost(key as int), Ghost(hi_b), Ghost(sn)).unwrap();
                    let replacement = KeyVal::new(keyval.key, keyval.value);
                    self.keys.set(i, keyval);
                    self.pivots.insert(i, left);
                    self.pivots.insert(i + 1, right);
                    proof {
                        lemma_widen(left, sn, (h - 1) as nat, lo_a, key as int, sn, 2 * sn, lo_a, keyval.key as int);
                        lemma_wf_bst(right, sn, (h - 1) as nat, keyval.key as int, hi_b, (sn - 1) as nat, 2 * sn);
                        lemma_donate(a, b, left, right, o.keys@[i as int], keyval, false, (h - 1) as nat, lo_a, hi_b);
                        assert(self.pivots@ =~= o.pivots@.update(i as int, left).update(i + 1, right));
                        lemma_parent_pair(o, *self, sn, h, lo, hi, mn, i as int, left, keyval, right, sn, (sn - 1) as nat, true, key);
                    }
                    self.rebalance(s, i + 1, Ghost(h), Ghost(lo), Ghost(hi), Ghost(mn));
                    replacement
                }
            },
        }
    }

    /// Removes the smallest (`leftmost`) or largest entry of this subtree, found in its
    /// leftmost or rightmost leaf. Without `force` only a leaf with more than `s` entries gives
    /// one up; with `force` the leaf gives it up anyway and each node on the path is
    /// rebalanced on the way back up.
    pub fn remove_most_leftright(&mut self, s: usize, leftmost: bool, force: bool, Ghost(h): Ghost<nat>, Ghost(lo): Ghost<int>, Ghost(hi): Ghost<int>, Ghost(mn): Ghost<nat>) -> (r: Option<KeyVal<V>>)
        requires
            1 <= s <= MAX_ORDER,
            1 <= mn <= s,
            wf_in(*old(self), s as nat, h, lo, hi, mn, 2 * s as nat),
        ensures
            force ==> r is Some,
            r is None <==> !force && edge_leaf(*old(self), leftmost).keys@.len() <= s,
            r is None ==> *final(self) == *old(self),
            r matches Some(e) ==> e == edge_entry(*old(self), leftmost),
            final(self).keys@.len() + 1 >= old(self).keys@.len(),
            r is None ==> wf_in(*final(self), s as nat, h, lo, hi, mn, 2 * s as nat)
                && content(*final(self)) == content(*old(self)),
            match r {
                Some(e) => {
                    &&& lo < e.key < hi
                    &&& value_of(content(*old(self)), e.key) == Some(e.value)
                    &&& content(*final(self)) == content(*old(self)).remove(e.key)
                    &&& leftmost ==> wf_in(*final(self), s as nat, h, e.key as int, hi, if force { (mn - 1) as nat } else { mn }, 2 * s as nat)
                    &&& !leftmost ==> wf_in(*final(self), s as nat, h, lo, e.key as int, if force { (mn - 1) as nat } else { mn }, 2 * s as nat)
                },
                None => true,
            },
        decreases h,
    {
        let ghost o = *self;
        let ghost sn = s as nat;
        if !force && self.edge_len(leftmost) <= s {
            return None;
        }
        if !self.is_leaf {
            let i: usize = if leftmost { 0 } else { self.pivots.len() - 1 };
            let ghost lo_c = lo_of(o, i as int, lo);
            let ghost hi_c = hi_of(o, i as int, hi);
            proof {
                assert(wf_in(o.pivots@[i as int], sn, (h - 1) as nat, lo_c, hi_c, sn, 2 * sn));
            }
            let mut child = self.pivots.remove(i);
            let r = child.remove_most_leftright(s, leftmost, force, Ghost((h - 1) as nat), Ghost(lo_c), Ghost(hi_c), Ghost(sn));
            self.pivots.insert(i, child);
            proof {
                assert(self.pivots@ =~= o.pivots@.update(i as int, child));
                if r is None {
                    assert forall|j: int| 0 <= j < self.pivots@.len() implies wf_in(#[trigger] self.pivots@[j], sn, (h - 1) as nat, lo_of(*self, j, lo), hi_of(*self, j, hi), sn, 2 * sn) by {
                        if j != i {
                            assert(self.pivots@[j] == o.pivots@[j]);
                        }
                    }
                    assert forall|t: int| 0 <= t < o.pivots@.len() implies content(#[trigger] self.pivots@[t]) == content(o.pivots@[t]) by {
                        if t != i {
                            assert(self.pivots@[t] == o.pivots@[t]);
                        }
                    }
                    lemma_union_of_congruent(self.pivots@, o.pivots@, o.pivots@.len());
                } else {
                    let e = r.unwrap();
                    lemma_content_child(o, sn, h, lo, hi, mn, 2 * sn, i as int, e.key);
                    let nlo = if leftmost { e.key as int } else { lo };
                    let nhi = if leftmost { hi } else { e.key as int };
                    assert forall|j: int| 0 <= j < o.keys@.len() implies nlo < #[trigger] o.keys@[j].key < nhi by {
                        if leftmost {
                            assert(o.keys@[0].key <= o.keys@[j].key);
                        } else {
                            assert(o.keys@[j].key <= o.keys@[o.keys@.len() - 1].key);
                        }
                    }
                    let cmn = if force { (sn - 1) as nat } else { sn };
                    lemma_child_removed(o, *self, sn, h, lo, hi, mn, i as int, child, cmn, e.key, nlo, nhi);
                }
            }
            if force {
                let ghost e = r.unwrap();
                self.rebalance(s, i, Ghost(h), Ghost(if leftmost { e.key as int } else { lo }), Ghost(if leftmost { hi } else { e.key as int }), Ghost(mn));
            }
            r
        } else if self.keys.len() > s || force {
            let keyval = if leftmost {
                self.keys.remove(0)
            } else {
                self.keys.pop().unwrap()
            };
            proof {
                let c = o;
                if leftmost {
                    assert(self.keys@ =~= o.keys@.subrange(1, o.keys@.len() as int));
                } else {
                    assert(self.keys@ =~= o.keys@.subrange(0, o.keys@.len() - 1));
                }
                assert(edge(o, *self, keyval, c, leftmost));
                let m = if force { mn } else { o.keys@.len() };
                assert(wf_in(o, sn, h, lo, hi, m, 2 * sn));
                lemma_edge_split(o, *self, keyval, c, leftmost, sn, h, lo, hi, m, 2 * sn);
                lemma_content_entry(o, if leftmost { 0 } else { o.keys@.len() - 1 });
                if leftmost {
                    lemma_content_outside(*self, sn, h, keyval.key as int, hi, (m - 1) as nat, 2 * sn, keyval.key);
                } else {
                    lemma_content_outside(*self, sn, h, lo, keyval.key as int, (m - 1) as nat, 2 * sn, keyval.key);
                }
                assert(content(*self) =~= content(o).remove(keyval.key));
            }
            Some(keyval)
        } else {
            None
        }
    }

    /// Number of entries in the leftmost (`leftmost`) or rightmost leaf of this subtree.
    pub fn edge_len(&self, leftmost: bool) -> (r: usize)
        ensures
            r == edge_leaf(*self, leftmost).keys@.len(),
        decreases self,
    {
        if self.is_leaf || self.pivots.len() == 0 {
            self.keys.len()
        } else if leftmost {
            self.pivots[0].edge_len(leftmost)
        } else {
            self.pivots[self.pivots.len() - 1].edge_len(leftmost)
        }
    }

    /// Repairs child `i` after it may have dropped below `s` entries: borrows through this
    /// node from a sibling with more than `s` entries, or else merges with a sibling.
    pub fn rebalance(&mut self, s: usize, i: usize, Ghost(h): Ghost<nat>, Ghost(lo): Ghost<int>, Ghost(hi): Ghost<int>, Ghost(mn): Ghost<nat>)
        requires
            1 <= s <= MAX_ORDER,
            1 <= mn,
            wf_under(*old(self), s as nat, h, lo, hi, mn, 2 * s as nat, i as int),
        ensures
            wf_in(*final(self), s as nat, h, lo, hi, (mn - 1) as nat, 2 * s as nat),
            content(*final(self)) == content(*old(self)),
            old(self).pivots@[i as int].keys@.len() >= s ==> *final(self) == *old(self),
            ({
                let o = *old(self);
                let short = o.pivots@[i as int].keys@.len() < s;
                let rich_right = i < o.keys@.len() && o.pivots@[i + 1].keys@.len() > s;
                let rich_left = i > 0 && o.pivots@[i - 1].keys@.len() > s;
                &&& short && rich_right ==> rotated_left(o, *final(self), i as int)
                &&& short && !rich_right && rich_left ==> rotated_right(o, *final(self), i as int)
                &&& short && !rich_right && !rich_left && i < o.keys@.len() ==> merged(o, *final(self), i as int)
                &&& short && !rich_right && !rich_left && i == o.keys@.len() ==> merged(o, *final(self), i - 1)
            }),
            final(self).keys@.len() == old(self).keys@.len() || final(self).keys@.len() + 1 == old(self).keys@.len(),
    {
        let ghost o = *self;
        let ghost sn = s as nat;
        proof {
            lemma_under_bst(o, sn, h, lo, hi, mn, 2 * sn, i as int);
        }
        if self.pivots[i].keys.len() >= s {
            proof {
                lemma_under_ok(o, sn, h, lo, hi, mn, 2 * sn, i as int);
            }
            return;
        }
        if i < self.keys.len() && self.pivots[i + 1].keys.len() > s {
            self.rotate_left(s, i, Ghost(h), Ghost(lo), Ghost(hi), Ghost(mn));
        } else if i != 0 && self.pivots[i - 1].keys.len() > s {
            self.rotate_right(s, i, Ghost(h), Ghost(lo), Ghost(hi), Ghost(mn));
        } else if i < self.keys.len() {
            self.merge(s, i, Ghost(h), Ghost(lo), Ghost(hi), Ghost(mn), Ghost(i as int));
        } else {
            self.merge(s, i - 1, Ghost(h), Ghost(lo), Ghost(hi), Ghost(mn), Ghost(i as int));
        }
    }

    /// Moves the entry after child `i` down into it and the first entry of child `i + 1` up
    /// in its place.
    fn rotate_left(&mut self, s: usize, i: usize, Ghost(h): Ghost<nat>, Ghost(lo): Ghost<int>, Ghost(hi): Ghost<int>, Ghost(mn): Ghost<nat>)
        requires
            1 <= s <= MAX_ORDER,
            1 <= mn,
            wf_under(*old(self), s as nat, h, lo, hi, mn, 2 * s as nat, i as int),
            old(self).pivots@[i as int].keys@.len() < s,
            i < old(self).keys@.len(),
            old(self).pivots@[i + 1].keys@.len() > s,
        ensures
            wf_in(*final(self), s as nat, h, lo, hi, mn, 2 * s as nat),
            content(*final(self)) == content(*old(self)),
            rotated_left(*old(self), *final(self), i as int),
    {
        let ghost o = *self;
        let ghost sn = s as nat;
        proof {
            lemma_under_bst(o, sn, h, lo, hi, mn, 2 * sn, i as int);
        }
        let mut right = self.pivots.remove(i + 1);
        let mut left = self.pivots.remove(i);
        let ghost a = left;
        let ghost b = right;
        let ghost c = b.pivots@[0];
        let kv = KeyVal::new(self.keys[i].key, self.keys[i].value);
        left.keys.push(kv);
        let first = right.keys.remove(0);
        if !left.is_leaf {
            let child = right.pivots.remove(0);
            left.pivots.push(child);
        }
        self.keys.set(i, first);
        self.pivots.insert(i, left);
        self.pivots.insert(i + 1, right);
        proof {
            let lo_a = lo_of(o, i as int, lo);
            let hi_b = hi_of(o, i + 1, hi);
            assert(wf_in(a, sn, (h - 1) as nat, lo_a, kv.key as int, (sn - 1) as nat, 2 * sn));
            assert(wf_in(b, sn, (h - 1) as nat, kv.key as int, hi_b, sn, 2 * sn));
            assert(wf_in(b, sn, (h - 1) as nat, kv.key as int, hi_b, b.keys@.len(), 2 * sn));
            assert(right.keys@ =~= b.keys@.subrange(1, b.keys@.len() as int));
            if !b.is_leaf {
                assert(right.pivots@ =~= b.pivots@.subrange(1, b.pivots@.len() as int));
            }
            assert(edge(b, right, first, c, true));
            lemma_edge_split(b, right, first, c, true, sn, (h - 1) as nat, kv.key as int, hi_b, b.keys@.len(), 2 * sn);
            assert(left.keys@.subrange(0, left.keys@.len() - 1) =~= a.keys@);
            if !a.is_leaf {
                assert(left.pivots@.subrange(0, left.pivots@.len() - 1) =~= a.pivots@);
            }
            assert(edge(left, a, kv, c, false));
            lemma_edge_join(left, a, kv, c, false, sn, (h - 1) as nat, lo_a, first.key as int, (sn - 1) as nat, 2 * sn);
            assert(wf_in(left, sn, (h - 1) as nat, lo_a, first.key as int, sn, 2 * sn));
            lemma_wf_bst(a, sn, (h - 1) as nat, lo_a, kv.key as int, (sn - 1) as nat, 2 * sn);
            lemma_wf_bst(right, sn, (h - 1) as nat, first.key as int, hi_b, (b.keys@.len() - 1) as nat, 2 * sn);
            if !a.is_leaf {
                lemma_wf_bst(c, sn, (h - 2) as nat, kv.key as int, first.key as int, sn, 2 * sn);
            }
            lemma_rotate(a, kv, c, first, right, a.is_leaf, (h - 1) as nat, lo_a, hi_b);
            assert(self.pivots@ =~= o.pivots@.update(i as int, left).update(i + 1, right));
            lemma_parent_pair(o, *self, sn, h, lo, hi, mn, i as int, left, first, right, sn, sn, false, kv.key);
        }
    }

    /// Moves the entry before child `i` down into it and the last entry of child `i - 1` up
    /// in its place.
    fn rotate_right(&mut self, s: usize, i: usize, Ghost(h): Ghost<nat>, Ghost(lo): Ghost<int>, Ghost(hi): Ghost<int>, Ghost(mn): Ghost<nat>)
        requires
            1 <= s <= MAX_ORDER,
            1 <= mn,
            wf_under(*old(self), s as nat, h, lo, hi, mn, 2 * s as nat, i as int),
            old(self).pivots@[i as int].keys@.len() < s,
            1 <= i,
            old(self).pivots@[i - 1].keys@.len() > s,
        ensures
            wf_in(*final(self), s as nat, h, lo, hi, mn, 2 * s as nat),
            content(*final(self)) == content(*old(self)),
            rotated_right(*old(self), *final(self), i as int),
    {
        let ghost o = *self;
        let ghost sn = s as nat;
        proof {
            lemma_under_bst(o, sn, h, lo, hi, mn, 2 * sn, i as int);
        }
        let mut right = self.pivots.remove(i);
        let mut left = self.pivots.remove(i - 1);
        let ghost a = left;
        let ghost b = right;
        let ghost c = a.pivots@.last();
        let kv = KeyVal::new(self.keys[i - 1].key, self.keys[i - 1].value);
        right.keys.insert(0, kv);
        let last = left.keys.pop().unwrap();
        if !right.is_leaf {
            let child = left.pivots.pop().unwrap();
            right.pivots.insert(0, child);
        }
        self.keys.set(i - 1, last);
        self.pivots.insert(i - 1, left);
        self.pivots.insert(i, right);
        proof {
            let j = i - 1;
            let lo_a = lo_of(o, j, lo);
            let hi_b = hi_of(o, i as int, hi);
            assert(wf_in(a, sn, (h - 1) as nat, lo_a, kv.key as int, sn, 2 * sn));
            assert(wf_in(a, sn, (h - 1) as nat, lo_a, kv.key as int, a.keys@.len(), 2 * sn));
            assert(wf_in(b, sn, (h - 1) as nat, kv.key as int, hi_b, (sn - 1) as nat, 2 * sn));
            assert(left.keys@ =~= a.keys@.subrange(0, a.keys@.len() - 1));
            if !a.is_leaf {
                assert(left.pivots@ =~= a.pivots@.subrange(0, a.pivots@.len() - 1));
            }
            assert(edge(a, left, last, c, false));
            lemma_edge_split(a, left, last, c, false, sn, (h - 1) as nat, lo_a, kv.key as int, a.keys@.len(), 2 * sn);
            assert(right.keys@.subrange(1, right.keys@.len() as int) =~= b.keys@);
            if !b.is_leaf {
                assert(right.pivots@.subrange(1, right.pivots@.len() as int) =~= b.pivots@);
            }
            assert(edge(right, b, kv, c, true));
            lemma_edge_join(right, b, kv, c, true, sn, (h - 1) as nat, last.key as int, hi_b, (sn - 1) as nat, 2 * sn);
            assert(wf_in(right, sn, (h - 1) as nat, last.key as int, hi_b, sn, 2 * sn));
            lemma_wf_bst(left, sn, (h - 1) as nat, lo_a, last.key as int, (a.keys@.len() - 1) as nat, 2 * sn);
            lemma_wf_bst(b, sn, (h - 1) as nat, kv.key as int, hi_b, (sn - 1) as nat, 2 * sn);
            if !a.is_leaf {
                lemma_wf_bst(c, sn, (h - 2) as nat, last.key as int, kv.key as int, sn, 2 * sn);
            }
            lemma_rotate(left, last, c, kv, b, a.is_leaf, (h - 1) as nat, lo_a, hi_b);
            assert(self.pivots@ =~= o.pivots@.update(j, left).update(j + 1, right));
            lemma_parent_pair(o, *self, sn, h, lo, hi, mn, j, left, last, right, sn, sn, false, kv.key);
        }
    }

    /// Merges child `j`, the entry after it and child `j + 1` into child `j`.
    pub fn merge(&mut self, s: usize, j: usize, Ghost(h): Ghost<nat>, Ghost(lo): Ghost<int>, Ghost(hi): Ghost<int>, Ghost(mn): Ghost<nat>, Ghost(d): Ghost<int>)
        requires
            1 <= s <= MAX_ORDER,
            1 <= mn,
            d == j || d == j + 1,
            wf_under(*old(self), s as nat, h, lo, hi, mn, 2 * s as nat, d),
            j < old(self).keys@.len(),
            old(self).pivots@[j as int].keys@.len() + old(self).pivots@[j + 1].keys@.len() == 2 * s - 1,
        ensures
            wf_in(*final(self), s as nat, h, lo, hi, (mn - 1) as nat, 2 * s as nat),
            content(*final(self)) == content(*old(self)),
            merged(*old(self), *final(self), j as int),
    {
        let ghost o = *self;
        let ghost sn = s as nat;
        let kv = self.keys.remove(j);
        let mut right = self.pivots.remove(j + 1);
        let mut left = self.pivots.remove(j);
        let ghost a = left;
        let ghost b = right;
        left.keys.push(kv);
        left.keys.append(&mut right.keys);
        if !left.is_leaf {
            left.pivots.append(&mut right.pivots);
        }
        self.pivots.insert(j, left);
        proof {
            let lo_a = lo_of(o, j as int, lo);
            let hi_b = hi_of(o, j + 1, hi);
            lemma_under_bst(o, sn, h, lo, hi, mn, 2 * sn, d);
            let amn = if d == j { (sn - 1) as nat } else { sn };
            let bmn = if d == j { sn } else { (sn - 1) as nat };
            assert(wf_in(a, sn, (h - 1) as nat, lo_a, kv.key as int, amn, 2 * sn));
            assert(wf_in(b, sn, (h - 1) as nat, kv.key as int, hi_b, bmn, 2 * sn));
            lemma_join_wf(left, a, kv, b, sn, (h - 1) as nat, lo_a, hi_b, amn, bmn, a.keys@.len() as int);
            assert(wf_in(left, sn, (h - 1) as nat, lo_a, hi_b, sn, 2 * sn));
            lemma_wf_bst(left, sn, (h - 1) as nat, lo_a, hi_b, sn, 2 * sn);
            lemma_wf_bst(a, sn, (h - 1) as nat, lo_a, kv.key as int, amn, 2 * sn);
            lemma_wf_bst(b, sn, (h - 1) as nat, kv.key as int, hi_b, bmn, 2 * sn);
            lemma_join_content(left, a, kv, b, (h - 1) as nat, lo_a, hi_b, a.keys@.len() as int);
            assert(self.pivots@ =~= o.pivots@.remove(j + 1).update(j as int, left));
            lemma_parent_merge(o, *self, sn, h, lo, hi, mn, j as int, left);
        }
    }

    /// Inserts `key` with `value` into this subtree, or overwrites the value of an existing
    /// `key`, and returns the previous value. A node that overflows splits and hands its
    /// median and new right sibling back.
    pub fn upsert(&mut self, s: usize, key: u64, value: V, Ghost(h): Ghost<nat>, Ghost(lo): Ghost<int>, Ghost(hi): Ghost<int>, Ghost(mn): Ghost<nat>) -> (r: (SplitPropagation<V>, Option<V>))
        requires
            1 <= s <= MAX_ORDER,
            mn <= s,
            wf_in(*old(self), s as nat, h, lo, hi, mn, 2 * s as nat),
            lo < key < hi,
        ensures
            r.1 == value_of(content(*old(self)), key),
            r.0 is Some ==> r.1 is None && old(self).keys@.len() == 2 * s,
            r.1 is Some ==> r.0 is None,
            match r.0 {
                None => {
                    &&& wf_in(*final(self), s as nat, h, lo, hi, mn, 2 * s as nat)
                    &&& content(*final(self)) == content(*old(self)).insert(key, value)
                },
                Some((m, right)) => {
                    &&& lo < m.key < hi
                    &&& wf_in(*final(self), s as nat, h, lo, m.key as int, s as nat, 2 * s as nat)
                    &&& wf_in(right, s as nat, h, m.key as int, hi, s as nat, 2 * s as nat)
                    &&& content(*old(self)).insert(key, value) == content(*final(self)).union_prefer_right(content(right)).insert(m.key, m.value)
                },
            },
        decreases h,
    {
        let ghost o = *self;
        match self.find_index(key) {
            Ok(i) => {
                let old_value = self.keys[i].value;
                self.keys[i] = KeyVal::new(key, value);
                proof {
                    lemma_content_entry(o, i as int);
                    lemma_update_entry(o, *self, s as nat, h, lo, hi, mn, 2 * s as nat, i as int, KeyVal { key, value });
                }
                (None, Some(old_value))
            },
            Err(i) => {
                if self.is_leaf {
                    self.keys.insert(i, KeyVal::new(key, value));
                    proof {
                        lemma_content_leaf(o, key);
                        lemma_leaf_insert(o, *self, s as nat, lo, hi, mn, i as int, KeyVal { key, value });
                    }
                    let parent_insertion = self.split(s, Ghost(h), Ghost(lo), Ghost(hi), Ghost(mn));
                    (parent_insertion, None)
                } else {
                    proof {
                        lemma_content_child(o, s as nat, h, lo, hi, mn, 2 * s as nat, i as int, key);
                        assert(wf_in(o.pivots@[i as int], s as nat, (h - 1) as nat, lo_of(o, i as int, lo), hi_of(o, i as int, hi), s as nat, 2 * s as nat));
                    }
                    let mut child = self.pivots.remove(i);
                    let (new_node, old_value) = child.upsert(s, key, value, Ghost((h - 1) as nat), Ghost(lo_of(o, i as int, lo)), Ghost(hi_of(o, i as int, hi)), Ghost(s as nat));
                    self.pivots.insert(i, child);
                    match new_node {
                        Some((keyval, node)) => {
                            self.keys.insert(i, keyval);
                            self.pivots.insert(i + 1, node);
                            proof {
                                assert(self.pivots@ =~= o.pivots@.update(i as int, child).insert(i + 1, node));
                                lemma_child_split(o, *self, s as nat, h, lo, hi, mn, i as int, child, keyval, node, key, value);
                            }
                            let parent_insertion = self.split(s, Ghost(h), Ghost(lo), Ghost(hi), Ghost(mn));
                            (parent_insertion, old_value)
                        },
                        None => {
                            proof {
                                assert(self.pivots@ =~= o.pivots@.update(i as int, child));
                                lemma_child_replaced(o, *self, s as nat, h, lo, hi, mn, i as int, child, key, value);
                            }
                            (None, old_value)
                        },
                    }
                }
            },
        }
    }

    /// Splits a node that holds `2 * s + 1` entries: the upper `s` entries move to a new right
    /// sibling and the median is handed back; a node with fewer entries is left as it is.
    pub fn split(&mut self, s: usize, Ghost(h): Ghost<nat>, Ghost(lo): Ghost<int>, Ghost(hi): Ghost<int>, Ghost(mn): Ghost<nat>) -> (r: SplitPropagation<V>)
        requires
            1 <= s <= MAX_ORDER,
            mn <= s,
            wf_in(*old(self), s as nat, h, lo, hi, mn, 2 * s as nat + 1),
        ensures
            match r {
                None => *final(self) == *old(self) && old(self).keys@.len() <= 2 * s,
                Some((m, right)) => {
                    &&& old(self).keys@.len() == 2 * s + 1
                    &&& final(self).is_leaf == old(self).is_leaf
                    &&& right.is_leaf == old(self).is_leaf
                    &&& final(self).keys@ == old(self).keys@.subrange(0, s as int)
                    &&& m == old(self).keys@[s as int]
                    &&& right.keys@ == old(self).keys@.subrange(s + 1, 2 * s + 1)
                    &&& old(self).is_leaf ==> final(self).pivots@.len() == 0 && right.pivots@.len() == 0
                    &&& !old(self).is_leaf ==> final(self).pivots@ == old(self).pivots@.subrange(0, s + 1)
                        && right.pivots@ == old(self).pivots@.subrange(s + 1, 2 * s + 2)
                    &&& lo < m.key < hi
                    &&& wf_in(*final(self), s as nat, h, lo, m.key as int, s as nat, 2 * s as nat)
                    &&& wf_in(right, s as nat, h, m.key as int, hi, s as nat, 2 * s as nat)
                    &&& content(*old(self)) == content(*final(self)).union_prefer_right(content(right)).insert(m.key, m.value)
                },
            },
    {
        if self.keys.len() == 2 * s + 1 {
            let ghost o = *self;
            let mut right_keys = self.keys.split_off(s);
            let m = right_keys.remove(0);
            let right_pivots = if !self.is_leaf {
                self.pivots.split_off(s + 1)
            } else {
                Vec::new()
            };
            let right = Node { is_leaf: self.is_leaf, keys: right_keys, pivots: right_pivots };
            proof {
                assert(right.keys@ =~= o.keys@.subrange(s + 1 as int, 2 * s + 1 as int));
                lemma_split(o, *self, right, m, s as nat, h, lo, hi, mn);
            }
            Some((m, right))
        } else {
            None
        }
    }

    /// Number of entries in this subtree.
    pub fn size(&self) -> (r: usize)
        requires
            count(*self) <= usize::MAX,
        ensures
            r == count(*self),
        decreases self,
    {
        let mut size: usize = self.keys.len();
        let mut i: usize = 0;
        while i < self.pivots.len()
            invariant
                i <= self.pivots@.len(),
                count(*self) <= usize::MAX,
                size == self.keys@.len() + count_of(self.pivots@, i as nat),
            decreases self.pivots@.len() - i,
        {
            proof {
                lemma_count_of_mono(self.pivots@, (i + 1) as nat, self.pivots@.len());
                assert(count_of(self.pivots@, (i + 1) as nat) == count_of(self.pivots@, i as nat) + count(self.pivots@[i as int]));
            }
            let c = self.pivots[i].size();
            size = size + c;
            i = i + 1;
        }
        size
    }

    /// Whether this subtree meets the invariants: order `s`, height `h`, keys strictly between
    /// `lo` and `hi`, and between `mn` and `mx` entries in this node.
    pub fn is_valid(&self, s: usize, h: usize, lo: Option<u64>, hi: Option<u64>, mn: usize, mx: usize) -> (r: bool)
        requires
            s <= MAX_ORDER,
        ensures
            r == wf_in(*self, s as nat, h as nat, lower(lo), upper(hi), mn as nat, mx as nat),
        decreases self,
    {
        if h == 0 {
            return false;
        }
        let n = self.keys.len();
        if n < mn || n > mx || self.is_leaf != (h == 1) {
            return false;
        }
        let mut j: usize = 0;
        while j < n
            invariant
                n == self.keys@.len(),
                j <= n,
                forall|a: int, b: int| 0 <= a < b < j ==> self.keys@[a].key < self.keys@[b].key,
                forall|t: int| 0 <= t < j ==> lower(lo) < #[trigger] self.keys@[t].key < upper(hi),
            decreases n - j,
        {
            let k = self.keys[j].key;
            match lo {
                Some(l) => {
                    if k <= l {
                        return false;
                    }
                },
                None => {},
            }
            match hi {
                Some(u) => {
                    if k >= u {
                        return false;
                    }
                },
                None => {},
            }
            if j > 0 && self.keys[j - 1].key >= k {
                return false;
            }
            j = j + 1;
        }
        if self.is_leaf {
            return self.pivots.len() == 0;
        }
        let np = self.pivots.len();
        if np == 0 || np - 1 != n {
            return false;
        }
        let mut c: usize = 0;
        while c < np
            invariant
                s <= MAX_ORDER,
                np == n + 1,
                n == self.keys@.len(),
                self.pivots@.len() == n + 1,
                h >= 2,
                c <= n + 1,
                sorted(self.keys@),
                forall|t: int|
                    0 <= t < c ==> wf_in(
                        #[trigger] self.pivots@[t],
                        s as nat,
                        (h - 1) as nat,
                        lo_of(*self, t, lower(lo)),
                        hi_of(*self, t, upper(hi)),
                        s as nat,
                        2 * s as nat,
                    ),
            decreases n + 1 - c,
        {
            let clo = if c == 0 { lo } else { Some(self.keys[c - 1].key) };
            let chi = if c == n { hi } else { Some(self.keys[c].key) };
            if !self.pivots[c].is_valid(s, h - 1, clo, chi, s, 2 * s) {
                return false;
            }
            c = c + 1;
        }
        true
    }

    /// Number of entries in this subtree, or `None` where it exceeds `usize::MAX`.
    pub fn checked_size(&self) -> (r: Option<usize>)
        ensures
            match r {
                Some(x) => x == count(*self),
                None => count(*self) > usize::MAX,
            },
        decreases self,
    {
        let mut size: usize = self.keys.len();
        let mut i: usize = 0;
        while i < self.pivots.len()
            invariant
                i <= self.pivots@.len(),
                size == self.keys@.len() + count_of(self.pivots@, i as nat),
            decreases self.pivots@.len() - i,
        {
            proof {
                lemma_count_of_mono(self.pivots@, (i + 1) as nat, self.pivots@.len());
                assert(count_of(self.pivots@, (i + 1) as nat) == count_of(self.pivots@, i as nat) + count(self.pivots@[i as int]));
            }
            match self.pivots[i].checked_size() {
                Some(c) => {
                    match size.checked_add(c) {
                        Some(t) => {
                            size = t;
                        },
                        None => {
                            return None;
                        },
                    }
                },
                None => {
                    return None;
                },
            }
            i = i + 1;
        }
        Some(size)
    }

    /// Number of levels along the leftmost path, or `None` where it exceeds `usize::MAX`.
    pub fn checked_level(&self) -> (r: Option<usize>)
        ensures
            match r {
                Some(x) => x == height(*self),
                None => height(*self) > usize::MAX,
            },
        decreases self,
    {
        if self.is_leaf || self.pivots.len() == 0 {
            Some(1)
        } else {
            match self.pivots[0].checked_level() {
                Some(d) => d.checked_add(1),
                None => None,
            }
        }
    }

    /// `level` plus the number of levels from this node down to a leaf.
    pub fn level(&self, level: usize) -> (r: usize)
        requires
            level + height(*self) <= usize::MAX,
        ensures
            r == level + height(*self),
        decreases self,
    {
        if self.is_leaf || self.pivots.len() == 0 {
            level + 1
        } else {
            self.pivots[0].level(level + 1)
        }
    }

    /// The value stored under `key` in this subtree.
    pub fn lookup(&self, key: u64, Ghost(s): Ghost<nat>, Ghost(h): Ghost<nat>, Ghost(lo): Ghost<int>, Ghost(hi): Ghost<int>, Ghost(mn): Ghost<nat>, Ghost(mx): Ghost<nat>) -> (res: Option<V>)
        requires
            wf_in(*self, s, h, lo, hi, mn, mx),
            lo < key < hi,
        ensures
            res == value_of(content(*self), key),
        decreases self,
    {
        proof {
            lemma_entries_map(self.keys@);
        }
        match self.find_index(key) {
            Ok(i) => Some(self.keys[i].value),
            Err(i) => {
                if self.is_leaf {
                    assert(!entries_map(self.keys@).contains_key(key));
                    None
                } else {
                    proof {
                        lemma_content_child(*self, s, h, lo, hi, mn, mx, i as int, key);
                    }
                    self.pivots[i].lookup(key, Ghost(s), Ghost((h - 1) as nat), Ghost(lo_of(*self, i as int, lo)), Ghost(hi_of(*self, i as int, hi)), Ghost(s), Ghost(2 * s))
                }
            },
        }
    }
}

} // verus!
