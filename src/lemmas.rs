//! Proofs about nodes: where keys lie, what a node stores, and how splits, merges,
//! rotations and removals change both.
use vstd::prelude::*;
use crate::node::{
    KeyVal, Node, bst, content, count, count_of, edge, edge_content, entries_map, height, hi_of,
    joined, lo_of, others_wf, parts, pred, sorted, union_of, value_of, wf_in, wf_under,
};

verus! {

/// The entries of a sorted sequence are exactly its pairs.
pub proof fn lemma_entries_map<V>(es: Seq<KeyVal<V>>)
    requires
        sorted(es),
    ensures
        forall|j: int|
            0 <= j < es.len() ==> #[trigger] entries_map(es).contains_key(es[j].key)
                && entries_map(es)[es[j].key] == es[j].value,
        forall|k: u64|
            #[trigger] entries_map(es).contains_key(k) ==> exists|j: int|
                0 <= j < es.len() && es[j].key == k,
    decreases es.len(),
{
    if es.len() > 0 {
        let d = es.drop_last();
        assert(d.len() == es.len() - 1);
        assert(forall|j: int| 0 <= j < d.len() ==> #[trigger] d[j] == es[j]);
        assert(entries_map(es) == entries_map(d).insert(es.last().key, es.last().value));
        assert(sorted(d));
        lemma_entries_map(d);
        assert forall|j: int| 0 <= j < es.len() implies #[trigger] entries_map(es).contains_key(es[j].key)
            && entries_map(es)[es[j].key] == es[j].value by {
            if j < es.len() - 1 {
                assert(es[j] == d[j]);
                assert(es[j].key < es[es.len() - 1].key);
            }
        }
        assert forall|k: u64| #[trigger] entries_map(es).contains_key(k) implies exists|j: int|
            0 <= j < es.len() && es[j].key == k by {
            if k != es.last().key {
                assert(entries_map(d).contains_key(k));
                let j = choose|j: int| 0 <= j < d.len() && d[j].key == k;
                assert(es[j] == d[j]);
            } else {
                assert(es[es.len() - 1].key == k);
            }
        }
    }
}

/// A key in none of the first `j` subtrees is not in their union.
pub proof fn lemma_union_of_out<V>(cs: Seq<Node<V>>, j: nat, k: u64)
    requires
        j <= cs.len(),
        forall|c: int| 0 <= c < j ==> !(#[trigger] content(cs[c])).contains_key(k),
    ensures
        !union_of(cs, j).contains_key(k),
    decreases j,
{
    if j > 0 {
        lemma_union_of_out(cs, (j - 1) as nat, k);
        assert(!content(cs[j - 1]).contains_key(k));
        assert(union_of(cs, j) == union_of(cs, (j - 1) as nat).union_prefer_right(content(cs[j - 1])));
    }
}

/// A key in subtree `c` and in none after it has that subtree's value in the union.
pub proof fn lemma_union_of_in<V>(cs: Seq<Node<V>>, j: nat, c: int, k: u64)
    requires
        j <= cs.len(),
        0 <= c < j,
        content(cs[c]).contains_key(k),
        forall|d: int| c < d < j ==> !(#[trigger] content(cs[d])).contains_key(k),
    ensures
        union_of(cs, j).contains_key(k),
        union_of(cs, j)[k] == content(cs[c])[k],
    decreases j,
{
    assert(union_of(cs, j) == union_of(cs, (j - 1) as nat).union_prefer_right(content(cs[j - 1])));
    if c < j - 1 {
        lemma_union_of_in(cs, (j - 1) as nat, c, k);
        assert(!content(cs[j - 1]).contains_key(k));
    }
}

/// A key in the union of the first `j` subtrees is in one of them.
pub proof fn lemma_union_of_dom<V>(cs: Seq<Node<V>>, j: nat, k: u64)
    requires
        j <= cs.len(),
        union_of(cs, j).contains_key(k),
    ensures
        exists|c: int| 0 <= c < j && (#[trigger] content(cs[c])).contains_key(k),
    decreases j,
{
    if !content(cs[j - 1]).contains_key(k) {
        lemma_union_of_dom(cs, (j - 1) as nat, k);
    }
}

/// A well-formed node has the search-tree shape.
pub proof fn lemma_wf_bst<V>(n: Node<V>, s: nat, h: nat, lo: int, hi: int, mn: nat, mx: nat)
    requires
        wf_in(n, s, h, lo, hi, mn, mx),
    ensures
        bst(n, h, lo, hi),
    decreases n,
{
    if !n.is_leaf {
        assert forall|j: int| 0 <= j < n.pivots@.len() implies bst(#[trigger] n.pivots@[j], (h - 1) as nat, lo_of(n, j, lo), hi_of(n, j, hi)) by {
            lemma_wf_bst(n.pivots@[j], s, (h - 1) as nat, lo_of(n, j, lo), hi_of(n, j, hi), s, 2 * s);
        }
    }
}

/// A node with one under-full child has the search-tree shape.
pub proof fn lemma_under_bst<V>(n: Node<V>, s: nat, h: nat, lo: int, hi: int, mn: nat, mx: nat, i: int)
    requires
        wf_under(n, s, h, lo, hi, mn, mx, i),
    ensures
        bst(n, h, lo, hi),
{
    assert forall|j: int| 0 <= j < n.pivots@.len() implies bst(#[trigger] n.pivots@[j], (h - 1) as nat, lo_of(n, j, lo), hi_of(n, j, hi)) by {
        if j == i {
            lemma_wf_bst(n.pivots@[j], s, (h - 1) as nat, lo_of(n, j, lo), hi_of(n, j, hi), (s - 1) as nat, 2 * s);
        } else {
            lemma_wf_bst(n.pivots@[j], s, (h - 1) as nat, lo_of(n, j, lo), hi_of(n, j, hi), s, 2 * s);
        }
    }
}

/// Every key stored under a search tree lies strictly between its bounds.
pub proof fn lemma_bst_bounds<V>(n: Node<V>, h: nat, lo: int, hi: int, k: u64)
    requires
        bst(n, h, lo, hi),
        content(n).contains_key(k),
    ensures
        lo < k < hi,
    decreases n,
{
    lemma_entries_map(n.keys@);
    if !entries_map(n.keys@).contains_key(k) {
        lemma_union_of_dom(n.pivots@, n.pivots@.len(), k);
        let c = choose|c: int| 0 <= c < n.pivots@.len() && (#[trigger] content(n.pivots@[c])).contains_key(k);
        lemma_bst_bounds(n.pivots@[c], (h - 1) as nat, lo_of(n, c, lo), hi_of(n, c, hi), k);
    }
}

/// Every key stored under a well-formed node lies strictly between its bounds.
pub proof fn lemma_content_bounds<V>(n: Node<V>, s: nat, h: nat, lo: int, hi: int, mn: nat, mx: nat, k: u64)
    requires
        wf_in(n, s, h, lo, hi, mn, mx),
        content(n).contains_key(k),
    ensures
        lo < k < hi,
{
    lemma_wf_bst(n, s, h, lo, hi, mn, mx);
    lemma_bst_bounds(n, h, lo, hi, k);
}

/// For a key between the entries `i - 1` and `i` of an internal node, the node's content
/// at that key is that of child `i`.
pub proof fn lemma_content_child<V>(n: Node<V>, s: nat, h: nat, lo: int, hi: int, mn: nat, mx: nat, i: int, k: u64)
    requires
        wf_in(n, s, h, lo, hi, mn, mx),
        !n.is_leaf,
        0 <= i < n.pivots@.len(),
        lo_of(n, i, lo) < k < hi_of(n, i, hi),
    ensures
        value_of(content(n), k) == value_of(content(n.pivots@[i]), k),
{
    lemma_wf_bst(n, s, h, lo, hi, mn, mx);
    lemma_bst_child(n, h, lo, hi, i, k);
}

/// For a key between the entries `i - 1` and `i` of an internal search-tree node, the node's
/// content at that key is that of child `i`.
pub proof fn lemma_bst_child<V>(n: Node<V>, h: nat, lo: int, hi: int, i: int, k: u64)
    requires
        bst(n, h, lo, hi),
        !n.is_leaf,
        0 <= i < n.pivots@.len(),
        lo_of(n, i, lo) < k < hi_of(n, i, hi),
    ensures
        value_of(content(n), k) == value_of(content(n.pivots@[i]), k),
{
    lemma_entries_map(n.keys@);
    assert(!entries_map(n.keys@).contains_key(k)) by {
        if entries_map(n.keys@).contains_key(k) {
            let j = choose|j: int| 0 <= j < n.keys@.len() && n.keys@[j].key == k;
            if j < i {
                assert(n.keys@[j].key <= n.keys@[i - 1].key);
            } else {
                assert(n.keys@[i].key <= n.keys@[j].key);
            }
        }
    }
    assert forall|d: int| 0 <= d < n.pivots@.len() && d != i implies !(#[trigger] content(n.pivots@[d])).contains_key(k) by {
        if content(n.pivots@[d]).contains_key(k) {
            lemma_bst_bounds(n.pivots@[d], (h - 1) as nat, lo_of(n, d, lo), hi_of(n, d, hi), k);
            if d < i {
                assert(n.keys@[d].key <= n.keys@[i - 1].key);
            } else {
                assert(n.keys@[i].key <= n.keys@[d - 1].key);
            }
        }
    }
    if content(n.pivots@[i]).contains_key(k) {
        lemma_union_of_in(n.pivots@, n.pivots@.len(), i, k);
    } else {
        lemma_union_of_out(n.pivots@, n.pivots@.len(), k);
    }
}

/// The leftmost path of a well-formed node has the node's height.
pub proof fn lemma_height<V>(n: Node<V>, s: nat, h: nat, lo: int, hi: int, mn: nat, mx: nat)
    requires
        wf_in(n, s, h, lo, hi, mn, mx),
    ensures
        height(n) == h,
    decreases n,
{
    if !n.is_leaf {
        lemma_height(n.pivots@[0], s, (h - 1) as nat, lo_of(n, 0, lo), hi_of(n, 0, hi), s, 2 * s);
    }
}

/// Two maps that agree at every key are equal.
pub proof fn lemma_ext<V>(a: Map<u64, V>, b: Map<u64, V>)
    requires
        forall|k: u64| #[trigger] value_of(a, k) == value_of(b, k),
    ensures
        a == b,
{
    assert forall|k: u64| a.contains_key(k) == b.contains_key(k) by {
        assert(value_of(a, k) == value_of(b, k));
    }
    assert forall|k: u64| a.contains_key(k) implies a[k] == b[k] by {
        assert(value_of(a, k) == value_of(b, k));
    }
    assert(a =~= b);
}

/// The content of a node at one of its own keys is that entry's value.
pub proof fn lemma_content_entry<V>(n: Node<V>, j: int)
    requires
        sorted(n.keys@),
        0 <= j < n.keys@.len(),
    ensures
        value_of(content(n), n.keys@[j].key) == Some(n.keys@[j].value),
{
    lemma_entries_map(n.keys@);
}

/// A key that is no entry of a leaf is not stored there.
pub proof fn lemma_content_leaf<V>(n: Node<V>, k: u64)
    requires
        sorted(n.keys@),
        n.pivots@.len() == 0,
        forall|j: int| 0 <= j < n.keys@.len() ==> #[trigger] n.keys@[j].key != k,
    ensures
        value_of(content(n), k) == None::<V>,
{
    lemma_entries_map(n.keys@);
}

/// Searching from entry `j` on, a key that is no entry falls between two neighbours.
pub proof fn lemma_slot_from<V>(n: Node<V>, lo: int, hi: int, k: u64, j: int)
    requires
        sorted(n.keys@),
        forall|t: int| 0 <= t < n.keys@.len() ==> lo < #[trigger] n.keys@[t].key < hi,
        lo < k < hi,
        forall|t: int| 0 <= t < n.keys@.len() ==> #[trigger] n.keys@[t].key != k,
        0 <= j <= n.keys@.len(),
        forall|t: int| 0 <= t < j ==> #[trigger] n.keys@[t].key < k,
    ensures
        exists|i: int| 0 <= i <= n.keys@.len() && #[trigger] lo_of(n, i, lo) < k < hi_of(n, i, hi),
    decreases n.keys@.len() - j,
{
    if j == n.keys@.len() {
        assert(lo_of(n, j, lo) < k < hi_of(n, j, hi));
    } else if k < n.keys@[j].key {
        assert(lo_of(n, j, lo) < k < hi_of(n, j, hi));
    } else {
        lemma_slot_from(n, lo, hi, k, j + 1);
    }
}

/// A key between the bounds that is no entry of the node falls between two neighbouring entries.
pub proof fn lemma_slot<V>(n: Node<V>, lo: int, hi: int, k: u64)
    requires
        sorted(n.keys@),
        forall|t: int| 0 <= t < n.keys@.len() ==> lo < #[trigger] n.keys@[t].key < hi,
        lo < k < hi,
        forall|t: int| 0 <= t < n.keys@.len() ==> #[trigger] n.keys@[t].key != k,
    ensures
        exists|i: int| 0 <= i <= n.keys@.len() && #[trigger] lo_of(n, i, lo) < k < hi_of(n, i, hi),
{
    lemma_slot_from(n, lo, hi, k, 0);
}

/// The content of a search tree outside its bounds is empty.
pub proof fn lemma_bst_outside<V>(n: Node<V>, h: nat, lo: int, hi: int, k: u64)
    requires
        bst(n, h, lo, hi),
    ensures
        !(lo < k < hi) ==> value_of(content(n), k) == None::<V>,
{
    if content(n).contains_key(k) {
        lemma_bst_bounds(n, h, lo, hi, k);
    }
}

/// The content of a well-formed node outside its bounds is empty.
pub proof fn lemma_content_outside<V>(n: Node<V>, s: nat, h: nat, lo: int, hi: int, mn: nat, mx: nat, k: u64)
    requires
        wf_in(n, s, h, lo, hi, mn, mx),
    ensures
        !(lo < k < hi) ==> value_of(content(n), k) == None::<V>,
{
    if content(n).contains_key(k) {
        lemma_content_bounds(n, s, h, lo, hi, mn, mx, k);
    }
}

/// Splitting a full node keeps the invariants on both halves and keeps its content.
#[verifier::rlimit(40)]
pub proof fn lemma_split<V>(o: Node<V>, l: Node<V>, right: Node<V>, m: KeyVal<V>, sn: nat, h: nat, lo: int, hi: int, mn: nat)
    requires
        1 <= sn,
        mn <= sn,
        wf_in(o, sn, h, lo, hi, mn, 2 * sn + 1),
        o.keys@.len() == 2 * sn + 1,
        l.is_leaf == o.is_leaf,
        right.is_leaf == o.is_leaf,
        l.keys@ == o.keys@.subrange(0, sn as int),
        m == o.keys@[sn as int],
        right.keys@ == o.keys@.subrange(sn + 1 as int, 2 * sn + 1 as int),
        o.is_leaf ==> l.pivots@ == o.pivots@ && right.pivots@.len() == 0,
        !o.is_leaf ==> l.pivots@ == o.pivots@.subrange(0, sn + 1 as int)
            && right.pivots@ == o.pivots@.subrange(sn + 1 as int, o.pivots@.len() as int),
    ensures
        lo < m.key < hi,
        wf_in(l, sn, h, lo, m.key as int, sn, 2 * sn),
        wf_in(right, sn, h, m.key as int, hi, sn, 2 * sn),
        content(o) == content(l).union_prefer_right(content(right)).insert(m.key, m.value),
{
    assert(m == o.keys@[sn as int]);
    assert(forall|j: int| 0 <= j < l.keys@.len() ==> #[trigger] l.keys@[j] == o.keys@[j]);
    assert(forall|j: int| 0 <= j < right.keys@.len() ==> #[trigger] right.keys@[j] == o.keys@[j + sn + 1]);
    if !o.is_leaf {
        assert forall|j: int| 0 <= j < l.pivots@.len() implies wf_in(#[trigger] l.pivots@[j], sn, (h - 1) as nat, lo_of(l, j, lo), hi_of(l, j, m.key as int), sn, 2 * sn) by {
            assert(l.pivots@[j] == o.pivots@[j]);
            assert(wf_in(o.pivots@[j], sn, (h - 1) as nat, lo_of(o, j, lo), hi_of(o, j, hi), sn, 2 * sn));
        }
        assert forall|j: int| 0 <= j < right.pivots@.len() implies wf_in(#[trigger] right.pivots@[j], sn, (h - 1) as nat, lo_of(right, j, m.key as int), hi_of(right, j, hi), sn, 2 * sn) by {
            assert(right.pivots@[j] == o.pivots@[j + sn + 1]);
            assert(wf_in(o.pivots@[j + sn + 1], sn, (h - 1) as nat, lo_of(o, j + sn + 1, lo), hi_of(o, j + sn + 1, hi), sn, 2 * sn));
        }
    }
    assert(wf_in(l, sn, h, lo, m.key as int, sn, 2 * sn));
    assert(wf_in(right, sn, h, m.key as int, hi, sn, 2 * sn));
    let rhs = content(l).union_prefer_right(content(right)).insert(m.key, m.value);
    assert forall|k: u64| #[trigger] value_of(content(o), k) == value_of(rhs, k) by {
        lemma_content_outside(l, sn, h, lo, m.key as int, sn, 2 * sn, k);
        lemma_content_outside(right, sn, h, m.key as int, hi, sn, 2 * sn, k);
        if k == m.key {
            lemma_content_entry(o, sn as int);
        } else if !(lo < k < hi) {
            lemma_content_outside(o, sn, h, lo, hi, mn, 2 * sn + 1, k);
        } else if exists|j: int| 0 <= j < o.keys@.len() && o.keys@[j].key == k {
            let j = choose|j: int| 0 <= j < o.keys@.len() && o.keys@[j].key == k;
            lemma_content_entry(o, j);
            if j < sn {
                lemma_content_entry(l, j);
            } else {
                lemma_content_entry(right, j - sn - 1);
            }
        } else if o.is_leaf {
            lemma_content_leaf(o, k);
            lemma_content_leaf(l, k);
            lemma_content_leaf(right, k);
        } else if k < m.key {
            lemma_slot(l, lo, m.key as int, k);
            let i = choose|i: int| 0 <= i <= l.keys@.len() && #[trigger] lo_of(l, i, lo) < k < hi_of(l, i, m.key as int);
            lemma_content_child(l, sn, h, lo, m.key as int, sn, 2 * sn, i, k);
            lemma_content_child(o, sn, h, lo, hi, mn, 2 * sn + 1, i, k);
        } else {
            lemma_slot(right, m.key as int, hi, k);
            let i = choose|i: int| 0 <= i <= right.keys@.len() && #[trigger] lo_of(right, i, m.key as int) < k < hi_of(right, i, hi);
            lemma_content_child(right, sn, h, m.key as int, hi, sn, 2 * sn, i, k);
            assert(right.pivots@[i] == o.pivots@[i + sn + 1]);
            lemma_content_child(o, sn, h, lo, hi, mn, 2 * sn + 1, i + sn + 1, k);
        }
    }
    lemma_ext(content(o), rhs);
}

/// Overwriting the value of one entry of a sorted sequence updates its pairs.
pub proof fn lemma_entries_update<V>(ks: Seq<KeyVal<V>>, i: int, e: KeyVal<V>)
    requires
        sorted(ks),
        0 <= i < ks.len(),
        ks[i].key == e.key,
    ensures
        sorted(ks.update(i, e)),
        entries_map(ks.update(i, e)) == entries_map(ks).insert(e.key, e.value),
{
    let n = ks.update(i, e);
    assert(sorted(n));
    lemma_entries_map(ks);
    lemma_entries_map(n);
    let rhs = entries_map(ks).insert(e.key, e.value);
    assert forall|k: u64| #[trigger] value_of(entries_map(n), k) == value_of(rhs, k) by {
        if k != e.key {
            if entries_map(n).contains_key(k) {
                let j = choose|j: int| 0 <= j < n.len() && n[j].key == k;
                assert(n[j] == ks[j]);
            }
            if entries_map(ks).contains_key(k) {
                let j = choose|j: int| 0 <= j < ks.len() && ks[j].key == k;
                assert(n[j] == ks[j]);
            }
        } else {
            assert(n[i] == e);
        }
    }
    lemma_ext(entries_map(n), rhs);
}

/// Inserting a new key in its place keeps a sequence sorted and adds the pair.
pub proof fn lemma_entries_insert<V>(ks: Seq<KeyVal<V>>, i: int, e: KeyVal<V>)
    requires
        sorted(ks),
        0 <= i <= ks.len(),
        forall|j: int| 0 <= j < i ==> #[trigger] ks[j].key < e.key,
        forall|j: int| i <= j < ks.len() ==> e.key < #[trigger] ks[j].key,
    ensures
        sorted(ks.insert(i, e)),
        entries_map(ks.insert(i, e)) == entries_map(ks).insert(e.key, e.value),
{
    let n = ks.insert(i, e);
    assert forall|a: int, b: int| 0 <= a < b < n.len() implies n[a].key < n[b].key by {
        if a < i && b > i {
            assert(n[b] == ks[b - 1]);
        } else if a > i {
            assert(n[a] == ks[a - 1]);
            assert(n[b] == ks[b - 1]);
        }
    }
    lemma_entries_map(ks);
    lemma_entries_map(n);
    let rhs = entries_map(ks).insert(e.key, e.value);
    assert forall|k: u64| #[trigger] value_of(entries_map(n), k) == value_of(rhs, k) by {
        if k != e.key {
            if entries_map(n).contains_key(k) {
                let j = choose|j: int| 0 <= j < n.len() && n[j].key == k;
                if j < i {
                    assert(n[j] == ks[j]);
                } else {
                    assert(n[j] == ks[j - 1]);
                }
            }
            if entries_map(ks).contains_key(k) {
                let j = choose|j: int| 0 <= j < ks.len() && ks[j].key == k;
                if j < i {
                    assert(n[j] == ks[j]);
                } else {
                    assert(n[j + 1] == ks[j]);
                }
            }
        } else {
            assert(n[i] == e);
        }
    }
    lemma_ext(entries_map(n), rhs);
}

/// Replacing the value of entry `i` keeps the invariants and updates the content.
pub proof fn lemma_update_entry<V>(o: Node<V>, n: Node<V>, sn: nat, h: nat, lo: int, hi: int, mn: nat, mx: nat, i: int, e: KeyVal<V>)
    requires
        wf_in(o, sn, h, lo, hi, mn, mx),
        0 <= i < o.keys@.len(),
        o.keys@[i].key == e.key,
        n.is_leaf == o.is_leaf,
        n.keys@ == o.keys@.update(i, e),
        n.pivots@ == o.pivots@,
    ensures
        wf_in(n, sn, h, lo, hi, mn, mx),
        content(n) == content(o).insert(e.key, e.value),
{
    lemma_entries_update(o.keys@, i, e);
    assert(wf_in(n, sn, h, lo, hi, mn, mx));
    assert(content(n) =~= content(o).insert(e.key, e.value));
}

/// Inserting a new entry into a leaf keeps it sorted and adds the pair to its content.
pub proof fn lemma_leaf_insert<V>(o: Node<V>, n: Node<V>, sn: nat, lo: int, hi: int, mn: nat, i: int, e: KeyVal<V>)
    requires
        wf_in(o, sn, 1, lo, hi, mn, 2 * sn),
        o.is_leaf,
        lo < e.key < hi,
        0 <= i <= o.keys@.len(),
        forall|j: int| 0 <= j < i ==> #[trigger] o.keys@[j].key < e.key,
        forall|j: int| i <= j < o.keys@.len() ==> e.key < #[trigger] o.keys@[j].key,
        n.is_leaf,
        n.keys@ == o.keys@.insert(i, e),
        n.pivots@ == o.pivots@,
    ensures
        wf_in(n, sn, 1, lo, hi, mn, 2 * sn + 1),
        content(n) == content(o).insert(e.key, e.value),
{
    lemma_entries_insert(o.keys@, i, e);
    assert forall|j: int| 0 <= j < n.keys@.len() implies lo < #[trigger] n.keys@[j].key < hi by {
        if j < i {
            assert(n.keys@[j] == o.keys@[j]);
        } else if j > i {
            assert(n.keys@[j] == o.keys@[j - 1]);
        }
    }
    assert(wf_in(n, sn, 1, lo, hi, mn, 2 * sn + 1));
    assert(content(n) =~= content(o).insert(e.key, e.value));
}

/// Replacing child `i` by one whose content gained a pair keeps the invariants and adds the
/// pair to the node's content.
pub proof fn lemma_child_replaced<V>(o: Node<V>, n: Node<V>, sn: nat, h: nat, lo: int, hi: int, mn: nat, i: int, c: Node<V>, key: u64, value: V)
    requires
        wf_in(o, sn, h, lo, hi, mn, 2 * sn),
        !o.is_leaf,
        0 <= i < o.pivots@.len(),
        lo_of(o, i, lo) < key < hi_of(o, i, hi),
        wf_in(c, sn, (h - 1) as nat, lo_of(o, i, lo), hi_of(o, i, hi), sn, 2 * sn),
        content(c) == content(o.pivots@[i]).insert(key, value),
        n.is_leaf == o.is_leaf,
        n.keys@ == o.keys@,
        n.pivots@ == o.pivots@.update(i, c),
    ensures
        wf_in(n, sn, h, lo, hi, mn, 2 * sn),
        content(n) == content(o).insert(key, value),
{
    assert forall|j: int| 0 <= j < n.pivots@.len() implies wf_in(#[trigger] n.pivots@[j], sn, (h - 1) as nat, lo_of(n, j, lo), hi_of(n, j, hi), sn, 2 * sn) by {
        if j != i {
            assert(n.pivots@[j] == o.pivots@[j]);
        }
    }
    assert(wf_in(n, sn, h, lo, hi, mn, 2 * sn));
    let rhs = content(o).insert(key, value);
    assert forall|k: u64| #[trigger] value_of(content(n), k) == value_of(rhs, k) by {
        lemma_content_outside(n, sn, h, lo, hi, mn, 2 * sn, k);
        lemma_content_outside(o, sn, h, lo, hi, mn, 2 * sn, k);
        if !(lo < k < hi) {
        } else if exists|j: int| 0 <= j < o.keys@.len() && o.keys@[j].key == k {
            let j = choose|j: int| 0 <= j < o.keys@.len() && o.keys@[j].key == k;
            lemma_content_entry(o, j);
            lemma_content_entry(n, j);
            if j < i {
                assert(o.keys@[j].key <= o.keys@[i - 1].key);
            } else {
                assert(o.keys@[i].key <= o.keys@[j].key);
            }
        } else {
            lemma_slot(o, lo, hi, k);
            let t = choose|t: int| 0 <= t <= o.keys@.len() && #[trigger] lo_of(o, t, lo) < k < hi_of(o, t, hi);
            lemma_content_child(o, sn, h, lo, hi, mn, 2 * sn, t, k);
            lemma_content_child(n, sn, h, lo, hi, mn, 2 * sn, t, k);
            if t < i {
                assert(hi_of(o, t, hi) <= lo_of(o, i, lo));
            } else if t > i {
                assert(hi_of(o, i, hi) <= lo_of(o, t, lo));
            }
        }
    }
    lemma_ext(content(n), rhs);
}

/// Taking in the median and right half of a split child `i` keeps the invariants (with room
/// for one more entry) and keeps the content.
#[verifier::rlimit(60)]
pub proof fn lemma_child_split<V>(o: Node<V>, n: Node<V>, sn: nat, h: nat, lo: int, hi: int, mn: nat, i: int, c: Node<V>, m: KeyVal<V>, r: Node<V>, key: u64, value: V)
    requires
        wf_in(o, sn, h, lo, hi, mn, 2 * sn),
        !o.is_leaf,
        0 <= i < o.pivots@.len(),
        lo_of(o, i, lo) < key < hi_of(o, i, hi),
        lo_of(o, i, lo) < m.key < hi_of(o, i, hi),
        wf_in(c, sn, (h - 1) as nat, lo_of(o, i, lo), m.key as int, sn, 2 * sn),
        wf_in(r, sn, (h - 1) as nat, m.key as int, hi_of(o, i, hi), sn, 2 * sn),
        content(o.pivots@[i]).insert(key, value) == content(c).union_prefer_right(content(r)).insert(m.key, m.value),
        n.is_leaf == o.is_leaf,
        n.keys@ == o.keys@.insert(i, m),
        n.pivots@ == o.pivots@.update(i, c).insert(i + 1, r),
    ensures
        wf_in(n, sn, h, lo, hi, mn, 2 * sn + 1),
        content(n) == content(o).insert(key, value),
{
    lemma_entries_insert(o.keys@, i, m);
    assert forall|j: int| 0 <= j < n.keys@.len() implies lo < #[trigger] n.keys@[j].key < hi by {
        if j < i {
            assert(n.keys@[j] == o.keys@[j]);
        } else if j > i {
            assert(n.keys@[j] == o.keys@[j - 1]);
        }
    }
    assert forall|j: int| 0 <= j < n.pivots@.len() implies wf_in(#[trigger] n.pivots@[j], sn, (h - 1) as nat, lo_of(n, j, lo), hi_of(n, j, hi), sn, 2 * sn) by {
        if j < i {
            assert(n.pivots@[j] == o.pivots@[j]);
            assert(n.keys@[j] == o.keys@[j]);
        } else if j > i + 1 {
            assert(n.pivots@[j] == o.pivots@[j - 1]);
            assert(n.keys@[j - 1] == o.keys@[j - 2]);
        }
    }
    assert(wf_in(n, sn, h, lo, hi, mn, 2 * sn + 1));
    let rhs = content(o).insert(key, value);
    assert forall|k: u64| #[trigger] value_of(content(n), k) == value_of(rhs, k) by {
        lemma_content_outside(n, sn, h, lo, hi, mn, 2 * sn + 1, k);
        lemma_content_outside(o, sn, h, lo, hi, mn, 2 * sn, k);
        lemma_content_outside(c, sn, (h - 1) as nat, lo_of(o, i, lo), m.key as int, sn, 2 * sn, k);
        lemma_content_outside(r, sn, (h - 1) as nat, m.key as int, hi_of(o, i, hi), sn, 2 * sn, k);
        assert(value_of(content(o.pivots@[i]).insert(key, value), k) == value_of(content(c).union_prefer_right(content(r)).insert(m.key, m.value), k));
        if !(lo < k < hi) {
        } else if k == m.key {
            lemma_content_entry(n, i);
            lemma_content_child(o, sn, h, lo, hi, mn, 2 * sn, i, k);
        } else if exists|j: int| 0 <= j < o.keys@.len() && o.keys@[j].key == k {
            let j = choose|j: int| 0 <= j < o.keys@.len() && o.keys@[j].key == k;
            lemma_content_entry(o, j);
            if j < i {
                assert(n.keys@[j] == o.keys@[j]);
                lemma_content_entry(n, j);
                assert(o.keys@[j].key <= o.keys@[i - 1].key);
            } else {
                assert(n.keys@[j + 1] == o.keys@[j]);
                lemma_content_entry(n, j + 1);
                assert(o.keys@[i].key <= o.keys@[j].key);
            }
        } else {
            lemma_slot(o, lo, hi, k);
            let t = choose|t: int| 0 <= t <= o.keys@.len() && #[trigger] lo_of(o, t, lo) < k < hi_of(o, t, hi);
            lemma_content_child(o, sn, h, lo, hi, mn, 2 * sn, t, k);
            if t < i {
                assert(hi_of(o, t, hi) <= lo_of(o, i, lo));
                assert(n.pivots@[t] == o.pivots@[t]);
                lemma_content_child(n, sn, h, lo, hi, mn, 2 * sn + 1, t, k);
            } else if t > i {
                assert(hi_of(o, i, hi) <= lo_of(o, t, lo));
                assert(n.pivots@[t + 1] == o.pivots@[t]);
                lemma_content_child(n, sn, h, lo, hi, mn, 2 * sn + 1, t + 1, k);
            } else if k < m.key {
                lemma_content_child(n, sn, h, lo, hi, mn, 2 * sn + 1, i, k);
            } else {
                lemma_content_child(n, sn, h, lo, hi, mn, 2 * sn + 1, i + 1, k);
            }
        }
    }
    lemma_ext(content(n), rhs);
}

/// Counting more subtrees never counts fewer entries.
pub proof fn lemma_count_of_mono<V>(cs: Seq<Node<V>>, i: nat, j: nat)
    requires
        i <= j <= cs.len(),
    ensures
        count_of(cs, i) <= count_of(cs, j),
    decreases j,
{
    if i < j {
        lemma_count_of_mono(cs, i, (j - 1) as nat);
    }
}

/// A node with at least one entry holds at least as many entries as it has levels.
pub proof fn lemma_count_height<V>(n: Node<V>, s: nat, h: nat, lo: int, hi: int, mn: nat, mx: nat)
    requires
        wf_in(n, s, h, lo, hi, mn, mx),
        1 <= s,
        1 <= mn,
    ensures
        h <= count(n),
    decreases n,
{
    if !n.is_leaf {
        lemma_count_height(n.pivots@[0], s, (h - 1) as nat, lo_of(n, 0, lo), hi_of(n, 0, hi), s, 2 * s);
        lemma_count_of_mono(n.pivots@, 1, n.pivots@.len());
        assert(count_of(n.pivots@, 0) == 0);
        assert(count_of(n.pivots@, 1) == count(n.pivots@[0]));
    }
}

/// A sorted sequence has as many distinct keys as entries.
pub proof fn lemma_entries_len<V>(ks: Seq<KeyVal<V>>)
    requires
        sorted(ks),
    ensures
        entries_map(ks).dom().finite(),
        entries_map(ks).len() == ks.len(),
    decreases ks.len(),
{
    if ks.len() > 0 {
        let d = ks.drop_last();
        assert(sorted(d));
        lemma_entries_len(d);
        lemma_entries_map(d);
        if entries_map(d).contains_key(ks.last().key) {
            let j = choose|j: int| 0 <= j < d.len() && d[j].key == ks.last().key;
            assert(d[j] == ks[j]);
        }
        assert(entries_map(ks) == entries_map(d).insert(ks.last().key, ks.last().value));
    }
}

/// The number of keys stored under a well-formed node is its count of entries.
pub proof fn lemma_count_len<V>(n: Node<V>, s: nat, h: nat, lo: int, hi: int, mn: nat, mx: nat)
    requires
        wf_in(n, s, h, lo, hi, mn, mx),
    ensures
        content(n).dom().finite(),
        content(n).len() == count(n),
    decreases n, n.pivots@.len() + 1,
{
    lemma_entries_len(n.keys@);
    lemma_entries_map(n.keys@);
    lemma_union_len(n, s, h, lo, hi, mn, mx, n.pivots@.len());
    let u = union_of(n.pivots@, n.pivots@.len());
    let e = entries_map(n.keys@);
    assert(u.dom().disjoint(e.dom())) by {
        assert forall|k: u64| u.dom().contains(k) implies !e.dom().contains(k) by {
            let j = choose|j: int| 0 <= j < n.keys@.len() && n.keys@[j].key == k;
            if e.dom().contains(k) {
                lemma_union_of_dom(n.pivots@, n.pivots@.len(), k);
                let c = choose|c: int| 0 <= c < n.pivots@.len() && (#[trigger] content(n.pivots@[c])).contains_key(k);
                lemma_content_bounds(n.pivots@[c], s, (h - 1) as nat, lo_of(n, c, lo), hi_of(n, c, hi), s, 2 * s, k);
                if c <= j {
                    assert(n.keys@[c].key <= n.keys@[j].key);
                } else {
                    assert(n.keys@[j].key <= n.keys@[c - 1].key);
                }
            }
        }
    }
    assert(content(n).dom() == u.dom() + e.dom());
    vstd::set_lib::lemma_set_disjoint_lens(u.dom(), e.dom());
}

/// The first `j` subtrees of a well-formed node hold as many keys as they count entries, all
/// below the bound after subtree `j - 1`.
pub proof fn lemma_union_len<V>(n: Node<V>, s: nat, h: nat, lo: int, hi: int, mn: nat, mx: nat, j: nat)
    requires
        wf_in(n, s, h, lo, hi, mn, mx),
        j <= n.pivots@.len(),
    ensures
        union_of(n.pivots@, j).dom().finite(),
        union_of(n.pivots@, j).len() == count_of(n.pivots@, j),
        forall|k: u64| #[trigger] union_of(n.pivots@, j).contains_key(k) ==> k < hi_of(n, j - 1, hi),
    decreases n, j,
{
    if j > 0 {
        let c = n.pivots@[j - 1];
        lemma_union_len(n, s, h, lo, hi, mn, mx, (j - 1) as nat);
        lemma_count_len(c, s, (h - 1) as nat, lo_of(n, j - 1, lo), hi_of(n, j - 1, hi), s, 2 * s);
        let u = union_of(n.pivots@, (j - 1) as nat);
        assert(u.dom().disjoint(content(c).dom())) by {
            assert forall|k: u64| u.dom().contains(k) implies !content(c).dom().contains(k) by {
                if content(c).dom().contains(k) {
                    lemma_content_bounds(c, s, (h - 1) as nat, lo_of(n, j - 1, lo), hi_of(n, j - 1, hi), s, 2 * s, k);
                }
            }
        }
        assert(union_of(n.pivots@, j).dom() == u.dom() + content(c).dom());
        vstd::set_lib::lemma_set_disjoint_lens(u.dom(), content(c).dom());
        assert forall|k: u64| #[trigger] union_of(n.pivots@, j).contains_key(k) implies k < hi_of(n, j - 1, hi) by {
            if content(c).contains_key(k) {
                lemma_content_bounds(c, s, (h - 1) as nat, lo_of(n, j - 1, lo), hi_of(n, j - 1, hi), s, 2 * s, k);
            } else if j >= 2 {
                assert(n.keys@[j - 2].key < hi_of(n, j - 1, hi));
            }
        }
    }
}

/// Two well-formed subtrees of one height and an entry between them join into a
/// well-formed node.
pub proof fn lemma_join_wf<V>(o: Node<V>, l: Node<V>, m: KeyVal<V>, r: Node<V>, sn: nat, h: nat, lo: int, hi: int, lmn: nat, rmn: nat, p: int)
    requires
        wf_in(l, sn, h, lo, m.key as int, lmn, 2 * sn),
        wf_in(r, sn, h, m.key as int, hi, rmn, 2 * sn),
        lo < m.key < hi,
        p == l.keys@.len(),
        o.keys@ == l.keys@.push(m) + r.keys@,
        o.is_leaf == l.is_leaf,
        o.is_leaf ==> o.pivots@.len() == 0,
        !o.is_leaf ==> o.pivots@ == l.pivots@ + r.pivots@,
    ensures
        wf_in(o, sn, h, lo, hi, o.keys@.len(), o.keys@.len()),
        parts(o, l, m, r, p),
{
    assert(forall|j: int| 0 <= j < p ==> #[trigger] o.keys@[j] == l.keys@[j]);
    assert(o.keys@[p] == m);
    assert(forall|j: int| p < j < o.keys@.len() ==> #[trigger] o.keys@[j] == r.keys@[j - p - 1]);
    assert forall|a: int, b: int| 0 <= a < b < o.keys@.len() implies o.keys@[a].key < o.keys@[b].key by {
        if a < p && b > p {
            assert(o.keys@[a].key < m.key);
        }
    }
    assert(o.keys@.subrange(0, p) =~= l.keys@);
    assert(o.keys@.subrange(p + 1, o.keys@.len() as int) =~= r.keys@);
    if !o.is_leaf {
        assert(o.pivots@.subrange(0, p + 1) =~= l.pivots@);
        assert(o.pivots@.subrange(p + 1, o.pivots@.len() as int) =~= r.pivots@);
        assert forall|j: int| 0 <= j < o.pivots@.len() implies wf_in(#[trigger] o.pivots@[j], sn, (h - 1) as nat, lo_of(o, j, lo), hi_of(o, j, hi), sn, 2 * sn) by {
            if j <= p {
                assert(o.pivots@[j] == l.pivots@[j]);
                assert(wf_in(l.pivots@[j], sn, (h - 1) as nat, lo_of(l, j, lo), hi_of(l, j, m.key as int), sn, 2 * sn));
            } else {
                assert(o.pivots@[j] == r.pivots@[j - p - 1]);
                assert(wf_in(r.pivots@[j - p - 1], sn, (h - 1) as nat, lo_of(r, j - p - 1, m.key as int), hi_of(r, j - p - 1, hi), sn, 2 * sn));
            }
        }
    }
}

/// The content of a node is that of the two parts around one of its entries, and the entry.
#[verifier::rlimit(60)]
pub proof fn lemma_join_content<V>(o: Node<V>, l: Node<V>, m: KeyVal<V>, r: Node<V>, h: nat, lo: int, hi: int, p: int)
    requires
        bst(o, h, lo, hi),
        bst(l, h, lo, m.key as int),
        bst(r, h, m.key as int, hi),
        parts(o, l, m, r, p),
    ensures
        content(o) == joined(l, m, r),
{
    assert(forall|j: int| 0 <= j < l.keys@.len() ==> #[trigger] l.keys@[j] == o.keys@[j]);
    assert(forall|j: int| 0 <= j < r.keys@.len() ==> #[trigger] r.keys@[j] == o.keys@[j + p + 1]);
    let rhs = joined(l, m, r);
    assert forall|k: u64| #[trigger] value_of(content(o), k) == value_of(rhs, k) by {
        lemma_bst_outside(l, h, lo, m.key as int, k);
        lemma_bst_outside(r, h, m.key as int, hi, k);
        if k == m.key {
            lemma_content_entry(o, p);
        } else if !(lo < k < hi) {
            lemma_bst_outside(o, h, lo, hi, k);
        } else if exists|j: int| 0 <= j < o.keys@.len() && o.keys@[j].key == k {
            let j = choose|j: int| 0 <= j < o.keys@.len() && o.keys@[j].key == k;
            lemma_content_entry(o, j);
            if j < p {
                lemma_content_entry(l, j);
            } else {
                lemma_content_entry(r, j - p - 1);
            }
        } else if o.is_leaf {
            lemma_content_leaf(o, k);
            lemma_content_leaf(l, k);
            lemma_content_leaf(r, k);
        } else if k < m.key {
            lemma_slot(l, lo, m.key as int, k);
            let i = choose|i: int| 0 <= i <= l.keys@.len() && #[trigger] lo_of(l, i, lo) < k < hi_of(l, i, m.key as int);
            lemma_bst_child(l, h, lo, m.key as int, i, k);
            assert(l.pivots@[i] == o.pivots@[i]);
            lemma_bst_child(o, h, lo, hi, i, k);
        } else {
            lemma_slot(r, m.key as int, hi, k);
            let i = choose|i: int| 0 <= i <= r.keys@.len() && #[trigger] lo_of(r, i, m.key as int) < k < hi_of(r, i, hi);
            lemma_bst_child(r, h, m.key as int, hi, i, k);
            assert(r.pivots@[i] == o.pivots@[i + p + 1]);
            lemma_bst_child(o, h, lo, hi, i + p + 1, k);
        }
    }
    lemma_ext(content(o), rhs);
}

/// A well-formed node stays well formed under wider bounds.
pub proof fn lemma_widen<V>(n: Node<V>, sn: nat, h: nat, lo: int, hi: int, mn: nat, mx: nat, lo2: int, hi2: int)
    requires
        wf_in(n, sn, h, lo, hi, mn, mx),
        lo2 <= lo,
        hi <= hi2,
    ensures
        wf_in(n, sn, h, lo2, hi2, mn, mx),
    decreases n,
{
    if !n.is_leaf {
        assert forall|j: int| 0 <= j < n.pivots@.len() implies wf_in(#[trigger] n.pivots@[j], sn, (h - 1) as nat, lo_of(n, j, lo2), hi_of(n, j, hi2), sn, 2 * sn) by {
            lemma_widen(n.pivots@[j], sn, (h - 1) as nat, lo_of(n, j, lo), hi_of(n, j, hi), sn, 2 * sn, lo_of(n, j, lo2), hi_of(n, j, hi2));
        }
    }
}

/// A node with one child allowed to be under-full, where that child is not, meets the
/// invariants.
pub proof fn lemma_under_ok<V>(n: Node<V>, sn: nat, h: nat, lo: int, hi: int, mn: nat, mx: nat, i: int)
    requires
        wf_under(n, sn, h, lo, hi, mn, mx, i),
        n.pivots@[i].keys@.len() >= sn,
    ensures
        wf_in(n, sn, h, lo, hi, mn, mx),
{
    assert(wf_in(n.pivots@[i], sn, (h - 1) as nat, lo_of(n, i, lo), hi_of(n, i, hi), sn, 2 * sn));
}

/// Replacing children `i` and `i + 1` and the entry between them by parts with the same
/// joined content (less `x`, where `del`) keeps the invariants and the content (less `x`).
#[verifier::rlimit(80)]
pub proof fn lemma_parent_pair<V>(o: Node<V>, n: Node<V>, sn: nat, h: nat, lo: int, hi: int, mn: nat, i: int, a2: Node<V>, e2: KeyVal<V>, b2: Node<V>, amn: nat, bmn: nat, del: bool, x: u64)
    requires
        bst(o, h, lo, hi),
        !o.is_leaf,
        h >= 2,
        1 <= sn,
        mn <= o.keys@.len() <= 2 * sn,
        0 <= i,
        i + 1 < o.pivots@.len(),
        others_wf(o, sn, h, lo, hi, i, i + 1),
        lo_of(o, i, lo) < e2.key < hi_of(o, i + 1, hi),
        wf_in(a2, sn, (h - 1) as nat, lo_of(o, i, lo), e2.key as int, amn, 2 * sn),
        wf_in(b2, sn, (h - 1) as nat, e2.key as int, hi_of(o, i + 1, hi), bmn, 2 * sn),
        amn == sn || amn + 1 == sn,
        bmn == sn || bmn + 1 == sn,
        amn == sn || bmn == sn,
        lo_of(o, i, lo) < x < hi_of(o, i + 1, hi),
        joined(a2, e2, b2) == (if del {
            joined(o.pivots@[i], o.keys@[i], o.pivots@[i + 1]).remove(x)
        } else {
            joined(o.pivots@[i], o.keys@[i], o.pivots@[i + 1])
        }),
        !n.is_leaf,
        n.keys@ == o.keys@.update(i, e2),
        n.pivots@ == o.pivots@.update(i, a2).update(i + 1, b2),
    ensures
        amn == sn && bmn == sn ==> wf_in(n, sn, h, lo, hi, mn, 2 * sn),
        amn < sn ==> wf_under(n, sn, h, lo, hi, mn, 2 * sn, i),
        bmn < sn ==> wf_under(n, sn, h, lo, hi, mn, 2 * sn, i + 1),
        content(n) == (if del { content(o).remove(x) } else { content(o) }),
{
    let a = o.pivots@[i];
    let b = o.pivots@[i + 1];
    let e = o.keys@[i];
    assert(bst(a, (h - 1) as nat, lo_of(o, i, lo), hi_of(o, i, hi)));
    assert(bst(b, (h - 1) as nat, lo_of(o, i + 1, lo), hi_of(o, i + 1, hi)));
    assert forall|a1: int, b1: int| 0 <= a1 < b1 < n.keys@.len() implies n.keys@[a1].key < n.keys@[b1].key by {
        if a1 < i && b1 == i {
            assert(o.keys@[a1].key <= o.keys@[i - 1].key);
        } else if a1 == i && b1 > i {
            assert(o.keys@[i + 1].key <= o.keys@[b1].key);
        }
    }
    assert forall|j: int| 0 <= j < n.pivots@.len() && j != i && j != i + 1 implies wf_in(#[trigger] n.pivots@[j], sn, (h - 1) as nat, lo_of(n, j, lo), hi_of(n, j, hi), sn, 2 * sn) by {
        assert(n.pivots@[j] == o.pivots@[j]);
    }
    assert(n.pivots@[i] == a2 && n.pivots@[i + 1] == b2);
    if amn == sn && bmn == sn {
        assert(wf_in(n, sn, h, lo, hi, mn, 2 * sn));
        lemma_wf_bst(n, sn, h, lo, hi, mn, 2 * sn);
    } else if amn < sn {
        assert(wf_under(n, sn, h, lo, hi, mn, 2 * sn, i));
        lemma_under_bst(n, sn, h, lo, hi, mn, 2 * sn, i);
    } else {
        assert(wf_under(n, sn, h, lo, hi, mn, 2 * sn, i + 1));
        lemma_under_bst(n, sn, h, lo, hi, mn, 2 * sn, i + 1);
    }
    lemma_wf_bst(a2, sn, (h - 1) as nat, lo_of(o, i, lo), e2.key as int, amn, 2 * sn);
    lemma_wf_bst(b2, sn, (h - 1) as nat, e2.key as int, hi_of(o, i + 1, hi), bmn, 2 * sn);
    let rhs = if del { content(o).remove(x) } else { content(o) };
    assert forall|k: u64| #[trigger] value_of(content(n), k) == value_of(rhs, k) by {
        lemma_bst_outside(n, h, lo, hi, k);
        lemma_bst_outside(o, h, lo, hi, k);
        lemma_bst_outside(a, (h - 1) as nat, lo_of(o, i, lo), e.key as int, k);
        lemma_bst_outside(b, (h - 1) as nat, e.key as int, hi_of(o, i + 1, hi), k);
        lemma_bst_outside(a2, (h - 1) as nat, lo_of(o, i, lo), e2.key as int, k);
        lemma_bst_outside(b2, (h - 1) as nat, e2.key as int, hi_of(o, i + 1, hi), k);
        assert(value_of(joined(a2, e2, b2), k) == value_of(if del { joined(a, e, b).remove(x) } else { joined(a, e, b) }, k));
        if !(lo < k < hi) {
        } else if lo_of(o, i, lo) < k < hi_of(o, i + 1, hi) {
            if k == e.key {
                lemma_content_entry(o, i);
            } else if k < e.key {
                lemma_bst_child(o, h, lo, hi, i, k);
            } else {
                lemma_bst_child(o, h, lo, hi, i + 1, k);
            }
            if k == e2.key {
                lemma_content_entry(n, i);
            } else if k < e2.key {
                lemma_bst_child(n, h, lo, hi, i, k);
            } else {
                lemma_bst_child(n, h, lo, hi, i + 1, k);
            }
        } else if exists|j: int| 0 <= j < o.keys@.len() && o.keys@[j].key == k {
            let j = choose|j: int| 0 <= j < o.keys@.len() && o.keys@[j].key == k;
            lemma_content_entry(o, j);
            lemma_content_entry(n, j);
        } else {
            lemma_slot(o, lo, hi, k);
            let t = choose|t: int| 0 <= t <= o.keys@.len() && #[trigger] lo_of(o, t, lo) < k < hi_of(o, t, hi);
            if t < i {
                assert(hi_of(o, t, hi) <= lo_of(o, i, lo));
            } else if t > i + 1 {
                assert(hi_of(o, i + 1, hi) <= lo_of(o, t, lo));
            }
            lemma_bst_child(o, h, lo, hi, t, k);
            lemma_bst_child(n, h, lo, hi, t, k);
        }
    }
    lemma_ext(content(n), rhs);
}

/// Replacing children `i` and `i + 1` and the entry between them by one node with their
/// joined content keeps the content; the node loses one entry.
#[verifier::rlimit(80)]
pub proof fn lemma_parent_merge<V>(o: Node<V>, n: Node<V>, sn: nat, h: nat, lo: int, hi: int, mn: nat, i: int, mm: Node<V>)
    requires
        bst(o, h, lo, hi),
        !o.is_leaf,
        h >= 2,
        1 <= sn,
        1 <= mn <= o.keys@.len() <= 2 * sn,
        0 <= i,
        i + 1 < o.pivots@.len(),
        others_wf(o, sn, h, lo, hi, i, i + 1),
        wf_in(mm, sn, (h - 1) as nat, lo_of(o, i, lo), hi_of(o, i + 1, hi), sn, 2 * sn),
        content(mm) == joined(o.pivots@[i], o.keys@[i], o.pivots@[i + 1]),
        !n.is_leaf,
        n.keys@ == o.keys@.remove(i),
        n.pivots@ == o.pivots@.remove(i + 1).update(i, mm),
    ensures
        wf_in(n, sn, h, lo, hi, (mn - 1) as nat, 2 * sn),
        content(n) == content(o),
{
    let a = o.pivots@[i];
    let b = o.pivots@[i + 1];
    let e = o.keys@[i];
    assert(bst(a, (h - 1) as nat, lo_of(o, i, lo), hi_of(o, i, hi)));
    assert(bst(b, (h - 1) as nat, lo_of(o, i + 1, lo), hi_of(o, i + 1, hi)));
    assert(forall|j: int| 0 <= j < i ==> #[trigger] n.keys@[j] == o.keys@[j]);
    assert(forall|j: int| i <= j < n.keys@.len() ==> #[trigger] n.keys@[j] == o.keys@[j + 1]);
    assert forall|a1: int, b1: int| 0 <= a1 < b1 < n.keys@.len() implies n.keys@[a1].key < n.keys@[b1].key by {
        if a1 >= i {
            assert(n.keys@[a1] == o.keys@[a1 + 1]);
        } else if b1 >= i {
            assert(n.keys@[b1] == o.keys@[b1 + 1]);
        }
    }
    assert forall|j: int| 0 <= j < n.pivots@.len() implies wf_in(#[trigger] n.pivots@[j], sn, (h - 1) as nat, lo_of(n, j, lo), hi_of(n, j, hi), sn, 2 * sn) by {
        if j < i {
            assert(n.pivots@[j] == o.pivots@[j]);
        } else if j > i {
            assert(n.pivots@[j] == o.pivots@[j + 1]);
        }
    }
    assert(wf_in(n, sn, h, lo, hi, (mn - 1) as nat, 2 * sn));
    lemma_wf_bst(n, sn, h, lo, hi, (mn - 1) as nat, 2 * sn);
    let rhs = content(o);
    assert forall|k: u64| #[trigger] value_of(content(n), k) == value_of(rhs, k) by {
        lemma_bst_outside(n, h, lo, hi, k);
        lemma_bst_outside(o, h, lo, hi, k);
        lemma_bst_outside(a, (h - 1) as nat, lo_of(o, i, lo), e.key as int, k);
        lemma_bst_outside(b, (h - 1) as nat, e.key as int, hi_of(o, i + 1, hi), k);
        assert(value_of(content(mm), k) == value_of(joined(a, e, b), k));
        if !(lo < k < hi) {
        } else if lo_of(o, i, lo) < k < hi_of(o, i + 1, hi) {
            if k == e.key {
                lemma_content_entry(o, i);
            } else if k < e.key {
                lemma_bst_child(o, h, lo, hi, i, k);
            } else {
                lemma_bst_child(o, h, lo, hi, i + 1, k);
            }
            lemma_bst_child(n, h, lo, hi, i, k);
        } else if exists|j: int| 0 <= j < o.keys@.len() && o.keys@[j].key == k {
            let j = choose|j: int| 0 <= j < o.keys@.len() && o.keys@[j].key == k;
            lemma_content_entry(o, j);
            if j < i {
                lemma_content_entry(n, j);
            } else {
                lemma_content_entry(n, j - 1);
            }
        } else {
            lemma_slot(o, lo, hi, k);
            let t = choose|t: int| 0 <= t <= o.keys@.len() && #[trigger] lo_of(o, t, lo) < k < hi_of(o, t, hi);
            lemma_bst_child(o, h, lo, hi, t, k);
            if t < i {
                assert(hi_of(o, t, hi) <= lo_of(o, i, lo));
                lemma_bst_child(n, h, lo, hi, t, k);
            } else {
                assert(hi_of(o, i + 1, hi) <= lo_of(o, t, lo));
                lemma_bst_child(n, h, lo, hi, t - 1, k);
            }
        }
    }
    lemma_ext(content(n), rhs);
}

/// Replacing child `i` by one whose content lost `x` (and, at the outer children, with
/// narrower bounds) keeps the invariants, with that child possibly under-full, and removes `x`
/// from the content.
#[verifier::rlimit(80)]
pub proof fn lemma_child_removed<V>(o: Node<V>, n: Node<V>, sn: nat, h: nat, lo: int, hi: int, mn: nat, i: int, c: Node<V>, cmn: nat, x: u64, nlo: int, nhi: int)
    requires
        wf_in(o, sn, h, lo, hi, mn, 2 * sn),
        !o.is_leaf,
        1 <= sn,
        0 <= i < o.pivots@.len(),
        lo <= nlo,
        nhi <= hi,
        i == 0 || nlo == lo,
        i == o.keys@.len() || nhi == hi,
        forall|j: int| 0 <= j < o.keys@.len() ==> nlo < #[trigger] o.keys@[j].key < nhi,
        lo_of(o, i, lo) < x < hi_of(o, i, hi),
        wf_in(c, sn, (h - 1) as nat, lo_of(o, i, nlo), hi_of(o, i, nhi), cmn, 2 * sn),
        cmn == sn || cmn + 1 == sn,
        content(c) == content(o.pivots@[i]).remove(x),
        !n.is_leaf,
        n.keys@ == o.keys@,
        n.pivots@ == o.pivots@.update(i, c),
    ensures
        cmn == sn ==> wf_in(n, sn, h, nlo, nhi, mn, 2 * sn),
        cmn < sn ==> wf_under(n, sn, h, nlo, nhi, mn, 2 * sn, i),
        content(n) == content(o).remove(x),
{
    let oc = o.pivots@[i];
    assert(wf_in(oc, sn, (h - 1) as nat, lo_of(o, i, lo), hi_of(o, i, hi), sn, 2 * sn));
    assert forall|j: int| 0 <= j < n.pivots@.len() && j != i implies wf_in(#[trigger] n.pivots@[j], sn, (h - 1) as nat, lo_of(n, j, nlo), hi_of(n, j, nhi), sn, 2 * sn) by {
        assert(n.pivots@[j] == o.pivots@[j]);
        assert(wf_in(o.pivots@[j], sn, (h - 1) as nat, lo_of(o, j, lo), hi_of(o, j, hi), sn, 2 * sn));
    }
    assert(n.pivots@[i] == c);
    lemma_wf_bst(o, sn, h, lo, hi, mn, 2 * sn);
    if cmn == sn {
        assert(wf_in(n, sn, h, nlo, nhi, mn, 2 * sn));
        lemma_wf_bst(n, sn, h, nlo, nhi, mn, 2 * sn);
    } else {
        assert(wf_under(n, sn, h, nlo, nhi, mn, 2 * sn, i));
        lemma_under_bst(n, sn, h, nlo, nhi, mn, 2 * sn, i);
    }
    lemma_wf_bst(c, sn, (h - 1) as nat, lo_of(o, i, nlo), hi_of(o, i, nhi), cmn, 2 * sn);
    let rhs = content(o).remove(x);
    assert forall|k: u64| #[trigger] value_of(content(n), k) == value_of(rhs, k) by {
        lemma_bst_outside(n, h, nlo, nhi, k);
        lemma_bst_outside(o, h, lo, hi, k);
        lemma_bst_outside(c, (h - 1) as nat, lo_of(o, i, nlo), hi_of(o, i, nhi), k);
        assert(value_of(content(c), k) == value_of(content(oc).remove(x), k));
        if !(lo < k < hi) {
        } else if lo_of(o, i, lo) < k < hi_of(o, i, hi) {
            lemma_bst_child(o, h, lo, hi, i, k);
            if lo_of(o, i, nlo) < k < hi_of(o, i, nhi) {
                lemma_bst_child(n, h, nlo, nhi, i, k);
            }
        } else if exists|j: int| 0 <= j < o.keys@.len() && o.keys@[j].key == k {
            let j = choose|j: int| 0 <= j < o.keys@.len() && o.keys@[j].key == k;
            lemma_content_entry(o, j);
            lemma_content_entry(n, j);
            if j < i {
                assert(o.keys@[j].key <= o.keys@[i - 1].key);
            } else {
                assert(o.keys@[i].key <= o.keys@[j].key);
            }
        } else {
            lemma_slot(o, lo, hi, k);
            let t = choose|t: int| 0 <= t <= o.keys@.len() && #[trigger] lo_of(o, t, lo) < k < hi_of(o, t, hi);
            if t < i {
                assert(hi_of(o, t, hi) <= lo_of(o, i, lo));
            } else if t > i {
                assert(hi_of(o, i, hi) <= lo_of(o, t, lo));
            }
            lemma_bst_child(o, h, lo, hi, t, k);
            lemma_bst_child(n, h, nlo, nhi, t, k);
        }
    }
    lemma_ext(content(n), rhs);
}

#[verifier::rlimit(60)]
pub proof fn lemma_edge_content<V>(big: Node<V>, small: Node<V>, e: KeyVal<V>, c: Node<V>, front: bool, h: nat, lo: int, hi: int)
    requires
        edge(big, small, e, c, front),
        bst(big, h, lo, hi),
        front ==> bst(small, h, e.key as int, hi),
        !front ==> bst(small, h, lo, e.key as int),
        !big.is_leaf && front ==> bst(c, (h - 1) as nat, lo, e.key as int),
        !big.is_leaf && !front ==> bst(c, (h - 1) as nat, e.key as int, hi),
    ensures
        content(big) == edge_content(small, e, c, front),
{
    let len = big.keys@.len();
    if front {
        assert(forall|j: int| 0 <= j < small.keys@.len() ==> #[trigger] small.keys@[j] == big.keys@[j + 1]);
    } else {
        assert(forall|j: int| 0 <= j < small.keys@.len() ==> #[trigger] small.keys@[j] == big.keys@[j]);
    }
    let rhs = edge_content(small, e, c, front);
    let slo = if front { e.key as int } else { lo };
    let shi = if front { hi } else { e.key as int };
    assert forall|k: u64| #[trigger] value_of(content(big), k) == value_of(rhs, k) by {
        lemma_bst_outside(big, h, lo, hi, k);
        lemma_bst_outside(small, h, slo, shi, k);
        if !big.is_leaf {
            if front {
                lemma_bst_outside(c, (h - 1) as nat, lo, e.key as int, k);
            } else {
                lemma_bst_outside(c, (h - 1) as nat, e.key as int, hi, k);
            }
        }
        if k == e.key {
            lemma_content_entry(big, if front { 0 } else { len - 1 });
        } else if !(lo < k < hi) {
        } else if exists|j: int| 0 <= j < len && big.keys@[j].key == k {
            let j = choose|j: int| 0 <= j < len && big.keys@[j].key == k;
            lemma_content_entry(big, j);
            if front {
                lemma_content_entry(small, j - 1);
            } else {
                lemma_content_entry(small, j);
            }
        } else if big.is_leaf {
            lemma_content_leaf(big, k);
            lemma_content_leaf(small, k);
        } else {
            lemma_slot(big, lo, hi, k);
            let t = choose|t: int| 0 <= t <= len && #[trigger] lo_of(big, t, lo) < k < hi_of(big, t, hi);
            lemma_bst_child(big, h, lo, hi, t, k);
            if front {
                if t > 0 {
                    assert(big.pivots@[t] == small.pivots@[t - 1]);
                    lemma_bst_child(small, h, slo, shi, t - 1, k);
                }
            } else {
                if t < len {
                    assert(big.pivots@[t] == small.pivots@[t]);
                    lemma_bst_child(small, h, slo, shi, t, k);
                }
            }
        }
    }
    lemma_ext(content(big), rhs);
}

/// Taking an entry and an outer child off one end of a well-formed node.
pub proof fn lemma_edge_split<V>(big: Node<V>, small: Node<V>, e: KeyVal<V>, c: Node<V>, front: bool, sn: nat, h: nat, lo: int, hi: int, mn: nat, mx: nat)
    requires
        edge(big, small, e, c, front),
        wf_in(big, sn, h, lo, hi, mn, mx),
        1 <= mn,
    ensures
        lo < e.key < hi,
        front ==> wf_in(small, sn, h, e.key as int, hi, (mn - 1) as nat, mx),
        !front ==> wf_in(small, sn, h, lo, e.key as int, (mn - 1) as nat, mx),
        !big.is_leaf && front ==> wf_in(c, sn, (h - 1) as nat, lo, e.key as int, sn, 2 * sn),
        !big.is_leaf && !front ==> wf_in(c, sn, (h - 1) as nat, e.key as int, hi, sn, 2 * sn),
        content(big) == edge_content(small, e, c, front),
{
    let len = big.keys@.len();
    let slo = if front { e.key as int } else { lo };
    let shi = if front { hi } else { e.key as int };
    if front {
        assert(forall|j: int| 0 <= j < small.keys@.len() ==> #[trigger] small.keys@[j] == big.keys@[j + 1]);
    } else {
        assert(forall|j: int| 0 <= j < small.keys@.len() ==> #[trigger] small.keys@[j] == big.keys@[j]);
    }
    if !big.is_leaf {
        assert forall|j: int| 0 <= j < small.pivots@.len() implies wf_in(#[trigger] small.pivots@[j], sn, (h - 1) as nat, lo_of(small, j, slo), hi_of(small, j, shi), sn, 2 * sn) by {
            let bj = if front { j + 1 } else { j };
            assert(small.pivots@[j] == big.pivots@[bj]);
            assert(wf_in(big.pivots@[bj], sn, (h - 1) as nat, lo_of(big, bj, lo), hi_of(big, bj, hi), sn, 2 * sn));
        }
        if front {
            assert(wf_in(big.pivots@[0], sn, (h - 1) as nat, lo_of(big, 0, lo), hi_of(big, 0, hi), sn, 2 * sn));
        } else {
            assert(wf_in(big.pivots@[len as int], sn, (h - 1) as nat, lo_of(big, len as int, lo), hi_of(big, len as int, hi), sn, 2 * sn));
        }
    }
    assert(wf_in(small, sn, h, slo, shi, (mn - 1) as nat, mx));
    lemma_wf_bst(big, sn, h, lo, hi, mn, mx);
    lemma_wf_bst(small, sn, h, slo, shi, (mn - 1) as nat, mx);
    if !big.is_leaf {
        if front {
            lemma_wf_bst(c, sn, (h - 1) as nat, lo, e.key as int, sn, 2 * sn);
        } else {
            lemma_wf_bst(c, sn, (h - 1) as nat, e.key as int, hi, sn, 2 * sn);
        }
    }
    lemma_edge_content(big, small, e, c, front, h, lo, hi);
}

/// Putting an entry and an outer child on one end of a well-formed node.
pub proof fn lemma_edge_join<V>(big: Node<V>, small: Node<V>, e: KeyVal<V>, c: Node<V>, front: bool, sn: nat, h: nat, lo: int, hi: int, mn: nat, mx: nat)
    requires
        edge(big, small, e, c, front),
        lo < e.key < hi,
        front ==> wf_in(small, sn, h, e.key as int, hi, mn, mx),
        !front ==> wf_in(small, sn, h, lo, e.key as int, mn, mx),
        !big.is_leaf && front ==> wf_in(c, sn, (h - 1) as nat, lo, e.key as int, sn, 2 * sn),
        !big.is_leaf && !front ==> wf_in(c, sn, (h - 1) as nat, e.key as int, hi, sn, 2 * sn),
    ensures
        wf_in(big, sn, h, lo, hi, mn + 1, mx + 1),
        content(big) == edge_content(small, e, c, front),
{
    let len = big.keys@.len();
    let slo = if front { e.key as int } else { lo };
    let shi = if front { hi } else { e.key as int };
    if front {
        assert(forall|j: int| 1 <= j < len ==> #[trigger] big.keys@[j] == small.keys@[j - 1]);
    } else {
        assert(forall|j: int| 0 <= j < len - 1 ==> #[trigger] big.keys@[j] == small.keys@[j]);
    }
    assert forall|a: int, b: int| 0 <= a < b < len implies big.keys@[a].key < big.keys@[b].key by {
        if front && a == 0 {
            assert(big.keys@[b] == small.keys@[b - 1]);
        } else if !front && b == len - 1 {
            assert(big.keys@[a] == small.keys@[a]);
        }
    }
    if !big.is_leaf {
        assert forall|j: int| 0 <= j < big.pivots@.len() implies wf_in(#[trigger] big.pivots@[j], sn, (h - 1) as nat, lo_of(big, j, lo), hi_of(big, j, hi), sn, 2 * sn) by {
            if front && j > 0 {
                assert(big.pivots@[j] == small.pivots@[j - 1]);
                assert(wf_in(small.pivots@[j - 1], sn, (h - 1) as nat, lo_of(small, j - 1, slo), hi_of(small, j - 1, shi), sn, 2 * sn));
            } else if !front && j < len {
                assert(big.pivots@[j] == small.pivots@[j]);
                assert(wf_in(small.pivots@[j], sn, (h - 1) as nat, lo_of(small, j, slo), hi_of(small, j, shi), sn, 2 * sn));
            }
        }
    }
    assert forall|j: int| 0 <= j < len implies lo < #[trigger] big.keys@[j].key < hi by {
        if front && j > 0 {
            assert(big.keys@[j] == small.keys@[j - 1]);
        } else if !front && j < len - 1 {
            assert(big.keys@[j] == small.keys@[j]);
        }
    }
    assert(small.keys@.len() + 1 == len);
    assert(wf_in(big, sn, h, lo, hi, mn + 1, mx + 1));
    lemma_wf_bst(big, sn, h, lo, hi, mn + 1, mx + 1);
    lemma_wf_bst(small, sn, h, slo, shi, mn, mx);
    if !big.is_leaf {
        if front {
            lemma_wf_bst(c, sn, (h - 1) as nat, lo, e.key as int, sn, 2 * sn);
        } else {
            lemma_wf_bst(c, sn, (h - 1) as nat, e.key as int, hi, sn, 2 * sn);
        }
    }
    lemma_edge_content(big, small, e, c, front, h, lo, hi);
}

/// Moving the entry between two subtrees over by one entry (and one subtree `c`) keeps their
/// joined content.
pub proof fn lemma_rotate<V>(a: Node<V>, e: KeyVal<V>, c: Node<V>, e2: KeyVal<V>, b: Node<V>, leaf: bool, h: nat, lo: int, hi: int)
    requires
        lo < e.key < e2.key < hi,
        bst(a, h, lo, e.key as int),
        bst(b, h, e2.key as int, hi),
        !leaf ==> bst(c, (h - 1) as nat, e.key as int, e2.key as int),
    ensures
        ({
            let l = if leaf { content(a).insert(e.key, e.value) } else { joined(a, e, c) };
            let r = if leaf { content(b).insert(e2.key, e2.value) } else { joined(c, e2, b) };
            content(a).union_prefer_right(r).insert(e.key, e.value) == l.union_prefer_right(content(b)).insert(e2.key, e2.value)
        }),
{
    let l = if leaf { content(a).insert(e.key, e.value) } else { joined(a, e, c) };
    let r = if leaf { content(b).insert(e2.key, e2.value) } else { joined(c, e2, b) };
    let x = content(a).union_prefer_right(r).insert(e.key, e.value);
    let y = l.union_prefer_right(content(b)).insert(e2.key, e2.value);
    assert forall|k: u64| #[trigger] value_of(x, k) == value_of(y, k) by {
        lemma_bst_outside(a, h, lo, e.key as int, k);
        lemma_bst_outside(b, h, e2.key as int, hi, k);
        if !leaf {
            lemma_bst_outside(c, (h - 1) as nat, e.key as int, e2.key as int, k);
        }
    }
    lemma_ext(x, y);
}

/// Subtrees with equal contents have equal unions.
pub proof fn lemma_union_of_congruent<V>(a: Seq<Node<V>>, b: Seq<Node<V>>, j: nat)
    requires
        a.len() == b.len(),
        j <= a.len(),
        forall|t: int| 0 <= t < a.len() ==> content(#[trigger] a[t]) == content(b[t]),
    ensures
        union_of(a, j) == union_of(b, j),
    decreases j,
{
    if j > 0 {
        lemma_union_of_congruent(a, b, (j - 1) as nat);
        assert(content(a[j - 1]) == content(b[j - 1]));
    }
}

/// Removing entry `i` of a leaf removes its key from the content.
pub proof fn lemma_leaf_remove<V>(o: Node<V>, n: Node<V>, sn: nat, lo: int, hi: int, mn: nat, i: int)
    requires
        wf_in(o, sn, 1, lo, hi, mn, 2 * sn),
        o.is_leaf,
        0 <= i < o.keys@.len(),
        n.is_leaf,
        n.keys@ == o.keys@.remove(i),
        n.pivots@ == o.pivots@,
    ensures
        wf_in(n, sn, 1, lo, hi, pred(mn), 2 * sn),
        content(n) == content(o).remove(o.keys@[i].key),
        value_of(content(o), o.keys@[i].key) == Some(o.keys@[i].value),
{
    let e = o.keys@[i];
    assert(forall|j: int| 0 <= j < i ==> #[trigger] n.keys@[j] == o.keys@[j]);
    assert(forall|j: int| i <= j < n.keys@.len() ==> #[trigger] n.keys@[j] == o.keys@[j + 1]);
    assert forall|a: int, b: int| 0 <= a < b < n.keys@.len() implies n.keys@[a].key < n.keys@[b].key by {
        if a >= i {
            assert(n.keys@[a] == o.keys@[a + 1]);
        } else if b >= i {
            assert(n.keys@[b] == o.keys@[b + 1]);
        }
    }
    assert forall|j: int| 0 <= j < n.keys@.len() implies lo < #[trigger] n.keys@[j].key < hi by {
        if j >= i {
            assert(n.keys@[j] == o.keys@[j + 1]);
        }
    }
    assert(wf_in(n, sn, 1, lo, hi, pred(mn), 2 * sn));
    assert(forall|j: int| 0 <= j < i ==> #[trigger] n.keys@[j].key < e.key);
    assert forall|j: int| i <= j < n.keys@.len() implies e.key < #[trigger] n.keys@[j].key by {
        assert(n.keys@[j] == o.keys@[j + 1]);
    }
    lemma_entries_insert(n.keys@, i, e);
    assert(n.keys@.insert(i, e) =~= o.keys@);
    lemma_entries_map(n.keys@);
    if entries_map(n.keys@).contains_key(e.key) {
        let j = choose|j: int| 0 <= j < n.keys@.len() && n.keys@[j].key == e.key;
    }
    lemma_content_entry(o, i);
    assert(content(n) =~= content(o).remove(e.key));
}

/// An entry taken out of a subtree beside a separator can replace that separator.
pub proof fn lemma_donate<V>(a: Node<V>, b: Node<V>, a2: Node<V>, b2: Node<V>, e: KeyVal<V>, kv: KeyVal<V>, from_left: bool, h: nat, lo: int, hi: int)
    requires
        bst(a, h, lo, e.key as int),
        bst(b, h, e.key as int, hi),
        from_left ==> content(a2) == content(a).remove(kv.key) && content(b2) == content(b)
            && value_of(content(a), kv.key) == Some(kv.value) && bst(a2, h, lo, kv.key as int),
        !from_left ==> content(b2) == content(b).remove(kv.key) && content(a2) == content(a)
            && value_of(content(b), kv.key) == Some(kv.value) && bst(b2, h, kv.key as int, hi),
    ensures
        joined(a2, kv, b2) == joined(a, e, b).remove(e.key),
{
    if from_left {
        lemma_bst_bounds(a, h, lo, e.key as int, kv.key);
    } else {
        lemma_bst_bounds(b, h, e.key as int, hi, kv.key);
    }
    let x = joined(a2, kv, b2);
    let y = joined(a, e, b).remove(e.key);
    assert forall|k: u64| #[trigger] value_of(x, k) == value_of(y, k) by {
        lemma_bst_outside(a, h, lo, e.key as int, k);
        lemma_bst_outside(b, h, e.key as int, hi, k);
        if from_left {
            lemma_bst_outside(a2, h, lo, kv.key as int, k);
        } else {
            lemma_bst_outside(b2, h, kv.key as int, hi, k);
        }
    }
    lemma_ext(x, y);
}

} // verus!
