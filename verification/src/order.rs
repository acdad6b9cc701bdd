//! Document order, and the paths of a tree in that order.

use vstd::prelude::*;
use crate::node::{ContentView, NodeView};

verus! {

/// `p` and `q` take the same first `k` steps, and then `p` ends while `q` goes on, or `p`
/// takes a step to the left of that of `q`.
pub open spec fn parts_at(p: Seq<int>, q: Seq<int>, k: int) -> bool {
    &&& 0 <= k <= p.len()
    &&& k < q.len()
    &&& p.take(k) == q.take(k)
    &&& (k == p.len() || p[k] < q[k])
}

/// The element at `p` comes before the element at `q` in document order: it is an ancestor
/// of it, or it stands to the left of it.
pub open spec fn precedes(p: Seq<int>, q: Seq<int>) -> bool {
    exists|k: int| parts_at(p, q, k)
}

/// `p` goes through `base`, and where it goes on, its next step is one of the first `n`
/// positions.
pub open spec fn within(base: Seq<int>, p: Seq<int>, n: nat) -> bool {
    &&& base.len() <= p.len()
    &&& p.take(base.len() as int) == base
    &&& (p.len() > base.len() ==> p[base.len() as int] < n)
}

/// A path that leads to an element does so through elements: each of its prefixes leads to
/// one too.
pub proof fn lemma_descend_prefix(root: NodeView, path: Seq<int>, k: int)
    requires
        0 <= k <= path.len(),
        root.descend(path).is_some(),
    ensures
        root.descend(path.take(k)).is_some(),
    decreases path.len(),
{
    if k == path.len() {
        assert(path.take(k) =~= path);
    } else {
        assert(path.drop_last().take(k) =~= path.take(k));
        lemma_descend_prefix(root, path.drop_last(), k);
    }
}

/// The paths of an element and of what is under its first `n` items open the listing of its
/// whole subtree.
pub proof fn lemma_paths_open(node: NodeView, base: Seq<int>, n: nat, m: nat)
    requires
        n <= m <= node.content.len(),
    ensures
        exists|rest: Seq<Seq<int>>| node.paths_upto(base, m) == node.paths_upto(base, n) + rest,
    decreases m,
{
    if n == m {
        assert(node.paths_upto(base, m) =~= node.paths_upto(base, n) + Seq::empty());
    } else {
        lemma_paths_open(node, base, n, (m - 1) as nat);
        let before = node.paths_upto(base, (m - 1) as nat);
        let rest = choose|rest: Seq<Seq<int>>| before == node.paths_upto(base, n) + rest;
        let last = node.paths_upto(base, m).skip(before.len() as int);
        assert(node.paths_upto(base, m) =~= node.paths_upto(base, n) + (rest + last));
    }
}

/// No path comes before itself.
pub proof fn lemma_precedes_irreflexive(p: Seq<int>)
    ensures
        !precedes(p, p),
{
}

/// Where one path comes before another, the other does not come before the one.
pub proof fn lemma_precedes_asymmetric(p: Seq<int>, q: Seq<int>)
    requires
        precedes(p, q),
    ensures
        !precedes(q, p),
{
    let a = choose|k: int| parts_at(p, q, k);
    if precedes(q, p) {
        let b = choose|k: int| parts_at(q, p, k);
        if a < b {
            assert(q.take(b)[a] == p.take(b)[a]);
        } else if b < a {
            assert(p.take(a)[b] == q.take(a)[b]);
        }
    }
}

/// What comes before a path comes before all that the path comes before.
pub proof fn lemma_precedes_transitive(p: Seq<int>, q: Seq<int>, r: Seq<int>)
    requires
        precedes(p, q),
        precedes(q, r),
    ensures
        precedes(p, r),
{
    let a = choose|k: int| parts_at(p, q, k);
    let b = choose|k: int| parts_at(q, r, k);
    if a < b {
        assert(q.take(b)[a] == r.take(b)[a]);
        assert(q.take(a) =~= q.take(b).take(a));
        assert(r.take(a) =~= r.take(b).take(a));
        assert(parts_at(p, r, a));
    } else if b < a {
        assert(p.take(a)[b] == q.take(a)[b]);
        assert(p.take(b) =~= p.take(a).take(b));
        assert(q.take(b) =~= q.take(a).take(b));
        assert(parts_at(p, r, b));
    } else {
        assert(parts_at(p, r, a));
    }
}

/// Two paths that take the same first `k` steps and are not the same part somewhere.
proof fn lemma_parts_somewhere(p: Seq<int>, q: Seq<int>, k: int)
    requires
        p != q,
        0 <= k <= p.len(),
        k <= q.len(),
        p.take(k) == q.take(k),
    ensures
        precedes(p, q) || precedes(q, p),
    decreases p.len() - k,
{
    if k == p.len() || k == q.len() {
        if p.len() == q.len() {
            assert(p.take(k) =~= p);
            assert(q.take(k) =~= q);
        } else if k == p.len() {
            assert(parts_at(p, q, k));
        } else {
            assert(parts_at(q, p, k));
        }
    } else if p[k] < q[k] {
        assert(parts_at(p, q, k));
    } else if q[k] < p[k] {
        assert(parts_at(q, p, k));
    } else {
        assert(p.take(k + 1) =~= p.take(k).push(p[k]));
        assert(q.take(k + 1) =~= q.take(k).push(q[k]));
        lemma_parts_somewhere(p, q, k + 1);
    }
}

/// Of two different paths, one comes before the other.
pub proof fn lemma_precedes_total(p: Seq<int>, q: Seq<int>)
    requires
        p != q,
    ensures
        precedes(p, q) || precedes(q, p),
{
    assert(p.take(0) =~= q.take(0));
    lemma_parts_somewhere(p, q, 0);
}

/// The paths of an element and of what is under it start with the element's own path.
pub proof fn lemma_paths_first(node: NodeView, base: Seq<int>, n: nat)
    ensures
        node.paths_upto(base, n).len() > 0,
        node.paths_upto(base, n)[0] == base,
    decreases n,
{
    if !(n == 0 || n > node.content.len()) {
        lemma_paths_first(node, base, (n - 1) as nat);
    }
}

/// Each path of an element and of what is under its first `n` items goes through the
/// element's own path, and on through one of those items.
pub proof fn lemma_paths_within(node: NodeView, base: Seq<int>, n: nat)
    ensures
        forall|i: int|
            0 <= i < node.paths_upto(base, n).len() ==> within(
                base,
                #[trigger] node.paths_upto(base, n)[i],
                n,
            ),
    decreases node, n,
{
    let all = node.paths_upto(base, n);
    if n == 0 || n > node.content.len() {
        assert(base.take(base.len() as int) =~= base);
    } else {
        let k = (n - 1) as nat;
        let first = node.paths_upto(base, k);
        lemma_paths_within(node, base, k);
        match node.content[n - 1] {
            ContentView::Text(_) => {
                assert(all =~= first);
            },
            ContentView::Element(c) => {
                let inner = base.push(k as int);
                let under = c.subtree(inner);
                lemma_paths_within(c, inner, c.content.len());
                assert forall|i: int| 0 <= i < all.len() implies within(base, #[trigger] all[i], n) by {
                    if i < first.len() {
                        assert(all[i] == first[i]);
                    } else {
                        let p = under[i - first.len()];
                        assert(all[i] == p);
                        assert(within(inner, p, c.content.len()));
                        assert(p.take(base.len() as int) =~= inner.take(base.len() as int));
                        assert(inner.take(base.len() as int) =~= base);
                        assert(p[base.len() as int] == p.take(inner.len() as int)[base.len() as int]);
                    }
                }
            },
        }
    }
}

/// The paths of an element and of what is under it are listed in document order.
pub proof fn lemma_paths_sorted(node: NodeView, base: Seq<int>, n: nat)
    ensures
        forall|i: int, j: int|
            0 <= i < j < node.paths_upto(base, n).len() ==> precedes(
                #[trigger] node.paths_upto(base, n)[i],
                #[trigger] node.paths_upto(base, n)[j],
            ),
    decreases node, n,
{
    let all = node.paths_upto(base, n);
    if !(n == 0 || n > node.content.len()) {
        let k = (n - 1) as nat;
        let first = node.paths_upto(base, k);
        lemma_paths_sorted(node, base, k);
        match node.content[n - 1] {
            ContentView::Text(_) => {
                assert(all =~= first);
            },
            ContentView::Element(c) => {
                let inner = base.push(k as int);
                let under = c.subtree(inner);
                lemma_paths_sorted(c, inner, c.content.len());
                lemma_paths_within(node, base, k);
                lemma_paths_within(c, inner, c.content.len());
                assert forall|i: int, j: int| 0 <= i < j < all.len() implies precedes(
                    #[trigger] all[i],
                    #[trigger] all[j],
                ) by {
                    if j < first.len() {
                        assert(all[i] == first[i] && all[j] == first[j]);
                    } else if i >= first.len() {
                        assert(all[i] == under[i - first.len()]);
                        assert(all[j] == under[j - first.len()]);
                    } else {
                        let p = first[i];
                        let q = under[j - first.len()];
                        assert(all[i] == p && all[j] == q);
                        assert(within(base, p, k));
                        assert(within(inner, q, c.content.len()));
                        let b = base.len() as int;
                        assert(q.take(b) =~= inner.take(b));
                        assert(inner.take(b) =~= base);
                        assert(q[b] == q.take(inner.len() as int)[b]);
                        assert(parts_at(p, q, b));
                    }
                }
            },
        }
    }
}

/// Each path of an element and of what is under it leads to an element.
pub proof fn lemma_paths_lead(root: NodeView, node: NodeView, base: Seq<int>, n: nat)
    requires
        root.descend(base) == Some(node),
    ensures
        forall|i: int|
            0 <= i < node.paths_upto(base, n).len() ==> root.descend(
                #[trigger] node.paths_upto(base, n)[i],
            ).is_some(),
    decreases node, n,
{
    let all = node.paths_upto(base, n);
    if !(n == 0 || n > node.content.len()) {
        let k = (n - 1) as nat;
        let first = node.paths_upto(base, k);
        lemma_paths_lead(root, node, base, k);
        match node.content[n - 1] {
            ContentView::Text(_) => {
                assert(all =~= first);
            },
            ContentView::Element(c) => {
                let inner = base.push(k as int);
                let under = c.subtree(inner);
                assert(inner.drop_last() =~= base);
                assert(root.descend(inner) == Some(c));
                lemma_paths_lead(root, c, inner, c.content.len());
                assert forall|i: int| 0 <= i < all.len() implies root.descend(
                    #[trigger] all[i],
                ).is_some() by {
                    if i < first.len() {
                        assert(all[i] == first[i]);
                    } else {
                        assert(all[i] == under[i - first.len()]);
                    }
                }
            },
        }
    }
}

/// The paths of an element and of what is under its first `n` items hold all the paths of
/// the child element at position `k`, where `k` is one of those items.
pub proof fn lemma_paths_include(node: NodeView, base: Seq<int>, n: nat, k: int, p: Seq<int>)
    requires
        0 <= k < n <= node.content.len(),
        node.child_at(k).is_some(),
        node.child_at(k).unwrap().subtree(base.push(k)).contains(p),
    ensures
        node.paths_upto(base, n).contains(p),
    decreases n,
{
    let all = node.paths_upto(base, n);
    let first = node.paths_upto(base, (n - 1) as nat);
    if k + 1 == n {
        let under = node.child_at(k).unwrap().subtree(base.push(k));
        let i = choose|i: int| 0 <= i < under.len() && under[i] == p;
        assert(all[first.len() + i] == p);
    } else {
        lemma_paths_include(node, base, (n - 1) as nat, k, p);
        let i = choose|i: int| 0 <= i < first.len() && first[i] == p;
        assert(all[i] == p);
    }
}

/// Every path that goes through an element's own path and leads to an element is among the
/// paths of that element and of what is under it.
pub proof fn lemma_paths_complete(root: NodeView, node: NodeView, base: Seq<int>, p: Seq<int>)
    requires
        root.descend(base) == Some(node),
        base.len() <= p.len(),
        p.take(base.len() as int) == base,
        root.descend(p).is_some(),
    ensures
        node.subtree(base).contains(p),
    decreases node,
{
    let all = node.subtree(base);
    if p.len() == base.len() {
        assert(p.take(base.len() as int) =~= p);
        lemma_paths_first(node, base, node.content.len());
        assert(all[0] == p);
    } else {
        let b = base.len() as int;
        let k = p[b];
        let inner = base.push(k);
        assert(p.take(b + 1) =~= inner);
        assert(inner.drop_last() =~= base);
        lemma_descend_prefix(root, p, b + 1);
        let c = node.child_at(k).unwrap();
        assert(root.descend(inner) == Some(c));
        lemma_paths_complete(root, c, inner, p);
        lemma_paths_include(node, base, node.content.len(), k, p);
    }
}

impl NodeView {
    /// The listing of a tree holds the paths that lead to an element, and no others; it holds
    /// them in document order, and so each of them once.
    pub proof fn lemma_preorder(self)
        ensures
            forall|p: Seq<int>| #[trigger] self.preorder().contains(p) <==> self.descend(p).is_some(),
            forall|i: int, j: int|
                0 <= i < j < self.preorder().len() ==> precedes(
                    #[trigger] self.preorder()[i],
                    #[trigger] self.preorder()[j],
                ),
            self.preorder().no_duplicates(),
    {
        let all = self.preorder();
        let top = Seq::<int>::empty();
        lemma_paths_sorted(self, top, self.content.len());
        lemma_paths_lead(self, self, top, self.content.len());
        assert forall|p: Seq<int>| #[trigger] all.contains(p) <==> self.descend(p).is_some() by {
            if self.descend(p).is_some() {
                assert(p.take(0) =~= top);
                lemma_paths_complete(self, self, top, p);
            }
        }
        assert forall|i: int, j: int| 0 <= i < all.len() && 0 <= j < all.len() && i != j implies all[i]
            != all[j] by {
            lemma_precedes_irreflexive(all[i]);
            if i < j {
                assert(precedes(all[i], all[j]));
            } else {
                assert(precedes(all[j], all[i]));
            }
        }
    }
}

} // verus!
