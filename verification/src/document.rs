//! A document: a tree of elements, and the search for those that satisfy a predicate.

use vstd::prelude::*;
use crate::chars::str_eq;
use crate::node::{lemma_node_view, Content, Node, NodeView};
use crate::order::{lemma_descend_prefix, lemma_paths_open, precedes};
use crate::predicate::{Predicate, PredicateView};

verus! {

/// A tree of elements under one root.
#[derive(Debug, PartialEq, Eq)]
pub struct Document {
    pub root: Node,
}

impl View for Document {
    type V = NodeView;

    /// What a document is: what its root is.
    open spec fn view(&self) -> NodeView {
        self.root@
    }
}

impl Clone for Document {
    fn clone(&self) -> (r: Document)
        ensures
            r@ == self@,
    {
        Document { root: self.root.clone() }
    }
}

/// An element found in a document: where it stands, and the element itself.
#[derive(Clone, Debug, PartialEq, Eq)]
pub struct Match<'a> {
    /// The path from the root to the element: at each step, the position of the next
    /// element in the content of the one before.
    pub path: Vec<usize>,
    /// The element.
    pub node: &'a Node,
}

/// No element satisfies the predicate, where a caller asked for one.
#[derive(Clone, Copy, Debug, PartialEq, Eq)]
pub struct EmptyResult;

impl EmptyResult {
    /// The error in words.
    pub fn message(&self) -> (r: String)
        ensures
            r@ == "no element matches the predicate"@,
    {
        String::from_str("no element matches the predicate")
    }
}

/// The steps of `path`, as numbers.
pub open spec fn steps(path: Seq<usize>) -> Seq<int> {
    path.map_values(|step: usize| step as int)
}

/// The test that `predicate` makes of the paths of the tree under `root`.
pub open spec fn matching(predicate: PredicateView, root: NodeView) -> spec_fn(Seq<int>) -> bool {
    |path: Seq<int>| predicate.holds(root, path)
}

/// The paths of `found`, in order.
pub open spec fn paths_of(found: Seq<Match<'_>>) -> Seq<Seq<int>> {
    found.map_values(|m: Match<'_>| steps(m.path@))
}

/// Each of `found` is the element of the tree under `root` that its path leads to.
pub open spec fn found_in(found: Seq<Match<'_>>, root: NodeView) -> bool {
    forall|i: int|
        0 <= i < found.len() ==> root.descend(steps((#[trigger] found[i]).path@)) == Some(
            found[i].node@,
        )
}

impl NodeView {
    /// The paths of all the elements of the tree under this one, in document order: every
    /// element before its descendants, and the children of one element from left to right.
    pub open spec fn preorder(self) -> Seq<Seq<int>> {
        self.subtree(Seq::empty())
    }

    /// The paths of the elements of the tree under this one of which `predicate` holds, in
    /// document order.
    pub open spec fn find(self, predicate: PredicateView) -> Seq<Seq<int>> {
        self.preorder().filter(matching(predicate, self))
    }
}

/// `chain` holds the elements on the way from `root` along `path`, the root first.
spec fn is_chain(chain: Seq<&Node>, root: NodeView, path: Seq<int>) -> bool {
    &&& chain.len() == path.len() + 1
    &&& forall|k: int|
        0 <= k <= path.len() ==> root.descend(path.take(k)) == Some((#[trigger] chain[k])@)
}

/// What a search finds under the first `n` items of an element, it finds at the same place
/// in the whole subtree.
proof fn lemma_found_early(
    node: NodeView,
    base: Seq<int>,
    n: nat,
    test: spec_fn(Seq<int>) -> bool,
    k: int,
)
    requires
        n <= node.content.len(),
        0 <= k < node.paths_upto(base, n).filter(test).len(),
    ensures
        k < node.subtree(base).filter(test).len(),
        node.subtree(base).filter(test)[k] == node.paths_upto(base, n).filter(test)[k],
{
    lemma_paths_open(node, base, n, node.content.len());
    let first = node.paths_upto(base, n);
    let rest = choose|rest: Seq<Seq<int>>| node.subtree(base) == first + rest;
    Seq::filter_distributes_over_add(first, rest, test);
}

/// A chain that ends with the element at `path` goes on, through position `i` of its
/// content, to the child element there.
proof fn lemma_chain_push(chain: Seq<&Node>, root: NodeView, path: Seq<int>, i: int, child: &Node)
    requires
        is_chain(chain, root, path),
        chain.last()@.child_at(i) == Some(child@),
    ensures
        is_chain(chain.push(child), root, path.push(i)),
{
    let longer = path.push(i);
    let next = chain.push(child);
    assert forall|k: int| 0 <= k <= longer.len() implies root.descend(longer.take(k)) == Some(
        (#[trigger] next[k])@,
    ) by {
        if k <= path.len() {
            assert(longer.take(k) =~= path.take(k));
        } else {
            assert(longer.take(k) =~= longer);
            assert(longer.drop_last() =~= path);
            assert(path.take(path.len() as int) =~= path);
        }
    }
}

/// The chain of a document's root alone.
proof fn lemma_chain_root(chain: Seq<&Node>, root: NodeView)
    requires
        chain.len() == 1,
        chain[0]@ == root,
    ensures
        is_chain(chain, root, Seq::empty()),
{
}

/// Whether `predicate` holds of the element at position `depth` of `chain`.
fn holds_at(
    predicate: &Predicate,
    chain: &Vec<&Node>,
    depth: usize,
    Ghost(root): Ghost<NodeView>,
    Ghost(path): Ghost<Seq<int>>,
) -> (r: bool)
    requires
        is_chain(chain@, root, path),
        depth < chain@.len(),
    ensures
        r == predicate@.holds(root, path.take(depth as int)),
    decreases predicate, 0nat,
{
    let node = chain[depth];
    let ghost here = path.take(depth as int);
    match predicate {
        Predicate::Name(name) => str_eq(node.name.as_str(), name.as_str()),
        Predicate::Class(class) => node.has_class(class.as_str()),
        Predicate::Attr(name, value) => match node.attr(name.as_str()) {
            Some(v) => str_eq(v, value.as_str()),
            None => false,
        },
        Predicate::And(a, b) => holds_at(a, chain, depth, Ghost(root), Ghost(path)) && holds_at(
            b,
            chain,
            depth,
            Ghost(root),
            Ghost(path),
        ),
        Predicate::Or(a, b) => holds_at(a, chain, depth, Ghost(root), Ghost(path)) || holds_at(
            b,
            chain,
            depth,
            Ghost(root),
            Ghost(path),
        ),
        Predicate::Not(a) => !holds_at(a, chain, depth, Ghost(root), Ghost(path)),
        Predicate::Child(parent, child) => {
            if depth == 0 || !holds_at(child, chain, depth, Ghost(root), Ghost(path)) {
                false
            } else {
                assert(here.drop_last() =~= path.take(depth - 1));
                holds_at(parent, chain, depth - 1, Ghost(root), Ghost(path))
            }
        },
        Predicate::Descendant(ancestor, child) => {
            assert(forall|k: int|
                #![trigger here.take(k)]
                #![trigger path.take(k)]
                0 <= k < depth ==> here.take(k) == path.take(k));
            holds_at(child, chain, depth, Ghost(root), Ghost(path)) && holds_above(
                ancestor,
                chain,
                depth,
                Ghost(root),
                Ghost(path),
            )
        },
    }
}

/// Whether `predicate` holds of one of the first `depth` elements of `chain`.
fn holds_above(
    predicate: &Predicate,
    chain: &Vec<&Node>,
    depth: usize,
    Ghost(root): Ghost<NodeView>,
    Ghost(path): Ghost<Seq<int>>,
) -> (r: bool)
    requires
        is_chain(chain@, root, path),
        depth < chain@.len(),
    ensures
        r == exists|k: int| 0 <= k < depth && predicate@.holds(root, #[trigger] path.take(k)),
    decreases predicate, 1 + depth,
{
    if depth == 0 {
        false
    } else if holds_at(predicate, chain, depth - 1, Ghost(root), Ghost(path)) {
        true
    } else {
        holds_above(predicate, chain, depth - 1, Ghost(root), Ghost(path))
    }
}

/// Adds to `found` the elements among `node` and its descendants of which `predicate` holds,
/// in document order. `chain` ends with `node`, which stands at `path`.
fn collect<'a>(
    node: &'a Node,
    predicate: &Predicate,
    chain: &mut Vec<&'a Node>,
    path: &mut Vec<usize>,
    found: &mut Vec<Match<'a>>,
    Ghost(root): Ghost<NodeView>,
)
    requires
        is_chain(old(chain)@, root, steps(old(path)@)),
        old(chain)@.last() == node,
        found_in(old(found)@, root),
    ensures
        final(chain)@ == old(chain)@,
        final(path)@ == old(path)@,
        found_in(final(found)@, root),
        paths_of(final(found)@) == paths_of(old(found)@) + node@.subtree(
            steps(old(path)@),
        ).filter(matching(predicate@, root)),
    decreases node,
{
    let ghost test = matching(predicate@, root);
    let ghost before = paths_of(found@);
    let ghost entry = path@;
    let ghost base = steps(path@);
    let ghost above = chain@;
    assert(base.take(base.len() as int) =~= base);
    if holds_at(predicate, chain, chain.len() - 1, Ghost(root), Ghost(base)) {
        found.push(Match { path: path.clone(), node });
    }
    proof {
        lemma_node_view(*node);
        reveal_with_fuel(Seq::filter, 2);
        assert(seq![base].filter(test) =~= if test(base) {
            seq![base]
        } else {
            Seq::<Seq<int>>::empty()
        });
    }
    let mut i: usize = 0;
    while i < node.content.len()
        invariant
            i <= node.content@.len(),
            node@.content == node.content@.map_values(|item: Content| item@),
            chain@ == above,
            path@ == entry,
            base == steps(entry),
            is_chain(above, root, base),
            above.last() == node,
            test == matching(predicate@, root),
            found_in(found@, root),
            paths_of(found@) == before + node@.paths_upto(base, i as nat).filter(test),
        decreases node.content@.len() - i,
    {
        let ghost so_far = node@.paths_upto(base, i as nat);
        match &node.content[i] {
            Content::Text(_) => {},
            Content::Element(child) => {
                chain.push(child);
                path.push(i);
                proof {
                    lemma_chain_push(above, root, base, i as int, child);
                    assert(steps(path@) =~= base.push(i as int));
                }
                collect(child, predicate, chain, path, found, Ghost(root));
                chain.pop();
                path.pop();
                proof {
                    let under = child@.subtree(base.push(i as int));
                    Seq::filter_distributes_over_add(so_far, under, test);
                }
            },
        }
        i += 1;
    }
}

/// Looks among `node` and its descendants for the element that comes after `skip` others of
/// those of which `predicate` holds, in document order. Where there are no more than `skip`
/// of them, gives their number. `chain` ends with `node`, which stands at `path`.
fn seek<'a>(
    node: &'a Node,
    predicate: &Predicate,
    chain: &mut Vec<&'a Node>,
    path: &mut Vec<usize>,
    skip: usize,
    Ghost(root): Ghost<NodeView>,
) -> (r: Result<Match<'a>, usize>)
    requires
        is_chain(old(chain)@, root, steps(old(path)@)),
        old(chain)@.last() == node,
    ensures
        match r {
            Ok(m) => {
                &&& skip < node@.subtree(steps(old(path)@)).filter(matching(predicate@, root)).len()
                &&& steps(m.path@) == node@.subtree(steps(old(path)@)).filter(
                    matching(predicate@, root),
                )[skip as int]
                &&& root.descend(steps(m.path@)) == Some(m.node@)
            },
            Err(count) => {
                &&& count == node@.subtree(steps(old(path)@)).filter(
                    matching(predicate@, root),
                ).len()
                &&& count <= skip
                &&& final(chain)@ == old(chain)@
                &&& final(path)@ == old(path)@
            },
        },
    decreases node,
{
    let ghost test = matching(predicate@, root);
    let ghost base = steps(path@);
    let ghost above = chain@;
    let ghost entry = path@;
    let mut count: usize = 0;
    assert(base.take(base.len() as int) =~= base);
    proof {
        lemma_node_view(*node);
        reveal_with_fuel(Seq::filter, 2);
        assert(seq![base].filter(test) =~= if test(base) {
            seq![base]
        } else {
            Seq::<Seq<int>>::empty()
        });
    }
    if holds_at(predicate, chain, chain.len() - 1, Ghost(root), Ghost(base)) {
        if skip == 0 {
            proof {
                lemma_found_early(node@, base, 0, test, 0);
            }
            return Ok(Match { path: path.clone(), node });
        }
        count = 1;
    }
    let mut i: usize = 0;
    while i < node.content.len()
        invariant
            i <= node.content@.len(),
            node@.content == node.content@.map_values(|item: Content| item@),
            chain@ == above,
            path@ == entry,
            entry == old(path)@,
            base == steps(entry),
            is_chain(above, root, base),
            above.last() == node,
            test == matching(predicate@, root),
            count == node@.paths_upto(base, i as nat).filter(test).len(),
            count <= skip,
        decreases node.content@.len() - i,
    {
        let ghost so_far = node@.paths_upto(base, i as nat);
        match &node.content[i] {
            Content::Text(_) => {},
            Content::Element(child) => {
                chain.push(child);
                path.push(i);
                proof {
                    lemma_chain_push(above, root, base, i as int, child);
                    assert(steps(path@) =~= base.push(i as int));
                    let under = child@.subtree(base.push(i as int));
                    Seq::filter_distributes_over_add(so_far, under, test);
                }
                match seek(child, predicate, chain, path, skip - count, Ghost(root)) {
                    Ok(m) => {
                        proof {
                            lemma_found_early(node@, base, (i + 1) as nat, test, skip as int);
                        }
                        return Ok(m);
                    },
                    Err(more) => {
                        count += more;
                    },
                }
                chain.pop();
                path.pop();
            },
        }
        i += 1;
    }
    Err(count)
}

impl Document {
    /// The document whose tree is `root` and all under it.
    pub fn new(root: Node) -> (r: Document)
        ensures
            r@ == root@,
    {
        Document { root }
    }

    /// The root of the tree.
    pub fn root(&self) -> (r: &Node)
        ensures
            r@ == self@,
    {
        &self.root
    }

    /// The elements on the way from the root along `path`, the root first, where the path
    /// leads to an element.
    fn chain_to<'a>(&'a self, path: &[usize]) -> (r: Option<Vec<&'a Node>>)
        ensures
            match r {
                Some(chain) => is_chain(chain@, self@, steps(path@)),
                None => self@.descend(steps(path@)).is_none(),
            },
    {
        let ghost way = steps(path@);
        let mut chain: Vec<&'a Node> = Vec::new();
        chain.push(&self.root);
        let mut k: usize = 0;
        while k < path.len()
            invariant
                k <= path@.len(),
                way == steps(path@),
                chain@.len() == k + 1,
                forall|j: int|
                    0 <= j <= k ==> self@.descend(way.take(j)) == Some((#[trigger] chain@[j])@),
            decreases path@.len() - k,
        {
            let here: &'a Node = chain[k];
            let step = path[k];
            proof {
                lemma_node_view(*here);
                assert(way.take(k + 1).drop_last() =~= way.take(k as int));
                if self@.descend(way).is_some() {
                    lemma_descend_prefix(self@, way, k + 1);
                }
            }
            if step >= here.content.len() {
                return None;
            }
            match &here.content[step] {
                Content::Text(_) => {
                    return None;
                },
                Content::Element(child) => {
                    chain.push(child);
                },
            }
            k += 1;
        }
        Some(chain)
    }

    /// The element at `path`, or `None` where the path leads to no element.
    pub fn node<'a>(&'a self, path: &[usize]) -> (r: Option<&'a Node>)
        ensures
            match r {
                Some(node) => self@.descend(steps(path@)) == Some(node@),
                None => self@.descend(steps(path@)).is_none(),
            },
    {
        match self.chain_to(path) {
            Some(chain) => {
                assert(steps(path@).take(path@.len() as int) =~= steps(path@));
                Some(chain[path.len()])
            },
            None => None,
        }
    }

    /// The parent of the element at `path`: the element at `path` without its last step.
    /// `None` where `path` leads to no element, or to the root.
    pub fn parent<'a>(&'a self, path: &[usize]) -> (r: Option<&'a Node>)
        ensures
            match r {
                Some(node) => {
                    &&& path@.len() > 0
                    &&& self@.descend(steps(path@)).is_some()
                    &&& self@.descend(steps(path@).drop_last()) == Some(node@)
                },
                None => path@.len() == 0 || self@.descend(steps(path@)).is_none(),
            },
    {
        if path.len() == 0 {
            return None;
        }
        match self.chain_to(path) {
            Some(chain) => {
                let ghost way = steps(path@);
                assert(way.take(way.len() as int) =~= way);
                assert(self@.descend(way) == Some(chain@[way.len() as int]@));
                Some(chain[path.len() - 1])
            },
            None => None,
        }
    }

    /// Whether `path` leads to an element of which `predicate` holds.
    pub fn evaluate(&self, predicate: &Predicate, path: &[usize]) -> (r: bool)
        ensures
            r == (self@.descend(steps(path@)).is_some() && predicate@.holds(self@, steps(path@))),
    {
        match self.chain_to(path) {
            Some(chain) => {
                let ghost way = steps(path@);
                assert(way.take(way.len() as int) =~= way);
                assert(self@.descend(way) == Some(chain@[way.len() as int]@));
                holds_at(predicate, &chain, path.len(), Ghost(self@), Ghost(way))
            },
            None => false,
        }
    }

    /// The element that comes after `n` others of those of which `predicate` holds, in
    /// document order, with its path: what [`Document::find`] gives at position `n`. `None`
    /// where no more than `n` elements satisfy the predicate. The search stops at the element
    /// that it gives.
    pub fn find_nth<'a>(&'a self, predicate: &Predicate, n: usize) -> (r: Option<Match<'a>>)
        ensures
            match r {
                Some(m) => {
                    &&& n < self@.find(predicate@).len()
                    &&& steps(m.path@) == self@.find(predicate@)[n as int]
                    &&& self@.descend(steps(m.path@)) == Some(m.node@)
                },
                None => self@.find(predicate@).len() <= n,
            },
    {
        let mut chain: Vec<&'a Node> = Vec::new();
        chain.push(&self.root);
        let mut path: Vec<usize> = Vec::new();
        proof {
            assert(steps(path@) =~= Seq::<int>::empty());
            lemma_chain_root(chain@, self@);
        }
        match seek(&self.root, predicate, &mut chain, &mut path, n, Ghost(self@)) {
            Ok(m) => Some(m),
            Err(_) => None,
        }
    }

    /// The first element, in document order, of which `predicate` holds, with its path, for
    /// a caller that needs one. Fails with [`EmptyResult`] where no element satisfies the
    /// predicate.
    pub fn find_first<'a>(&'a self, predicate: &Predicate) -> (r: Result<Match<'a>, EmptyResult>)
        ensures
            match r {
                Ok(m) => {
                    &&& 0 < self@.find(predicate@).len()
                    &&& steps(m.path@) == self@.find(predicate@)[0]
                    &&& self@.descend(steps(m.path@)) == Some(m.node@)
                },
                Err(_) => self@.find(predicate@).len() == 0,
            },
    {
        match self.find_nth(predicate, 0) {
            Some(m) => Ok(m),
            None => Err(EmptyResult),
        }
    }

    /// The elements of which `predicate` holds, each with its path, in document order: every
    /// element before its descendants and before what stands to its right. No element is
    /// listed twice.
    pub fn find<'a>(&'a self, predicate: &Predicate) -> (found: Vec<Match<'a>>)
        ensures
            paths_of(found@) == self@.find(predicate@),
            found_in(found@, self@),
            forall|p: Seq<int>| #[trigger]
                paths_of(found@).contains(p) <==> self@.descend(p).is_some() && predicate@.holds(
                    self@,
                    p,
                ),
            forall|i: int, j: int|
                0 <= i < j < found@.len() ==> precedes(
                    #[trigger] paths_of(found@)[i],
                    #[trigger] paths_of(found@)[j],
                ),
            paths_of(found@).no_duplicates(),
    {
        let mut chain: Vec<&'a Node> = Vec::new();
        chain.push(&self.root);
        let mut path: Vec<usize> = Vec::new();
        let mut found: Vec<Match<'a>> = Vec::new();
        proof {
            assert(steps(path@) =~= Seq::<int>::empty());
            lemma_chain_root(chain@, self@);
        }
        collect(&self.root, predicate, &mut chain, &mut path, &mut found, Ghost(self@));
        proof {
            self@.lemma_find_in_document_order(predicate@);
        }
        found
    }
}

} // verus!
