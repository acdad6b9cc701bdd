//! Predicates on an element and its ancestors.

use vstd::prelude::*;
use crate::node::NodeView;

verus! {

/// A test on one element of a tree.
#[derive(Debug, PartialEq, Eq)]
pub enum Predicate {
    /// The element's tag name is this one.
    Name(String),
    /// This is one of the whitespace-separated words of the element's `class` attribute.
    Class(String),
    /// The element has the attribute of this name, with exactly this value.
    Attr(String, String),
    /// Both hold.
    And(Box<Predicate>, Box<Predicate>),
    /// At least one holds.
    Or(Box<Predicate>, Box<Predicate>),
    /// This one does not hold.
    Not(Box<Predicate>),
    /// The second holds of the element, and the first of its parent.
    Child(Box<Predicate>, Box<Predicate>),
    /// The second holds of the element, and the first of one of its ancestors.
    Descendant(Box<Predicate>, Box<Predicate>),
}

/// What a predicate is: the same test, over the characters of its names and values.
pub enum PredicateView {
    Name(Seq<char>),
    Class(Seq<char>),
    Attr(Seq<char>, Seq<char>),
    And(Box<PredicateView>, Box<PredicateView>),
    Or(Box<PredicateView>, Box<PredicateView>),
    Not(Box<PredicateView>),
    Child(Box<PredicateView>, Box<PredicateView>),
    Descendant(Box<PredicateView>, Box<PredicateView>),
}

impl PredicateView {
    /// Whether the predicate holds of the element at `path` in the tree under `root`.
    ///
    /// The parent of the element at `path` is at `path` without its last step; its ancestors
    /// are at the proper prefixes of `path`. Of a path that leads to no element, no name,
    /// class or attribute holds.
    pub open spec fn holds(self, root: NodeView, path: Seq<int>) -> bool
        decreases self,
    {
        match self {
            PredicateView::Name(name) => match root.descend(path) {
                Some(node) => node.name == name,
                None => false,
            },
            PredicateView::Class(class) => match root.descend(path) {
                Some(node) => node.has_class(class),
                None => false,
            },
            PredicateView::Attr(name, value) => match root.descend(path) {
                Some(node) => node.attr(name) == Some(value),
                None => false,
            },
            PredicateView::And(a, b) => a.holds(root, path) && b.holds(root, path),
            PredicateView::Or(a, b) => a.holds(root, path) || b.holds(root, path),
            PredicateView::Not(a) => !a.holds(root, path),
            PredicateView::Child(parent, child) => {
                &&& child.holds(root, path)
                &&& path.len() > 0
                &&& parent.holds(root, path.drop_last())
            },
            PredicateView::Descendant(ancestor, child) => {
                &&& child.holds(root, path)
                &&& exists|k: int| 0 <= k < path.len() && ancestor.holds(root, #[trigger] path.take(k))
            },
        }
    }
}

/// What `predicate` is.
pub open spec fn predicate_view(predicate: Predicate) -> PredicateView
    decreases predicate,
{
    match predicate {
        Predicate::Name(name) => PredicateView::Name(name@),
        Predicate::Class(class) => PredicateView::Class(class@),
        Predicate::Attr(name, value) => PredicateView::Attr(name@, value@),
        Predicate::And(a, b) => PredicateView::And(
            Box::new(predicate_view(*a)),
            Box::new(predicate_view(*b)),
        ),
        Predicate::Or(a, b) => PredicateView::Or(
            Box::new(predicate_view(*a)),
            Box::new(predicate_view(*b)),
        ),
        Predicate::Not(a) => PredicateView::Not(Box::new(predicate_view(*a))),
        Predicate::Child(a, b) => PredicateView::Child(
            Box::new(predicate_view(*a)),
            Box::new(predicate_view(*b)),
        ),
        Predicate::Descendant(a, b) => PredicateView::Descendant(
            Box::new(predicate_view(*a)),
            Box::new(predicate_view(*b)),
        ),
    }
}

impl View for Predicate {
    type V = PredicateView;

    open spec fn view(&self) -> PredicateView {
        predicate_view(*self)
    }
}

impl Predicate {
    /// The element's tag name is `tag`.
    pub fn name(tag: &str) -> (r: Predicate)
        ensures
            r@ == PredicateView::Name(tag@),
    {
        Predicate::Name(String::from_str(tag))
    }

    /// `class` is one of the whitespace-separated words of the element's `class` attribute.
    pub fn class(class: &str) -> (r: Predicate)
        ensures
            r@ == PredicateView::Class(class@),
    {
        Predicate::Class(String::from_str(class))
    }

    /// The element has the attribute `name`, with exactly the value `value`.
    pub fn attr(name: &str, value: &str) -> (r: Predicate)
        ensures
            r@ == PredicateView::Attr(name@, value@),
    {
        Predicate::Attr(String::from_str(name), String::from_str(value))
    }

    /// Both this and `other` hold.
    pub fn and(self, other: Predicate) -> (r: Predicate)
        ensures
            r == Predicate::And(Box::new(self), Box::new(other)),
            r@ == PredicateView::And(Box::new(self@), Box::new(other@)),
    {
        Predicate::And(Box::new(self), Box::new(other))
    }

    /// This or `other` holds, or both.
    pub fn or(self, other: Predicate) -> (r: Predicate)
        ensures
            r == Predicate::Or(Box::new(self), Box::new(other)),
            r@ == PredicateView::Or(Box::new(self@), Box::new(other@)),
    {
        Predicate::Or(Box::new(self), Box::new(other))
    }

    /// This does not hold.
    pub fn not(self) -> (r: Predicate)
        ensures
            r == Predicate::Not(Box::new(self)),
            r@ == PredicateView::Not(Box::new(self@)),
    {
        Predicate::Not(Box::new(self))
    }

    /// `other` holds of the element, and this of its parent.
    pub fn child(self, other: Predicate) -> (r: Predicate)
        ensures
            r == Predicate::Child(Box::new(self), Box::new(other)),
            r@ == PredicateView::Child(Box::new(self@), Box::new(other@)),
    {
        Predicate::Child(Box::new(self), Box::new(other))
    }

    /// `other` holds of the element, and this of one of its ancestors.
    pub fn descendant(self, other: Predicate) -> (r: Predicate)
        ensures
            r == Predicate::Descendant(Box::new(self), Box::new(other)),
            r@ == PredicateView::Descendant(Box::new(self@), Box::new(other@)),
    {
        Predicate::Descendant(Box::new(self), Box::new(other))
    }
}

impl Clone for Predicate {
    fn clone(&self) -> (r: Predicate)
        ensures
            r@ == self@,
        decreases self,
    {
        match self {
            Predicate::Name(name) => Predicate::Name(name.clone()),
            Predicate::Class(class) => Predicate::Class(class.clone()),
            Predicate::Attr(name, value) => Predicate::Attr(name.clone(), value.clone()),
            Predicate::And(a, b) => {
                let a: &Predicate = a;
                let b: &Predicate = b;
                Predicate::And(Box::new(a.clone()), Box::new(b.clone()))
            },
            Predicate::Or(a, b) => {
                let a: &Predicate = a;
                let b: &Predicate = b;
                Predicate::Or(Box::new(a.clone()), Box::new(b.clone()))
            },
            Predicate::Not(a) => {
                let a: &Predicate = a;
                Predicate::Not(Box::new(a.clone()))
            },
            Predicate::Child(a, b) => {
                let a: &Predicate = a;
                let b: &Predicate = b;
                Predicate::Child(Box::new(a.clone()), Box::new(b.clone()))
            },
            Predicate::Descendant(a, b) => {
                let a: &Predicate = a;
                let b: &Predicate = b;
                Predicate::Descendant(Box::new(a.clone()), Box::new(b.clone()))
            },
        }
    }
}

} // verus!
