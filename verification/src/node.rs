//! Elements and what they hold.

use vstd::prelude::*;
use crate::attrs::{assign, distinct_names, lookup, Attributes, Entry};
use crate::chars::{contains_token, is_whitespace, words};

verus! {

/// One item of an element's content: a run of text, or a child element.
#[derive(Debug, PartialEq, Eq)]
pub enum Content {
    Text(String),
    Element(Node),
}

/// An element: its tag name, its attributes, and its content in document order.
#[derive(Debug, PartialEq, Eq)]
pub struct Node {
    pub name: String,
    pub attributes: Attributes,
    pub content: Vec<Content>,
}

/// What an item of content is: the characters of a run of text, or a child element.
pub enum ContentView {
    Text(Seq<char>),
    Element(NodeView),
}

/// What an element is: its tag name, its attributes in order, and its content in order.
pub struct NodeView {
    pub name: Seq<char>,
    pub attributes: Seq<Entry>,
    pub content: Seq<ContentView>,
}

impl NodeView {
    /// The child element at position `i` of the content, if that item is an element.
    pub open spec fn child_at(self, i: int) -> Option<NodeView> {
        if 0 <= i < self.content.len() {
            match self.content[i] {
                ContentView::Element(c) => Some(c),
                ContentView::Text(_) => None,
            }
        } else {
            None
        }
    }

    /// The element that `path` leads to from this one: each step is a position in the content
    /// of the element reached so far, and must hold a child element. The empty path leads to
    /// the element itself.
    pub open spec fn descend(self, path: Seq<int>) -> Option<NodeView>
        decreases path.len(),
    {
        if path.len() == 0 {
            Some(self)
        } else {
            match self.descend(path.drop_last()) {
                Some(parent) => parent.child_at(path.last()),
                None => None,
            }
        }
    }

    /// The paths, each with `base` before it, of this element and of the elements under the
    /// first `n` items of its content, every element before its own descendants and the items
    /// from left to right.
    pub open spec fn paths_upto(self, base: Seq<int>, n: nat) -> Seq<Seq<int>>
        decreases self, n,
    {
        if n == 0 || n > self.content.len() {
            seq![base]
        } else {
            self.paths_upto(base, (n - 1) as nat) + (match self.content[n - 1] {
                ContentView::Text(_) => Seq::empty(),
                ContentView::Element(c) => c.paths_upto(base.push(n - 1), c.content.len()),
            })
        }
    }

    /// The paths of this element, which stands at `base`, and of all its descendants, in
    /// document order.
    pub open spec fn subtree(self, base: Seq<int>) -> Seq<Seq<int>> {
        self.paths_upto(base, self.content.len())
    }

    /// The value of the attribute `name`, if the element has it.
    pub open spec fn attr(self, name: Seq<char>) -> Option<Seq<char>> {
        lookup(self.attributes, name)
    }

    /// Whether the element has a `class` attribute, and `class` is one of the words that
    /// splitting its value on whitespace gives.
    pub open spec fn has_class(self, class: Seq<char>) -> bool {
        match self.attr("class"@) {
            Some(value) => words(value).contains(class),
            None => false,
        }
    }

    /// The child elements, in order: the items of the content that are elements.
    pub open spec fn children(self) -> Seq<NodeView> {
        self.content.filter(|item: ContentView| item is Element).map_values(
            |item: ContentView| item->Element_0,
        )
    }

    /// The text of the first `n` items of the content, each child element counted with all
    /// that it holds.
    pub open spec fn text_upto(self, n: nat) -> Seq<char>
        decreases self, n,
    {
        if n == 0 || n > self.content.len() {
            Seq::empty()
        } else {
            self.text_upto((n - 1) as nat) + (match self.content[n - 1] {
                ContentView::Text(s) => s,
                ContentView::Element(c) => c.text_upto(c.content.len()),
            })
        }
    }

    /// All the text that the element holds, directly or in its descendants, in document order
    /// and with nothing put between the runs.
    pub open spec fn text(self) -> Seq<char> {
        self.text_upto(self.content.len())
    }
}

/// What `node` is.
pub open spec fn node_view(node: Node) -> NodeView
    decreases node,
{
    NodeView {
        name: node.name@,
        attributes: node.attributes@,
        content: Seq::new(
            node.content@.len(),
            |i: int|
                if 0 <= i < node.content@.len() {
                    match node.content@[i] {
                        Content::Text(s) => ContentView::Text(s@),
                        Content::Element(c) => ContentView::Element(node_view(c)),
                    }
                } else {
                    ContentView::Text(Seq::empty())
                },
        ),
    }
}

impl View for Node {
    type V = NodeView;

    open spec fn view(&self) -> NodeView {
        node_view(*self)
    }
}

impl View for Content {
    type V = ContentView;

    open spec fn view(&self) -> ContentView {
        match self {
            Content::Text(s) => ContentView::Text(s@),
            Content::Element(c) => ContentView::Element(c@),
        }
    }
}

/// The content of what an element is holds, item for item, what its items are.
pub proof fn lemma_node_view(node: Node)
    ensures
        node@.name == node.name@,
        node@.attributes == node.attributes@,
        node@.content == node.content@.map_values(|item: Content| item@),
{
}

impl Node {
    /// An element called `name`, with no attributes and no content.
    pub fn new(name: &str) -> (r: Node)
        ensures
            r@ == (NodeView { name: name@, attributes: Seq::empty(), content: Seq::empty() }),
    {
        let r = Node {
            name: String::from_str(name),
            attributes: Attributes::new(),
            content: Vec::new(),
        };
        proof {
            lemma_node_view(r);
            assert(r@.content =~= Seq::empty());
        }
        r
    }

    /// Gives the attribute `name` the value `value`: in place where the element has the
    /// attribute already, as its new last attribute where it has not.
    pub fn set_attr(&mut self, name: &str, value: &str)
        ensures
            final(self)@ == (NodeView {
                attributes: assign(old(self)@.attributes, name@, value@),
                ..old(self)@
            }),
    {
        proof {
            lemma_node_view(*self);
        }
        self.attributes.set(name, value);
        proof {
            lemma_node_view(*self);
        }
    }

    /// Adds a run of text at the end of the content.
    pub fn push_text(&mut self, text: &str)
        ensures
            final(self)@ == (NodeView {
                content: old(self)@.content.push(ContentView::Text(text@)),
                ..old(self)@
            }),
    {
        proof {
            lemma_node_view(*self);
        }
        self.content.push(Content::Text(String::from_str(text)));
        proof {
            lemma_node_view(*self);
            assert(self@.content =~= old(self)@.content.push(ContentView::Text(text@)));
        }
    }

    /// Adds `child` at the end of the content, as the last child element.
    pub fn push_child(&mut self, child: Node)
        ensures
            final(self)@ == (NodeView {
                content: old(self)@.content.push(ContentView::Element(child@)),
                ..old(self)@
            }),
    {
        proof {
            lemma_node_view(*self);
        }
        self.content.push(Content::Element(child));
        proof {
            lemma_node_view(*self);
            assert(self@.content =~= old(self)@.content.push(ContentView::Element(child@)));
        }
    }

    /// The element's tag name.
    pub fn tag_name(&self) -> (r: &str)
        ensures
            r@ == self@.name,
    {
        self.name.as_str()
    }

    /// The value of the attribute `name`, or `None` where the element has no such attribute.
    /// No element has two attributes of one name.
    pub fn attr(&self, name: &str) -> (r: Option<&str>)
        ensures
            match r {
                Some(v) => self@.attr(name@) == Some(v@),
                None => self@.attr(name@).is_none(),
            },
            distinct_names(self@.attributes),
    {
        self.attributes.get(name)
    }

    /// Whether `class` is one of the whitespace-separated words of the `class` attribute. A
    /// `class` that is empty or holds whitespace is no such word, whatever the element.
    pub fn has_class(&self, class: &str) -> (r: bool)
        ensures
            r == self@.has_class(class@),
            class@.len() == 0 ==> !r,
            (exists|k: int| 0 <= k < class@.len() && is_whitespace(#[trigger] class@[k])) ==> !r,
    {
        match self.attributes.get("class") {
            Some(value) => contains_token(value, class),
            None => false,
        }
    }

    /// The child elements, in order.
    pub fn children(&self) -> (r: Vec<&Node>)
        ensures
            r@.map_values(|c: &Node| c@) == self@.children(),
    {
        let ghost is_element = |item: ContentView| item is Element;
        let ghost element = |item: ContentView| item->Element_0;
        let ghost items = self@.content;
        proof {
            lemma_node_view(*self);
        }
        let mut r: Vec<&Node> = Vec::new();
        let mut i: usize = 0;
        while i < self.content.len()
            invariant
                i <= self.content@.len(),
                items == self.content@.map_values(|item: Content| item@),
                is_element == |item: ContentView| item is Element,
                element == |item: ContentView| item->Element_0,
                r@.map_values(|c: &Node| c@) == items.take(i as int).filter(is_element).map_values(
                    element,
                ),
            decreases self.content@.len() - i,
        {
            let ghost before = items.take(i as int);
            let ghost listed = r@.map_values(|c: &Node| c@);
            proof {
                let next = items.take(i + 1);
                assert(next.drop_last() =~= before);
                reveal_with_fuel(Seq::filter, 1);
            }
            match &self.content[i] {
                Content::Text(_) => {},
                Content::Element(c) => {
                    r.push(c);
                    assert(items.take(i + 1).filter(is_element).map_values(element)
                        =~= before.filter(is_element).map_values(element).push(c@));
                },
            }
            i += 1;
        }
        assert(items.take(i as int) =~= items);
        r
    }

    /// The text that the element holds: see [`NodeView::text`].
    pub fn text(&self) -> (r: String)
        ensures
            r@ == self@.text(),
        decreases self,
    {
        proof {
            lemma_node_view(*self);
        }
        let mut r = String::new();
        let mut i: usize = 0;
        while i < self.content.len()
            invariant
                i <= self.content@.len(),
                self@.content == self.content@.map_values(|item: Content| item@),
                r@ == self@.text_upto(i as nat),
            decreases self.content@.len() - i,
        {
            match &self.content[i] {
                Content::Text(s) => {
                    r.append(s.as_str());
                },
                Content::Element(c) => {
                    let inner = c.text();
                    r.append(inner.as_str());
                },
            }
            i += 1;
        }
        r
    }
}

impl Clone for Content {
    fn clone(&self) -> (r: Content)
        ensures
            r@ == self@,
    {
        match self {
            Content::Text(s) => Content::Text(s.clone()),
            Content::Element(c) => Content::Element(c.clone()),
        }
    }
}

impl Clone for Node {
    fn clone(&self) -> (r: Node)
        ensures
            r@ == self@,
        decreases self,
    {
        let mut content: Vec<Content> = Vec::new();
        let mut i: usize = 0;
        while i < self.content.len()
            invariant
                i <= self.content@.len(),
                content@.len() == i,
                forall|k: int| 0 <= k < i ==> (#[trigger] content@[k])@ == self.content@[k]@,
            decreases self.content@.len() - i,
        {
            let item = match &self.content[i] {
                Content::Text(s) => Content::Text(s.clone()),
                Content::Element(c) => Content::Element(c.clone()),
            };
            content.push(item);
            i += 1;
        }
        let r = Node { name: self.name.clone(), attributes: self.attributes.clone(), content };
        proof {
            lemma_node_view(r);
            lemma_node_view(*self);
            assert(r@.content =~= self@.content);
        }
        r
    }
}

} // verus!
