//! Building a tree and reading it back.

use dom_select::{Attributes, Content, Document, Node, Predicate};

fn text_node(name: &str, text: &str) -> Node {
    let mut node = Node::new(name);
    node.push_text(text);
    node
}

/// `<article id="top">one<b>two<i>three</i></b>four<br></br>five</article>`
fn article() -> Node {
    let mut i = Node::new("i");
    i.push_text("three");
    let mut b = Node::new("b");
    b.push_text("two");
    b.push_child(i);
    let mut article = Node::new("article");
    article.set_attr("id", "top");
    article.push_text("one");
    article.push_child(b);
    article.push_text("four");
    article.push_child(Node::new("br"));
    article.push_text("five");
    article
}

#[test]
fn new_node_is_empty() {
    let node = Node::new("div");
    assert_eq!(node.tag_name(), "div");
    assert_eq!(node.attributes.len(), 0);
    assert!(node.content.is_empty());
    assert_eq!(node.text(), "");
    assert!(node.children().is_empty());
    assert_eq!(node.attr("class"), None);
    assert!(!node.has_class("a"));
}

#[test]
fn tag_name_is_kept_as_given() {
    assert_eq!(Node::new("another-custom").tag_name(), "another-custom");
    assert_eq!(Node::new("").tag_name(), "");
    assert_eq!(Node::new("DIV").tag_name(), "DIV");
}

#[test]
fn attr_is_absent_until_set() {
    let mut node = Node::new("a");
    assert_eq!(node.attr("href"), None);
    node.set_attr("href", "https://www.bing.com");
    assert_eq!(node.attr("href"), Some("https://www.bing.com"));
    assert_eq!(node.attr("HREF"), None);
    assert_eq!(node.attr("hre"), None);
    assert_eq!(node.attr(""), None);
}

#[test]
fn set_attr_replaces_in_place() {
    let mut node = Node::new("a");
    node.set_attr("class", "x");
    node.set_attr("href", "one");
    node.set_attr("id", "i");
    node.set_attr("href", "two");
    assert_eq!(node.attributes.len(), 3);
    assert_eq!(node.attributes.entry(0).name, "class");
    assert_eq!(node.attributes.entry(1).name, "href");
    assert_eq!(node.attributes.entry(1).value, "two");
    assert_eq!(node.attributes.entry(2).name, "id");
    assert_eq!(node.attr("href"), Some("two"));
    assert_eq!(node.attr("class"), Some("x"));
    assert_eq!(node.attr("id"), Some("i"));
}

#[test]
fn attribute_names_stay_distinct() {
    let mut attributes = Attributes::new();
    for round in 0..3 {
        for name in ["a", "b", "c", "a", "b"] {
            attributes.set(name, &format!("{name}{round}"));
        }
    }
    assert_eq!(attributes.len(), 3);
    let names: Vec<&str> = (0..attributes.len())
        .map(|i| attributes.entry(i).name.as_str())
        .collect();
    assert_eq!(names, vec!["a", "b", "c"]);
    assert_eq!(attributes.get("a"), Some("a2"));
    assert_eq!(attributes.get("c"), Some("c2"));
    assert_eq!(attributes.get("d"), None);
}

#[test]
fn attributes_clone_is_equal_and_apart() {
    let mut attributes = Attributes::new();
    attributes.set("k", "v");
    let mut copy = attributes.clone();
    assert_eq!(copy, attributes);
    copy.set("k", "w");
    assert_eq!(attributes.get("k"), Some("v"));
    assert_eq!(copy.get("k"), Some("w"));
}

#[test]
fn an_empty_value_is_a_value() {
    let mut node = Node::new("input");
    node.set_attr("disabled", "");
    assert_eq!(node.attr("disabled"), Some(""));
}

#[test]
fn text_joins_all_runs_in_document_order() {
    let article = article();
    assert_eq!(article.text(), "onetwothreefourfive");
    let b = article.children()[0];
    assert_eq!(b.text(), "twothree");
    assert_eq!(b.children()[0].text(), "three");
    assert_eq!(article.children()[1].text(), "");
}

#[test]
fn text_adds_no_separators() {
    let mut p = Node::new("p");
    p.push_text("a");
    p.push_text("");
    p.push_text(" b ");
    p.push_child(text_node("span", "\n"));
    p.push_text("c");
    assert_eq!(p.text(), "a b \nc");
}

#[test]
fn children_are_the_elements_in_order() {
    let article = article();
    let names: Vec<&str> = article.children().iter().map(|c| c.tag_name()).collect();
    assert_eq!(names, vec!["b", "br"]);
    assert_eq!(article.content.len(), 5);
    assert!(matches!(article.content[0], Content::Text(_)));
    assert!(matches!(article.content[1], Content::Element(_)));
}

#[test]
fn children_of_text_only_content_is_empty() {
    let p = text_node("p", "words");
    assert!(p.children().is_empty());
}

#[test]
fn root_is_at_the_empty_path() {
    let doc = Document::new(article());
    assert_eq!(doc.root().tag_name(), "article");
    assert_eq!(doc.node(&[]).unwrap().tag_name(), "article");
    assert!(doc.parent(&[]).is_none());
}

#[test]
fn node_follows_positions_in_content() {
    let doc = Document::new(article());
    assert_eq!(doc.node(&[1]).unwrap().tag_name(), "b");
    assert_eq!(doc.node(&[1, 1]).unwrap().tag_name(), "i");
    assert_eq!(doc.node(&[3]).unwrap().tag_name(), "br");
}

#[test]
fn node_is_absent_off_the_tree() {
    let doc = Document::new(article());
    // a run of text
    assert!(doc.node(&[0]).is_none());
    assert!(doc.node(&[2]).is_none());
    // past the end
    assert!(doc.node(&[5]).is_none());
    assert!(doc.node(&[usize::MAX]).is_none());
    // below a run of text, below a leaf
    assert!(doc.node(&[0, 0]).is_none());
    assert!(doc.node(&[1, 0]).is_none());
    assert!(doc.node(&[1, 1, 0]).is_none());
    assert!(doc.node(&[3, 0]).is_none());
}

#[test]
fn parent_is_one_step_up() {
    let doc = Document::new(article());
    assert_eq!(doc.parent(&[1]).unwrap().tag_name(), "article");
    assert_eq!(doc.parent(&[1, 1]).unwrap().tag_name(), "b");
    assert!(doc.parent(&[0]).is_none());
    assert!(doc.parent(&[1, 0]).is_none());
    assert!(doc.parent(&[9, 9]).is_none());
}

#[test]
fn evaluate_tests_the_element_at_the_path() {
    let doc = Document::new(article());
    assert!(doc.evaluate(&Predicate::name("article"), &[]));
    assert!(!doc.evaluate(&Predicate::name("b"), &[]));
    assert!(doc.evaluate(&Predicate::name("b"), &[1]));
    assert!(doc.evaluate(&Predicate::name("i"), &[1, 1]));
    assert!(doc.evaluate(&Predicate::attr("id", "top"), &[]));
    assert!(!doc.evaluate(&Predicate::attr("id", "top"), &[1]));
}

#[test]
fn evaluate_is_false_where_the_path_leads_nowhere() {
    let doc = Document::new(article());
    let any = Predicate::name("article").or(Predicate::name("article").not());
    assert!(doc.evaluate(&any, &[]));
    assert!(!doc.evaluate(&any, &[0]));
    assert!(!doc.evaluate(&any, &[7]));
    assert!(!doc.evaluate(&Predicate::name("b").not(), &[1, 0]));
}

#[test]
fn evaluate_sees_parent_and_ancestors() {
    let doc = Document::new(article());
    let child_of_article = Predicate::name("article").child(Predicate::name("b"));
    let under_article = Predicate::name("article").descendant(Predicate::name("i"));
    let child_of_b = Predicate::name("b").child(Predicate::name("i"));
    assert!(doc.evaluate(&child_of_article, &[1]));
    assert!(doc.evaluate(&under_article, &[1, 1]));
    assert!(doc.evaluate(&child_of_b, &[1, 1]));
    assert!(!doc.evaluate(&Predicate::name("article").child(Predicate::name("i")), &[1, 1]));
    // the root has no parent and no ancestor
    let any = Predicate::name("article").or(Predicate::name("article").not());
    assert!(!doc.evaluate(&Predicate::name("article").child(Predicate::name("article")), &[]));
    assert!(!doc.evaluate(&any.descendant(Predicate::name("article")), &[]));
}

#[test]
fn a_document_of_one_element() {
    let doc = Document::new(Node::new("html"));
    let found = doc.find(&Predicate::name("html"));
    assert_eq!(found.len(), 1);
    assert!(found[0].path.is_empty());
    assert!(doc.find(&Predicate::name("body")).is_empty());
}

#[test]
fn a_clone_is_equal_and_apart() {
    let doc = Document::new(article());
    let mut copy = doc.clone();
    assert_eq!(copy, doc);
    assert_eq!(copy.root().text(), "onetwothreefourfive");
    copy.root.push_text("six");
    copy.root.set_attr("id", "other");
    assert_ne!(copy, doc);
    assert_eq!(doc.root().text(), "onetwothreefourfive");
    assert_eq!(doc.root().attr("id"), Some("top"));
    let item = doc.root.content[1].clone();
    assert_eq!(item, doc.root.content[1]);
}

#[test]
fn a_cloned_predicate_finds_the_same() {
    let doc = Document::new(article());
    let selector = Predicate::name("b")
        .descendant(Predicate::name("i"))
        .or(Predicate::attr("id", "top").not().and(Predicate::class("x").not()))
        .or(Predicate::name("br").child(Predicate::name("x")));
    let copy = selector.clone();
    assert_eq!(copy, selector);
    assert_eq!(doc.find(&copy), doc.find(&selector));
    assert_eq!(doc.find(&selector).len(), 3);
}
