//! Each predicate on a tree built by hand.

use dom_select::{Document, EmptyResult, Node, Predicate};

fn leaf(name: &str, attrs: &[(&str, &str)], text: &str) -> Node {
    let mut node = Node::new(name);
    for (key, value) in attrs {
        node.set_attr(key, value);
    }
    node.push_text(text);
    node
}

/// The sample page as a tree: a `div` that holds a heading, two custom elements and links.
fn page() -> Document {
    let mut custom = Node::new("custom");
    custom.set_attr("class", "custom-element");
    custom.push_text("\n    ");
    custom.push_child(leaf("p", &[("data-target", "test-attr")], "我是一个自定义元素"));
    custom.push_text("\n    ");
    custom.push_child(leaf(
        "a",
        &[("class", "Microsoft"), ("href", "https://www.bing.com")],
        "Bing 一下",
    ));
    custom.push_text("\n");

    let mut inner = Node::new("div");
    inner.push_text("\n        ");
    inner.push_child(leaf("p", &[], "我是另一个自定义元素"));
    inner.push_text("\n    ");
    let mut another = Node::new("another-custom");
    another.set_attr("class", "custom-element");
    another.push_text("\n    ");
    another.push_child(inner);
    another.push_text("\n");

    let mut root = Node::new("div");
    root.push_text("\n");
    root.push_child(leaf("h1", &[], "Hello, world!"));
    root.push_text("\n\n");
    root.push_child(custom);
    root.push_text("\n\n");
    root.push_child(another);
    root.push_text("\n");
    root.push_child(leaf(
        "a",
        &[("class", "AlphaBeta"), ("href", "https://www.google.com")],
        "Google 一下",
    ));
    root.push_text("\n");
    root.push_child(leaf(
        "a",
        &[("class", "git code github"), ("href", "https://www.github.com")],
        "Github 一下",
    ));
    root.push_text("\n");
    Document::new(root)
}

fn texts(doc: &Document, selector: &Predicate) -> Vec<String> {
    doc.find(selector).iter().map(|m| m.node.text()).collect()
}

fn paths(doc: &Document, selector: &Predicate) -> Vec<Vec<usize>> {
    doc.find(selector).into_iter().map(|m| m.path).collect()
}

#[test]
fn name_finds_the_heading() {
    let doc = page();
    let found = doc.find(&Predicate::name("h1"));
    assert_eq!(found.len(), 1);
    assert_eq!(found[0].node.text(), "Hello, world!");
    assert_eq!(found[0].path, vec![1]);
}

#[test]
fn name_finds_both_paragraphs_in_order() {
    let doc = page();
    assert_eq!(
        texts(&doc, &Predicate::name("p")),
        vec!["我是一个自定义元素", "我是另一个自定义元素"]
    );
    assert_eq!(
        paths(&doc, &Predicate::name("p")),
        vec![vec![3, 1], vec![5, 1, 1]]
    );
}

#[test]
fn name_is_compared_whole_and_by_case() {
    let doc = page();
    assert!(doc.find(&Predicate::name("P")).is_empty());
    assert!(doc.find(&Predicate::name("cust")).is_empty());
    assert!(doc.find(&Predicate::name("customs")).is_empty());
    assert!(doc.find(&Predicate::name("")).is_empty());
    assert_eq!(doc.find(&Predicate::name("another-custom")).len(), 1);
}

#[test]
fn name_finds_the_root_too() {
    let doc = page();
    assert_eq!(
        paths(&doc, &Predicate::name("div")),
        vec![vec![], vec![5, 1]]
    );
}

#[test]
fn class_finds_the_link_of_that_class() {
    let doc = page();
    let found = doc.find(&Predicate::class("Microsoft"));
    assert_eq!(found.len(), 1);
    assert_eq!(found[0].node.attr("href"), Some("https://www.bing.com"));
    assert_eq!(found[0].node.text(), "Bing 一下");
}

#[test]
fn class_matches_each_word_of_the_attribute() {
    let doc = page();
    for word in ["git", "code", "github"] {
        let found = doc.find(&Predicate::class(word));
        assert_eq!(found.len(), 1, "{word}");
        assert_eq!(found[0].node.text(), "Github 一下");
    }
    assert_eq!(doc.find(&Predicate::class("custom-element")).len(), 2);
}

#[test]
fn class_with_a_space_finds_nothing() {
    let doc = page();
    assert!(doc.find(&Predicate::class("git code")).is_empty());
    assert!(doc.find(&Predicate::class("git code github")).is_empty());
    assert!(doc.find(&Predicate::class("code github")).is_empty());
    assert!(doc.find(&Predicate::class(" git")).is_empty());
    assert!(doc.find(&Predicate::class("git ")).is_empty());
    assert!(doc.find(&Predicate::class(" ")).is_empty());
    assert!(doc.find(&Predicate::class("git\tcode")).is_empty());
}

#[test]
fn class_is_no_substring_match() {
    let doc = page();
    assert!(doc.find(&Predicate::class("gi")).is_empty());
    assert!(doc.find(&Predicate::class("hub")).is_empty());
    assert!(doc.find(&Predicate::class("Alpha")).is_empty());
    assert!(doc.find(&Predicate::class("custom")).is_empty());
    assert!(doc.find(&Predicate::class("microsoft")).is_empty());
    assert!(doc.find(&Predicate::class("")).is_empty());
}

#[test]
fn class_splits_on_any_run_of_whitespace() {
    let mut root = Node::new("div");
    root.push_child(leaf("i", &[("class", "  a\t\tb\n c\u{3000}d\u{a0}e  ")], "1"));
    root.push_child(leaf("i", &[("class", "")], "2"));
    root.push_child(leaf("i", &[("class", " \t\n")], "3"));
    root.push_child(leaf("i", &[("id", "a")], "4"));
    root.push_child(leaf("i", &[("class", "a")], "5"));
    let doc = Document::new(root);
    for word in ["b", "c", "d", "e"] {
        assert_eq!(texts(&doc, &Predicate::class(word)), vec!["1"], "{word}");
    }
    assert_eq!(texts(&doc, &Predicate::class("a")), vec!["1", "5"]);
    assert!(doc.find(&Predicate::class("")).is_empty());
    assert!(doc.find(&Predicate::class("ab")).is_empty());
    assert!(doc.find(&Predicate::class("c\u{3000}d")).is_empty());
}

#[test]
fn attr_finds_by_name_and_exact_value() {
    let doc = page();
    assert_eq!(
        texts(&doc, &Predicate::attr("data-target", "test-attr")),
        vec!["我是一个自定义元素"]
    );
    assert!(doc.find(&Predicate::attr("data-target", "test")).is_empty());
    assert!(doc.find(&Predicate::attr("data-target", "")).is_empty());
    assert!(doc.find(&Predicate::attr("data", "test-attr")).is_empty());
    assert!(doc.find(&Predicate::attr("href", "https://www.bing.com/")).is_empty());
}

#[test]
fn attr_on_class_wants_the_whole_value() {
    let doc = page();
    let found = doc.find(&Predicate::attr("class", "git code github"));
    assert_eq!(found.len(), 1);
    assert_eq!(found[0].node.attr("href"), Some("https://www.github.com"));
    assert!(doc.find(&Predicate::attr("class", "git")).is_empty());
    assert!(doc.find(&Predicate::attr("class", "git code")).is_empty());
    assert!(doc.find(&Predicate::attr("class", "github code git")).is_empty());
    assert!(doc.find(&Predicate::attr("class", "git  code github")).is_empty());
    assert!(doc.find(&Predicate::attr("class", "git code github ")).is_empty());
}

#[test]
fn child_looks_at_the_parent_only() {
    let doc = page();
    let selector = Predicate::name("div").child(Predicate::name("p"));
    assert_eq!(texts(&doc, &selector), vec!["我是另一个自定义元素"]);
    let selector = Predicate::name("custom").child(Predicate::name("p"));
    assert_eq!(texts(&doc, &selector), vec!["我是一个自定义元素"]);
    let selector = Predicate::name("another-custom").child(Predicate::name("p"));
    assert!(doc.find(&selector).is_empty());
}

#[test]
fn child_of_nothing_is_never_the_root() {
    let doc = page();
    let anything = Predicate::name("x").not();
    let selector = anything.child(Predicate::name("div"));
    assert_eq!(paths(&doc, &selector), vec![vec![5, 1]]);
}

#[test]
fn descendant_looks_at_every_ancestor() {
    let doc = page();
    let selector = Predicate::name("div").descendant(Predicate::name("p"));
    assert_eq!(
        texts(&doc, &selector),
        vec!["我是一个自定义元素", "我是另一个自定义元素"]
    );
    let selector = Predicate::name("another-custom").descendant(Predicate::name("p"));
    assert_eq!(texts(&doc, &selector), vec!["我是另一个自定义元素"]);
    let selector = Predicate::name("h1").descendant(Predicate::name("p"));
    assert!(doc.find(&selector).is_empty());
}

#[test]
fn an_element_is_not_its_own_ancestor() {
    let doc = page();
    let selector = Predicate::name("div").descendant(Predicate::name("div"));
    assert_eq!(paths(&doc, &selector), vec![vec![5, 1]]);
    let selector = Predicate::name("p").descendant(Predicate::name("p"));
    assert!(doc.find(&selector).is_empty());
    let selector = Predicate::name("p").child(Predicate::name("p"));
    assert!(doc.find(&selector).is_empty());
}

#[test]
fn and_wants_both() {
    let doc = page();
    let selector = Predicate::name("p").and(Predicate::attr("data-target", "test-attr"));
    assert_eq!(texts(&doc, &selector), vec!["我是一个自定义元素"]);
    let selector = Predicate::name("a").and(Predicate::attr("data-target", "test-attr"));
    assert!(doc.find(&selector).is_empty());
}

#[test]
fn or_lists_in_document_order() {
    let doc = page();
    let expected = vec!["我是一个自定义元素", "Bing 一下", "Google 一下", "Github 一下"];
    let target_p = Predicate::name("p").and(Predicate::attr("data-target", "test-attr"));
    assert_eq!(texts(&doc, &target_p.or(Predicate::name("a"))), expected);
    let target_p = Predicate::name("p").and(Predicate::attr("data-target", "test-attr"));
    assert_eq!(texts(&doc, &Predicate::name("a").or(target_p)), expected);
}

#[test]
fn or_lists_an_element_of_both_once() {
    let doc = page();
    let selector = Predicate::name("a").or(Predicate::class("Microsoft"));
    assert_eq!(texts(&doc, &selector), vec!["Bing 一下", "Google 一下", "Github 一下"]);
}

#[test]
fn not_inverts() {
    let doc = page();
    let selector = Predicate::name("p").and(Predicate::attr("data-target", "test-attr").not());
    assert_eq!(texts(&doc, &selector), vec!["我是另一个自定义元素"]);
    let all = doc.find(&Predicate::name("none").not());
    assert_eq!(all.len(), 10);
    let names: Vec<&str> = all.iter().map(|m| m.node.tag_name()).collect();
    assert_eq!(
        names,
        vec!["div", "h1", "custom", "p", "a", "another-custom", "div", "p", "a", "a"]
    );
}

#[test]
fn chained_and_explicit_construction_agree() {
    let name = || Predicate::name("p");
    let attr = || Predicate::attr("data-target", "test-attr");
    assert_eq!(name().and(attr()), Predicate::And(Box::new(name()), Box::new(attr())));
    assert_eq!(name().or(attr()), Predicate::Or(Box::new(name()), Box::new(attr())));
    assert_eq!(name().not(), Predicate::Not(Box::new(name())));
    assert_eq!(name().child(attr()), Predicate::Child(Box::new(name()), Box::new(attr())));
    assert_eq!(
        name().descendant(attr()),
        Predicate::Descendant(Box::new(name()), Box::new(attr()))
    );
    assert_eq!(name(), Predicate::Name("p".to_string()));
    assert_eq!(Predicate::class("c"), Predicate::Class("c".to_string()));
    assert_eq!(attr(), Predicate::Attr("data-target".to_string(), "test-attr".to_string()));
    assert_ne!(name().child(attr()), name().descendant(attr()));
    assert_ne!(name().and(attr()), attr().and(name()));
}

#[test]
fn chains_can_go_on() {
    let doc = page();
    let selector = Predicate::name("div")
        .descendant(Predicate::name("another-custom"))
        .descendant(Predicate::name("div"))
        .child(Predicate::name("p"))
        .and(Predicate::attr("data-target", "test-attr").not())
        .or(Predicate::name("h1"));
    assert_eq!(texts(&doc, &selector), vec!["Hello, world!", "我是另一个自定义元素"]);
}

#[test]
fn the_parent_side_may_look_further_up() {
    let doc = page();
    // a `p` whose parent is a `div` that is itself under `another-custom`
    let parent = Predicate::name("another-custom").child(Predicate::name("div"));
    assert_eq!(
        texts(&doc, &parent.child(Predicate::name("p"))),
        vec!["我是另一个自定义元素"]
    );
    // a `p` under something that is a child of the outer `div`
    let below_root = Predicate::name("div").child(Predicate::name("custom"));
    assert_eq!(
        texts(&doc, &below_root.descendant(Predicate::name("p"))),
        vec!["我是一个自定义元素"]
    );
}

#[test]
fn find_hands_out_the_elements_of_the_document() {
    let doc = page();
    for m in doc.find(&Predicate::name("none").not()) {
        assert!(std::ptr::eq(m.node, doc.node(&m.path).unwrap()));
    }
}

#[test]
fn find_can_be_repeated() {
    let doc = page();
    let selector = Predicate::name("a");
    assert_eq!(doc.find(&selector), doc.find(&selector));
    assert_eq!(paths(&doc, &selector), vec![vec![3, 3], vec![7], vec![9]]);
}

#[test]
fn find_nth_gives_each_result_of_find() {
    let doc = page();
    let selector = Predicate::name("p").or(Predicate::name("a"));
    let all = doc.find(&selector);
    assert_eq!(all.len(), 5);
    for (n, m) in all.iter().enumerate() {
        assert_eq!(doc.find_nth(&selector, n).as_ref(), Some(m));
    }
    assert_eq!(doc.find_nth(&selector, 5), None);
    assert_eq!(doc.find_nth(&selector, usize::MAX), None);
    assert_eq!(doc.find_first(&selector).as_ref(), Ok(&all[0]));
}

#[test]
fn find_first_fails_where_nothing_matches() {
    let doc = page();
    assert_eq!(doc.find_first(&Predicate::name("table")), Err(EmptyResult));
    assert_eq!(EmptyResult.message(), "no element matches the predicate");
    assert_eq!(doc.find_nth(&Predicate::name("table"), 0), None);
    let root = doc.find_first(&Predicate::name("div")).unwrap();
    assert!(root.path.is_empty());
    assert!(std::ptr::eq(root.node, doc.root()));
}
