use ego_tree::NodeId;
use scraper_core::{Compound, Element, ElementRef, Html, Node, Selector, TryNext, TryNextError};

fn elem(name: &str) -> Node {
    Node::Element(Element { name: name.to_string(), attrs: Vec::new() })
}

fn elem_with(name: &str, attrs: &[(&str, &str)]) -> Node {
    Node::Element(Element {
        name: name.to_string(),
        attrs: attrs.iter().map(|(k, v)| (k.to_string(), v.to_string())).collect(),
    })
}

fn text(s: &str) -> Node {
    Node::Text(s.to_string())
}

fn tag(name: &str) -> Compound {
    Compound::Tag(name.to_string())
}

/// A fragment document: a fragment root holding an `html` element.
fn fragment() -> (Html, NodeId) {
    let mut doc = Html::new(Node::Fragment);
    let root = doc.root();
    let html = doc.append(root, elem("html"));
    (doc, html)
}

fn names(elements: &[ElementRef]) -> Vec<String> {
    elements.iter().map(|e| e.value().name.clone()).collect()
}

#[test]
fn test_scope() {
    // The tree that parsing this fragment gives:
    //     <div>
    //         <b>1</b>
    //         <span>
    //             <span><b>2</b></span>
    //             <b>3</b>
    //         </span>
    //     </div>
    let (mut doc, html) = fragment();
    doc.append(html, text("\n            "));
    let div = doc.append(html, elem("div"));
    doc.append(html, text("\n        "));
    doc.append(div, text("\n                "));
    let b1 = doc.append(div, elem("b"));
    doc.append(b1, text("1"));
    doc.append(div, text("\n                "));
    let outer = doc.append(div, elem("span"));
    doc.append(div, text("\n            "));
    doc.append(outer, text("\n                    "));
    let inner = doc.append(outer, elem("span"));
    let b2 = doc.append(inner, elem("b"));
    doc.append(b2, text("2"));
    doc.append(outer, text("\n                    "));
    let b3 = doc.append(outer, elem("b"));
    doc.append(b3, text("3"));
    doc.append(outer, text("\n                "));

    let sel1 = Selector { parts: vec![tag("div"), tag("span")] };
    let sel2 = Selector { parts: vec![Compound::Scope, tag("b")] };

    let root = doc.root_element().unwrap();
    let element1 = root.select(&sel1).next().unwrap();
    let element2 = element1.select(&sel2).next().unwrap();
    assert_eq!(element2.inner_html(), "3");
}

#[test]
fn scope_child_selects_only_direct_children() {
    // <div><b>1</b><span><span><b>2</b></span><b>3</b></span></div>
    let (mut doc, html) = fragment();
    let div = doc.append(html, elem("div"));
    let b1 = doc.append(div, elem("b"));
    doc.append(b1, text("1"));
    let outer = doc.append(div, elem("span"));
    let inner = doc.append(outer, elem("span"));
    let b2 = doc.append(inner, elem("b"));
    doc.append(b2, text("2"));
    let b3 = doc.append(outer, elem("b"));
    doc.append(b3, text("3"));

    let root = doc.root_element().unwrap();
    let spans = Selector { parts: vec![tag("div"), tag("span")] };
    let mut found = root.select(&spans);
    let span = found.next().unwrap();
    assert_eq!(span.id(), outer);
    assert!(found.next().is_none());

    let direct_b = Selector { parts: vec![Compound::Scope, tag("b")] };
    let mut bs = span.select(&direct_b);
    let b = bs.next().unwrap();
    assert_eq!(b.id(), b3);
    assert_eq!(b.html(), "<b>3</b>");
    assert!(bs.next().is_none());

    // Without the scope anchor every `b` below the span matches.
    let any_b = Selector { parts: vec![tag("b")] };
    let all: Vec<NodeId> = {
        let mut s = span.select(&any_b);
        let mut v = Vec::new();
        while let Some(e) = s.next() {
            v.push(e.id());
        }
        v
    };
    assert_eq!(all, vec![b2, b3]);
}

#[test]
fn child_elements_skip_text() {
    // foo<span>bar</span><a>baz</a>qux
    let (mut doc, html) = fragment();
    doc.append(html, text("foo"));
    let span = doc.append(html, elem("span"));
    doc.append(span, text("bar"));
    let a = doc.append(html, elem("a"));
    doc.append(a, text("baz"));
    doc.append(html, text("qux"));

    let root = doc.root_element().unwrap();
    let children = root.child_elements();
    assert_eq!(names(&children), vec!["span", "a"]);
    assert!(children.iter().all(|c| c.id() != root.id()));
}

#[test]
fn descendent_elements_start_with_self() {
    // foo<span><b>bar</b></span><a><i>baz</i></a>qux
    let (mut doc, html) = fragment();
    doc.append(html, text("foo"));
    let span = doc.append(html, elem("span"));
    let b = doc.append(span, elem("b"));
    doc.append(b, text("bar"));
    let a = doc.append(html, elem("a"));
    let i = doc.append(a, elem("i"));
    doc.append(i, text("baz"));
    doc.append(html, text("qux"));

    let root = doc.root_element().unwrap();
    let all = root.descendent_elements();
    assert_eq!(names(&all), vec!["html", "span", "b", "a", "i"]);
    assert_eq!(all[0].id(), root.id());
}

#[test]
fn query_never_yields_its_anchor() {
    // <div><div></div></div>
    let (mut doc, html) = fragment();
    let outer = doc.append(html, elem("div"));
    let inner = doc.append(outer, elem("div"));
    let outer_ref = ElementRef::wrap(&doc, outer).unwrap();
    let divs = Selector { parts: vec![tag("div")] };
    let mut s = outer_ref.select(&divs);
    assert_eq!(s.next().unwrap().id(), inner);
    assert!(s.next().is_none());

    // From the parent, the outer div is found again.
    let root = doc.root_element().unwrap();
    let mut s = root.select(&divs);
    assert_eq!(s.next().unwrap().id(), outer);
    assert_eq!(s.next().unwrap().id(), inner);
}

#[test]
fn exhausted_searches_stay_exhausted() {
    let (mut doc, html) = fragment();
    let p = doc.append(html, elem("p"));
    doc.append(p, text("one"));
    doc.append(html, text("two"));
    let root = doc.root_element().unwrap();

    let ps = Selector { parts: vec![tag("p")] };
    let mut s = root.select(&ps);
    assert_eq!(s.next().unwrap().id(), p);
    for _ in 0..3 {
        assert!(s.next().is_none());
    }
    let err = s.try_next().err().unwrap();
    assert_eq!(err.scope.id(), root.id());
    assert_eq!(err.index, 1);

    let mut t = root.text();
    assert_eq!(t.next(), Some("one"));
    assert_eq!(t.next(), Some("two"));
    for _ in 0..3 {
        assert_eq!(t.next(), None);
    }
    let err = t.try_next_err();
    assert_eq!(err.root, root.id());
    assert_eq!(err.index, 2);
}

#[test]
fn try_next_returns_items_then_error() {
    let (mut doc, html) = fragment();
    doc.append(html, text("x"));
    let root = doc.root_element().unwrap();
    let mut t = root.text();
    assert_eq!(t.try_next().ok(), Some("x"));
    let err = t.try_next().err().unwrap();
    assert_eq!(err.index, 1);

    let none = Selector { parts: vec![tag("table")] };
    let mut s = root.select(&none);
    let err = s.try_next().err().unwrap();
    assert_eq!(err.index, 0);
    assert!(std::ptr::eq(err.selector, &none));
}

#[test]
fn attributes_and_missing_attributes() {
    let (mut doc, html) = fragment();
    let a = doc.append(html, elem_with("a", &[("href", "/x"), ("id", "one"), ("href", "/y")]));
    let link = ElementRef::wrap(&doc, a).unwrap();
    assert_eq!(link.attr("href"), Some("/x"));
    assert_eq!(link.try_attr("href").ok(), Some("/x"));
    assert_eq!(link.attr("id"), link.try_attr("id").ok());
    assert_eq!(link.attr("class"), None);
    let err = link.try_attr("class").err().unwrap();
    assert_eq!(err.attr, "class");
    assert_eq!(err.element.id(), a);
}

#[test]
fn wrap_accepts_only_elements() {
    let (mut doc, html) = fragment();
    let t = doc.append(html, text("hi"));
    assert!(ElementRef::wrap(&doc, t).is_none());
    assert!(ElementRef::wrap(&doc, doc.root()).is_none());
    assert!(ElementRef::wrap(&doc, html).is_some());
}

#[test]
fn outer_and_inner_html() {
    let (mut doc, html) = fragment();
    let p = doc.append(html, elem_with("p", &[("class", "x\"y")]));
    doc.append(p, text("a<b & c"));
    let b = doc.append(p, elem("b"));
    doc.append(b, text("c"));
    doc.append(p, Node::Comment(" note ".to_string()));
    doc.append(p, elem("br"));
    let e = ElementRef::wrap(&doc, p).unwrap();
    assert_eq!(e.inner_html(), "a&lt;b &amp; c<b>c</b><!-- note --><br>");
    assert_eq!(e.html(), "<p class=\"x&quot;y\">a&lt;b &amp; c<b>c</b><!-- note --><br></p>");
}

#[test]
fn raw_text_elements_are_not_escaped() {
    let (mut doc, html) = fragment();
    let s = doc.append(html, elem("script"));
    doc.append(s, text("a < b"));
    let e = ElementRef::wrap(&doc, s).unwrap();
    assert_eq!(e.html(), "<script>a < b</script>");
}

#[test]
fn empty_selector_and_unanchored_scope_match_nothing() {
    let (mut doc, html) = fragment();
    let b = doc.append(html, elem("b"));
    let empty = Selector { parts: Vec::new() };
    assert!(!empty.matches_with_scope(&doc, b, None));
    let scoped = Selector { parts: vec![Compound::Scope, tag("b")] };
    assert!(!scoped.matches_with_scope(&doc, b, None));
    assert!(scoped.matches_with_scope(&doc, b, Some(html)));
    let any = Selector { parts: vec![Compound::Any] };
    assert!(any.matches_with_scope(&doc, b, None));
}

#[test]
fn root_element_is_first_element_child() {
    let mut doc = Html::new(Node::Document);
    let root = doc.root();
    assert!(doc.root_element().is_none());
    doc.append(root, Node::Doctype("html".to_string()));
    let html = doc.append(root, elem("html"));
    assert_eq!(doc.root_element().unwrap().id(), html);
}

#[test]
fn processing_instructions_and_doctypes_are_written() {
    let mut doc = Html::new(Node::Document);
    let root = doc.root();
    let svg = doc.append(root, elem("svg"));
    doc.append(svg, Node::ProcessingInstruction("xml-stylesheet".to_string(), "href=\"a.css\"".to_string()));
    doc.append(svg, Node::Doctype("html".to_string()));
    let e = ElementRef::wrap(&doc, svg).unwrap();
    assert_eq!(e.inner_html(), "<?xml-stylesheet href=\"a.css\"><!DOCTYPE html>");
    assert_eq!(e.html(), "<svg><?xml-stylesheet href=\"a.css\"><!DOCTYPE html></svg>");
    let mut t = e.text();
    assert_eq!(t.next(), None);
}

#[test]
fn rewrapping_a_view_designates_the_same_node() {
    let (mut doc, html) = fragment();
    let p = doc.append(html, elem("p"));
    let e = ElementRef::wrap(&doc, p).unwrap();
    let again = ElementRef::wrap(&doc, e.id()).unwrap();
    assert_eq!(again.id(), e.id());
    assert_eq!(again.html(), e.html());
    let children = doc.root_element().unwrap().child_elements();
    assert_eq!(children.len(), 1);
    assert_eq!(children[0].id(), p);
}
