//! HTML serialization: verified code walks a subtree and feeds each piece of
//! markup to html5ever's serializer, which escapes and writes it.

use vstd::prelude::*;
use crate::node::Node;
use crate::tree::{edge_depth, edge_node, element_depth, Edge, Html, NodeRecord};
use ego_tree::NodeId;
use html5ever::serialize::{HtmlSerializer, SerializeOpts, Serializer};
use html5ever::{LocalName, Namespace, QualName};

verus! {

/// One piece of markup, as the proofs see it.
pub enum Markup {
    Start(Seq<char>, Seq<(Seq<char>, Seq<char>)>),
    End(Seq<char>),
    Text(Seq<char>),
    Comment(Seq<char>),
    Doctype(Seq<char>),
    ProcessingInstruction(Seq<char>, Seq<char>),
}

/// Attributes as pairs of character sequences.
pub open spec fn attrs_markup(a: Seq<(String, String)>) -> Seq<(Seq<char>, Seq<char>)> {
    a.map_values(|p: (String, String)| (p.0@, p.1@))
}

/// Start tags minus end tags.
pub open spec fn markup_depth(m: Seq<Markup>) -> int
    decreases m.len(),
{
    if m.len() == 0 {
        0
    } else {
        markup_depth(m.drop_last()) + tag_depth(m.last())
    }
}

/// 1 for a start tag, -1 for an end tag, 0 otherwise.
pub open spec fn tag_depth(x: Markup) -> int {
    match x {
        Markup::Start(_, _) => 1int,
        Markup::End(_) => -1int,
        _ => 0int,
    }
}

/// The HTML text that html5ever's serializer writes for a sequence of markup,
/// with scripting disabled.
pub uninterp spec fn html_text(m: Seq<Markup>) -> Seq<char>;

/// html5ever's serializer writing into a buffer. The struct is opaque because
/// the serializer's type is bounded by `std::io::Write`, which Verus cannot
/// declare; the proofs see it only through [`fed_markup`].
#[verifier::external_body]
pub struct MarkupWriter {
    ser: HtmlSerializer<Vec<u8>>,
}

/// The markup a writer has been fed so far, in order.
pub uninterp spec fn fed_markup(w: MarkupWriter) -> Seq<Markup>;

/// Relies on `HtmlSerializer::new`, writing into an empty buffer with
/// scripting disabled and no parent created for unbalanced end tags.
#[verifier::external_body]
fn new_writer() -> (w: MarkupWriter)
    ensures
        fed_markup(w) == Seq::<Markup>::empty(),
{
    let opts = SerializeOpts { scripting_enabled: false, ..Default::default() };
    MarkupWriter { ser: HtmlSerializer::new(Vec::new(), opts) }
}

/// Relies on `HtmlSerializer::start_elem` for an HTML element; it panics when
/// more end tags than start tags came before.
#[verifier::external_body]
fn write_start(w: &mut MarkupWriter, name: &String, attrs: &Vec<(String, String)>)
    requires
        markup_depth(fed_markup(*old(w))) >= 0,
    ensures
        fed_markup(*final(w)) == fed_markup(*old(w)).push(Markup::Start(name@, attrs_markup(attrs@))),
{
    let q = |ns: &str, n: &str| QualName::new(None, Namespace::from(ns), LocalName::from(n));
    let names: Vec<QualName> = attrs.iter().map(|(k, _)| q("", k)).collect();
    let pairs = names.iter().zip(attrs.iter().map(|(_, v)| v.as_str()));
    w.ser.start_elem(q("http://www.w3.org/1999/xhtml", name), pairs).unwrap()
}

/// Relies on `HtmlSerializer::end_elem`; it panics when more end tags than
/// start tags came before.
#[verifier::external_body]
fn write_end(w: &mut MarkupWriter, name: &String)
    requires
        markup_depth(fed_markup(*old(w))) >= 0,
    ensures
        fed_markup(*final(w)) == fed_markup(*old(w)).push(Markup::End(name@)),
{
    let q = QualName::new(None, Namespace::from("http://www.w3.org/1999/xhtml"), LocalName::from(name.as_str()));
    w.ser.end_elem(q).unwrap()
}

/// Relies on `HtmlSerializer::write_text`; it panics when more end tags than
/// start tags came before.
#[verifier::external_body]
fn write_text(w: &mut MarkupWriter, text: &String)
    requires
        markup_depth(fed_markup(*old(w))) >= 0,
    ensures
        fed_markup(*final(w)) == fed_markup(*old(w)).push(Markup::Text(text@)),
{
    w.ser.write_text(text).unwrap()
}

/// Relies on `HtmlSerializer::write_comment`.
#[verifier::external_body]
fn write_comment(w: &mut MarkupWriter, text: &String)
    ensures
        fed_markup(*final(w)) == fed_markup(*old(w)).push(Markup::Comment(text@)),
{
    w.ser.write_comment(text).unwrap()
}

/// Relies on `HtmlSerializer::write_doctype`.
#[verifier::external_body]
fn write_doctype(w: &mut MarkupWriter, name: &String)
    ensures
        fed_markup(*final(w)) == fed_markup(*old(w)).push(Markup::Doctype(name@)),
{
    w.ser.write_doctype(name).unwrap()
}

/// Relies on `HtmlSerializer::write_processing_instruction`.
#[verifier::external_body]
fn write_pi(w: &mut MarkupWriter, target: &String, data: &String)
    ensures
        fed_markup(*final(w)) == fed_markup(*old(w)).push(Markup::ProcessingInstruction(target@, data@)),
{
    w.ser.write_processing_instruction(target, data).unwrap()
}

/// Relies on `String::from_utf8`: the serializer writes only UTF-8, taken from
/// the `String`s it was fed and its own ASCII markup.
#[verifier::external_body]
fn finish(w: MarkupWriter) -> (r: String)
    ensures
        r@ == html_text(fed_markup(w)),
{
    String::from_utf8(w.ser.writer).unwrap()
}

/// The markup for one edge of a walk: a start or end tag for an element, the
/// node itself for text, comments, doctypes and processing instructions, and
/// nothing for document and fragment roots or for closing a non-element.
pub open spec fn edge_markup(nodes: Map<NodeId, NodeRecord>, e: Edge) -> Seq<Markup> {
    match e {
        Edge::Open(n) => match nodes[n].value {
            Node::Element(el) => seq![Markup::Start(el.name@, attrs_markup(el.attrs@))],
            Node::Text(t) => seq![Markup::Text(t@)],
            Node::Comment(t) => seq![Markup::Comment(t@)],
            Node::Doctype(t) => seq![Markup::Doctype(t@)],
            Node::ProcessingInstruction(a, b) => seq![Markup::ProcessingInstruction(a@, b@)],
            _ => Seq::empty(),
        },
        Edge::Close(n) => match nodes[n].value {
            Node::Element(el) => seq![Markup::End(el.name@)],
            _ => Seq::empty(),
        },
    }
}

/// The markup for a sequence of edges, in order.
pub open spec fn walk_markup(nodes: Map<NodeId, NodeRecord>, edges: Seq<Edge>) -> Seq<Markup>
    decreases edges.len(),
{
    if edges.len() == 0 {
        Seq::empty()
    } else {
        walk_markup(nodes, edges.drop_last()) + edge_markup(nodes, edges.last())
    }
}

proof fn lemma_depth_push(m: Seq<Markup>, x: Markup)
    ensures
        markup_depth(m.push(x)) == markup_depth(m) + tag_depth(x),
{
    assert(m.push(x).drop_last() =~= m);
}

/// Writes the markup for one edge.
fn write_edge(doc: &Html, e: Edge, w: &mut MarkupWriter)
    requires
        doc.nodes().contains_key(edge_node(e)),
        markup_depth(fed_markup(*old(w))) >= 0,
    ensures
        fed_markup(*final(w)) == fed_markup(*old(w)) + edge_markup(doc.nodes(), e),
        markup_depth(fed_markup(*final(w))) == markup_depth(fed_markup(*old(w))) + edge_depth(doc.nodes(), e),
{
    let ghost before = fed_markup(*w);
    match e {
        Edge::Open(id) => match doc.value(id) {
            Node::Element(el) => write_start(w, &el.name, &el.attrs),
            Node::Text(t) => write_text(w, t),
            Node::Comment(t) => write_comment(w, t),
            Node::Doctype(t) => write_doctype(w, t),
            Node::ProcessingInstruction(a, b) => write_pi(w, a, b),
            _ => {},
        },
        Edge::Close(id) => match doc.value(id) {
            Node::Element(el) => write_end(w, &el.name),
            _ => {},
        },
    }
    proof {
        let m = edge_markup(doc.nodes(), e);
        if m.len() == 1 {
            lemma_depth_push(before, m[0]);
            assert(before + m =~= before.push(m[0]));
        } else {
            assert(before + m =~= before);
        }
    }
}

/// The HTML for the edges `edges[lo..hi]` of a walk over `doc`, where no
/// prefix of that range closes more elements than it opens.
pub(crate) fn write_edges(doc: &Html, edges: &Vec<Edge>, lo: usize, hi: usize) -> (r: String)
    requires
        lo <= hi <= edges@.len(),
        forall|i: int| 0 <= i < edges@.len() ==> doc.nodes().contains_key(#[trigger] edge_node(edges@[i])),
        forall|k: int| lo <= k <= hi ==> element_depth(doc.nodes(), #[trigger] edges@.subrange(lo as int, k)) >= 0,
    ensures
        r@ == html_text(walk_markup(doc.nodes(), edges@.subrange(lo as int, hi as int))),
{
    let mut w = new_writer();
    let mut i: usize = lo;
    while i < hi
        invariant
            lo <= i <= hi <= edges@.len(),
            forall|k: int| 0 <= k < edges@.len() ==> doc.nodes().contains_key(#[trigger] edge_node(edges@[k])),
            forall|k: int| lo <= k <= hi ==> element_depth(doc.nodes(), #[trigger] edges@.subrange(lo as int, k)) >= 0,
            fed_markup(w) == walk_markup(doc.nodes(), edges@.subrange(lo as int, i as int)),
            markup_depth(fed_markup(w)) == element_depth(doc.nodes(), edges@.subrange(lo as int, i as int)),
        decreases hi - i,
    {
        let e = edges[i];
        proof {
            assert(doc.nodes().contains_key(edge_node(edges@[i as int])));
            assert(element_depth(doc.nodes(), edges@.subrange(lo as int, i as int)) >= 0);
        }
        write_edge(doc, e, &mut w);
        i = i + 1;
        proof {
            let s = edges@.subrange(lo as int, i as int);
            assert(s.drop_last() =~= edges@.subrange(lo as int, i as int - 1));
            assert(s.last() == e);
        }
    }
    finish(w)
}

} // verus!
