//! Facts that relate the library's operations to one another.

use vstd::prelude::*;
use crate::element_ref::{
    attr_outcome, element_ids, inner_walk, opened_elements, select_step, text_step, try_attr_outcome,
    AttrNotFoundError, ElementRef, Select, Text,
};
use crate::node::Node;
use crate::serialize::{attrs_markup, edge_markup, walk_markup, Markup};
use crate::tree::Edge;
use crate::tree::{walk_children, walk_of, NodeRecord};
use crate::selector::{selector_matches, Selector};
use ego_tree::NodeId;

verus! {

/// An element view is determined by its document and its node: two views on
/// the same node of the same document are equal.
pub proof fn lemma_element_ref_ext<'a>(a: ElementRef<'a>, b: ElementRef<'a>)
    requires
        a.document() == b.document(),
        a.node() == b.node(),
    ensures
        a == b,
{
    ElementRef::lemma_ext(a, b);
}

/// Within one document, two element views are equal exactly when they
/// designate the same node.
pub proof fn lemma_element_ref_eq_iff<'a>(a: ElementRef<'a>, b: ElementRef<'a>)
    requires
        a.document() == b.document(),
    ensures
        (a == b) <==> (a.node() == b.node()),
{
    if a.node() == b.node() {
        ElementRef::lemma_ext(a, b);
    }
}

/// `e` is reached from `a` by following `k` child links.
pub open spec fn descends(nodes: Map<NodeId, NodeRecord>, a: NodeId, e: NodeId, k: nat) -> bool
    decreases k,
{
    if k == 0 {
        a == e
    } else {
        exists|c: NodeId| #[trigger] nodes[a].children.contains(c) && descends(nodes, c, e, (k - 1) as nat)
    }
}

proof fn lemma_walk_children_contains(nodes: Map<NodeId, NodeRecord>, cs: Seq<NodeId>, c: NodeId, f: nat, x: Edge)
    requires
        cs.contains(c),
        walk_of(nodes, c, f).contains(x),
    ensures
        walk_children(nodes, cs, f).contains(x),
    decreases cs.len(),
{
    let w = walk_of(nodes, c, f);
    let j = choose|j: int| 0 <= j < w.len() && w[j] == x;
    let pre = walk_children(nodes, cs.drop_last(), f);
    if cs.last() == c {
        assert(walk_children(nodes, cs, f)[pre.len() + j] == x);
    } else {
        let i = choose|i: int| 0 <= i < cs.len() && cs[i] == c;
        assert(cs.drop_last()[i] == c);
        lemma_walk_children_contains(nodes, cs.drop_last(), c, f, x);
        let m = choose|m: int| 0 <= m < pre.len() && pre[m] == x;
        assert(walk_children(nodes, cs, f)[m] == x);
    }
}

/// A node `k >= 1` child links below `a` is opened by the walk under `a`
/// after its first edge, provided the walk follows more than `k` levels.
pub proof fn lemma_walk_reaches_descendant(nodes: Map<NodeId, NodeRecord>, a: NodeId, e: NodeId, k: nat, f: nat)
    requires
        k >= 1,
        f > k,
        descends(nodes, a, e, k),
    ensures
        exists|i: int| 0 < i < walk_of(nodes, a, f).len() && walk_of(nodes, a, f)[i] == Edge::Open(e),
    decreases k,
{
    let c = choose|c: NodeId| #[trigger] nodes[a].children.contains(c) && descends(nodes, c, e, (k - 1) as nat);
    let g = (f - 1) as nat;
    if k == 1 {
        assert(walk_of(nodes, c, g)[0] == Edge::Open(e));
        assert(walk_of(nodes, c, g).contains(Edge::Open(e)));
    } else {
        lemma_walk_reaches_descendant(nodes, c, e, (k - 1) as nat, g);
        let i = choose|i: int| 0 < i < walk_of(nodes, c, g).len() && walk_of(nodes, c, g)[i] == Edge::Open(e);
        assert(walk_of(nodes, c, g).contains(Edge::Open(e)));
    }
    lemma_walk_children_contains(nodes, nodes[a].children, c, g, Edge::Open(e));
    let mid = walk_children(nodes, nodes[a].children, g);
    let m = choose|m: int| 0 <= m < mid.len() && mid[m] == Edge::Open(e);
    assert(walk_of(nodes, a, f)[1 + m] == Edge::Open(e));
}

/// A query is not blind to its anchor's own matches when run from an
/// ancestor: an element `k >= 1` child links below the anchor of a fresh
/// search, matching the selector with that anchor as `:scope`, stands in the
/// search's walk after the cursor as a match, so the search yields it (a
/// step skips no match). The chain is shorter than the document's node count,
/// as every chain in a tree is.
pub proof fn lemma_select_reaches_descendant<'a, 'b>(s: Select<'a, 'b>, e: NodeId, k: nat)
    requires
        s.cursor() == 1,
        s.walk() == s.scope().document().walk(s.scope().node()),
        k >= 1,
        k < s.scope().document().nodes().len(),
        descends(s.scope().document().nodes(), s.scope().node(), e, k),
        s.scope().document().nodes()[e].value is Element,
        selector_matches(s.scope().document().nodes(), e, s.selector().parts@, Some(s.scope().node())),
    ensures
        exists|i: int| s.cursor() <= i < s.walk().len() && s.walk()[i] == Edge::Open(e) && s.matches_at(i),
{
    let nodes = s.scope().document().nodes();
    lemma_walk_reaches_descendant(nodes, s.scope().node(), e, k, nodes.len());
    let i = choose|i: int| 0 < i < walk_of(nodes, s.scope().node(), nodes.len()).len()
        && walk_of(nodes, s.scope().node(), nodes.len())[i] == Edge::Open(e);
    assert(s.walk()[i] == Edge::Open(e) && s.matches_at(i));
}

/// Filtering a concatenation filters each part.
pub proof fn lemma_element_ids_split(nodes: Map<NodeId, NodeRecord>, a: Seq<NodeId>, b: Seq<NodeId>)
    ensures
        element_ids(nodes, a + b) == element_ids(nodes, a) + element_ids(nodes, b),
    decreases b.len(),
{
    if b.len() == 0 {
        assert(a + b =~= a);
        assert(element_ids(nodes, a) + element_ids(nodes, b) =~= element_ids(nodes, a));
    } else {
        lemma_element_ids_split(nodes, a, b.drop_last());
        assert((a + b).drop_last() =~= a + b.drop_last());
        assert((a + b).last() == b.last());
        if nodes[b.last()].value is Element {
            assert(element_ids(nodes, a + b) =~= element_ids(nodes, a) + element_ids(nodes, b));
        } else {
            assert(element_ids(nodes, a + b) =~= element_ids(nodes, a) + element_ids(nodes, b));
        }
    }
}

/// The elements opened by a concatenation of walks are those of each part.
pub proof fn lemma_opened_elements_split(nodes: Map<NodeId, NodeRecord>, a: Seq<Edge>, b: Seq<Edge>)
    ensures
        opened_elements(nodes, a + b) == opened_elements(nodes, a) + opened_elements(nodes, b),
    decreases b.len(),
{
    if b.len() == 0 {
        assert(a + b =~= a);
        assert(opened_elements(nodes, a) + opened_elements(nodes, b) =~= opened_elements(nodes, a));
    } else {
        lemma_opened_elements_split(nodes, a, b.drop_last());
        assert((a + b).drop_last() =~= a + b.drop_last());
        assert((a + b).last() == b.last());
        assert(opened_elements(nodes, a + b) =~= opened_elements(nodes, a) + opened_elements(nodes, b));
    }
}

/// Every element opened by a walk has an open edge in it.
pub proof fn lemma_opened_elements_from_open(nodes: Map<NodeId, NodeRecord>, s: Seq<Edge>, k: int)
    requires
        0 <= k < opened_elements(nodes, s).len(),
    ensures
        exists|i: int| 0 <= i < s.len() && s[i] == Edge::Open(opened_elements(nodes, s)[k]),
    decreases s.len(),
{
    if s.len() > 0 {
        let rest = opened_elements(nodes, s.drop_last());
        if k < rest.len() {
            lemma_opened_elements_from_open(nodes, s.drop_last(), k);
            let i = choose|i: int| 0 <= i < s.drop_last().len() && s.drop_last()[i] == Edge::Open(rest[k]);
            assert(s[i] == Edge::Open(opened_elements(nodes, s)[k]));
        } else {
            assert(s[s.len() - 1] == Edge::Open(opened_elements(nodes, s)[k]));
        }
    }
}

/// The elements opened by a walk that opens element `x` first and never
/// again: `x`, then only other elements.
pub proof fn lemma_opened_elements_first(nodes: Map<NodeId, NodeRecord>, s: Seq<Edge>, x: NodeId)
    requires
        s.len() >= 1,
        s[0] == Edge::Open(x),
        nodes.contains_key(x),
        nodes[x].value is Element,
        forall|i: int| 0 < i < s.len() ==> s[i] != Edge::Open(x),
    ensures
        opened_elements(nodes, s).len() >= 1,
        opened_elements(nodes, s)[0] == x,
        forall|i: int| 0 < i < opened_elements(nodes, s).len() ==> opened_elements(nodes, s)[i] != x,
{
    let head = s.subrange(0, 1);
    let tail = s.subrange(1, s.len() as int);
    assert(head + tail =~= s);
    lemma_opened_elements_split(nodes, head, tail);
    assert(head.drop_last() =~= Seq::<Edge>::empty());
    assert(opened_elements(nodes, head.drop_last()) =~= Seq::<NodeId>::empty());
    assert(head.last() == Edge::Open(x));
    assert(opened_elements(nodes, head) =~= seq![x]);
    assert forall|i: int| 0 < i < opened_elements(nodes, s).len() implies opened_elements(nodes, s)[i] != x by {
        let t = opened_elements(nodes, tail);
        assert(opened_elements(nodes, s)[i] == t[i - 1]);
        lemma_opened_elements_from_open(nodes, tail, i - 1);
        let j = choose|j: int| 0 <= j < tail.len() && tail[j] == Edge::Open(t[i - 1]);
        assert(tail[j] == s[j + 1]);
    }
}

/// The markup of a concatenation of walks is that of each part.
pub proof fn lemma_walk_markup_split(nodes: Map<NodeId, NodeRecord>, a: Seq<Edge>, b: Seq<Edge>)
    ensures
        walk_markup(nodes, a + b) == walk_markup(nodes, a) + walk_markup(nodes, b),
    decreases b.len(),
{
    if b.len() == 0 {
        assert(a + b =~= a);
        assert(walk_markup(nodes, a) + walk_markup(nodes, b) =~= walk_markup(nodes, a));
    } else {
        lemma_walk_markup_split(nodes, a, b.drop_last());
        assert((a + b).drop_last() =~= a + b.drop_last());
        assert((a + b).last() == b.last());
        assert(walk_markup(nodes, a + b) =~= walk_markup(nodes, a) + walk_markup(nodes, b));
    }
}

/// The HTML of an element is its start tag, then the HTML of its contents,
/// then its end tag: the outer form holds the element's own tags and the
/// inner form is what lies between them.
pub proof fn lemma_outer_wraps_inner(nodes: Map<NodeId, NodeRecord>, w: Seq<Edge>, x: NodeId)
    requires
        w.len() >= 2,
        w[0] == Edge::Open(x),
        w.last() == Edge::Close(x),
        nodes.contains_key(x),
        nodes[x].value is Element,
    ensures
        ({
            let el = nodes[x].value->Element_0;
            walk_markup(nodes, w) == seq![Markup::Start(el.name@, attrs_markup(el.attrs@))]
                + walk_markup(nodes, inner_walk(w)) + seq![Markup::End(el.name@)]
        }),
{
    let el = nodes[x].value->Element_0;
    let head = w.subrange(0, 1);
    let mid = inner_walk(w);
    let last = w.subrange(w.len() - 1, w.len() as int);
    assert(head + mid + last =~= w);
    lemma_walk_markup_split(nodes, head + mid, last);
    lemma_walk_markup_split(nodes, head, mid);
    assert(head.drop_last() =~= Seq::<Edge>::empty());
    assert(last.drop_last() =~= Seq::<Edge>::empty());
    assert(walk_markup(nodes, Seq::<Edge>::empty()) =~= Seq::<Markup>::empty());
    assert(head.last() == Edge::Open(x));
    assert(last.last() == Edge::Close(x));
    assert(edge_markup(nodes, Edge::Open(x)) == seq![Markup::Start(el.name@, attrs_markup(el.attrs@))]);
    assert(edge_markup(nodes, Edge::Close(x)) == seq![Markup::End(el.name@)]);
    assert(walk_markup(nodes, head) =~= seq![Markup::Start(el.name@, attrs_markup(el.attrs@))]);
    assert(walk_markup(nodes, last) =~= seq![Markup::End(el.name@)]);
}

/// Two successive matches of a selector search come in document order: the
/// second is opened later in the walk than the first.
pub proof fn lemma_select_document_order<'a, 'b>(
    s0: Select<'a, 'b>,
    s1: Select<'a, 'b>,
    s2: Select<'a, 'b>,
    a: ElementRef<'a>,
    b: ElementRef<'a>,
)
    requires
        select_step(s0, s1, Some(a)),
        select_step(s1, s2, Some(b)),
    ensures
        exists|i: int, j: int|
            0 <= i < j < s0.walk().len() && s0.walk()[i] == Edge::Open(a.node()) && s0.walk()[j]
                == Edge::Open(b.node()),
{
    let i = s1.cursor() - 1;
    let j = s2.cursor() - 1;
    assert(0 <= i < j < s0.walk().len() && s0.walk()[i] == Edge::Open(a.node()) && s0.walk()[j]
        == Edge::Open(b.node()));
}

/// Once a selector search has returned `None`, every later step returns
/// `None` again and changes nothing that can be observed.
pub proof fn lemma_select_fused<'a, 'b>(
    s0: Select<'a, 'b>,
    s1: Select<'a, 'b>,
    s2: Select<'a, 'b>,
    r: Option<ElementRef<'a>>,
)
    requires
        select_step(s0, s1, None),
        select_step(s1, s2, r),
    ensures
        r is None,
        s2.cursor() == s1.cursor(),
        s2.count() == s1.count(),
{
}

/// Once a text search has returned `None`, every later step returns `None`
/// again and changes nothing that can be observed.
pub proof fn lemma_text_fused<'a>(s0: Text<'a>, s1: Text<'a>, s2: Text<'a>, r: Option<&'a str>)
    requires
        text_step(s0, s1, None),
        text_step(s1, s2, r),
    ensures
        r is None,
        s2.cursor() == s1.cursor(),
        s2.count() == s1.count(),
{
}

/// `try_attr` agrees with `attr`: the same value where the attribute is
/// present, and where it is absent an error carrying exactly the element and
/// the name that were asked for.
pub proof fn lemma_try_attr_agrees<'a, 'b>(
    e: ElementRef<'a>,
    name: &'b str,
    r1: Option<&'a str>,
    r2: Result<&'a str, AttrNotFoundError<'a, 'b>>,
)
    requires
        attr_outcome(e, name, r1),
        try_attr_outcome(e, name, r2),
    ensures
        match (r1, r2) {
            (Some(v), Ok(w)) => v@ == w@,
            (None, Err(err)) => err.element == e && err.attr == name,
            _ => false,
        },
{
}

} // verus!
