//! Element views: handles on element nodes of a document, with attribute
//! lookup and the traversals that start at an element.

use vstd::prelude::*;
use crate::node::{attr_value, Element, Node};
use crate::selector::{selector_matches, Compound, Selector};
use crate::try_next::{TryNext, TryNextError};
use crate::serialize::{attrs_markup, html_text, walk_markup, write_edges, Markup};
use crate::tree::{edge_node, Edge, Html, NodeRecord};
use ego_tree::NodeId;

verus! {

/// Whether `id` is a node of `doc` whose payload is an element.
pub open spec fn is_element_node(doc: Html, id: NodeId) -> bool {
    doc.nodes().contains_key(id) && doc.nodes()[id].value is Element
}

/// The elements among `ids`, in order.
pub open spec fn element_ids(nodes: Map<NodeId, NodeRecord>, ids: Seq<NodeId>) -> Seq<NodeId>
    decreases ids.len(),
{
    if ids.len() == 0 {
        Seq::empty()
    } else {
        let rest = element_ids(nodes, ids.drop_last());
        if nodes[ids.last()].value is Element {
            rest.push(ids.last())
        } else {
            rest
        }
    }
}

/// The elements opened by a walk, in the order they are opened.
pub open spec fn opened_elements(nodes: Map<NodeId, NodeRecord>, edges: Seq<Edge>) -> Seq<NodeId>
    decreases edges.len(),
{
    if edges.len() == 0 {
        Seq::empty()
    } else {
        let rest = opened_elements(nodes, edges.drop_last());
        match edges.last() {
            Edge::Open(n) => if nodes[n].value is Element {
                rest.push(n)
            } else {
                rest
            },
            Edge::Close(_) => rest,
        }
    }
}

/// What [`ElementRef::attr`] returns: the value of the first attribute of
/// that name, or `None` if there is none.
pub open spec fn attr_outcome<'a>(e: ElementRef<'a>, name: &str, r: Option<&'a str>) -> bool {
    match r {
        Some(v) => attr_value(e.payload().attrs@, name@) == Some(v@),
        None => attr_value(e.payload().attrs@, name@) is None,
    }
}

/// What [`ElementRef::try_attr`] returns: the value of the first attribute
/// of that name, or an error naming the element and the attribute.
pub open spec fn try_attr_outcome<'a, 'b>(
    e: ElementRef<'a>,
    name: &'b str,
    r: Result<&'a str, AttrNotFoundError<'a, 'b>>,
) -> bool {
    match r {
        Ok(v) => attr_value(e.payload().attrs@, name@) == Some(v@),
        Err(err) => attr_value(e.payload().attrs@, name@) is None && err.element == e && err.attr == name,
    }
}

/// A walk without its first and last edges: the walks of the children.
pub open spec fn inner_walk(w: Seq<Edge>) -> Seq<Edge> {
    w.subrange(1, w.len() - 1)
}

/// A handle on an element node of a document.
#[derive(Clone, Copy)]
pub struct ElementRef<'a> {
    doc: &'a Html,
    id: NodeId,
}

impl<'a> ElementRef<'a> {
    #[verifier::type_invariant]
    spec fn inv(self) -> bool {
        self.doc.wf() && is_element_node(*self.doc, self.id)
    }

    /// The document the element belongs to.
    pub closed spec fn document(self) -> Html {
        *self.doc
    }

    /// The element's node id.
    pub closed spec fn node(self) -> NodeId {
        self.id
    }

    pub(crate) proof fn lemma_ext(a: ElementRef<'a>, b: ElementRef<'a>)
        requires
            a.document() == b.document(),
            a.node() == b.node(),
        ensures
            a == b,
    {
    }

    /// The element's payload.
    pub open spec fn payload(self) -> Element {
        match self.document().nodes()[self.node()].value {
            Node::Element(e) => e,
            _ => arbitrary(),
        }
    }

    /// Wraps node `id` of `doc` only if it is an element.
    pub fn wrap(doc: &'a Html, id: NodeId) -> (r: Option<ElementRef<'a>>)
        requires
            doc.wf(),
            doc.nodes().contains_key(id),
        ensures
            r is Some <==> doc.nodes()[id].value is Element,
            r matches Some(e) ==> e.document() == *doc && e.node() == id,
    {
        match doc.value(id) {
            Node::Element(_) => Some(ElementRef { doc, id }),
            _ => None,
        }
    }

    /// The element's node id.
    pub fn id(&self) -> (r: NodeId)
        ensures
            r == self.node(),
            self.document().wf(),
            is_element_node(self.document(), r),
    {
        proof {
            use_type_invariant(self);
        }
        self.id
    }

    /// The element's payload.
    pub fn value(&self) -> (r: &'a Element)
        ensures
            *r == self.payload(),
            self.document().nodes()[self.node()].value == Node::Element(*r),
    {
        proof {
            use_type_invariant(self);
        }
        match self.doc.value(self.id) {
            Node::Element(e) => e,
            _ => vstd::pervasive::unreached(),
        }
    }

    /// The value of the attribute called `attr`, if the element has one.
    pub fn attr(&self, attr: &str) -> (r: Option<&'a str>)
        ensures
            attr_outcome(*self, attr, r),
    {
        self.value().attr(attr)
    }

    /// The value of the attribute called `attr`, or an error that names the
    /// element and the attribute.
    pub fn try_attr<'b>(&self, attr: &'b str) -> (r: Result<&'a str, AttrNotFoundError<'a, 'b>>)
        ensures
            try_attr_outcome(*self, attr, r),
    {
        match self.attr(attr) {
            Some(v) => Ok(v),
            None => Err(AttrNotFoundError { element: *self, attr }),
        }
    }

    /// A lazy search for the elements below this one that match `selector`,
    /// with this element as `:scope`. The walk starts just inside this
    /// element, so the element itself is never a result.
    pub fn select<'b>(&self, selector: &'b Selector) -> (r: Select<'a, 'b>)
        ensures
            r.scope() == *self,
            r.selector() == *selector,
            r.walk() == self.document().walk(self.node()),
            r.cursor() == 1,
            r.count() == 0,
    {
        proof {
            use_type_invariant(self);
        }
        let inner = self.doc.traverse(self.id);
        Select { scope: *self, inner, pos: 1, selector, index: 0 }
    }

    /// A lazy search for the text nodes of this element's subtree.
    pub fn text(&self) -> (r: Text<'a>)
        ensures
            r.document() == self.document(),
            r.root() == self.node(),
            r.walk() == self.document().walk(self.node()),
            r.cursor() == 0,
            r.count() == 0,
    {
        proof {
            use_type_invariant(self);
        }
        let inner = self.doc.traverse(self.id);
        Text { doc: self.doc, root: self.id, inner, pos: 0, index: 0 }
    }

    /// The HTML of this element: its start tag, its contents and its end tag.
    pub fn html(&self) -> (r: String)
        ensures
            r@ == html_text(walk_markup(self.document().nodes(), self.document().walk(self.node()))),
            r@ == html_text(
                seq![Markup::Start(self.payload().name@, attrs_markup(self.payload().attrs@))]
                    + walk_markup(self.document().nodes(), inner_walk(self.document().walk(self.node())))
                    + seq![Markup::End(self.payload().name@)],
            ),
    {
        proof {
            use_type_invariant(self);
        }
        let edges = self.doc.traverse(self.id);
        proof {
            assert(edges@.subrange(0, edges@.len() as int) =~= edges@);
            crate::laws::lemma_outer_wraps_inner(self.doc.nodes(), edges@, self.id);
        }
        write_edges(self.doc, &edges, 0, edges.len())
    }

    /// The HTML of this element's contents, without its own tags.
    pub fn inner_html(&self) -> (r: String)
        ensures
            r@ == html_text(walk_markup(self.document().nodes(), inner_walk(self.document().walk(self.node())))),
    {
        proof {
            use_type_invariant(self);
        }
        let edges = self.doc.traverse(self.id);
        write_edges(self.doc, &edges, 1, edges.len() - 1)
    }

    /// The child nodes of this element that are elements, in document order.
    pub fn child_elements(&self) -> (r: Vec<ElementRef<'a>>)
        ensures
            r@.map_values(|e: ElementRef<'a>| e.node()) == element_ids(
                self.document().nodes(),
                self.document().nodes()[self.node()].children,
            ),
            forall|i: int| 0 <= i < r@.len() ==> (#[trigger] r@[i]).document() == self.document(),
            forall|i: int| 0 <= i < r@.len() ==> (#[trigger] r@[i]).node() != self.node(),
            forall|i: int| 0 <= i < r@.len() ==> self.document().nodes()[(#[trigger] r@[i]).node()].parent == Some(self.node()),
    {
        proof {
            use_type_invariant(self);
        }
        let ghost nodes = self.doc.nodes();
        let children = self.doc.children(self.id);
        let mut r: Vec<ElementRef<'a>> = Vec::new();
        let mut i: usize = 0;
        while i < children.len()
            invariant
                i <= children@.len(),
                nodes == self.doc.nodes(),
                nodes.contains_key(self.id),
                children@ == nodes[self.id].children,
                forall|j: int| 0 <= j < children@.len() ==> nodes.contains_key(#[trigger] children@[j]),
                r@.map_values(|e: ElementRef<'a>| e.node()) == element_ids(nodes, children@.subrange(0, i as int)),
                forall|j: int| 0 <= j < r@.len() ==> (#[trigger] r@[j]).document() == *self.doc,
                forall|j: int| 0 <= j < children@.len() ==> #[trigger] children@[j] != self.id,
                forall|j: int| 0 <= j < r@.len() ==> (#[trigger] r@[j]).node() != self.id,
                self.doc.wf(),
                forall|j: int| 0 <= j < r@.len() ==> nodes[(#[trigger] r@[j]).node()].parent == Some(self.id),
            decreases children@.len() - i,
        {
            let c = children[i];
            proof {
                assert(nodes[self.id].children[i as int] == c);
                assert(nodes[c].parent == Some(self.id));
                assert(children@.subrange(0, i as int + 1).drop_last() =~= children@.subrange(0, i as int));
            }
            match ElementRef::wrap(self.doc, c) {
                Some(e) => {
                    r.push(e);
                    proof {
                                assert(r@.map_values(|e: ElementRef<'a>| e.node()) =~= element_ids(nodes, children@.subrange(0, i as int + 1)));
                    }
                },
                None => {
                    proof {
                                assert(element_ids(nodes, children@.subrange(0, i as int + 1)) =~= element_ids(nodes, children@.subrange(0, i as int)));
                    }
                },
            }
            i = i + 1;
        }
        proof {
            assert(children@.subrange(0, children@.len() as int) =~= children@);
        }
        r
    }

    /// This element and the elements below it, in document order.
    pub fn descendent_elements(&self) -> (r: Vec<ElementRef<'a>>)
        ensures
            r@.map_values(|e: ElementRef<'a>| e.node()) == opened_elements(
                self.document().nodes(),
                self.document().walk(self.node()),
            ),
            forall|i: int| 0 <= i < r@.len() ==> (#[trigger] r@[i]).document() == self.document(),
            r@.len() >= 1,
            r@[0] == *self,
            forall|i: int| 0 < i < r@.len() ==> (#[trigger] r@[i]).node() != self.node(),
    {
        proof {
            use_type_invariant(self);
        }
        let ghost nodes = self.doc.nodes();
        let edges = self.doc.traverse(self.id);
        let mut r: Vec<ElementRef<'a>> = Vec::new();
        let mut i: usize = 0;
        while i < edges.len()
            invariant
                i <= edges@.len(),
                nodes == self.doc.nodes(),
                forall|j: int| 0 <= j < edges@.len() ==> nodes.contains_key(#[trigger] edge_node(edges@[j])),
                r@.map_values(|e: ElementRef<'a>| e.node()) == opened_elements(nodes, edges@.subrange(0, i as int)),
                self.doc.wf(),
                forall|j: int| 0 <= j < r@.len() ==> (#[trigger] r@[j]).document() == *self.doc,
            decreases edges@.len() - i,
        {
            proof {
                assert(edges@.subrange(0, i as int + 1).drop_last() =~= edges@.subrange(0, i as int));
                assert(nodes.contains_key(edge_node(edges@[i as int])));
            }
            match edges[i] {
                Edge::Open(n) => {
                    match ElementRef::wrap(self.doc, n) {
                        Some(e) => {
                            r.push(e);
                            proof {
                                assert(r@.map_values(|e: ElementRef<'a>| e.node()) =~= opened_elements(nodes, edges@.subrange(0, i as int + 1)));
                            }
                        },
                        None => {},
                    }
                },
                Edge::Close(_) => {},
            }
            i = i + 1;
        }
        proof {
            assert(edges@.subrange(0, edges@.len() as int) =~= edges@);
            crate::laws::lemma_opened_elements_first(nodes, edges@, self.id);
            let ids = r@.map_values(|e: ElementRef<'a>| e.node());
            assert forall|i: int| 0 < i < r@.len() implies (#[trigger] r@[i]).node() != self.node() by {
                assert(ids[i] == r@[i].node());
            }
            assert(ids[0] == r@[0].node());
            assert(r@[0] == *self);
        }
        r
    }
}

/// The error of [`ElementRef::try_attr`]: the element has no such attribute.
pub struct AttrNotFoundError<'a, 'b> {
    /// The element that was searched.
    pub element: ElementRef<'a>,
    /// The attribute that is missing.
    pub attr: &'b str,
}

/// Whether edge `e` opens an element that matches `parts` with `scope` as `:scope`.
pub open spec fn is_match(
    nodes: Map<NodeId, NodeRecord>,
    e: Edge,
    parts: Seq<Compound>,
    scope: NodeId,
) -> bool {
    match e {
        Edge::Open(n) => nodes[n].value is Element && selector_matches(nodes, n, parts, Some(scope)),
        Edge::Close(_) => false,
    }
}

/// A lazy search for the elements below a scope element that match a selector.
pub struct Select<'a, 'b> {
    scope: ElementRef<'a>,
    inner: Vec<Edge>,
    pos: usize,
    selector: &'b Selector,
    index: usize,
}

impl<'a, 'b> Select<'a, 'b> {
    #[verifier::type_invariant]
    spec fn inv(self) -> bool {
        let nodes = self.scope.document().nodes();
        &&& self.inner@ == self.scope.document().walk(self.scope.node())
        &&& self.inner@.len() >= 2
        &&& self.inner@[0] == Edge::Open(self.scope.node())
        &&& forall|i: int| 0 < i < self.inner@.len() ==> #[trigger] self.inner@[i] != Edge::Open(self.scope.node())
        &&& forall|i: int| 0 <= i < self.inner@.len() ==> nodes.contains_key(#[trigger] edge_node(self.inner@[i]))
        &&& 1 <= self.pos <= self.inner@.len()
        &&& self.index < self.pos
    }

    /// The element the search is anchored at.
    pub closed spec fn scope(self) -> ElementRef<'a> {
        self.scope
    }

    /// The walk being searched.
    pub closed spec fn walk(self) -> Seq<Edge> {
        self.inner@
    }

    /// The position in the walk of the next edge to look at.
    pub closed spec fn cursor(self) -> int {
        self.pos as int
    }

    /// The selector being applied.
    pub closed spec fn selector(self) -> Selector {
        *self.selector
    }

    /// How many matches have been yielded so far.
    pub closed spec fn count(self) -> nat {
        self.index as nat
    }

    /// Whether the edge at position `i` of the walk is a match.
    pub open spec fn matches_at(self, i: int) -> bool {
        is_match(self.scope().document().nodes(), self.walk()[i], self.selector().parts@, self.scope().node())
    }

    /// The next match after the cursor, or `None` once the walk is used up;
    /// every later call then returns `None` too.
    pub fn next(&mut self) -> (r: Option<ElementRef<'a>>)
        ensures
            select_step(*old(self), *final(self), r),
            r matches Some(e) ==> e.node() != old(self).scope().node(),
    {
        proof {
            use_type_invariant(&*self);
        }
        let ghost start = self.pos as int;
        while self.pos < self.inner.len()
            invariant
                self.scope == old(self).scope,
                self.inner@ == old(self).inner@,
                self.selector == old(self).selector,
                self.index == old(self).index,
                start == old(self).pos,
                start <= self.pos <= self.inner@.len(),
                forall|j: int| start <= j < self.pos ==> !old(self).matches_at(j),
            decreases self.inner@.len() - self.pos,
        {
            proof {
                use_type_invariant(&*self);
                use_type_invariant(&self.scope);
            }
            let e = self.inner[self.pos];
            self.pos = self.pos + 1;
            match e {
                Edge::Open(n) => {
                    proof {
                        assert(edge_node(self.inner@[self.pos - 1]) == n);
                    }
                    match ElementRef::wrap(self.scope.doc, n) {
                        Some(element) => {
                            if self.selector.matches_with_scope(self.scope.doc, n, Some(self.scope.id)) {
                                self.index = self.index + 1;
                                return Some(element);
                            }
                        },
                        None => {},
                    }
                },
                Edge::Close(_) => {},
            }
        }
        None
    }
}

/// What one call of [`Select::next`] does: it moves the cursor past the
/// edges that do not match, and past the first one that does, which it yields.
pub open spec fn select_step<'a, 'b>(
    s0: Select<'a, 'b>,
    s1: Select<'a, 'b>,
    r: Option<ElementRef<'a>>,
) -> bool {
    &&& s1.scope() == s0.scope()
    &&& s1.walk() == s0.walk()
    &&& s1.selector() == s0.selector()
    &&& 0 <= s0.cursor() <= s1.cursor() <= s0.walk().len()
    &&& match r {
        Some(e) => {
            &&& s0.cursor() < s1.cursor()
            &&& forall|j: int| s0.cursor() <= j < s1.cursor() - 1 ==> !s0.matches_at(j)
            &&& s0.matches_at(s1.cursor() - 1)
            &&& s0.walk()[s1.cursor() - 1] == Edge::Open(e.node())
            &&& e.document() == s0.scope().document()
            &&& s1.count() == s0.count() + 1
        },
        None => {
            &&& forall|j: int| s0.cursor() <= j < s0.walk().len() ==> !s0.matches_at(j)
            &&& s1.cursor() == s0.walk().len()
            &&& s1.count() == s0.count()
        },
    }
}

/// The error of a selector search that found no further match.
pub struct ElementNotFoundError<'a, 'b> {
    /// The element the search was anchored at.
    pub scope: ElementRef<'a>,
    /// The selector that was applied.
    pub selector: &'b Selector,
    /// How many matches had been found.
    pub index: usize,
}

impl<'a, 'b> TryNextError for Select<'a, 'b> {
    type Error = ElementNotFoundError<'a, 'b>;

    open spec fn describes(s: Select<'a, 'b>, e: ElementNotFoundError<'a, 'b>) -> bool {
        e.scope == s.scope() && *e.selector == s.selector() && e.index as nat == s.count()
    }

    fn try_next_err(&mut self) -> (e: ElementNotFoundError<'a, 'b>) {
        ElementNotFoundError { scope: self.scope, selector: self.selector, index: self.index }
    }
}

impl<'a, 'b> TryNext for Select<'a, 'b> {
    type Item = ElementRef<'a>;

    type Error = ElementNotFoundError<'a, 'b>;

    open spec fn step(s0: Select<'a, 'b>, s1: Select<'a, 'b>, r: Option<ElementRef<'a>>) -> bool {
        select_step(s0, s1, r)
    }

    open spec fn failure(s: Select<'a, 'b>, e: ElementNotFoundError<'a, 'b>) -> bool {
        <Select<'a, 'b> as TryNextError>::describes(s, e)
    }

    fn try_next(&mut self) -> (r: Result<ElementRef<'a>, ElementNotFoundError<'a, 'b>>) {
        match self.next() {
            Some(e) => Ok(e),
            None => Err(self.try_next_err()),
        }
    }
}

/// The text of the node that edge `e` opens, if it opens a text node.
pub open spec fn text_at(nodes: Map<NodeId, NodeRecord>, e: Edge) -> Option<Seq<char>> {
    match e {
        Edge::Open(n) => match nodes[n].value {
            Node::Text(t) => Some(t@),
            _ => None,
        },
        Edge::Close(_) => None,
    }
}

/// A lazy search for the text nodes of a subtree.
pub struct Text<'a> {
    doc: &'a Html,
    root: NodeId,
    inner: Vec<Edge>,
    pos: usize,
    index: usize,
}

impl<'a> Text<'a> {
    #[verifier::type_invariant]
    spec fn inv(self) -> bool {
        &&& self.doc.nodes().contains_key(self.root)
        &&& self.inner@ == self.doc.walk(self.root)
        &&& forall|i: int| 0 <= i < self.inner@.len() ==> self.doc.nodes().contains_key(#[trigger] edge_node(self.inner@[i]))
        &&& self.pos <= self.inner@.len()
        &&& self.index <= self.pos
    }

    /// The document searched.
    pub closed spec fn document(self) -> Html {
        *self.doc
    }

    /// The node whose subtree is searched.
    pub closed spec fn root(self) -> NodeId {
        self.root
    }

    /// The walk being searched.
    pub closed spec fn walk(self) -> Seq<Edge> {
        self.inner@
    }

    /// The position in the walk of the next edge to look at.
    pub closed spec fn cursor(self) -> int {
        self.pos as int
    }

    /// How many text nodes have been yielded so far.
    pub closed spec fn count(self) -> nat {
        self.index as nat
    }

    /// The text opened at position `i` of the walk, if any.
    pub open spec fn text_at(self, i: int) -> Option<Seq<char>> {
        text_at(self.document().nodes(), self.walk()[i])
    }

    /// The next text node's text, or `None` once the walk is used up; every
    /// later call then returns `None` too.
    pub fn next(&mut self) -> (r: Option<&'a str>)
        ensures
            text_step(*old(self), *final(self), r),
    {
        proof {
            use_type_invariant(&*self);
        }
        let ghost start = self.pos as int;
        while self.pos < self.inner.len()
            invariant
                self.doc == old(self).doc,
                self.root == old(self).root,
                self.inner@ == old(self).inner@,
                self.index == old(self).index,
                start == old(self).pos,
                start <= self.pos <= self.inner@.len(),
                forall|j: int| start <= j < self.pos ==> old(self).text_at(j) is None,
            decreases self.inner@.len() - self.pos,
        {
            proof {
                use_type_invariant(&*self);
            }
            let e = self.inner[self.pos];
            self.pos = self.pos + 1;
            match e {
                Edge::Open(n) => {
                    proof {
                        assert(edge_node(self.inner@[self.pos - 1]) == n);
                    }
                    match self.doc.value(n) {
                        Node::Text(t) => {
                            self.index = self.index + 1;
                            return Some(t.as_str());
                        },
                        _ => {},
                    }
                },
                Edge::Close(_) => {},
            }
        }
        None
    }
}

/// What one call of [`Text::next`] does: it moves the cursor past the edges
/// that open no text node, and past the first one that does, whose text it yields.
pub open spec fn text_step<'a>(s0: Text<'a>, s1: Text<'a>, r: Option<&'a str>) -> bool {
    &&& s1.document() == s0.document()
    &&& s1.root() == s0.root()
    &&& s1.walk() == s0.walk()
    &&& 0 <= s0.cursor() <= s1.cursor() <= s0.walk().len()
    &&& match r {
        Some(t) => {
            &&& s0.cursor() < s1.cursor()
            &&& forall|j: int| s0.cursor() <= j < s1.cursor() - 1 ==> s0.text_at(j) is None
            &&& s0.text_at(s1.cursor() - 1) == Some(t@)
            &&& s1.count() == s0.count() + 1
        },
        None => {
            &&& forall|j: int| s0.cursor() <= j < s0.walk().len() ==> s0.text_at(j) is None
            &&& s1.cursor() == s0.walk().len()
            &&& s1.count() == s0.count()
        },
    }
}

/// The error of a text search that found no further text node.
pub struct TextNotFoundError {
    /// The node whose subtree was searched.
    pub root: NodeId,
    /// How many text nodes had been found.
    pub index: usize,
}

impl<'a> TryNextError for Text<'a> {
    type Error = TextNotFoundError;

    open spec fn describes(s: Text<'a>, e: TextNotFoundError) -> bool {
        e.root == s.root() && e.index as nat == s.count()
    }

    fn try_next_err(&mut self) -> (e: TextNotFoundError) {
        TextNotFoundError { root: self.root, index: self.index }
    }
}

impl<'a> TryNext for Text<'a> {
    type Item = &'a str;

    type Error = TextNotFoundError;

    open spec fn step(s0: Text<'a>, s1: Text<'a>, r: Option<&'a str>) -> bool {
        text_step(s0, s1, r)
    }

    open spec fn failure(s: Text<'a>, e: TextNotFoundError) -> bool {
        <Text<'a> as TryNextError>::describes(s, e)
    }

    fn try_next(&mut self) -> (r: Result<&'a str, TextNotFoundError>) {
        match self.next() {
            Some(t) => Ok(t),
            None => Err(self.try_next_err()),
        }
    }
}

} // verus!
