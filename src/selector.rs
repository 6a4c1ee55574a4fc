//! Compiled structural selectors: a chain of compound parts joined by child
//! combinators, such as `div > span` or `:scope > b`.

use vstd::prelude::*;
use crate::node::Node;
use crate::tree::{Html, NodeRecord, same_node};
use ego_tree::NodeId;

verus! {

/// One compound part of a selector.
pub enum Compound {
    /// `:scope`: the element the query is anchored at.
    Scope,
    /// `*`: any element.
    Any,
    /// A tag name, compared exactly.
    Tag(String),
}

/// A selector `p0 > p1 > ... > pn`; the last part is the subject.
pub struct Selector {
    pub parts: Vec<Compound>,
}

/// Whether node `n` satisfies one compound part.
pub open spec fn part_matches(
    nodes: Map<NodeId, NodeRecord>,
    n: NodeId,
    p: Compound,
    scope: Option<NodeId>,
) -> bool {
    match p {
        Compound::Scope => scope == Some(n),
        Compound::Any => nodes[n].value is Element,
        Compound::Tag(name) => match nodes[n].value {
            Node::Element(e) => e.name@ == name@,
            _ => false,
        },
    }
}

/// Whether `n` satisfies `parts[k - 1]`, its parent `parts[k - 2]`, and so on
/// up to `parts[0]`.
pub open spec fn chain_matches(
    nodes: Map<NodeId, NodeRecord>,
    n: NodeId,
    parts: Seq<Compound>,
    k: nat,
    scope: Option<NodeId>,
) -> bool
    decreases k,
{
    if k == 0 {
        false
    } else {
        &&& nodes.contains_key(n)
        &&& part_matches(nodes, n, parts[k - 1], scope)
        &&& (k == 1 || match nodes[n].parent {
            Some(p) => chain_matches(nodes, p, parts, (k - 1) as nat, scope),
            None => false,
        })
    }
}

/// Whether node `n` matches the whole selector, with `scope` as `:scope`.
/// An empty selector matches nothing; without a scope `:scope` matches nothing.
pub open spec fn selector_matches(
    nodes: Map<NodeId, NodeRecord>,
    n: NodeId,
    parts: Seq<Compound>,
    scope: Option<NodeId>,
) -> bool {
    chain_matches(nodes, n, parts, parts.len(), scope)
}

fn part_match(doc: &Html, n: NodeId, p: &Compound, scope: Option<NodeId>) -> (r: bool)
    requires
        doc.nodes().contains_key(n),
    ensures
        r == part_matches(doc.nodes(), n, *p, scope),
{
    match p {
        Compound::Scope => match scope {
            Some(s) => same_node(s, n),
            None => false,
        },
        Compound::Any => match doc.value(n) {
            Node::Element(_) => true,
            _ => false,
        },
        Compound::Tag(name) => match doc.value(n) {
            Node::Element(e) => e.name == *name,
            _ => false,
        },
    }
}

impl Selector {
    /// Whether node `id` of `doc` matches this selector, with `scope` as the
    /// element that `:scope` stands for.
    pub fn matches_with_scope(&self, doc: &Html, id: NodeId, scope: Option<NodeId>) -> (r: bool)
        requires
            doc.nodes().contains_key(id),
        ensures
            r == selector_matches(doc.nodes(), id, self.parts@, scope),
    {
        let mut k: usize = self.parts.len();
        if k == 0 {
            return false;
        }
        let mut n = id;
        loop
            invariant
                1 <= k <= self.parts@.len(),
                doc.nodes().contains_key(n),
                selector_matches(doc.nodes(), id, self.parts@, scope) == chain_matches(
                    doc.nodes(),
                    n,
                    self.parts@,
                    k as nat,
                    scope,
                ),
            decreases k,
        {
            if !part_match(doc, n, &self.parts[k - 1], scope) {
                return false;
            }
            if k == 1 {
                return true;
            }
            match doc.parent(n) {
                Some(p) => {
                    n = p;
                    k = k - 1;
                },
                None => {
                    return false;
                },
            }
        }
    }
}

} // verus!
