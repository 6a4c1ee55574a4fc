//! Node payloads stored in the document tree.

use vstd::prelude::*;

verus! {

/// An element's payload: its tag name and its attributes in document order.
pub struct Element {
    pub name: String,
    pub attrs: Vec<(String, String)>,
}

/// The payload of a tree node.
pub enum Node {
    Document,
    Fragment,
    Doctype(String),
    Comment(String),
    Text(String),
    Element(Element),
    ProcessingInstruction(String, String),
}

/// Index of the first attribute named `name`, if any.
pub open spec fn attr_index(attrs: Seq<(String, String)>, name: Seq<char>) -> Option<int> {
    if exists|i: int| 0 <= i < attrs.len() && attrs[i].0@ == name {
        let i = choose|i: int|
            0 <= i < attrs.len() && attrs[i].0@ == name && forall|j: int|
                0 <= j < i ==> attrs[j].0@ != name;
        Some(i)
    } else {
        None
    }
}

/// The value of the first attribute named `name`, if any.
pub open spec fn attr_value(attrs: Seq<(String, String)>, name: Seq<char>) -> Option<Seq<char>> {
    match attr_index(attrs, name) {
        Some(i) => Some(attrs[i].1@),
        None => None,
    }
}

impl Element {
    /// Looks up the value of the first attribute called `name`.
    pub fn attr(&self, name: &str) -> (r: Option<&str>)
        ensures
            match r {
                Some(v) => attr_value(self.attrs@, name@) == Some(v@),
                None => attr_value(self.attrs@, name@) is None,
            },
    {
        let key = name.to_owned();
        let mut i: usize = 0;
        while i < self.attrs.len()
            invariant
                i <= self.attrs@.len(),
                key@ == name@,
                forall|j: int| 0 <= j < i ==> self.attrs@[j].0@ != name@,
            decreases self.attrs@.len() - i,
        {
            if self.attrs[i].0 == key {
                proof {
                    let k = i as int;
                    assert(0 <= k < self.attrs@.len() && self.attrs@[k].0@ == name@);
                    let c = choose|c: int|
                        0 <= c < self.attrs@.len() && self.attrs@[c].0@ == name@ && forall|j: int|
                            0 <= j < c ==> self.attrs@[j].0@ != name@;
                    assert(c == k) by {
                        if c < k {
                        } else if c > k {
                            assert(self.attrs@[k].0@ != name@);
                        }
                    }
                }
                return Some(self.attrs[i].1.as_str());
            }
            i = i + 1;
        }
        None
    }
}

} // verus!
