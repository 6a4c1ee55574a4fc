//! Read-only element views over a parsed document tree, with scoped selector
//! queries, text collection and HTML serialization.

pub mod element_ref;
pub mod laws;
pub mod node;
pub mod selector;
pub mod serialize;
pub mod tree;
pub mod try_next;

pub use element_ref::{AttrNotFoundError, ElementNotFoundError, ElementRef, Select, Text, TextNotFoundError};
pub use node::{Element, Node};
pub use selector::{Compound, Selector};
pub use tree::{Edge, Html};
pub use try_next::{TryNext, TryNextError};
