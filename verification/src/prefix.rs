//! An index of prefix nodes keyed by their prefix string.

use std::collections::HashMap;
use vstd::prelude::*;

verus! {

/// A prefix node whose children are looked up by their prefix string.
pub struct Prefix {
    /// The prefix this node represents; the root has none.
    pub value: Option<String>,
    /// Distance from the root, in separator-delimited segments.
    pub depth: usize,
    /// Number of observed keys matching this prefix.
    pub keys_count: usize,
    /// Total byte cost attributed to this prefix.
    pub memory_usage: usize,
    /// Child nodes, looked up by their prefix string.
    pub children: HashMap<String, Prefix>,
}

impl Prefix {
    /// Make a node with the given prefix, depth and key count, no
    /// memory attributed yet and no children.
    pub fn new(prefix: Option<&str>, depth: usize, keys_count: usize) -> (r: Self)
        ensures
            r.depth == depth,
            r.keys_count == keys_count,
            r.memory_usage == 0,
            match prefix {
                Option::None => r.value is None,
                Option::Some(p) => r.value is Some && r.value->0@ == p@,
            },
            r.children@ == Map::<String, Prefix>::empty(),
    {
        let value = match prefix {
            Option::None => Option::None,
            Option::Some(p) => Option::Some(p.to_owned()),
        };
        Prefix { value, depth, keys_count, memory_usage: 0, children: HashMap::new() }
    }
}

} // verus!
