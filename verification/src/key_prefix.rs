//! The prefix tree node and its mathematical model.

use vstd::prelude::*;

verus! {

/// Mathematical model of a prefix tree node: the prefix it stands for,
/// its distance from the root in separator-delimited segments, the number
/// of observed keys matching the prefix, the byte cost attributed to it,
/// and its children.
#[verifier::ext_equal]
pub ghost struct TreeView {
    pub value: Seq<char>,
    pub depth: int,
    pub keys_count: int,
    pub memory_usage: int,
    pub children: Seq<TreeView>,
}

/// One node of the prefix tree built by the analysis passes.
pub struct KeyPrefix {
    /// The prefix string this node represents; empty at the root.
    pub value: String,
    /// Distance from the root, in separator-delimited segments.
    pub depth: usize,
    /// Number of observed keys matching this prefix.
    pub keys_count: usize,
    /// Total byte cost attributed to this prefix.
    pub memory_usage: usize,
    /// Child nodes; insertion order until the normalizer re-sorts them.
    pub children: Vec<KeyPrefix>,
}

impl View for KeyPrefix {
    type V = TreeView;

    open spec fn view(&self) -> TreeView {
        tree_view(*self)
    }
}

/// The model of an executable tree node, taken recursively.
pub open spec fn tree_view(n: KeyPrefix) -> TreeView
    decreases n,
    via tree_view_decreases
{
    TreeView {
        value: n.value@,
        depth: n.depth as int,
        keys_count: n.keys_count as int,
        memory_usage: n.memory_usage as int,
        children: children_view(n.children@),
    }
}

/// The models of a sequence of executable tree nodes, element by element.
pub open spec fn children_view(s: Seq<KeyPrefix>) -> Seq<TreeView>
    decreases s,
{
    if s.len() == 0 {
        Seq::empty()
    } else {
        children_view(s.subrange(0, s.len() - 1)).push(tree_view(s[s.len() - 1]))
    }
}

/// The model of a sequence of nodes lines up with the models of its
/// elements, position by position.
pub proof fn lemma_children_view(s: Seq<KeyPrefix>)
    ensures
        children_view(s).len() == s.len(),
        forall|i: int| 0 <= i < s.len() ==> children_view(s)[i] == tree_view(#[trigger] s[i]),
    decreases s.len(),
{
    if s.len() > 0 {
        lemma_children_view(s.subrange(0, s.len() - 1));
        assert forall|i: int| 0 <= i < s.len() implies children_view(s)[i] == tree_view(
            #[trigger] s[i],
        ) by {
            if i < s.len() - 1 {
                assert(s.subrange(0, s.len() - 1)[i] == s[i]);
            }
        }
    }
}

#[via_fn]
proof fn tree_view_decreases(n: KeyPrefix) {
    assert(decreases_to!(n => n.children));
    assert(decreases_to!(n.children => n.children@));
}

impl KeyPrefix {
    /// Make a leaf node with the given prefix, depth, and counters.
    pub fn new(prefix: &str, depth: usize, keys_count: usize, memory_usage: usize) -> (r: Self)
        ensures
            r.value@ == prefix@,
            r.depth == depth,
            r.keys_count == keys_count,
            r.memory_usage == memory_usage,
            r.children@ == Seq::<KeyPrefix>::empty(),
            r@ == (TreeView {
                value: prefix@,
                depth: depth as int,
                keys_count: keys_count as int,
                memory_usage: memory_usage as int,
                children: Seq::<TreeView>::empty(),
            }),
    {
        let r = Self {
            value: prefix.to_owned(),
            depth,
            keys_count,
            memory_usage,
            children: Vec::new(),
        };
        proof {
            assert(r.children@ =~= Seq::<KeyPrefix>::empty());
            assert(r@.children =~= Seq::<TreeView>::empty());
            assert(r@ =~= TreeView {
                value: prefix@,
                depth: depth as int,
                keys_count: keys_count as int,
                memory_usage: memory_usage as int,
                children: Seq::<TreeView>::empty(),
            });
        }
        r
    }
}

impl TreeView {
    /// Every child sits one separator-delimited segment below its parent,
    /// throughout the tree.
    pub open spec fn wf(self) -> bool
        decreases self,
    {
        forall|i: int|
            0 <= i < self.children.len() ==> (#[trigger] self.children[i]).depth == self.depth + 1
                && self.children[i].wf()
    }
}

} // verus!
