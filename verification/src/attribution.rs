//! The memory attribution pass: walk the finished tree once per observed
//! key and add the key's byte cost to every node whose prefix the key
//! extends, from the root down.

use vstd::prelude::*;

use crate::key_prefix::KeyPrefix;
use crate::key_prefix::TreeView;
use crate::key_prefix::children_view;
use crate::key_prefix::lemma_children_view;
use crate::key_prefix::tree_view;

verus! {

/// Whether `key` begins with `prefix`.
pub open spec fn starts_with(key: Seq<char>, prefix: Seq<char>) -> bool {
    prefix.len() <= key.len() && key.subrange(0, prefix.len() as int) == prefix
}

/// The tree `t` after attributing `cost` bytes for `key`: every node
/// whose prefix the key extends gains the cost, and a subtree under a
/// prefix the key does not extend is left untouched.
pub open spec fn spec_attribute(t: TreeView, key: Seq<char>, cost: int) -> TreeView
    decreases t,
{
    if starts_with(key, t.value) {
        TreeView {
            memory_usage: t.memory_usage + cost,
            children: attribute_children(t.children, key, cost),
            ..t
        }
    } else {
        t
    }
}

/// Attribution applied to each node of a sequence.
pub open spec fn attribute_children(s: Seq<TreeView>, key: Seq<char>, cost: int) -> Seq<TreeView>
    decreases s,
{
    if s.len() == 0 {
        Seq::empty()
    } else {
        attribute_children(s.subrange(0, s.len() - 1), key, cost).push(
            spec_attribute(s[s.len() - 1], key, cost),
        )
    }
}

/// Attribution of a sequence acts element by element.
pub proof fn lemma_attribute_children(s: Seq<TreeView>, key: Seq<char>, cost: int)
    ensures
        attribute_children(s, key, cost).len() == s.len(),
        forall|i: int|
            0 <= i < s.len() ==> attribute_children(s, key, cost)[i] == spec_attribute(
                #[trigger] s[i],
                key,
                cost,
            ),
    decreases s.len(),
{
    if s.len() > 0 {
        lemma_attribute_children(s.subrange(0, s.len() - 1), key, cost);
        assert forall|i: int|
            0 <= i < s.len() implies attribute_children(s, key, cost)[i] == spec_attribute(
            #[trigger] s[i],
            key,
            cost,
        ) by {
            if i < s.len() - 1 {
                assert(s.subrange(0, s.len() - 1)[i] == s[i]);
            }
        }
    }
}

/// Every node of the tree carries at most `b` bytes of attributed memory.
pub open spec fn mem_le(t: TreeView, b: int) -> bool
    decreases t,
{
    &&& t.memory_usage <= b
    &&& forall|i: int| 0 <= i < t.children.len() ==> mem_le(#[trigger] t.children[i], b)
}

/// Attributing `cost` bytes raises no node's memory above the old bound
/// plus the cost.
pub proof fn lemma_attribute_mem_le(t: TreeView, key: Seq<char>, cost: int, b: int)
    requires
        mem_le(t, b),
        0 <= cost,
    ensures
        mem_le(spec_attribute(t, key, cost), b + cost),
    decreases t,
{
    let r = spec_attribute(t, key, cost);
    if starts_with(key, t.value) {
        lemma_attribute_children(t.children, key, cost);
        assert forall|i: int| 0 <= i < r.children.len() implies mem_le(
            #[trigger] r.children[i],
            b + cost,
        ) by {
            lemma_attribute_mem_le(t.children[i], key, cost, b);
        }
    } else {
        lemma_mem_le_mono(t, b, b + cost);
    }
}

/// A memory bound stays a bound when it is raised.
pub proof fn lemma_mem_le_mono(t: TreeView, b1: int, b2: int)
    requires
        mem_le(t, b1),
        b1 <= b2,
    ensures
        mem_le(t, b2),
    decreases t,
{
    assert forall|i: int| 0 <= i < t.children.len() implies mem_le(
        #[trigger] t.children[i],
        b2,
    ) by {
        lemma_mem_le_mono(t.children[i], b1, b2);
    }
}

/// Total of a sequence of byte costs.
pub open spec fn sum_costs(cs: Seq<usize>) -> int
    decreases cs.len(),
{
    if cs.len() == 0 {
        0
    } else {
        sum_costs(cs.drop_last()) + cs.last() as int
    }
}

/// The tree after attributing every key/cost pair in order.
pub open spec fn attribute_all(t: TreeView, keys: Seq<Seq<char>>, costs: Seq<usize>) -> TreeView
    decreases keys.len(),
{
    if keys.len() == 0 || costs.len() == 0 {
        t
    } else {
        spec_attribute(
            attribute_all(t, keys.drop_last(), costs.drop_last()),
            keys.last(),
            costs.last() as int,
        )
    }
}

/// A prefix of the costs never sums to more than the whole, and no sum
/// of costs is negative.
pub proof fn lemma_sum_costs_prefix(cs: Seq<usize>, i: int)
    requires
        0 <= i <= cs.len(),
    ensures
        0 <= sum_costs(cs.subrange(0, i)) <= sum_costs(cs),
        sum_costs(cs.subrange(0, cs.len() as int)) == sum_costs(cs),
    decreases cs.len() - i,
{
    if i == cs.len() {
        assert(cs.subrange(0, i) =~= cs);
        lemma_sum_costs_nonneg(cs);
    } else {
        lemma_sum_costs_prefix(cs, i + 1);
        lemma_sum_costs_nonneg(cs.subrange(0, i));
        assert(cs.subrange(0, i + 1).drop_last() =~= cs.subrange(0, i));
        assert(cs.subrange(0, i + 1).last() == cs[i]);
    }
}

/// No sum of costs is negative.
pub proof fn lemma_sum_costs_nonneg(cs: Seq<usize>)
    ensures
        sum_costs(cs) >= 0,
    decreases cs.len(),
{
    if cs.len() > 0 {
        lemma_sum_costs_nonneg(cs.drop_last());
    }
}

/// Attribution never changes the shape of the tree: depths, values,
/// counts and the child lists' lengths all stay.
pub proof fn lemma_attribute_wf(t: TreeView, key: Seq<char>, cost: int)
    requires
        t.wf(),
    ensures
        spec_attribute(t, key, cost).wf(),
        spec_attribute(t, key, cost).depth == t.depth,
    decreases t,
{
    let r = spec_attribute(t, key, cost);
    if starts_with(key, t.value) {
        lemma_attribute_children(t.children, key, cost);
        assert forall|i: int|
            0 <= i < r.children.len() implies (#[trigger] r.children[i]).depth == r.depth + 1
                && r.children[i].wf() by {
            assert(r.children[i] == spec_attribute(t.children[i], key, cost));
            lemma_attribute_wf(t.children[i], key, cost);
        }
    }
}

/// Attributing a whole batch keeps the tree well formed.
pub proof fn lemma_attribute_all_wf(t: TreeView, keys: Seq<Seq<char>>, costs: Seq<usize>)
    requires
        t.wf(),
    ensures
        attribute_all(t, keys, costs).wf(),
    decreases keys.len(),
{
    if keys.len() > 0 && costs.len() > 0 {
        lemma_attribute_all_wf(t, keys.drop_last(), costs.drop_last());
        lemma_attribute_wf(
            attribute_all(t, keys.drop_last(), costs.drop_last()),
            keys.last(),
            costs.last() as int,
        );
    }
}

/// No two of the node's children stand for prefixes where one extends
/// the other, anywhere in the tree. Keyspaces whose prefixes nest
/// cleanly satisfy this; it is what makes memory attribution
/// path-exclusive.
pub open spec fn prefix_free_siblings(t: TreeView) -> bool
    decreases t,
{
    &&& forall|i: int, j: int|
        0 <= i < t.children.len() && 0 <= j < t.children.len() && i != j ==> !starts_with(
            (#[trigger] t.children[j]).value,
            (#[trigger] t.children[i]).value,
        )
    &&& forall|i: int| 0 <= i < t.children.len() ==> prefix_free_siblings(#[trigger] t.children[i])
}

/// Two prefixes of one key are prefixes of each other, shorter of
/// longer.
proof fn lemma_prefix_comparable(key: Seq<char>, a: Seq<char>, b: Seq<char>)
    requires
        starts_with(key, a),
        starts_with(key, b),
        a.len() <= b.len(),
    ensures
        starts_with(b, a),
{
    assert forall|i: int| 0 <= i < a.len() implies b[i] == a[i] by {
        assert(key.subrange(0, a.len() as int)[i] == key[i]);
        assert(key.subrange(0, b.len() as int)[i] == key[i]);
    }
    assert(b.subrange(0, a.len() as int) =~= a);
}

/// Memory attribution is path-exclusive: when sibling prefixes are free
/// of one another, a key extends the prefix of at most one child of any
/// node, so its cost flows down a single root-to-leaf path; the sibling
/// subtrees it does not match are left exactly as they were.
pub proof fn lemma_attribute_path_exclusive(t: TreeView, key: Seq<char>, cost: int)
    requires
        prefix_free_siblings(t),
    ensures
        forall|i: int, j: int|
            0 <= i < j < t.children.len() ==> !(starts_with(key, (#[trigger] t.children[i]).value)
                && starts_with(key, (#[trigger] t.children[j]).value)),
        starts_with(key, t.value) ==> spec_attribute(t, key, cost).children.len()
            == t.children.len(),
        starts_with(key, t.value) ==> forall|i: int|
            0 <= i < t.children.len() && !starts_with(key, (#[trigger] t.children[i]).value)
                ==> spec_attribute(t, key, cost).children[i] == t.children[i],
{
    assert forall|i: int, j: int|
        0 <= i < j < t.children.len() implies !(starts_with(
        key,
        (#[trigger] t.children[i]).value,
    ) && starts_with(key, (#[trigger] t.children[j]).value)) by {
        let a = t.children[i].value;
        let b = t.children[j].value;
        if starts_with(key, a) && starts_with(key, b) {
            if a.len() <= b.len() {
                lemma_prefix_comparable(key, a, b);
            } else {
                lemma_prefix_comparable(key, b, a);
            }
        }
    }
    if starts_with(key, t.value) {
        lemma_attribute_children(t.children, key, cost);
        assert forall|i: int|
            0 <= i < t.children.len() && !starts_with(
                key,
                (#[trigger] t.children[i]).value,
            ) implies spec_attribute(t, key, cost).children[i] == t.children[i] by {
            assert(spec_attribute(t, key, cost).children[i] == spec_attribute(
                t.children[i],
                key,
                cost,
            ));
        }
    }
}

/// At every node of the tree, the children's attributed memory stays
/// within the node's own.
pub open spec fn mem_sums_ok(t: TreeView) -> bool
    decreases t,
{
    &&& crate::normalizer::sum_mem(t.children) <= t.memory_usage
    &&& forall|i: int| 0 <= i < t.children.len() ==> mem_sums_ok(#[trigger] t.children[i])
}

/// Attributing one key to a row of prefix-free siblings raises their
/// total memory by at most the key's cost, and not at all when the key
/// matches none of them.
proof fn lemma_attribute_children_sum(s: Seq<TreeView>, key: Seq<char>, cost: int)
    requires
        0 <= cost,
        forall|i: int, j: int|
            0 <= i < j < s.len() ==> !(starts_with(key, (#[trigger] s[i]).value) && starts_with(
                key,
                (#[trigger] s[j]).value,
            )),
    ensures
        crate::normalizer::sum_mem(attribute_children(s, key, cost))
            <= crate::normalizer::sum_mem(s) + cost,
        (forall|i: int| 0 <= i < s.len() ==> !starts_with(key, (#[trigger] s[i]).value))
            ==> crate::normalizer::sum_mem(attribute_children(s, key, cost))
            == crate::normalizer::sum_mem(s),
    decreases s.len(),
{
    if s.len() > 0 {
        let sd = s.subrange(0, s.len() - 1);
        let last = s[s.len() - 1];
        let r = attribute_children(s, key, cost);
        lemma_attribute_children(s, key, cost);
        lemma_attribute_children(sd, key, cost);
        assert(r.drop_last() =~= attribute_children(sd, key, cost));
        assert(r.last() == spec_attribute(last, key, cost));
        assert(s.drop_last() =~= sd);
        assert forall|i: int, j: int|
            0 <= i < j < sd.len() implies !(starts_with(key, (#[trigger] sd[i]).value)
                && starts_with(key, (#[trigger] sd[j]).value)) by {
            assert(sd[i] == s[i] && sd[j] == s[j]);
        }
        lemma_attribute_children_sum(sd, key, cost);
        if starts_with(key, last.value) {
            assert forall|i: int| 0 <= i < sd.len() implies !starts_with(
                key,
                (#[trigger] sd[i]).value,
            ) by {
                assert(sd[i] == s[i]);
                assert(!(starts_with(key, s[i].value) && starts_with(key, s[s.len() - 1].value)));
            }
        }
    } else {
        assert(attribute_children(s, key, cost) =~= s);
    }
}

/// Attribution keeps each node's value, depth, count and child count.
proof fn lemma_attribute_shape(t: TreeView, key: Seq<char>, cost: int)
    ensures
        spec_attribute(t, key, cost).value == t.value,
        spec_attribute(t, key, cost).depth == t.depth,
        spec_attribute(t, key, cost).keys_count == t.keys_count,
        spec_attribute(t, key, cost).children.len() == t.children.len(),
{
    if starts_with(key, t.value) {
        lemma_attribute_children(t.children, key, cost);
    }
}

/// Attribution keeps sibling prefixes free of one another.
pub proof fn lemma_attribute_pf(t: TreeView, key: Seq<char>, cost: int)
    requires
        prefix_free_siblings(t),
    ensures
        prefix_free_siblings(spec_attribute(t, key, cost)),
    decreases t,
{
    let r = spec_attribute(t, key, cost);
    if starts_with(key, t.value) {
        lemma_attribute_children(t.children, key, cost);
        assert forall|i: int, j: int|
            0 <= i < r.children.len() && 0 <= j < r.children.len() && i != j implies !starts_with(
            (#[trigger] r.children[j]).value,
            (#[trigger] r.children[i]).value,
        ) by {
            lemma_attribute_shape(t.children[i], key, cost);
            lemma_attribute_shape(t.children[j], key, cost);
        }
        assert forall|i: int| 0 <= i < r.children.len() implies prefix_free_siblings(
            #[trigger] r.children[i],
        ) by {
            lemma_attribute_pf(t.children[i], key, cost);
        }
    }
}

/// One attribution step keeps every node's children's memory within the
/// node's own, as long as sibling prefixes are free of one another: the
/// key adds its cost to at most one child beside the node itself.
pub proof fn lemma_attribute_mem_sums(t: TreeView, key: Seq<char>, cost: int)
    requires
        mem_sums_ok(t),
        prefix_free_siblings(t),
        0 <= cost,
    ensures
        mem_sums_ok(spec_attribute(t, key, cost)),
    decreases t,
{
    let r = spec_attribute(t, key, cost);
    if starts_with(key, t.value) {
        lemma_attribute_children(t.children, key, cost);
        lemma_attribute_path_exclusive(t, key, cost);
        lemma_attribute_children_sum(t.children, key, cost);
        assert forall|i: int| 0 <= i < r.children.len() implies mem_sums_ok(
            #[trigger] r.children[i],
        ) by {
            assert(r.children[i] == spec_attribute(t.children[i], key, cost));
            lemma_attribute_mem_sums(t.children[i], key, cost);
        }
    }
}

/// Attributing a whole batch keeps every node's children's memory within
/// the node's own, and sibling prefixes free of one another.
pub proof fn lemma_attribute_all_mem_sums(t: TreeView, keys: Seq<Seq<char>>, costs: Seq<usize>)
    requires
        mem_sums_ok(t),
        prefix_free_siblings(t),
    ensures
        mem_sums_ok(attribute_all(t, keys, costs)),
        prefix_free_siblings(attribute_all(t, keys, costs)),
    decreases keys.len(),
{
    if keys.len() > 0 && costs.len() > 0 {
        lemma_attribute_all_mem_sums(t, keys.drop_last(), costs.drop_last());
        let mid = attribute_all(t, keys.drop_last(), costs.drop_last());
        lemma_attribute_mem_sums(mid, keys.last(), costs.last() as int);
        lemma_attribute_pf(mid, keys.last(), costs.last() as int);
    }
}

/// Attributing a whole batch keeps the root's prefix, depth and count.
pub proof fn lemma_attribute_all_shape(t: TreeView, keys: Seq<Seq<char>>, costs: Seq<usize>)
    ensures
        attribute_all(t, keys, costs).value == t.value,
        attribute_all(t, keys, costs).depth == t.depth,
        attribute_all(t, keys, costs).keys_count == t.keys_count,
    decreases keys.len(),
{
    if keys.len() > 0 && costs.len() > 0 {
        lemma_attribute_all_shape(t, keys.drop_last(), costs.drop_last());
        lemma_attribute_shape(
            attribute_all(t, keys.drop_last(), costs.drop_last()),
            keys.last(),
            costs.last() as int,
        );
    }
}

/// Attribution keeps every depth and child count where it was, so the
/// room for one more level stays.
pub proof fn lemma_attribute_depth_room(t: TreeView, key: Seq<char>, cost: int)
    requires
        crate::normalizer::depth_room(t),
    ensures
        crate::normalizer::depth_room(spec_attribute(t, key, cost)),
    decreases t,
{
    let r = spec_attribute(t, key, cost);
    if starts_with(key, t.value) {
        lemma_attribute_children(t.children, key, cost);
        assert forall|i: int| 0 <= i < r.children.len() implies crate::normalizer::depth_room(
            #[trigger] r.children[i],
        ) by {
            assert(r.children[i] == spec_attribute(t.children[i], key, cost));
            lemma_attribute_depth_room(t.children[i], key, cost);
        }
    }
}

/// Attributing a whole batch keeps the room for one more level.
pub proof fn lemma_attribute_all_depth_room(t: TreeView, keys: Seq<Seq<char>>, costs: Seq<usize>)
    requires
        crate::normalizer::depth_room(t),
    ensures
        crate::normalizer::depth_room(attribute_all(t, keys, costs)),
    decreases keys.len(),
{
    if keys.len() > 0 && costs.len() > 0 {
        lemma_attribute_all_depth_room(t, keys.drop_last(), costs.drop_last());
        lemma_attribute_depth_room(
            attribute_all(t, keys.drop_last(), costs.drop_last()),
            keys.last(),
            costs.last() as int,
        );
    }
}

/// Whether `key` begins with `prefix`.
fn str_starts_with(key: &str, prefix: &str) -> (r: bool)
    ensures
        r == starts_with(key@, prefix@),
{
    let kn = key.unicode_len();
    let pn = prefix.unicode_len();
    if pn > kn {
        proof {
            assert(!starts_with(key@, prefix@));
        }
        return false;
    }
    let mut i: usize = 0;
    while i < pn
        invariant
            i <= pn <= kn,
            kn == key@.len(),
            pn == prefix@.len(),
            forall|t: int| 0 <= t < i ==> key@[t] == prefix@[t],
        decreases pn - i,
    {
        if key.get_char(i) != prefix.get_char(i) {
            proof {
                assert(key@.subrange(0, pn as int)[i as int] != prefix@[i as int]);
            }
            return false;
        }
        i = i + 1;
    }
    proof {
        assert(key@.subrange(0, pn as int) =~= prefix@);
    }
    true
}

/// Add `memory_usage` bytes to this node and, recursively, to every
/// descendant whose prefix `key` extends, when `key` extends the node's
/// own prefix; otherwise leave the subtree untouched.
#[verifier::loop_isolation(false)]
pub fn record_memory_usage(prefix: &mut KeyPrefix, key: &str, memory_usage: usize)
    requires
        mem_le(tree_view(*old(prefix)), usize::MAX - memory_usage),
    ensures
        tree_view(*final(prefix)) == spec_attribute(
            tree_view(*old(prefix)),
            key@,
            memory_usage as int,
        ),
    decreases *old(prefix),
{
    let ghost t0 = tree_view(*prefix);
    if str_starts_with(key, prefix.value.as_str()) {
        prefix.memory_usage = prefix.memory_usage + memory_usage;
        let n = prefix.children.len();
        let mut i: usize = 0;
        while i < n
            invariant
                i <= n,
                n == prefix.children@.len(),
                prefix.value == old(prefix).value,
                prefix.depth == old(prefix).depth,
                prefix.keys_count == old(prefix).keys_count,
                prefix.memory_usage == old(prefix).memory_usage + memory_usage,
                prefix.children@.len() == old(prefix).children@.len(),
                forall|k: int|
                    0 <= k < i ==> tree_view(#[trigger] prefix.children@[k]) == spec_attribute(
                        tree_view(old(prefix).children@[k]),
                        key@,
                        memory_usage as int,
                    ),
                forall|k: int|
                    i <= k < n ==> #[trigger] prefix.children@[k] == old(prefix).children@[k],
            decreases n - i,
        {
            let ghost before = prefix.children@;
            let mut child = prefix.children.remove(i);
            proof {
                assert(child == old(prefix).children@[i as int]);
                assert(decreases_to!(*old(prefix) => old(prefix).children));
                assert(decreases_to!(old(prefix).children => old(prefix).children@));
                assert(decreases_to!(old(prefix).children@ => old(prefix).children@[i as int]));
                lemma_children_view(old(prefix).children@);
                assert(tree_view(child) == t0.children[i as int]);
                assert(mem_le(tree_view(child), usize::MAX - memory_usage));
            }
            record_memory_usage(&mut child, key, memory_usage);
            prefix.children.insert(i, child);
            proof {
                assert(prefix.children@ =~= before.update(i as int, child));
                assert forall|k: int|
                    0 <= k < i + 1 implies tree_view(#[trigger] prefix.children@[k])
                        == spec_attribute(
                        tree_view(old(prefix).children@[k]),
                        key@,
                        memory_usage as int,
                    ) by {
                    if k < i {
                        assert(prefix.children@[k] == before[k]);
                    }
                }
                assert forall|k: int|
                    i + 1 <= k < n implies #[trigger] prefix.children@[k] == old(
                    prefix,
                ).children@[k] by {
                    assert(prefix.children@[k] == before[k]);
                }
            }
            i = i + 1;
        }
        proof {
            let t1 = tree_view(*prefix);
            lemma_children_view(prefix.children@);
            lemma_children_view(old(prefix).children@);
            lemma_attribute_children(t0.children, key@, memory_usage as int);
            assert forall|k: int| 0 <= k < n implies t1.children[k] == attribute_children(
                t0.children,
                key@,
                memory_usage as int,
            )[k] by {
                assert(children_view(prefix.children@)[k] == tree_view(prefix.children@[k]));
                assert(children_view(old(prefix).children@)[k] == tree_view(
                    old(prefix).children@[k],
                ));
                assert(attribute_children(t0.children, key@, memory_usage as int)[k]
                    == spec_attribute(t0.children[k], key@, memory_usage as int));
            }
            assert(t1.children =~= attribute_children(t0.children, key@, memory_usage as int));
            assert(t1 == spec_attribute(t0, key@, memory_usage as int));
        }
    } else {
        proof {
            assert(tree_view(*prefix) == spec_attribute(t0, key@, memory_usage as int));
        }
    }
}

/// Walk the whole observed key set once and attribute each key's byte
/// cost to every node whose prefix the key extends, from the root down.
#[verifier::loop_isolation(false)]
pub fn analyze_memory_usage(prefix: &mut KeyPrefix, keys: &Vec<String>, costs: &Vec<usize>)
    requires
        keys@.len() == costs@.len(),
        mem_le(tree_view(*old(prefix)), usize::MAX - sum_costs(costs@)),
    ensures
        tree_view(*final(prefix)) == attribute_all(
            tree_view(*old(prefix)),
            keys.deep_view(),
            costs@,
        ),
{
    let ghost t0 = tree_view(*prefix);
    let ghost kview = keys.deep_view();
    let ghost total = sum_costs(costs@);
    proof {
        lemma_sum_costs_nonneg(costs@);
    }
    let n = keys.len();
    let mut i: usize = 0;
    while i < n
        invariant
            i <= n,
            n == keys@.len(),
            tree_view(*prefix) == attribute_all(
                t0,
                kview.subrange(0, i as int),
                costs@.subrange(0, i as int),
            ),
            mem_le(
                tree_view(*prefix),
                usize::MAX - total + sum_costs(costs@.subrange(0, i as int)),
            ),
        decreases n - i,
    {
        let key = &keys[i];
        let cost = costs[i];
        proof {
            lemma_sum_costs_prefix(costs@, i + 1);
            assert(costs@.subrange(0, i + 1).drop_last() =~= costs@.subrange(0, i as int));
            assert(costs@.subrange(0, i + 1).last() == costs@[i as int]);
            assert(sum_costs(costs@.subrange(0, i as int)) + cost <= total);
            lemma_mem_le_mono(
                tree_view(*prefix),
                usize::MAX - total + sum_costs(costs@.subrange(0, i as int)),
                usize::MAX - cost,
            );
        }
        record_memory_usage(prefix, key.as_str(), cost);
        proof {
            assert(kview.subrange(0, i + 1).drop_last() =~= kview.subrange(0, i as int));
            assert(kview.subrange(0, i + 1).last() == kview[i as int]);
            assert(kview[i as int] == key@);
            lemma_attribute_mem_le(
                attribute_all(t0, kview.subrange(0, i as int), costs@.subrange(0, i as int)),
                key@,
                cost as int,
                usize::MAX - total + sum_costs(costs@.subrange(0, i as int)),
            );
        }
        i = i + 1;
    }
    proof {
        assert(kview.subrange(0, n as int) =~= kview);
        assert(costs@.subrange(0, n as int) =~= costs@);
    }
}

} // verus!
