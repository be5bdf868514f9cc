//! The tree normalizer: sort every node's children descending by the
//! configured metric, then synthesize a remainder child accounting for
//! the keys and memory no reported child captured, when that remainder
//! exceeds the configured minimum frequency.

use vstd::prelude::*;

use crate::config::Config;
use crate::config::SortOrder;
use crate::key_prefix::KeyPrefix;
use crate::key_prefix::TreeView;
use crate::key_prefix::children_view;
use crate::key_prefix::lemma_children_view;
use crate::key_prefix::tree_view;

verus! {

/// The reserved label of the synthetic remainder child.
pub open spec fn other_label() -> Seq<char> {
    "[other]"@
}

/// The metric a node is ordered by.
pub open spec fn metric(order: SortOrder, t: TreeView) -> int {
    match order {
        SortOrder::KeysCount => t.keys_count,
        SortOrder::MemoryUsage => t.memory_usage,
    }
}

/// Whether the sequence is ordered descending by the metric.
pub open spec fn sorted_desc(order: SortOrder, s: Seq<TreeView>) -> bool {
    forall|i: int, j: int| 0 <= i < j < s.len() ==> metric(order, s[i]) >= metric(order, s[j])
}

/// `x` placed into `s` after every element whose metric is at least the
/// metric of `x`.
pub open spec fn insert_desc(order: SortOrder, s: Seq<TreeView>, x: TreeView) -> Seq<TreeView>
    decreases s.len(),
{
    if s.len() == 0 {
        seq![x]
    } else if metric(order, s[0]) >= metric(order, x) {
        seq![s[0]] + insert_desc(order, s.drop_first(), x)
    } else {
        seq![x] + s
    }
}

/// The sequence sorted descending by the metric: each element in turn is
/// placed after the elements with at least its metric, so elements with
/// equal metrics keep their relative order.
pub open spec fn sort_desc(order: SortOrder, s: Seq<TreeView>) -> Seq<TreeView>
    decreases s.len(),
{
    if s.len() == 0 {
        s
    } else {
        insert_desc(order, sort_desc(order, s.drop_last()), s.last())
    }
}

/// Whether one of the nodes carries the reserved remainder label.
pub open spec fn any_reserved(s: Seq<TreeView>) -> bool {
    exists|i: int| 0 <= i < s.len() && (#[trigger] s[i]).value == other_label()
}

/// Whether one of the node's direct children carries the reserved
/// remainder label: such a node has already been normalized and is not
/// processed again.
pub open spec fn has_reserved(t: TreeView) -> bool {
    any_reserved(t.children)
}

/// Total key count of a sequence of nodes.
pub open spec fn sum_counts(s: Seq<TreeView>) -> int
    decreases s.len(),
{
    if s.len() == 0 {
        0
    } else {
        sum_counts(s.drop_last()) + s.last().keys_count
    }
}

/// Total memory usage of a sequence of nodes.
pub open spec fn sum_mem(s: Seq<TreeView>) -> int
    decreases s.len(),
{
    if s.len() == 0 {
        0
    } else {
        sum_mem(s.drop_last()) + s.last().memory_usage
    }
}

/// The tree with every node's children sorted descending by the metric.
/// A node that already carries a remainder child is left in its existing
/// order; its children are still visited.
pub open spec fn spec_reorder(order: SortOrder, t: TreeView) -> TreeView
    decreases t,
{
    let kids = reorder_children(order, t.children);
    TreeView {
        children: if has_reserved(t) {
            kids
        } else {
            sort_desc(order, kids)
        },
        ..t
    }
}

/// Reordering applied to each node of a sequence.
pub open spec fn reorder_children(order: SortOrder, s: Seq<TreeView>) -> Seq<TreeView>
    decreases s,
{
    if s.len() == 0 {
        Seq::empty()
    } else {
        reorder_children(order, s.subrange(0, s.len() - 1)).push(
            spec_reorder(order, s[s.len() - 1]),
        )
    }
}

/// Key count of the remainder candidate of `t`: the keys its reported
/// children do not capture.
pub open spec fn rem_count(t: TreeView) -> int {
    t.keys_count - sum_counts(t.children)
}

/// Memory usage of the remainder candidate of `t`.
pub open spec fn rem_mem(t: TreeView) -> int {
    t.memory_usage - sum_mem(t.children)
}

/// The synthetic remainder child of `t`.
pub open spec fn rem_node(t: TreeView) -> TreeView {
    TreeView {
        value: other_label(),
        depth: t.depth + 1,
        keys_count: rem_count(t),
        memory_usage: rem_mem(t),
        children: Seq::empty(),
    }
}

/// Whether the normalizer appends a remainder child to `t`: the node has
/// reported children, was not already normalized, and the keys they do
/// not capture exceed the configured minimum frequency.
pub open spec fn appends_rem(cfg: Config, t: TreeView) -> bool {
    t.children.len() > 0 && !has_reserved(t) && cfg.spec_qualifies(rem_count(t))
}

/// The tree with a remainder child appended at every node whose
/// unreported keys exceed the configured minimum frequency. A node that
/// already carries a remainder child is not reprocessed.
pub open spec fn spec_backfill(cfg: Config, t: TreeView) -> TreeView
    decreases t,
{
    let kids = backfill_children(cfg, t.children);
    if appends_rem(cfg, t) {
        TreeView { children: kids.push(rem_node(t)), ..t }
    } else {
        TreeView { children: kids, ..t }
    }
}

/// Backfilling applied to each node of a sequence.
pub open spec fn backfill_children(cfg: Config, s: Seq<TreeView>) -> Seq<TreeView>
    decreases s,
{
    if s.len() == 0 {
        Seq::empty()
    } else {
        backfill_children(cfg, s.subrange(0, s.len() - 1)).push(
            spec_backfill(cfg, s[s.len() - 1]),
        )
    }
}

/// The whole normalizer: sort, then backfill remainders.
pub open spec fn spec_normalize(cfg: Config, t: TreeView) -> TreeView {
    spec_backfill(cfg, spec_reorder(cfg.sort_order, t))
}

/// What the executable backfill pass needs of its input so that no
/// remainder is computed below zero and no depth overflows: wherever a
/// remainder will be appended, the children's memory stays within the
/// node's and the depth has room for one more level.
pub open spec fn backfill_ok(cfg: Config, t: TreeView) -> bool
    decreases t,
{
    &&& (appends_rem(cfg, t) ==> rem_mem(t) >= 0 && t.depth < usize::MAX)
    &&& forall|i: int| 0 <= i < t.children.len() ==> backfill_ok(cfg, #[trigger] t.children[i])
}

/// Reordering applied to a sequence acts element by element.
pub proof fn lemma_reorder_children(order: SortOrder, s: Seq<TreeView>)
    ensures
        reorder_children(order, s).len() == s.len(),
        forall|i: int|
            0 <= i < s.len() ==> reorder_children(order, s)[i] == spec_reorder(
                order,
                #[trigger] s[i],
            ),
    decreases s.len(),
{
    if s.len() > 0 {
        lemma_reorder_children(order, s.subrange(0, s.len() - 1));
        assert forall|i: int|
            0 <= i < s.len() implies reorder_children(order, s)[i] == spec_reorder(
            order,
            #[trigger] s[i],
        ) by {
            if i < s.len() - 1 {
                assert(s.subrange(0, s.len() - 1)[i] == s[i]);
            }
        }
    }
}

/// Placing one node adds one position.
pub proof fn lemma_insert_desc_len(order: SortOrder, s: Seq<TreeView>, x: TreeView)
    ensures
        insert_desc(order, s, x).len() == s.len() + 1,
    decreases s.len(),
{
    if s.len() > 0 && metric(order, s[0]) >= metric(order, x) {
        lemma_insert_desc_len(order, s.drop_first(), x);
    }
}

/// Sorting keeps the number of nodes.
pub proof fn lemma_sort_desc_len(order: SortOrder, s: Seq<TreeView>)
    ensures
        sort_desc(order, s).len() == s.len(),
    decreases s.len(),
{
    if s.len() > 0 {
        lemma_sort_desc_len(order, s.drop_last());
        lemma_insert_desc_len(order, sort_desc(order, s.drop_last()), s.last());
    }
}

/// Every node of the placement result is the placed node or one of the
/// original nodes, and the other way round.
/// Every node of the placement result is the placed node or one of the
/// original nodes.
pub proof fn lemma_insert_desc_elems_from(order: SortOrder, s: Seq<TreeView>, x: TreeView)
    ensures
        forall|i: int|
            #![trigger insert_desc(order, s, x)[i]]
            0 <= i < insert_desc(order, s, x).len() ==> insert_desc(order, s, x)[i] == x
                || exists|j: int| 0 <= j < s.len() && insert_desc(order, s, x)[i] == #[trigger] s[j],
    decreases s.len(),
{
    let r = insert_desc(order, s, x);
    lemma_insert_desc_len(order, s, x);
    if s.len() == 0 {
    } else if metric(order, s[0]) >= metric(order, x) {
        lemma_insert_desc_elems_from(order, s.drop_first(), x);
        let r2 = insert_desc(order, s.drop_first(), x);
        assert forall|i: int|
            0 <= i < r.len() implies r[i] == x || exists|j: int|
            0 <= j < s.len() && r[i] == #[trigger] s[j] by {
            if i == 0 {
                assert(r[0] == s[0]);
            } else {
                assert(r[i] == r2[i - 1]);
                if r2[i - 1] != x {
                    let j2 = choose|j: int|
                        0 <= j < s.drop_first().len() && r2[i - 1] == #[trigger] s.drop_first()[j];
                    assert(s.drop_first()[j2] == s[j2 + 1]);
                    assert(r[i] == s[j2 + 1]);
                }
            }
        }
    } else {
        assert forall|i: int|
            0 <= i < r.len() implies r[i] == x || exists|j: int|
            0 <= j < s.len() && r[i] == #[trigger] s[j] by {
            if i > 0 {
                assert(r[i] == s[i - 1]);
            }
        }
    }
}

/// The placed node appears in the placement result.
pub proof fn lemma_insert_desc_contains_x(order: SortOrder, s: Seq<TreeView>, x: TreeView)
    ensures
        exists|i: int|
            0 <= i < insert_desc(order, s, x).len() && #[trigger] insert_desc(order, s, x)[i]
                == x,
    decreases s.len(),
{
    let r = insert_desc(order, s, x);
    lemma_insert_desc_len(order, s, x);
    if s.len() == 0 {
        assert(r[0] == x);
    } else if metric(order, s[0]) >= metric(order, x) {
        lemma_insert_desc_contains_x(order, s.drop_first(), x);
        let r2 = insert_desc(order, s.drop_first(), x);
        let i2 = choose|i: int| 0 <= i < r2.len() && #[trigger] r2[i] == x;
        assert(r[i2 + 1] == x);
    } else {
        assert(r[0] == x);
    }
}

/// Every original node appears in the placement result.
pub proof fn lemma_insert_desc_contains_all(order: SortOrder, s: Seq<TreeView>, x: TreeView)
    ensures
        forall|j: int|
            #![trigger s[j]]
            0 <= j < s.len() ==> exists|i: int|
                0 <= i < insert_desc(order, s, x).len() && #[trigger] insert_desc(order, s, x)[i]
                    == s[j],
    decreases s.len(),
{
    let r = insert_desc(order, s, x);
    lemma_insert_desc_len(order, s, x);
    if s.len() == 0 {
    } else if metric(order, s[0]) >= metric(order, x) {
        lemma_insert_desc_contains_all(order, s.drop_first(), x);
        let r2 = insert_desc(order, s.drop_first(), x);
        assert forall|j: int| #![trigger s[j]] 0 <= j < s.len() implies exists|i: int|
            0 <= i < r.len() && #[trigger] r[i] == s[j] by {
            if j == 0 {
                assert(r[0] == s[0]);
            } else {
                assert(s.drop_first()[j - 1] == s[j]);
                let i2 = choose|i: int|
                    0 <= i < r2.len() && #[trigger] r2[i] == s.drop_first()[j - 1];
                assert(r[i2 + 1] == s[j]);
            }
        }
    } else {
        assert forall|j: int| #![trigger s[j]] 0 <= j < s.len() implies exists|i: int|
            0 <= i < r.len() && #[trigger] r[i] == s[j] by {
            assert(r[j + 1] == s[j]);
        }
    }
}

/// Every node of the sorted sequence is one of the original nodes, and
/// the other way round.
pub proof fn lemma_sort_desc_membership(order: SortOrder, s: Seq<TreeView>)
    ensures
        forall|i: int|
            0 <= i < sort_desc(order, s).len() ==> exists|j: int|
                0 <= j < s.len() && #[trigger] sort_desc(order, s)[i] == s[j],
        forall|j: int|
            #![trigger s[j]]
            0 <= j < s.len() ==> exists|i: int|
                0 <= i < sort_desc(order, s).len() && #[trigger] sort_desc(order, s)[i] == s[j],
    decreases s.len(),
{
    let r = sort_desc(order, s);
    lemma_sort_desc_len(order, s);
    if s.len() > 0 {
        let sd = s.drop_last();
        let r2 = sort_desc(order, sd);
        lemma_sort_desc_membership(order, sd);
        lemma_sort_desc_len(order, sd);
        lemma_insert_desc_elems_from(order, r2, s.last());
        lemma_insert_desc_contains_x(order, r2, s.last());
        lemma_insert_desc_contains_all(order, r2, s.last());
        assert forall|i: int| #![trigger r[i]] 0 <= i < r.len() implies exists|j: int|
            0 <= j < s.len() && r[i] == #[trigger] s[j] by {
            if r[i] == s.last() {
                assert(r[i] == s[s.len() - 1]);
            } else {
                let j2 = choose|j: int| 0 <= j < r2.len() && r[i] == #[trigger] r2[j];
                let j3 = choose|j: int| 0 <= j < sd.len() && #[trigger] r2[j2] == sd[j];
                assert(sd[j3] == s[j3]);
            }
        }
        assert forall|j: int| #![trigger s[j]] 0 <= j < s.len() implies exists|i: int|
            0 <= i < r.len() && #[trigger] r[i] == s[j] by {
            if j == s.len() - 1 {
                let i2 = choose|i: int| 0 <= i < r.len() && #[trigger] r[i] == s.last();
            } else {
                assert(sd[j] == s[j]);
                let i2 = choose|i: int| 0 <= i < r2.len() && #[trigger] r2[i] == sd[j];
                let i3 = choose|i: int| 0 <= i < r.len() && #[trigger] r[i] == r2[i2];
            }
        }
    }
}

/// Placing a node adds its key count and memory to the totals.
pub proof fn lemma_insert_desc_sums(order: SortOrder, s: Seq<TreeView>, x: TreeView)
    ensures
        sum_counts(insert_desc(order, s, x)) == sum_counts(s) + x.keys_count,
        sum_mem(insert_desc(order, s, x)) == sum_mem(s) + x.memory_usage,
    decreases s.len(),
{
    let r = insert_desc(order, s, x);
    if s.len() == 0 {
        assert(r.drop_last() =~= s);
    } else if metric(order, s[0]) >= metric(order, x) {
        lemma_insert_desc_sums(order, s.drop_first(), x);
        let r2 = insert_desc(order, s.drop_first(), x);
        lemma_insert_desc_len(order, s.drop_first(), x);
        assert(r =~= seq![s[0]] + r2);
        lemma_sums_prepend(s[0], r2);
        lemma_sums_prepend(s[0], s.drop_first());
        assert(seq![s[0]] + s.drop_first() =~= s);
    } else {
        lemma_sums_prepend(x, s);
    }
}

/// Prepending one node adds its key count and memory to the totals.
proof fn lemma_sums_prepend(x: TreeView, s: Seq<TreeView>)
    ensures
        sum_counts(seq![x] + s) == x.keys_count + sum_counts(s),
        sum_mem(seq![x] + s) == x.memory_usage + sum_mem(s),
    decreases s.len(),
{
    let r = seq![x] + s;
    if s.len() == 0 {
        assert(r.drop_last() =~= Seq::<TreeView>::empty());
        assert(r.last() == x);
        assert(sum_counts(r) == sum_counts(r.drop_last()) + x.keys_count);
        assert(sum_counts(r.drop_last()) == 0);
        assert(sum_mem(r) == sum_mem(r.drop_last()) + x.memory_usage);
        assert(sum_mem(r.drop_last()) == 0);
    } else {
        assert(r.drop_last() =~= seq![x] + s.drop_last());
        assert(r.last() == s.last());
        lemma_sums_prepend(x, s.drop_last());
        assert(sum_counts(r) == sum_counts(r.drop_last()) + s.last().keys_count);
        assert(sum_counts(r.drop_last()) == x.keys_count + sum_counts(s.drop_last()));
        assert(sum_counts(s) == sum_counts(s.drop_last()) + s.last().keys_count);
        assert(sum_mem(r) == sum_mem(r.drop_last()) + s.last().memory_usage);
        assert(sum_mem(r.drop_last()) == x.memory_usage + sum_mem(s.drop_last()));
        assert(sum_mem(s) == sum_mem(s.drop_last()) + s.last().memory_usage);
    }
}

/// Sorting keeps the total key count and memory.
pub proof fn lemma_sort_desc_sums(order: SortOrder, s: Seq<TreeView>)
    ensures
        sum_counts(sort_desc(order, s)) == sum_counts(s),
        sum_mem(sort_desc(order, s)) == sum_mem(s),
    decreases s.len(),
{
    if s.len() > 0 {
        lemma_sort_desc_sums(order, s.drop_last());
        lemma_insert_desc_sums(order, sort_desc(order, s.drop_last()), s.last());
    }
}

/// Placing a node into an ordered sequence keeps it ordered.
pub proof fn lemma_insert_desc_sorted(order: SortOrder, s: Seq<TreeView>, x: TreeView)
    requires
        sorted_desc(order, s),
    ensures
        sorted_desc(order, insert_desc(order, s, x)),
    decreases s.len(),
{
    let r = insert_desc(order, s, x);
    lemma_insert_desc_len(order, s, x);
    if s.len() == 0 {
    } else if metric(order, s[0]) >= metric(order, x) {
        assert forall|i: int, j: int|
            0 <= i < j < s.drop_first().len() implies metric(
            order,
            #[trigger] s.drop_first()[i],
        ) >= metric(order, #[trigger] s.drop_first()[j]) by {
            assert(s.drop_first()[i] == s[i + 1] && s.drop_first()[j] == s[j + 1]);
        }
        lemma_insert_desc_sorted(order, s.drop_first(), x);
        let r2 = insert_desc(order, s.drop_first(), x);
        lemma_insert_desc_elems_from(order, s.drop_first(), x);
        assert forall|i: int, j: int| 0 <= i < j < r.len() implies metric(
            order,
            #[trigger] r[i],
        ) >= metric(order, #[trigger] r[j]) by {
            if i == 0 {
                assert(r[j] == r2[j - 1]);
                if r2[j - 1] == x {
                } else {
                    let j2 = choose|t: int|
                        0 <= t < s.drop_first().len() && r2[j - 1] == #[trigger] s.drop_first()[t];
                    assert(s.drop_first()[j2] == s[j2 + 1]);
                    assert(metric(order, s[0]) >= metric(order, s[j2 + 1]));
                }
            } else {
                assert(r[i] == r2[i - 1] && r[j] == r2[j - 1]);
            }
        }
    } else {
        assert forall|i: int, j: int| 0 <= i < j < r.len() implies metric(
            order,
            #[trigger] r[i],
        ) >= metric(order, #[trigger] r[j]) by {
            if i == 0 {
                assert(r[j] == s[j - 1]);
                assert(metric(order, s[0]) < metric(order, x));
                if j - 1 > 0 {
                    assert(metric(order, s[0]) >= metric(order, s[j - 1]));
                }
            } else {
                assert(r[i] == s[i - 1] && r[j] == s[j - 1]);
            }
        }
    }
}

/// The sorted sequence is ordered descending by the metric.
pub proof fn lemma_sort_desc_sorted(order: SortOrder, s: Seq<TreeView>)
    ensures
        sorted_desc(order, sort_desc(order, s)),
    decreases s.len(),
{
    if s.len() > 0 {
        lemma_sort_desc_sorted(order, s.drop_last());
        lemma_insert_desc_sorted(order, sort_desc(order, s.drop_last()), s.last());
    }
}

/// Placing a node whose metric is at most every element's puts it at
/// the end.
proof fn lemma_insert_desc_at_end(order: SortOrder, s: Seq<TreeView>, x: TreeView)
    requires
        forall|i: int| 0 <= i < s.len() ==> metric(order, #[trigger] s[i]) >= metric(order, x),
    ensures
        insert_desc(order, s, x) == s.push(x),
    decreases s.len(),
{
    if s.len() == 0 {
        assert(insert_desc(order, s, x) =~= s.push(x));
    } else {
        assert forall|i: int| 0 <= i < s.drop_first().len() implies metric(
            order,
            #[trigger] s.drop_first()[i],
        ) >= metric(order, x) by {
            assert(s.drop_first()[i] == s[i + 1]);
        }
        lemma_insert_desc_at_end(order, s.drop_first(), x);
        assert(insert_desc(order, s, x) =~= s.push(x));
    }
}

/// Sorting an ordered sequence leaves it as it is.
pub proof fn lemma_sort_desc_of_sorted(order: SortOrder, s: Seq<TreeView>)
    requires
        sorted_desc(order, s),
    ensures
        sort_desc(order, s) == s,
    decreases s.len(),
{
    if s.len() > 0 {
        let sd = s.drop_last();
        assert forall|i: int, j: int| 0 <= i < j < sd.len() implies metric(
            order,
            #[trigger] sd[i],
        ) >= metric(order, #[trigger] sd[j]) by {
            assert(sd[i] == s[i] && sd[j] == s[j]);
        }
        lemma_sort_desc_of_sorted(order, sd);
        assert forall|i: int| 0 <= i < sd.len() implies metric(order, #[trigger] sd[i]) >= metric(
            order,
            s.last(),
        ) by {
            assert(sd[i] == s[i]);
        }
        lemma_insert_desc_at_end(order, sd, s.last());
        assert(sd.push(s.last()) =~= s);
    }
}

/// No node anywhere in the tree carries the reserved remainder label:
/// true of every tree the count pass builds from keys that do not
/// themselves collide with the label.
pub open spec fn no_reserved(t: TreeView) -> bool
    decreases t,
{
    &&& !has_reserved(t)
    &&& forall|i: int| 0 <= i < t.children.len() ==> no_reserved(#[trigger] t.children[i])
}

/// Wherever a node of the tree carries a remainder child, its children's
/// key counts and memory usages add up to the node's own, exactly.
pub open spec fn remainder_exact(t: TreeView) -> bool
    decreases t,
{
    &&& (has_reserved(t) ==> sum_counts(t.children) == t.keys_count && sum_mem(t.children)
        == t.memory_usage)
    &&& forall|i: int| 0 <= i < t.children.len() ==> remainder_exact(#[trigger] t.children[i])
}

/// Two rows of nodes that agree pointwise on key count and memory have
/// the same totals.
proof fn lemma_sums_pointwise(s1: Seq<TreeView>, s2: Seq<TreeView>)
    requires
        s1.len() == s2.len(),
        forall|i: int|
            0 <= i < s1.len() ==> (#[trigger] s1[i]).keys_count == s2[i].keys_count && s1[i].memory_usage
                == s2[i].memory_usage,
    ensures
        sum_counts(s1) == sum_counts(s2),
        sum_mem(s1) == sum_mem(s2),
    decreases s1.len(),
{
    if s1.len() > 0 {
        assert(s1[s1.len() - 1].keys_count == s2[s1.len() - 1].keys_count);
        assert forall|i: int|
            0 <= i < s1.drop_last().len() implies (#[trigger] s1.drop_last()[i]).keys_count
                == s2.drop_last()[i].keys_count && s1.drop_last()[i].memory_usage
                == s2.drop_last()[i].memory_usage by {
            assert(s1.drop_last()[i] == s1[i] && s2.drop_last()[i] == s2[i]);
        }
        lemma_sums_pointwise(s1.drop_last(), s2.drop_last());
    }
}

/// Sorting a node's children keeps the reserved label present or absent.
proof fn lemma_any_reserved_sort(order: SortOrder, s: Seq<TreeView>)
    ensures
        any_reserved(sort_desc(order, s)) == any_reserved(s),
{
    let r = sort_desc(order, s);
    lemma_sort_desc_len(order, s);
    lemma_sort_desc_membership(order, s);
    if any_reserved(s) {
        let j = choose|j: int| 0 <= j < s.len() && (#[trigger] s[j]).value == other_label();
        let i = choose|i: int| 0 <= i < r.len() && #[trigger] r[i] == s[j];
        assert(r[i].value == other_label());
    }
    if any_reserved(r) {
        let i = choose|i: int| 0 <= i < r.len() && (#[trigger] r[i]).value == other_label();
        let j = choose|j: int| 0 <= j < s.len() && #[trigger] r[i] == s[j];
        assert(s[j].value == other_label());
    }
}

/// Reordering and backfilling keep every field of the node itself; only
/// the children list changes.
pub proof fn lemma_roots_preserved(cfg: Config, t: TreeView)
    ensures
        spec_reorder(cfg.sort_order, t).value == t.value,
        spec_reorder(cfg.sort_order, t).depth == t.depth,
        spec_reorder(cfg.sort_order, t).keys_count == t.keys_count,
        spec_reorder(cfg.sort_order, t).memory_usage == t.memory_usage,
        spec_backfill(cfg, t).value == t.value,
        spec_backfill(cfg, t).depth == t.depth,
        spec_backfill(cfg, t).keys_count == t.keys_count,
        spec_backfill(cfg, t).memory_usage == t.memory_usage,
{
}

/// The reordered children carry the same values, counts and memory,
/// node for node, and the reserved label stays present or absent.
proof fn lemma_reorder_pointwise(order: SortOrder, s: Seq<TreeView>)
    ensures
        reorder_children(order, s).len() == s.len(),
        forall|i: int|
            0 <= i < s.len() ==> (#[trigger] reorder_children(order, s)[i]).value == s[i].value
                && reorder_children(order, s)[i].depth == s[i].depth && reorder_children(
                order,
                s,
            )[i].keys_count == s[i].keys_count && reorder_children(order, s)[i].memory_usage
                == s[i].memory_usage,
{
    lemma_reorder_children(order, s);
    assert forall|i: int|
        0 <= i < s.len() implies (#[trigger] reorder_children(order, s)[i]).value == s[i].value
            && reorder_children(order, s)[i].depth == s[i].depth && reorder_children(
            order,
            s,
        )[i].keys_count == s[i].keys_count && reorder_children(order, s)[i].memory_usage
            == s[i].memory_usage by {
        assert(reorder_children(order, s)[i] == spec_reorder(order, s[i]));
    }
}

/// The backfilled children carry the same values, counts and memory,
/// node for node.
proof fn lemma_backfill_pointwise(cfg: Config, s: Seq<TreeView>)
    ensures
        backfill_children(cfg, s).len() == s.len(),
        forall|i: int|
            0 <= i < s.len() ==> (#[trigger] backfill_children(cfg, s)[i]).value == s[i].value
                && backfill_children(cfg, s)[i].depth == s[i].depth && backfill_children(
                cfg,
                s,
            )[i].keys_count == s[i].keys_count && backfill_children(cfg, s)[i].memory_usage
                == s[i].memory_usage,
{
    lemma_backfill_children(cfg, s);
    assert forall|i: int|
        0 <= i < s.len() implies (#[trigger] backfill_children(cfg, s)[i]).value == s[i].value
            && backfill_children(cfg, s)[i].depth == s[i].depth && backfill_children(
            cfg,
            s,
        )[i].keys_count == s[i].keys_count && backfill_children(cfg, s)[i].memory_usage
            == s[i].memory_usage by {
        assert(backfill_children(cfg, s)[i] == spec_backfill(cfg, s[i]));
    }
}

/// Backfilling a tree with no reserved label anywhere makes the sums
/// exact at every node that receives a remainder child.
pub proof fn lemma_backfill_remainder_exact(cfg: Config, t: TreeView)
    requires
        no_reserved(t),
    ensures
        remainder_exact(spec_backfill(cfg, t)),
    decreases t,
{
    let r = spec_backfill(cfg, t);
    let kids = backfill_children(cfg, t.children);
    lemma_backfill_children(cfg, t.children);
    lemma_backfill_pointwise(cfg, t.children);
    lemma_sums_pointwise(kids, t.children);
    assert forall|i: int| 0 <= i < kids.len() implies remainder_exact(#[trigger] kids[i]) by {
        assert(kids[i] == spec_backfill(cfg, t.children[i]));
        lemma_backfill_remainder_exact(cfg, t.children[i]);
    }
    if appends_rem(cfg, t) {
        assert(r.children == kids.push(rem_node(t)));
        assert(r.children.drop_last() =~= kids);
        assert(sum_counts(r.children) == sum_counts(kids) + rem_count(t));
        assert(sum_mem(r.children) == sum_mem(kids) + rem_mem(t));
        assert(sum_counts(r.children) == t.keys_count);
        assert(sum_mem(r.children) == t.memory_usage);
        assert forall|i: int| 0 <= i < r.children.len() implies remainder_exact(
            #[trigger] r.children[i],
        ) by {
            if i < kids.len() {
                assert(r.children[i] == kids[i]);
            } else {
                assert(r.children[i] == rem_node(t));
                assert(rem_node(t).children.len() == 0);
                assert(!has_reserved(rem_node(t)));
            }
        }
    } else {
        assert(r.children == kids);
        assert(!has_reserved(t));
        assert forall|i: int| 0 <= i < kids.len() implies (#[trigger] kids[i]).value != other_label() by {
            assert(kids[i].value == t.children[i].value);
            assert(!((#[trigger] t.children[i]).value == other_label()));
        }
        assert(!any_reserved(kids));
        assert(!has_reserved(r));
    }
}

/// A tree with no reserved label anywhere keeps that property when its
/// children are sorted.
pub proof fn lemma_reorder_no_reserved(order: SortOrder, t: TreeView)
    requires
        no_reserved(t),
    ensures
        no_reserved(spec_reorder(order, t)),
    decreases t,
{
    let r = spec_reorder(order, t);
    let kids = reorder_children(order, t.children);
    lemma_reorder_children(order, t.children);
    lemma_reorder_pointwise(order, t.children);
    assert forall|i: int| 0 <= i < kids.len() implies no_reserved(#[trigger] kids[i]) by {
        assert(kids[i] == spec_reorder(order, t.children[i]));
        lemma_reorder_no_reserved(order, t.children[i]);
    }
    assert forall|i: int| 0 <= i < kids.len() implies (#[trigger] kids[i]).value != other_label() by {
        assert(kids[i].value == t.children[i].value);
        assert(!((#[trigger] t.children[i]).value == other_label()));
    }
    assert(!any_reserved(kids));
    if has_reserved(t) {
        assert(r.children == kids);
    } else {
        lemma_any_reserved_sort(order, kids);
        lemma_sort_desc_len(order, kids);
        lemma_sort_desc_membership(order, kids);
        assert forall|i: int| 0 <= i < r.children.len() implies no_reserved(
            #[trigger] r.children[i],
        ) by {
            let j = choose|j: int| 0 <= j < kids.len() && #[trigger] sort_desc(order, kids)[i] == kids[j];
            assert(no_reserved(kids[j]));
        }
        assert(!any_reserved(r.children));
    }
}

/// Wherever the normalized tree carries a remainder child, the node's
/// children's key counts and memory usages add up to the node's own,
/// exactly. The input tree must not use the reserved label itself.
pub proof fn lemma_normalize_remainder_exact(cfg: Config, t: TreeView)
    requires
        no_reserved(t),
    ensures
        remainder_exact(spec_normalize(cfg, t)),
{
    lemma_reorder_no_reserved(cfg.sort_order, t);
    lemma_backfill_remainder_exact(cfg, spec_reorder(cfg.sort_order, t));
}

/// A leaf — a node without children — is left alone by both passes.
proof fn lemma_leaf_fixpoint(cfg: Config, t: TreeView)
    requires
        t.children.len() == 0,
    ensures
        spec_reorder(cfg.sort_order, t) == t,
        spec_backfill(cfg, t) == t,
{
    assert(reorder_children(cfg.sort_order, t.children) =~= t.children);
    assert(spec_reorder(cfg.sort_order, t) =~= t);
    assert(backfill_children(cfg, t.children) =~= t.children);
    assert(spec_backfill(cfg, t) =~= t);
}

/// A node whose children are each untouched by re-sorting, and are
/// already in order unless the node carries a remainder child, is
/// untouched by re-sorting as a whole.
proof fn lemma_reorder_fix_of(order: SortOrder, u: TreeView)
    requires
        forall|i: int|
            0 <= i < u.children.len() ==> spec_reorder(order, #[trigger] u.children[i])
                == u.children[i],
        !has_reserved(u) ==> sorted_desc(order, u.children),
    ensures
        spec_reorder(order, u) == u,
{
    let r = spec_reorder(order, u);
    lemma_reorder_children(order, u.children);
    assert(reorder_children(order, u.children) =~= u.children);
    if has_reserved(u) {
        assert(r.children == u.children);
    } else {
        lemma_sort_desc_of_sorted(order, u.children);
        assert(r.children == u.children);
    }
    assert(r =~= u);
}

/// A node whose children are each untouched by re-backfilling, and
/// whose own remainder either exists already or does not qualify, is
/// untouched by re-backfilling as a whole.
proof fn lemma_backfill_fix_of(cfg: Config, u: TreeView)
    requires
        forall|i: int|
            0 <= i < u.children.len() ==> spec_backfill(cfg, #[trigger] u.children[i])
                == u.children[i],
        !appends_rem(cfg, u),
    ensures
        spec_backfill(cfg, u) == u,
{
    let r = spec_backfill(cfg, u);
    lemma_backfill_children(cfg, u.children);
    assert(backfill_children(cfg, u.children) =~= u.children);
    assert(r =~= u);
}

/// Sorting keeps the reserved label present or absent among a node's
/// children.
proof fn lemma_reorder_keeps_reserved(order: SortOrder, t: TreeView)
    ensures
        has_reserved(spec_reorder(order, t)) == has_reserved(t),
{
    let rk = reorder_children(order, t.children);
    lemma_reorder_pointwise(order, t.children);
    if has_reserved(t) {
        let j = choose|j: int|
            0 <= j < t.children.len() && (#[trigger] t.children[j]).value == other_label();
        assert(rk[j].value == other_label());
        assert(any_reserved(rk));
    }
    if any_reserved(rk) {
        let i = choose|i: int| 0 <= i < rk.len() && (#[trigger] rk[i]).value == other_label();
        assert(t.children[i].value == other_label());
        assert(has_reserved(t));
    }
    lemma_any_reserved_sort(order, rk);
}

/// Every child of the normalized tree is itself a fixed point of both
/// normalizer passes.
#[verifier::rlimit(100)]
proof fn lemma_norm_children_fix(cfg: Config, t: TreeView)
    ensures
        forall|i: int|
            0 <= i < spec_normalize(cfg, t).children.len() ==> spec_reorder(
                cfg.sort_order,
                #[trigger] spec_normalize(cfg, t).children[i],
            ) == spec_normalize(cfg, t).children[i] && spec_backfill(
                cfg,
                spec_normalize(cfg, t).children[i],
            ) == spec_normalize(cfg, t).children[i],
    decreases t, 0int,
{
    let order = cfg.sort_order;
    let t1 = spec_reorder(order, t);
    let t2 = spec_normalize(cfg, t);
    let rk = reorder_children(order, t.children);
    let bk = backfill_children(cfg, t1.children);
    lemma_reorder_children(order, t.children);
    lemma_backfill_children(cfg, t1.children);
    lemma_sort_desc_len(order, rk);
    lemma_sort_desc_membership(order, rk);
    assert forall|i: int|
        0 <= i < bk.len() implies spec_reorder(order, #[trigger] bk[i]) == bk[i] && spec_backfill(
        cfg,
        bk[i],
    ) == bk[i] by {
        assert(bk[i] == spec_backfill(cfg, t1.children[i]));
        if has_reserved(t) {
            assert(t1.children[i] == rk[i]);
            assert(rk[i] == spec_reorder(order, t.children[i]));
            lemma_normalize_fixpoint(cfg, t.children[i]);
        } else {
            let j = choose|j: int| 0 <= j < rk.len() && #[trigger] sort_desc(order, rk)[i] == rk[j];
            assert(t1.children[i] == rk[j]);
            assert(rk[j] == spec_reorder(order, t.children[j]));
            lemma_normalize_fixpoint(cfg, t.children[j]);
        }
    }
    assert forall|i: int|
        0 <= i < t2.children.len() implies spec_reorder(order, #[trigger] t2.children[i])
            == t2.children[i] && spec_backfill(cfg, t2.children[i]) == t2.children[i] by {
        if appends_rem(cfg, t1) {
            assert(t2.children == bk.push(rem_node(t1)));
            if i < bk.len() {
                assert(t2.children[i] == bk[i]);
            } else {
                assert(t2.children[i] == rem_node(t1));
                lemma_leaf_fixpoint(cfg, rem_node(t1));
            }
        } else {
            assert(t2.children == bk);
            assert(t2.children[i] == bk[i]);
        }
    }
}

/// A normalized tree is a fixed point of both normalizer passes:
/// sorting it again and backfilling it again change nothing.
pub proof fn lemma_normalize_fixpoint(cfg: Config, t: TreeView)
    ensures
        spec_reorder(cfg.sort_order, spec_normalize(cfg, t)) == spec_normalize(cfg, t),
        spec_backfill(cfg, spec_normalize(cfg, t)) == spec_normalize(cfg, t),
    decreases t, 1int,
{
    let order = cfg.sort_order;
    let t1 = spec_reorder(order, t);
    let t2 = spec_normalize(cfg, t);
    let rk = reorder_children(order, t.children);
    let bk = backfill_children(cfg, t1.children);
    lemma_reorder_children(order, t.children);
    lemma_reorder_pointwise(order, t.children);
    lemma_backfill_children(cfg, t1.children);
    lemma_backfill_pointwise(cfg, t1.children);
    lemma_reorder_keeps_reserved(order, t);
    lemma_norm_children_fix(cfg, t);

    if has_reserved(t1) {
        let j = choose|j: int|
            0 <= j < t1.children.len() && (#[trigger] t1.children[j]).value == other_label();
        assert(bk[j].value == other_label());
        assert(any_reserved(bk));
    }
    if any_reserved(bk) {
        let i = choose|i: int| 0 <= i < bk.len() && (#[trigger] bk[i]).value == other_label();
        assert(t1.children[i].value == other_label());
        assert(has_reserved(t1));
    }
    assert(any_reserved(bk) == has_reserved(t1));

    if appends_rem(cfg, t1) {
        assert(t2.children == bk.push(rem_node(t1)));
        assert(t2.children[bk.len() as int] == rem_node(t1));
        assert(any_reserved(t2.children));
        assert(has_reserved(t2));
    } else {
        assert(t2.children == bk);
        assert(has_reserved(t2) == has_reserved(t1));
    }

    if !has_reserved(t2) {
        assert(!appends_rem(cfg, t1));
        assert(!has_reserved(t1));
        assert(!has_reserved(t));
        assert(t1.children == sort_desc(order, rk));
        lemma_sort_desc_sorted(order, rk);
        assert forall|i: int, j: int| 0 <= i < j < bk.len() implies metric(
            order,
            #[trigger] bk[i],
        ) >= metric(order, #[trigger] bk[j]) by {
            assert(bk[i].keys_count == t1.children[i].keys_count && bk[i].memory_usage
                == t1.children[i].memory_usage);
            assert(bk[j].keys_count == t1.children[j].keys_count && bk[j].memory_usage
                == t1.children[j].memory_usage);
            assert(metric(order, t1.children[i]) >= metric(order, t1.children[j]));
        }
        assert(sorted_desc(order, t2.children));
    }
    lemma_reorder_fix_of(order, t2);

    if !has_reserved(t2) {
        assert(t2.children == bk);
        lemma_sums_pointwise(bk, t1.children);
        assert(rem_count(t2) == rem_count(t1));
        if t2.children.len() > 0 {
            assert(!cfg.spec_qualifies(rem_count(t1)));
        }
        assert(!appends_rem(cfg, t2));
    } else {
        assert(!appends_rem(cfg, t2));
    }
    lemma_backfill_fix_of(cfg, t2);
}

/// Running the normalizer twice gives the same tree as running it once.
pub proof fn lemma_normalize_idempotent(cfg: Config, t: TreeView)
    ensures
        spec_normalize(cfg, spec_normalize(cfg, t)) == spec_normalize(cfg, t),
{
    lemma_normalize_fixpoint(cfg, t);
    let n = spec_normalize(cfg, t);
    assert(spec_normalize(cfg, n) == spec_backfill(cfg, spec_reorder(cfg.sort_order, n)));
    assert(spec_reorder(cfg.sort_order, n) == n);
}

/// Sorting keeps the tree well formed: children keep their depth one
/// level below the parent.
pub proof fn lemma_reorder_wf(order: SortOrder, t: TreeView)
    requires
        t.wf(),
    ensures
        spec_reorder(order, t).wf(),
        spec_reorder(order, t).depth == t.depth,
    decreases t,
{
    let r = spec_reorder(order, t);
    let rk = reorder_children(order, t.children);
    lemma_reorder_children(order, t.children);
    assert forall|i: int|
        0 <= i < rk.len() implies (#[trigger] rk[i]).depth == t.depth + 1 && rk[i].wf() by {
        assert(rk[i] == spec_reorder(order, t.children[i]));
        lemma_reorder_wf(order, t.children[i]);
    }
    if has_reserved(t) {
        assert(r.children == rk);
    } else {
        lemma_sort_desc_len(order, rk);
        lemma_sort_desc_membership(order, rk);
        assert forall|i: int|
            0 <= i < r.children.len() implies (#[trigger] r.children[i]).depth == r.depth + 1
                && r.children[i].wf() by {
            let j = choose|j: int| 0 <= j < rk.len() && #[trigger] sort_desc(order, rk)[i] == rk[j];
            assert(rk[j].depth == t.depth + 1 && rk[j].wf());
        }
    }
}

/// Backfilling keeps the tree well formed: the remainder child sits one
/// level below its parent like every reported child.
pub proof fn lemma_backfill_wf(cfg: Config, t: TreeView)
    requires
        t.wf(),
    ensures
        spec_backfill(cfg, t).wf(),
        spec_backfill(cfg, t).depth == t.depth,
    decreases t,
{
    let r = spec_backfill(cfg, t);
    let kids = backfill_children(cfg, t.children);
    lemma_backfill_children(cfg, t.children);
    assert forall|i: int|
        0 <= i < kids.len() implies (#[trigger] kids[i]).depth == t.depth + 1 && kids[i].wf() by {
        assert(kids[i] == spec_backfill(cfg, t.children[i]));
        lemma_backfill_wf(cfg, t.children[i]);
    }
    if appends_rem(cfg, t) {
        assert forall|i: int|
            0 <= i < r.children.len() implies (#[trigger] r.children[i]).depth == r.depth + 1
                && r.children[i].wf() by {
            if i < kids.len() {
                assert(r.children[i] == kids[i]);
            } else {
                assert(r.children[i] == rem_node(t));
            }
        }
    }
}

/// The normalized tree is well formed whenever its input is: every
/// child still sits one separator-delimited segment below its parent.
pub proof fn lemma_normalize_wf(cfg: Config, t: TreeView)
    requires
        t.wf(),
    ensures
        spec_normalize(cfg, t).wf(),
        spec_normalize(cfg, t).depth == t.depth,
{
    lemma_reorder_wf(cfg.sort_order, t);
    lemma_backfill_wf(cfg, spec_reorder(cfg.sort_order, t));
}

/// Wherever a node of the tree has children, its depth has room for one
/// more level.
pub open spec fn depth_room(t: TreeView) -> bool
    decreases t,
{
    &&& (t.children.len() > 0 ==> t.depth < usize::MAX)
    &&& forall|i: int| 0 <= i < t.children.len() ==> depth_room(#[trigger] t.children[i])
}

/// A tree whose children's memory stays within each node's own, and
/// whose depths have room for one more level, is ready for the
/// executable backfill pass.
pub proof fn lemma_backfill_ok_from(cfg: Config, t: TreeView)
    requires
        crate::attribution::mem_sums_ok(t),
        depth_room(t),
    ensures
        backfill_ok(cfg, t),
    decreases t,
{
    assert forall|i: int| 0 <= i < t.children.len() implies backfill_ok(
        cfg,
        #[trigger] t.children[i],
    ) by {
        lemma_backfill_ok_from(cfg, t.children[i]);
    }
}

/// Sorting keeps each node's children's memory within the node's own.
#[verifier::rlimit(60)]
pub proof fn lemma_reorder_mem_sums(order: SortOrder, t: TreeView)
    requires
        crate::attribution::mem_sums_ok(t),
    ensures
        crate::attribution::mem_sums_ok(spec_reorder(order, t)),
    decreases t,
{
    let r = spec_reorder(order, t);
    let rk = reorder_children(order, t.children);
    lemma_reorder_children(order, t.children);
    lemma_reorder_pointwise(order, t.children);
    lemma_sums_pointwise(rk, t.children);
    lemma_sort_desc_sums(order, rk);
    lemma_sort_desc_len(order, rk);
    lemma_sort_desc_membership(order, rk);
    assert forall|i: int| 0 <= i < r.children.len() implies crate::attribution::mem_sums_ok(
        #[trigger] r.children[i],
    ) by {
        if has_reserved(t) {
            assert(r.children[i] == rk[i]);
            assert(rk[i] == spec_reorder(order, t.children[i]));
            lemma_reorder_mem_sums(order, t.children[i]);
        } else {
            let j = choose|j: int| 0 <= j < rk.len() && #[trigger] sort_desc(order, rk)[i] == rk[j];
            assert(rk[j] == spec_reorder(order, t.children[j]));
            lemma_reorder_mem_sums(order, t.children[j]);
        }
    }
    if has_reserved(t) {
        assert(sum_mem(r.children) == sum_mem(t.children));
    } else {
        assert(sum_mem(r.children) == sum_mem(rk));
    }
}

/// Sorting keeps every depth where it was, so the room for one more
/// level stays.
pub proof fn lemma_reorder_depth_room(order: SortOrder, t: TreeView)
    requires
        depth_room(t),
    ensures
        depth_room(spec_reorder(order, t)),
    decreases t,
{
    let r = spec_reorder(order, t);
    let rk = reorder_children(order, t.children);
    lemma_reorder_children(order, t.children);
    lemma_sort_desc_len(order, rk);
    lemma_sort_desc_membership(order, rk);
    assert forall|i: int| 0 <= i < r.children.len() implies depth_room(
        #[trigger] r.children[i],
    ) by {
        if has_reserved(t) {
            assert(r.children[i] == rk[i]);
            assert(rk[i] == spec_reorder(order, t.children[i]));
            lemma_reorder_depth_room(order, t.children[i]);
        } else {
            let j = choose|j: int| 0 <= j < rk.len() && #[trigger] sort_desc(order, rk)[i] == rk[j];
            assert(rk[j] == spec_reorder(order, t.children[j]));
            lemma_reorder_depth_room(order, t.children[j]);
        }
    }
}

/// `insert_desc` puts `x` at the first position whose element has a
/// smaller metric, and leaves everything else in place.
proof fn lemma_insert_desc_at(order: SortOrder, s: Seq<TreeView>, x: TreeView, p: int)
    requires
        0 <= p <= s.len(),
        forall|t: int| 0 <= t < p ==> metric(order, #[trigger] s[t]) >= metric(order, x),
        p < s.len() ==> metric(order, s[p]) < metric(order, x),
    ensures
        insert_desc(order, s, x) == s.subrange(0, p) + seq![x] + s.subrange(p, s.len() as int),
    decreases s.len(),
{
    if s.len() == 0 {
        assert(insert_desc(order, s, x) =~= s.subrange(0, p) + seq![x] + s.subrange(
            p,
            s.len() as int,
        ));
    } else if p == 0 {
        assert(insert_desc(order, s, x) =~= s.subrange(0, p) + seq![x] + s.subrange(
            p,
            s.len() as int,
        ));
    } else {
        assert(metric(order, s[0]) >= metric(order, x));
        assert forall|t: int| 0 <= t < p - 1 implies metric(
            order,
            #[trigger] s.drop_first()[t],
        ) >= metric(order, x) by {
            assert(s.drop_first()[t] == s[t + 1]);
        }
        if p - 1 < s.drop_first().len() {
            assert(s.drop_first()[p - 1] == s[p]);
        }
        lemma_insert_desc_at(order, s.drop_first(), x, p - 1);
        assert(insert_desc(order, s, x) =~= s.subrange(0, p) + seq![x] + s.subrange(
            p,
            s.len() as int,
        ));
    }
}

/// Whether this string is the reserved remainder label.
fn is_reserved_label(s: &String) -> (r: bool)
    ensures
        r == (s@ == other_label()),
{
    let lbl = String::from_str("[other]");
    *s == lbl
}

/// Whether one of the node's direct children carries the reserved
/// remainder label.
#[verifier::loop_isolation(false)]
fn has_reserved_child(prefix: &KeyPrefix) -> (r: bool)
    ensures
        r == has_reserved(tree_view(*prefix)),
{
    proof {
        lemma_children_view(prefix.children@);
    }
    let n = prefix.children.len();
    let mut i: usize = 0;
    while i < n
        invariant
            i <= n,
            n == prefix.children@.len(),
            forall|t: int|
                0 <= t < i ==> (#[trigger] tree_view(*prefix).children[t]).value != other_label(),
        decreases n - i,
    {
        if is_reserved_label(&prefix.children[i].value) {
            proof {
                assert(tree_view(*prefix).children[i as int].value == other_label());
            }
            return true;
        }
        proof {
            assert(tree_view(*prefix).children[i as int] == tree_view(
                prefix.children@[i as int],
            ));
        }
        i = i + 1;
    }
    false
}

/// The configured metric of one node.
fn metric_of(cfg: &Config, c: &KeyPrefix) -> (r: usize)
    ensures
        r as int == metric(cfg.sort_order, tree_view(*c)),
{
    match cfg.sort_order {
        SortOrder::KeysCount => c.keys_count,
        SortOrder::MemoryUsage => c.memory_usage,
    }
}

/// Place `x` among already placed nodes, after every node whose metric
/// is at least the metric of `x`.
#[verifier::loop_isolation(false)]
fn insert_sorted(cfg: &Config, v: &mut Vec<KeyPrefix>, x: KeyPrefix)
    ensures
        children_view(final(v)@) == insert_desc(
            cfg.sort_order,
            children_view(old(v)@),
            tree_view(x),
        ),
{
    let ghost cv = children_view(v@);
    let ghost xv = tree_view(x);
    proof {
        lemma_children_view(v@);
    }
    let n = v.len();
    let mut p: usize = 0;
    while p < n
        invariant
            p <= n,
            n == v@.len(),
            v@ == old(v)@,
            forall|t: int| 0 <= t < p ==> metric(cfg.sort_order, #[trigger] cv[t]) >= metric(
                cfg.sort_order,
                xv,
            ),
        decreases n - p,
    {
        let mx = metric_of(cfg, &x);
        let mc = metric_of(cfg, &v[p]);
        if mc < mx {
            break ;
        }
        proof {
            assert(cv[p as int] == tree_view(v@[p as int]));
        }
        p = p + 1;
    }
    proof {
        assert(p < n ==> metric(cfg.sort_order, cv[p as int]) < metric(cfg.sort_order, xv));
    }
    let ghost before = v@;
    v.insert(p, x);
    proof {
        lemma_insert_desc_at(cfg.sort_order, cv, xv, p as int);
        lemma_children_view(v@);
        before.insert_ensures(p as int, x);
        assert forall|k: int| 0 <= k < v@.len() implies #[trigger] v@[k] == (if k < p {
            before[k]
        } else if k == p {
            x
        } else {
            before[k - 1]
        }) by {
            if k > p {
                assert(before.insert(p as int, x)[(k - 1) + 1] == before[k - 1]);
            }
        }
        let rhs = cv.subrange(0, p as int) + seq![xv] + cv.subrange(p as int, cv.len() as int);
        assert forall|k: int| 0 <= k < v@.len() implies children_view(v@)[k] == rhs[k] by {
            assert(children_view(v@)[k] == tree_view(v@[k]));
            if k < p {
                assert(cv[k] == tree_view(before[k]));
            } else if k > p {
                assert(cv[k - 1] == tree_view(before[k - 1]));
            }
        }
        assert(children_view(v@) =~= rhs);
    }
}

/// Sort the nodes descending by the configured metric; nodes with equal
/// metrics keep their relative order.
#[verifier::loop_isolation(false)]
fn sort_children(cfg: &Config, v: &mut Vec<KeyPrefix>)
    ensures
        children_view(final(v)@) == sort_desc(cfg.sort_order, children_view(old(v)@)),
{
    let ghost orig = v@;
    let ghost cv = children_view(orig);
    let ghost n0 = orig.len();
    proof {
        lemma_children_view(orig);
    }
    let mut sorted: Vec<KeyPrefix> = Vec::new();
    while v.len() > 0
        invariant
            v@.len() <= n0,
            v@ =~= orig.subrange(n0 - v@.len(), n0 as int),
            children_view(sorted@) == sort_desc(
                cfg.sort_order,
                cv.subrange(0, n0 - v@.len()),
            ),
        decreases v@.len(),
    {
        let ghost i = n0 - v@.len();
        let x = v.remove(0);
        proof {
            assert(x == orig[i]);
            assert(v@ =~= orig.subrange(i + 1, n0 as int));
            assert(tree_view(x) == cv[i]);
        }
        insert_sorted(cfg, &mut sorted, x);
        proof {
            assert(cv.subrange(0, i + 1).drop_last() =~= cv.subrange(0, i));
            assert(cv.subrange(0, i + 1).last() == cv[i]);
        }
    }
    proof {
        assert(cv.subrange(0, n0 as int) =~= cv);
    }
    *v = sorted;
}

/// Backfilling applied to a sequence acts element by element.
pub proof fn lemma_backfill_children(cfg: Config, s: Seq<TreeView>)
    ensures
        backfill_children(cfg, s).len() == s.len(),
        forall|i: int|
            0 <= i < s.len() ==> backfill_children(cfg, s)[i] == spec_backfill(
                cfg,
                #[trigger] s[i],
            ),
    decreases s.len(),
{
    if s.len() > 0 {
        lemma_backfill_children(cfg, s.subrange(0, s.len() - 1));
        assert forall|i: int|
            0 <= i < s.len() implies backfill_children(cfg, s)[i] == spec_backfill(
            cfg,
            #[trigger] s[i],
        ) by {
            if i < s.len() - 1 {
                assert(s.subrange(0, s.len() - 1)[i] == s[i]);
            }
        }
    }
}

/// Whether the executable backfill pass can run on this tree (see
/// `backfill_ok`). The count and attribution passes establish this on
/// every keyspace whose prefixes nest cleanly; the check keeps the
/// analysis total on keyspaces where sibling prefixes overlap and a
/// node's children would claim more memory than the node itself.
#[verifier::loop_isolation(false)]
pub fn backfill_ok_check(cfg: &Config, prefix: &KeyPrefix) -> (r: bool)
    ensures
        r == backfill_ok(*cfg, tree_view(*prefix)),
    decreases *prefix,
{
    let ghost t0 = tree_view(*prefix);
    let reserved = has_reserved_child(prefix);
    let n = prefix.children.len();
    proof {
        lemma_children_view(prefix.children@);
    }

    let mut sum_cnt: u128 = 0;
    let mut sum_m: u128 = 0;
    let mut si: usize = 0;
    while si < n
        invariant
            si <= n,
            n == prefix.children@.len(),
            sum_cnt as int == sum_counts(t0.children.subrange(0, si as int)),
            sum_m as int == sum_mem(t0.children.subrange(0, si as int)),
            sum_cnt <= si * 0xffff_ffff_ffff_ffffu128,
            sum_m <= si * 0xffff_ffff_ffff_ffffu128,
        decreases n - si,
    {
        let c_cnt = prefix.children[si].keys_count;
        let c_mem = prefix.children[si].memory_usage;
        proof {
            assert(t0.children[si as int] == tree_view(prefix.children@[si as int]));
            assert(t0.children.subrange(0, si + 1).drop_last() =~= t0.children.subrange(
                0,
                si as int,
            ));
            assert(t0.children.subrange(0, si + 1).last() == t0.children[si as int]);
        }
        sum_cnt = sum_cnt + c_cnt as u128;
        sum_m = sum_m + c_mem as u128;
        si = si + 1;
    }
    proof {
        assert(t0.children.subrange(0, n as int) =~= t0.children);
    }

    let appends: bool = if n > 0 && !reserved {
        if sum_cnt <= prefix.keys_count as u128 {
            let rc128 = prefix.keys_count as u128 - sum_cnt;
            cfg.qualifies(rc128 as usize)
        } else {
            proof {
                assert(rem_count(t0) < 0);
                assert(rem_count(t0) * 10000 < 0);
                assert(cfg.min_count_bp * cfg.all_keys_count >= 0) by (nonlinear_arith);
            }
            false
        }
    } else {
        false
    };
    proof {
        assert(appends == appends_rem(*cfg, t0));
    }
    if appends {
        if sum_m > prefix.memory_usage as u128 || prefix.depth == usize::MAX {
            proof {
                assert(!backfill_ok(*cfg, t0));
            }
            return false;
        }
    }

    let mut i: usize = 0;
    while i < n
        invariant
            i <= n,
            n == prefix.children@.len(),
            forall|k: int| 0 <= k < i ==> backfill_ok(*cfg, #[trigger] t0.children[k]),
        decreases n - i,
    {
        proof {
            assert(t0.children[i as int] == tree_view(prefix.children@[i as int]));
            assert(decreases_to!(*prefix => prefix.children));
            assert(decreases_to!(prefix.children => prefix.children@));
            assert(decreases_to!(prefix.children@ => prefix.children@[i as int]));
        }
        if !backfill_ok_check(cfg, &prefix.children[i]) {
            proof {
                assert(!backfill_ok(*cfg, t0.children[i as int]));
            }
            return false;
        }
        i = i + 1;
    }
    true
}

/// Sort every node's children descending by the configured metric,
/// recursively; ties keep their previous order. A node that already
/// carries a remainder child keeps its order.
#[verifier::loop_isolation(false)]
pub fn reorder(cfg: &Config, prefix: &mut KeyPrefix)
    ensures
        tree_view(*final(prefix)) == spec_reorder(cfg.sort_order, tree_view(*old(prefix))),
    decreases *old(prefix),
{
    let ghost t0 = tree_view(*prefix);
    let reserved = has_reserved_child(prefix);
    let n = prefix.children.len();
    let mut i: usize = 0;
    while i < n
        invariant
            i <= n,
            n == prefix.children@.len(),
            prefix.value == old(prefix).value,
            prefix.depth == old(prefix).depth,
            prefix.keys_count == old(prefix).keys_count,
            prefix.memory_usage == old(prefix).memory_usage,
            forall|k: int|
                0 <= k < i ==> tree_view(#[trigger] prefix.children@[k]) == spec_reorder(
                    cfg.sort_order,
                    tree_view(old(prefix).children@[k]),
                ),
            forall|k: int|
                i <= k < n ==> #[trigger] prefix.children@[k] == old(prefix).children@[k],
        decreases n - i,
    {
        let ghost before = prefix.children@;
        let mut child = prefix.children.remove(i);
        proof {
            assert(child == old(prefix).children@[i as int]);
            assert(decreases_to!(*old(prefix) => old(prefix).children));
            assert(decreases_to!(old(prefix).children => old(prefix).children@));
            assert(decreases_to!(old(prefix).children@ => old(prefix).children@[i as int]));
        }
        reorder(cfg, &mut child);
        prefix.children.insert(i, child);
        proof {
            assert(prefix.children@ =~= before.update(i as int, child));
            assert forall|k: int|
                0 <= k < i + 1 implies tree_view(#[trigger] prefix.children@[k]) == spec_reorder(
                cfg.sort_order,
                tree_view(old(prefix).children@[k]),
            ) by {
                if k < i {
                    assert(prefix.children@[k] == before[k]);
                }
            }
            assert forall|k: int|
                i + 1 <= k < n implies #[trigger] prefix.children@[k] == old(
                prefix,
            ).children@[k] by {
                assert(prefix.children@[k] == before[k]);
            }
        }
        i = i + 1;
    }
    proof {
        lemma_children_view(prefix.children@);
        lemma_children_view(old(prefix).children@);
        lemma_reorder_children(cfg.sort_order, t0.children);
        assert forall|k: int| 0 <= k < n implies children_view(prefix.children@)[k]
            == reorder_children(cfg.sort_order, t0.children)[k] by {
            assert(children_view(prefix.children@)[k] == tree_view(prefix.children@[k]));
            assert(children_view(old(prefix).children@)[k] == tree_view(
                old(prefix).children@[k],
            ));
        }
        assert(children_view(prefix.children@) =~= reorder_children(
            cfg.sort_order,
            t0.children,
        ));
    }
    if !reserved {
        sort_children(cfg, &mut prefix.children);
    }
    proof {
        assert(tree_view(*prefix) =~= spec_reorder(cfg.sort_order, t0));
    }
}

/// For every node with at least one reported child, append a synthetic
/// remainder child for the keys and memory no reported child captured,
/// when that remainder exceeds the configured minimum frequency. A node
/// that already carries a remainder child is not reprocessed.
#[verifier::loop_isolation(false)]
pub fn backfill_other_keys(cfg: &Config, prefix: &mut KeyPrefix)
    requires
        backfill_ok(*cfg, tree_view(*old(prefix))),
    ensures
        tree_view(*final(prefix)) == spec_backfill(*cfg, tree_view(*old(prefix))),
    decreases *old(prefix),
{
    let ghost t0 = tree_view(*prefix);
    let reserved = has_reserved_child(prefix);
    let n = prefix.children.len();
    proof {
        lemma_children_view(prefix.children@);
    }

    let mut sum_cnt: u128 = 0;
    let mut sum_m: u128 = 0;
    let mut si: usize = 0;
    while si < n
        invariant
            si <= n,
            n == prefix.children@.len(),
            *prefix == *old(prefix),
            sum_cnt as int == sum_counts(t0.children.subrange(0, si as int)),
            sum_m as int == sum_mem(t0.children.subrange(0, si as int)),
            sum_cnt <= si * 0xffff_ffff_ffff_ffffu128,
            sum_m <= si * 0xffff_ffff_ffff_ffffu128,
        decreases n - si,
    {
        let c_cnt = prefix.children[si].keys_count;
        let c_mem = prefix.children[si].memory_usage;
        proof {
            assert(t0.children[si as int] == tree_view(prefix.children@[si as int]));
            assert(t0.children.subrange(0, si + 1).drop_last() =~= t0.children.subrange(
                0,
                si as int,
            ));
            assert(t0.children.subrange(0, si + 1).last() == t0.children[si as int]);
        }
        sum_cnt = sum_cnt + c_cnt as u128;
        sum_m = sum_m + c_mem as u128;
        si = si + 1;
    }
    proof {
        assert(t0.children.subrange(0, n as int) =~= t0.children);
    }

    let do_append: bool = if n > 0 && !reserved {
        if sum_cnt <= prefix.keys_count as u128 {
            let rc128 = prefix.keys_count as u128 - sum_cnt;
            cfg.qualifies(rc128 as usize)
        } else {
            proof {
                assert(rem_count(t0) < 0);
                assert(rem_count(t0) * 10000 < 0);
                assert(cfg.min_count_bp * cfg.all_keys_count >= 0) by (nonlinear_arith);
            }
            false
        }
    } else {
        false
    };
    proof {
        assert(do_append == appends_rem(*cfg, t0));
    }

    let mut i: usize = 0;
    while i < n
        invariant
            i <= n,
            n == prefix.children@.len(),
            prefix.value == old(prefix).value,
            prefix.depth == old(prefix).depth,
            prefix.keys_count == old(prefix).keys_count,
            prefix.memory_usage == old(prefix).memory_usage,
            forall|k: int|
                0 <= k < i ==> tree_view(#[trigger] prefix.children@[k]) == spec_backfill(
                    *cfg,
                    tree_view(old(prefix).children@[k]),
                ),
            forall|k: int|
                i <= k < n ==> #[trigger] prefix.children@[k] == old(prefix).children@[k],
        decreases n - i,
    {
        let ghost before = prefix.children@;
        let mut child = prefix.children.remove(i);
        proof {
            assert(child == old(prefix).children@[i as int]);
            assert(decreases_to!(*old(prefix) => old(prefix).children));
            assert(decreases_to!(old(prefix).children => old(prefix).children@));
            assert(decreases_to!(old(prefix).children@ => old(prefix).children@[i as int]));
            assert(tree_view(child) == t0.children[i as int]);
            assert(backfill_ok(*cfg, tree_view(child)));
        }
        backfill_other_keys(cfg, &mut child);
        prefix.children.insert(i, child);
        proof {
            assert(prefix.children@ =~= before.update(i as int, child));
            assert forall|k: int|
                0 <= k < i + 1 implies tree_view(#[trigger] prefix.children@[k]) == spec_backfill(
                *cfg,
                tree_view(old(prefix).children@[k]),
            ) by {
                if k < i {
                    assert(prefix.children@[k] == before[k]);
                }
            }
            assert forall|k: int|
                i + 1 <= k < n implies #[trigger] prefix.children@[k] == old(
                prefix,
            ).children@[k] by {
                assert(prefix.children@[k] == before[k]);
            }
        }
        i = i + 1;
    }
    proof {
        lemma_children_view(prefix.children@);
        lemma_children_view(old(prefix).children@);
        lemma_backfill_children(*cfg, t0.children);
        assert forall|k: int| 0 <= k < n implies children_view(prefix.children@)[k]
            == backfill_children(*cfg, t0.children)[k] by {
            assert(children_view(prefix.children@)[k] == tree_view(prefix.children@[k]));
            assert(children_view(old(prefix).children@)[k] == tree_view(
                old(prefix).children@[k],
            ));
        }
        assert(children_view(prefix.children@) =~= backfill_children(*cfg, t0.children));
    }

    if do_append {
        proof {
            assert(rem_mem(t0) >= 0 && t0.depth < usize::MAX);
            assert(rem_count(t0) > 0) by {
                assert(cfg.spec_qualifies(rem_count(t0)));
                assert(cfg.min_count_bp * cfg.all_keys_count >= 0) by (nonlinear_arith);
            }
        }
        let rc = prefix.keys_count - (sum_cnt as usize);
        let rm = prefix.memory_usage - (sum_m as usize);
        let other = KeyPrefix::new("[other]", prefix.depth + 1, rc, rm);
        let ghost pre_children = prefix.children@;
        prefix.children.push(other);
        proof {
            assert(prefix.children@.drop_last() =~= pre_children);
            assert(tree_view(other) =~= rem_node(t0));
            lemma_children_view(prefix.children@);
            assert forall|k: int| 0 <= k < n implies children_view(prefix.children@)[k]
                == backfill_children(*cfg, t0.children)[k] by {
                assert(prefix.children@[k] == pre_children[k]);
                assert(children_view(prefix.children@)[k] == tree_view(prefix.children@[k]));
                assert(children_view(pre_children)[k] == tree_view(pre_children[k]));
            }
            assert(children_view(prefix.children@) =~= backfill_children(
                *cfg,
                t0.children,
            ).push(rem_node(t0)));
            assert(tree_view(*prefix) =~= spec_backfill(*cfg, t0));
        }
    } else {
        proof {
            assert(tree_view(*prefix) =~= spec_backfill(*cfg, t0));
        }
    }
}

} // verus!
