//! The analysis passes: counting keys per derived prefix and building
//! the tree, then attributing per-key memory cost down matching paths.

use vstd::prelude::*;

use crate::attribution::analyze_memory_usage;
use crate::attribution::attribute_all;
use crate::attribution::lemma_sum_costs_nonneg;
use crate::attribution::mem_le;
use crate::attribution::sum_costs;
use crate::config::Config;
use crate::frequency::FrequencyCounter;
use crate::frequency::lemma_count_at_index;
use crate::frequency::lemma_lookup_index_exists;
use crate::normalizer::backfill_ok;
use crate::normalizer::backfill_ok_check;
use crate::normalizer::backfill_other_keys;
use crate::normalizer::reorder;
use crate::normalizer::spec_backfill;
use crate::normalizer::spec_reorder;
use crate::key_prefix::KeyPrefix;
use crate::key_prefix::TreeView;
use crate::key_prefix::children_view;
use crate::key_prefix::lemma_children_view;
use crate::key_prefix::tree_view;
use crate::prefix_rule::derive_prefix;
use crate::prefix_rule::lemma_derived_compose;
use crate::prefix_rule::derived;

verus! {

/// Whether `key` belongs to the node with prefix `value` at `node_depth`:
/// the root sees every key; a deeper node sees the keys whose derived
/// prefix one level up is the node's own prefix.
pub open spec fn in_scope(
    key: Seq<char>,
    seps: Seq<char>,
    value: Seq<char>,
    node_depth: int,
) -> bool {
    node_depth == 0 || derived(key, seps, node_depth - 1) == value
}

/// Whether `key` is counted for the candidate child prefix `v` of the
/// node with prefix `value` at `node_depth`.
pub open spec fn hit(
    key: Seq<char>,
    seps: Seq<char>,
    value: Seq<char>,
    node_depth: int,
    v: Seq<char>,
) -> bool {
    in_scope(key, seps, value, node_depth) && derived(key, seps, node_depth) == v
}

/// Number of keys counted for the candidate child prefix `v` of the node
/// with prefix `value` at `node_depth`.
pub open spec fn scoped_count(
    keys: Seq<Seq<char>>,
    seps: Seq<char>,
    value: Seq<char>,
    node_depth: int,
    v: Seq<char>,
) -> int
    decreases keys.len(),
{
    if keys.len() == 0 {
        0
    } else {
        scoped_count(keys.drop_last(), seps, value, node_depth, v) + (if hit(
            keys.last(),
            seps,
            value,
            node_depth,
            v,
        ) {
            1int
        } else {
            0int
        })
    }
}

/// A scoped count never drops below zero nor exceeds the number of keys.
pub proof fn lemma_scoped_count_bounds(
    keys: Seq<Seq<char>>,
    seps: Seq<char>,
    value: Seq<char>,
    node_depth: int,
    v: Seq<char>,
)
    ensures
        0 <= scoped_count(keys, seps, value, node_depth, v) <= keys.len(),
    decreases keys.len(),
{
    if keys.len() > 0 {
        lemma_scoped_count_bounds(keys.drop_last(), seps, value, node_depth, v);
    }
}

/// What the count pass guarantees of one child `c` of a node with prefix
/// `value` at `depth`: the child sits one level down, is not yet
/// attributed any memory, carries the scoped count of its own prefix,
/// exceeds the configured minimum frequency, only exists above the
/// configured maximum depth, and is itself fully counted.
pub open spec fn counted_child(
    cfg: Config,
    keys: Seq<Seq<char>>,
    value: Seq<char>,
    depth: int,
    c: TreeView,
) -> bool {
    &&& c.depth == depth + 1
    &&& c.memory_usage == 0
    &&& c.keys_count == scoped_count(keys, cfg.separators@, value, depth, c.value)
    &&& cfg.spec_qualifies(c.keys_count)
    &&& depth < cfg.depth
    &&& counted(cfg, keys, c)
}

/// The tree below `t` is exactly what the count pass builds from `keys`:
/// every child stands for a derived prefix whose scoped count exceeds the
/// configured minimum frequency, carries that count, and no qualifying
/// derived prefix is missing.
pub open spec fn counted(cfg: Config, keys: Seq<Seq<char>>, t: TreeView) -> bool
    decreases t,
{
    let seps = cfg.separators@;
    &&& forall|i: int|
        0 <= i < t.children.len() ==> {
            let c = #[trigger] t.children[i];
            &&& c.depth == t.depth + 1
            &&& c.memory_usage == 0
            &&& c.keys_count == scoped_count(keys, seps, t.value, t.depth, c.value)
            &&& cfg.spec_qualifies(c.keys_count)
            &&& t.depth < cfg.depth
            &&& counted(cfg, keys, c)
        }
    &&& forall|i: int, j: int|
        0 <= i < j < t.children.len() ==> (#[trigger] t.children[i]).value != (
        #[trigger] t.children[j]).value
    &&& (t.depth < cfg.depth ==> forall|ki: int|
        0 <= ki < keys.len() && in_scope(#[trigger] keys[ki], seps, t.value, t.depth)
            && cfg.spec_qualifies(
            scoped_count(keys, seps, t.value, t.depth, derived(keys[ki], seps, t.depth)),
        ) ==> exists|j: int|
            0 <= j < t.children.len() && (#[trigger] t.children[j]).value == derived(
                keys[ki],
                seps,
                t.depth,
            ))
}

/// Scan the keys in the node's scope, group them by derived prefix, and
/// populate the node's children with every prefix that exceeds the
/// configured minimum frequency, recursively down to the configured
/// maximum depth.
#[verifier::loop_isolation(false)]
pub fn analyze_count(cfg: &Config, keys: &Vec<String>, node: &mut KeyPrefix)
    requires
        old(node).children@.len() == 0,
        old(node).depth <= cfg.depth,
    ensures
        final(node).value == old(node).value,
        final(node).depth == old(node).depth,
        final(node).keys_count == old(node).keys_count,
        final(node).memory_usage == old(node).memory_usage,
        counted(*cfg, keys.deep_view(), tree_view(*final(node))),
    decreases cfg.depth - old(node).depth,
{
    let ghost kview = keys.deep_view();
    let ghost seps = cfg.separators@;
    let ghost val = node.value@;
    let ghost d = node.depth as int;

    let mut counter = FrequencyCounter::new();
    let n_keys = keys.len();
    let mut ki: usize = 0;
    while ki < n_keys
        invariant
            ki <= n_keys,
            counter.wf(),
            forall|v: Seq<char>|
                counter.spec_count(v) == scoped_count(
                    kview.subrange(0, ki as int),
                    seps,
                    val,
                    d,
                    v,
                ),
        decreases n_keys - ki,
    {
        let key = &keys[ki];
        proof {
            assert(kview[ki as int] == key@);
        }
        let scoped = if node.depth == 0 {
            true
        } else {
            let up = derive_prefix(key.as_str(), cfg.separators.as_str(), node.depth - 1);
            up == node.value
        };
        if scoped {
            let p = derive_prefix(key.as_str(), cfg.separators.as_str(), node.depth);
            proof {
                lemma_scoped_count_bounds(kview.subrange(0, ki as int), seps, val, d, p@);
            }
            counter.increment(p);
        }
        proof {
            assert(kview.subrange(0, ki + 1int).drop_last() =~= kview.subrange(0, ki as int));
            assert(kview.subrange(0, ki + 1int).last() == kview[ki as int]);
            assert forall|v: Seq<char>|
                counter.spec_count(v) == scoped_count(
                    kview.subrange(0, ki + 1int),
                    seps,
                    val,
                    d,
                    v,
                ) by {
                if !scoped {
                    assert(!in_scope(kview[ki as int], seps, val, d));
                }
            }
        }
        ki = ki + 1;
    }
    proof {
        assert(kview.subrange(0, kview.len() as int) =~= kview);
        assert(forall|v: Seq<char>|
            counter.spec_count(v) == scoped_count(kview, seps, val, d, v));
    }

    let n_entries = counter.len();
    let mut ei: usize = 0;
    let ghost mut idxs: Seq<int> = Seq::empty();
    while ei < n_entries
        invariant
            ei <= n_entries,
            node.value == old(node).value,
            node.depth == old(node).depth,
            node.keys_count == old(node).keys_count,
            node.memory_usage == old(node).memory_usage,
            idxs.len() == node.children@.len(),
            forall|k: int| 0 <= k < idxs.len() ==> 0 <= #[trigger] idxs[k] < ei,
            forall|k1: int, k2: int| 0 <= k1 < k2 < idxs.len() ==> idxs[k1] < idxs[k2],
            forall|k: int|
                0 <= k < node.children@.len() ==> (#[trigger] node.children@[k]).value@
                    == counter.keys@[idxs[k]]@,
            forall|k: int|
                0 <= k < node.children@.len() ==> counted_child(
                    *cfg,
                    kview,
                    val,
                    d,
                    tree_view(#[trigger] node.children@[k]),
                ),
            forall|e: int|
                0 <= e < ei && d < cfg.depth && cfg.spec_qualifies(counter.counts@[e] as int)
                    ==> exists|k: int|
                    0 <= k < node.children@.len() && (#[trigger] node.children@[k]).value@
                        == counter.keys@[e]@,
        decreases n_entries - ei,
    {
        let c = counter.count_at(ei);
        if node.depth < cfg.depth && cfg.qualifies(c) {
            proof {
                lemma_count_at_index(counter, ei as int);
            }
            let pv = counter.key_at(ei);
            let mut child = KeyPrefix::new(pv.as_str(), node.depth + 1, c, 0);
            analyze_count(cfg, keys, &mut child);
            let ghost pre_children = node.children@;
            node.children.push(child);
            proof {
                idxs = idxs.push(ei as int);
                let last = node.children@.len() - 1;
                assert(node.children@.drop_last() =~= pre_children);
                assert forall|k: int| 0 <= k < node.children@.len() implies #[trigger] node
                    .children@[k] == (if k < last {
                    pre_children[k]
                } else {
                    child
                }) by {
                    if k < last {
                        assert(node.children@.drop_last()[k] == node.children@[k]);
                    }
                }
                assert(tree_view(child).value == child.value@);
                assert(tree_view(child).depth == d + 1);
                assert(tree_view(child).memory_usage == 0);
                assert(child.value@ == counter.keys@[ei as int]@);
                assert(tree_view(child).keys_count == scoped_count(
                    kview,
                    seps,
                    val,
                    d,
                    tree_view(child).value,
                ));
                assert(counted_child(*cfg, kview, val, d, tree_view(child)));
                assert forall|k: int|
                    0 <= k < node.children@.len() implies counted_child(
                        *cfg,
                        kview,
                        val,
                        d,
                        tree_view(#[trigger] node.children@[k]),
                    ) by {
                    if k < last {
                        assert(node.children@[k] == pre_children[k]);
                    } else {
                        assert(node.children@[k] == child);
                    }
                }
                assert forall|e: int|
                    0 <= e < ei + 1 && d < cfg.depth && cfg.spec_qualifies(
                        counter.counts@[e] as int,
                    ) implies exists|k: int|
                    0 <= k < node.children@.len() && (#[trigger] node.children@[k]).value@
                        == counter.keys@[e]@ by {
                    if e == ei {
                        assert(node.children@[last].value@ == counter.keys@[e]@);
                    } else {
                        let k0 = choose|k: int|
                            0 <= k < pre_children.len() && (#[trigger] pre_children[k]).value@
                                == counter.keys@[e]@;
                        assert(node.children@[k0].value@ == counter.keys@[e]@);
                    }
                }
            }
        } else {
            proof {
                assert(!(node.depth < cfg.depth) || !cfg.spec_qualifies(
                    counter.counts@[ei as int] as int,
                ));
            }
        }
        ei = ei + 1;
    }
    proof {
        assert forall|k1: int, k2: int|
            0 <= k1 < k2 < node.children@.len() implies (#[trigger] node.children@[k1]).value@
                != (#[trigger] node.children@[k2]).value@ by {
            assert(counter.keys@[idxs[k1]]@ != counter.keys@[idxs[k2]]@);
        }
    }

    proof {
        let t = tree_view(*node);
        lemma_children_view(node.children@);
        assert(t.children.len() == node.children@.len());
        assert forall|i: int| 0 <= i < t.children.len() implies (#[trigger] t.children[i])
            == tree_view(node.children@[i]) by {
            assert(children_view(node.children@)[i] == tree_view(node.children@[i]));
        }
        assert(t.value == val && t.depth == d);
        if d < cfg.depth {
            assert forall|ki2: int|
                0 <= ki2 < kview.len() && in_scope(#[trigger] kview[ki2], seps, val, d)
                    && cfg.spec_qualifies(
                    scoped_count(kview, seps, val, d, derived(kview[ki2], seps, d)),
                ) implies exists|j: int|
                0 <= j < t.children.len() && (#[trigger] t.children[j]).value == derived(
                    kview[ki2],
                    seps,
                    d,
                ) by {
                let dv = derived(kview[ki2], seps, d);
                let sc = scoped_count(kview, seps, val, d, dv);
                assert(counter.spec_count(dv) == sc);
                assert(cfg.min_count_bp * cfg.all_keys_count >= 0) by (nonlinear_arith);
                assert(sc > 0);
                lemma_lookup_index_exists(counter.keys@, counter.counts@, dv);
                let e = choose|e: int|
                    0 <= e < counter.keys@.len() && (#[trigger] counter.keys@[e])@ == dv
                        && counter.counts@[e] as int == counter.spec_count(dv);
                let k = choose|k: int|
                    0 <= k < node.children@.len() && (#[trigger] node.children@[k]).value@
                        == counter.keys@[e]@;
                assert(t.children[k] == tree_view(node.children@[k]));
                assert(t.children[k].value == dv);
            }
        }
    }
}


/// Every tree the count pass builds is well formed: each child sits one
/// separator-delimited segment below its parent, throughout.
pub proof fn lemma_counted_wf(cfg: Config, keys: Seq<Seq<char>>, t: TreeView)
    requires
        counted(cfg, keys, t),
    ensures
        t.wf(),
    decreases t,
{
    assert forall|i: int|
        0 <= i < t.children.len() implies (#[trigger] t.children[i]).depth == t.depth + 1
            && t.children[i].wf() by {
        lemma_counted_wf(cfg, keys, t.children[i]);
    }
}

/// Counting is independent of how the observed keys are split across
/// shards: the count over the combined observations is the sum of the
/// counts over the parts, for every scope and candidate prefix.
pub proof fn lemma_scoped_count_split(
    keys1: Seq<Seq<char>>,
    keys2: Seq<Seq<char>>,
    seps: Seq<char>,
    value: Seq<char>,
    node_depth: int,
    v: Seq<char>,
)
    ensures
        scoped_count(keys1 + keys2, seps, value, node_depth, v) == scoped_count(
            keys1,
            seps,
            value,
            node_depth,
            v,
        ) + scoped_count(keys2, seps, value, node_depth, v),
    decreases keys2.len(),
{
    if keys2.len() == 0 {
        assert(keys1 + keys2 =~= keys1);
    } else {
        assert((keys1 + keys2).drop_last() =~= keys1 + keys2.drop_last());
        assert((keys1 + keys2).last() == keys2.last());
        lemma_scoped_count_split(keys1, keys2.drop_last(), seps, value, node_depth, v);
    }
}

/// Merging the shards' observations in either order counts the same:
/// counts only add, so the merge point needs no ordering.
pub proof fn lemma_scoped_count_commutes(
    keys1: Seq<Seq<char>>,
    keys2: Seq<Seq<char>>,
    seps: Seq<char>,
    value: Seq<char>,
    node_depth: int,
    v: Seq<char>,
)
    ensures
        scoped_count(keys1 + keys2, seps, value, node_depth, v) == scoped_count(
            keys2 + keys1,
            seps,
            value,
            node_depth,
            v,
        ),
{
    lemma_scoped_count_split(keys1, keys2, seps, value, node_depth, v);
    lemma_scoped_count_split(keys2, keys1, seps, value, node_depth, v);
}

/// A positive scoped count points at an observed key that was counted.
pub proof fn lemma_scoped_count_witness(
    keys: Seq<Seq<char>>,
    seps: Seq<char>,
    value: Seq<char>,
    node_depth: int,
    v: Seq<char>,
)
    requires
        scoped_count(keys, seps, value, node_depth, v) > 0,
    ensures
        exists|ki: int|
            0 <= ki < keys.len() && hit(#[trigger] keys[ki], seps, value, node_depth, v),
    decreases keys.len(),
{
    if keys.len() > 0 {
        if hit(keys.last(), seps, value, node_depth, v) {
            assert(hit(keys[keys.len() - 1], seps, value, node_depth, v));
        } else {
            lemma_scoped_count_witness(keys.drop_last(), seps, value, node_depth, v);
            let ki = choose|ki: int|
                0 <= ki < keys.drop_last().len() && hit(
                    #[trigger] keys.drop_last()[ki],
                    seps,
                    value,
                    node_depth,
                    v,
                );
            assert(keys.drop_last()[ki] == keys[ki]);
        }
    }
}

/// The keyspace's derived prefixes nest cleanly: at any one depth up to
/// the maximum examined, no key's derived prefix properly extends
/// another key's. Sibling prefixes of the counted tree are then free of
/// one another, which keeps memory attribution path-exclusive.
pub open spec fn pf_keys(keys: Seq<Seq<char>>, seps: Seq<char>, max_depth: int) -> bool {
    forall|d: int, ki: int, kj: int|
        #![trigger derived(keys[ki], seps, d), derived(keys[kj], seps, d)]
        0 <= d <= max_depth && 0 <= ki < keys.len() && 0 <= kj < keys.len() ==> (derived(
            keys[ki],
            seps,
            d,
        ) == derived(keys[kj], seps, d) || !crate::attribution::starts_with(
            derived(keys[kj], seps, d),
            derived(keys[ki], seps, d),
        ))
}

/// On a keyspace whose derived prefixes nest cleanly, the count pass
/// builds a tree whose sibling prefixes are free of one another.
pub proof fn lemma_counted_pf(cfg: Config, keys: Seq<Seq<char>>, t: TreeView)
    requires
        counted(cfg, keys, t),
        t.depth >= 0,
        pf_keys(keys, cfg.separators@, cfg.depth as int),
    ensures
        crate::attribution::prefix_free_siblings(t),
    decreases t,
{
    let seps = cfg.separators@;
    assert forall|i: int, j: int|
        0 <= i < t.children.len() && 0 <= j < t.children.len() && i
            != j implies !crate::attribution::starts_with(
        (#[trigger] t.children[j]).value,
        (#[trigger] t.children[i]).value,
    ) by {
        assert(cfg.min_count_bp * cfg.all_keys_count >= 0) by (nonlinear_arith);
        assert(t.children[i].keys_count > 0);
        assert(t.children[j].keys_count > 0);
        lemma_scoped_count_witness(keys, seps, t.value, t.depth, t.children[i].value);
        lemma_scoped_count_witness(keys, seps, t.value, t.depth, t.children[j].value);
        let ki = choose|ki: int|
            0 <= ki < keys.len() && hit(#[trigger] keys[ki], seps, t.value, t.depth, t.children[i].value);
        let kj = choose|kj: int|
            0 <= kj < keys.len() && hit(#[trigger] keys[kj], seps, t.value, t.depth, t.children[j].value);
        assert(t.children[i].value == derived(keys[ki], seps, t.depth));
        assert(t.children[j].value == derived(keys[kj], seps, t.depth));
        if i < j {
            assert((#[trigger] t.children[i]).value != (#[trigger] t.children[j]).value);
        } else {
            assert((#[trigger] t.children[j]).value != (#[trigger] t.children[i]).value);
        }
        assert(t.depth < cfg.depth);
    }
    assert forall|i: int|
        0 <= i < t.children.len() implies crate::attribution::prefix_free_siblings(
        #[trigger] t.children[i],
    ) by {
        assert(t.children[i].depth == t.depth + 1);
        lemma_counted_pf(cfg, keys, t.children[i]);
    }
}

/// The count pass never puts children on a node at the last
/// representable depth, so there is room for a remainder child
/// everywhere.
pub proof fn lemma_counted_depth_room(cfg: Config, keys: Seq<Seq<char>>, t: TreeView)
    requires
        counted(cfg, keys, t),
    ensures
        crate::normalizer::depth_room(t),
    decreases t,
{
    if t.children.len() > 0 {
        assert(t.children[0].depth == t.depth + 1);
        assert(t.depth < cfg.depth);
    }
    assert forall|i: int| 0 <= i < t.children.len() implies crate::normalizer::depth_room(
        #[trigger] t.children[i],
    ) by {
        lemma_counted_depth_room(cfg, keys, t.children[i]);
    }
}

/// A counted tree with no memory at its root keeps every node's
/// children's memory within the node's own, trivially: it is all zero.
pub proof fn lemma_counted_mem_sums(cfg: Config, keys: Seq<Seq<char>>, t: TreeView)
    requires
        counted(cfg, keys, t),
        t.memory_usage == 0,
    ensures
        crate::attribution::mem_sums_ok(t),
    decreases t,
{
    lemma_sum_mem_zero(t.children);
    assert forall|i: int| 0 <= i < t.children.len() implies crate::attribution::mem_sums_ok(
        #[trigger] t.children[i],
    ) by {
        lemma_counted_mem_sums(cfg, keys, t.children[i]);
    }
}

/// A row of nodes without memory sums to none.
proof fn lemma_sum_mem_zero(s: Seq<TreeView>)
    requires
        forall|i: int| 0 <= i < s.len() ==> (#[trigger] s[i]).memory_usage == 0,
    ensures
        crate::normalizer::sum_mem(s) == 0,
    decreases s.len(),
{
    if s.len() > 0 {
        assert forall|i: int|
            0 <= i < s.drop_last().len() implies (#[trigger] s.drop_last()[i]).memory_usage
                == 0 by {
            assert(s.drop_last()[i] == s[i]);
        }
        lemma_sum_mem_zero(s.drop_last());
    }
}

/// On a keyspace whose derived prefixes nest cleanly, the whole
/// pipeline reaches the backfill pass with its demands met: the sorted,
/// attributed tree keeps every node's children's memory within the
/// node's own, so `run` always takes the normalizing branch there.
pub proof fn lemma_pipeline_backfill_ok(
    cfg: Config,
    keys: Seq<Seq<char>>,
    costs: Seq<usize>,
    t0: TreeView,
)
    requires
        counted(cfg, keys, t0),
        t0.depth >= 0,
        t0.memory_usage == 0,
        pf_keys(keys, cfg.separators@, cfg.depth as int),
    ensures
        backfill_ok(cfg, spec_reorder(cfg.sort_order, attribute_all(t0, keys, costs))),
{
    lemma_counted_pf(cfg, keys, t0);
    lemma_counted_mem_sums(cfg, keys, t0);
    lemma_counted_depth_room(cfg, keys, t0);
    crate::attribution::lemma_attribute_all_mem_sums(t0, keys, costs);
    crate::attribution::lemma_attribute_all_depth_room(t0, keys, costs);
    let attributed = attribute_all(t0, keys, costs);
    crate::normalizer::lemma_reorder_mem_sums(cfg.sort_order, attributed);
    crate::normalizer::lemma_reorder_depth_room(cfg.sort_order, attributed);
    crate::normalizer::lemma_backfill_ok_from(cfg, spec_reorder(cfg.sort_order, attributed));
}

/// Number of keys in the scope of the node with prefix `value` at
/// `node_depth`.
pub open spec fn count_in_scope(
    keys: Seq<Seq<char>>,
    seps: Seq<char>,
    value: Seq<char>,
    node_depth: int,
) -> int
    decreases keys.len(),
{
    if keys.len() == 0 {
        0
    } else {
        count_in_scope(keys.drop_last(), seps, value, node_depth) + (if in_scope(
            keys.last(),
            seps,
            value,
            node_depth,
        ) {
            1int
        } else {
            0int
        })
    }
}

/// The root's scope is the whole observation.
pub proof fn lemma_count_in_scope_root(keys: Seq<Seq<char>>, seps: Seq<char>, value: Seq<char>)
    ensures
        count_in_scope(keys, seps, value, 0) == keys.len(),
    decreases keys.len(),
{
    if keys.len() > 0 {
        lemma_count_in_scope_root(keys.drop_last(), seps, value);
    }
}

/// Combined scoped counts of a row of candidate children.
pub open spec fn sum_scoped(
    kids: Seq<TreeView>,
    keys: Seq<Seq<char>>,
    seps: Seq<char>,
    value: Seq<char>,
    node_depth: int,
) -> int
    decreases kids.len(),
{
    if kids.len() == 0 {
        0
    } else {
        sum_scoped(kids.drop_last(), keys, seps, value, node_depth) + scoped_count(
            keys,
            seps,
            value,
            node_depth,
            kids.last().value,
        )
    }
}

/// How many of the candidate children one key is counted for.
spec fn hits_in(
    kids: Seq<TreeView>,
    key: Seq<char>,
    seps: Seq<char>,
    value: Seq<char>,
    node_depth: int,
) -> int
    decreases kids.len(),
{
    if kids.len() == 0 {
        0
    } else {
        hits_in(kids.drop_last(), key, seps, value, node_depth) + (if hit(
            key,
            seps,
            value,
            node_depth,
            kids.last().value,
        ) {
            1int
        } else {
            0int
        })
    }
}

/// No key is counted at all when the observation is empty.
proof fn lemma_sum_scoped_empty(
    kids: Seq<TreeView>,
    keys: Seq<Seq<char>>,
    seps: Seq<char>,
    value: Seq<char>,
    node_depth: int,
)
    requires
        keys.len() == 0,
    ensures
        sum_scoped(kids, keys, seps, value, node_depth) == 0,
    decreases kids.len(),
{
    if kids.len() > 0 {
        lemma_sum_scoped_empty(kids.drop_last(), keys, seps, value, node_depth);
    }
}

/// Processing one more key adds its hits to the combined counts.
proof fn lemma_sum_scoped_step(
    kids: Seq<TreeView>,
    keys: Seq<Seq<char>>,
    seps: Seq<char>,
    value: Seq<char>,
    node_depth: int,
)
    requires
        keys.len() > 0,
    ensures
        sum_scoped(kids, keys, seps, value, node_depth) == sum_scoped(
            kids,
            keys.drop_last(),
            seps,
            value,
            node_depth,
        ) + hits_in(kids, keys.last(), seps, value, node_depth),
    decreases kids.len(),
{
    if kids.len() > 0 {
        lemma_sum_scoped_step(kids.drop_last(), keys, seps, value, node_depth);
    }
}

/// A key whose derived prefix is none of the candidate values scores no
/// hit among them.
proof fn lemma_hits_in_none(
    kids: Seq<TreeView>,
    key: Seq<char>,
    seps: Seq<char>,
    value: Seq<char>,
    node_depth: int,
)
    requires
        forall|i: int|
            0 <= i < kids.len() ==> (#[trigger] kids[i]).value != derived(key, seps, node_depth),
    ensures
        hits_in(kids, key, seps, value, node_depth) == 0,
    decreases kids.len(),
{
    if kids.len() > 0 {
        assert forall|i: int|
            0 <= i < kids.drop_last().len() implies (#[trigger] kids.drop_last()[i]).value
                != derived(key, seps, node_depth) by {
            assert(kids.drop_last()[i] == kids[i]);
        }
        lemma_hits_in_none(kids.drop_last(), key, seps, value, node_depth);
        assert(kids[kids.len() - 1].value != derived(key, seps, node_depth));
    }
}

/// One key is counted for at most one of a row of distinct candidate
/// values, and for none when it is out of scope.
proof fn lemma_hits_in_bound(
    kids: Seq<TreeView>,
    key: Seq<char>,
    seps: Seq<char>,
    value: Seq<char>,
    node_depth: int,
)
    requires
        forall|i: int, j: int|
            0 <= i < j < kids.len() ==> (#[trigger] kids[i]).value != (#[trigger] kids[j]).value,
    ensures
        0 <= hits_in(kids, key, seps, value, node_depth) <= (if in_scope(
            key,
            seps,
            value,
            node_depth,
        ) {
            1int
        } else {
            0int
        }),
    decreases kids.len(),
{
    if kids.len() > 0 {
        let kd = kids.drop_last();
        assert forall|i: int, j: int|
            0 <= i < j < kd.len() implies (#[trigger] kd[i]).value != (#[trigger] kd[j]).value by {
            assert(kd[i] == kids[i] && kd[j] == kids[j]);
        }
        lemma_hits_in_bound(kd, key, seps, value, node_depth);
        if hit(key, seps, value, node_depth, kids.last().value) {
            assert(kids.last().value == derived(key, seps, node_depth));
            assert forall|i: int|
                0 <= i < kd.len() implies (#[trigger] kd[i]).value != derived(
                key,
                seps,
                node_depth,
            ) by {
                assert(kd[i] == kids[i]);
                assert(kids[i].value != kids[kids.len() - 1].value);
            }
            lemma_hits_in_none(kd, key, seps, value, node_depth);
        }
    }
}

/// Distinct candidate children split the node's scope: their combined
/// counts never exceed the number of keys in scope.
proof fn lemma_sum_scoped_le(
    kids: Seq<TreeView>,
    keys: Seq<Seq<char>>,
    seps: Seq<char>,
    value: Seq<char>,
    node_depth: int,
)
    requires
        forall|i: int, j: int|
            0 <= i < j < kids.len() ==> (#[trigger] kids[i]).value != (#[trigger] kids[j]).value,
    ensures
        sum_scoped(kids, keys, seps, value, node_depth) <= count_in_scope(
            keys,
            seps,
            value,
            node_depth,
        ),
    decreases keys.len(),
{
    if keys.len() == 0 {
        lemma_sum_scoped_empty(kids, keys, seps, value, node_depth);
    } else {
        lemma_sum_scoped_le(kids, keys.drop_last(), seps, value, node_depth);
        lemma_sum_scoped_step(kids, keys, seps, value, node_depth);
        lemma_hits_in_bound(kids, keys.last(), seps, value, node_depth);
    }
}

/// A child's own scope holds exactly the keys counted for its prefix at
/// the parent: the derived prefixes of one key nest, so no key reaches
/// a child's prefix from outside the parent's scope.
proof fn lemma_child_scope_count(
    keys: Seq<Seq<char>>,
    seps: Seq<char>,
    value: Seq<char>,
    node_depth: int,
    k0: Seq<char>,
    v: Seq<char>,
)
    requires
        node_depth >= 0,
        hit(k0, seps, value, node_depth, v),
    ensures
        count_in_scope(keys, seps, v, node_depth + 1) == scoped_count(
            keys,
            seps,
            value,
            node_depth,
            v,
        ),
    decreases keys.len(),
{
    if keys.len() > 0 {
        lemma_child_scope_count(keys.drop_last(), seps, value, node_depth, k0, v);
        let k = keys.last();
        if in_scope(k, seps, v, node_depth + 1) && !hit(k, seps, value, node_depth, v) {
            assert(derived(k, seps, node_depth) == v);
            if node_depth >= 1 {
                lemma_derived_compose(k, seps, node_depth - 1, node_depth);
                lemma_derived_compose(k0, seps, node_depth - 1, node_depth);
                assert(derived(k, seps, node_depth - 1) == derived(v, seps, node_depth - 1));
                assert(derived(k0, seps, node_depth - 1) == derived(v, seps, node_depth - 1));
                assert(in_scope(k, seps, value, node_depth));
            }
        }
    }
}

/// At every node of the tree, the children's key counts stay within the
/// node's own.
pub open spec fn count_sums_ok(t: TreeView) -> bool
    decreases t,
{
    &&& crate::normalizer::sum_counts(t.children) <= t.keys_count
    &&& forall|i: int| 0 <= i < t.children.len() ==> count_sums_ok(#[trigger] t.children[i])
}

/// The children's counted key totals line up with their scoped counts.
proof fn lemma_sum_counts_as_scoped(
    cfg: Config,
    keys: Seq<Seq<char>>,
    t: TreeView,
)
    requires
        counted(cfg, keys, t),
    ensures
        crate::normalizer::sum_counts(t.children) == sum_scoped(
            t.children,
            keys,
            cfg.separators@,
            t.value,
            t.depth,
        ),
    decreases t.children.len(),
{
    lemma_sum_counts_as_scoped_rec(cfg, keys, t, t.children);
}

/// The counted totals of any front part of the children line up with
/// their scoped counts.
proof fn lemma_sum_counts_as_scoped_rec(
    cfg: Config,
    keys: Seq<Seq<char>>,
    t: TreeView,
    kids: Seq<TreeView>,
)
    requires
        counted(cfg, keys, t),
        forall|i: int| 0 <= i < kids.len() ==> kids[i] == t.children[i],
        kids.len() <= t.children.len(),
    ensures
        crate::normalizer::sum_counts(kids) == sum_scoped(
            kids,
            keys,
            cfg.separators@,
            t.value,
            t.depth,
        ),
    decreases kids.len(),
{
    if kids.len() > 0 {
        assert forall|i: int| 0 <= i < kids.drop_last().len() implies kids.drop_last()[i]
            == t.children[i] by {
            assert(kids.drop_last()[i] == kids[i]);
        }
        lemma_sum_counts_as_scoped_rec(cfg, keys, t, kids.drop_last());
        assert(kids.last() == t.children[kids.len() - 1]);
        assert(kids.last().keys_count == scoped_count(
            keys,
            cfg.separators@,
            t.value,
            t.depth,
            kids.last().value,
        ));
    }
}

/// The invariant the count pass leaves behind: at every node, the
/// included children's key counts sum to at most the node's own count.
/// The root's count must cover the observation, as the total key count
/// measured at startup covers every scanned key.
pub proof fn lemma_counted_count_sums(cfg: Config, keys: Seq<Seq<char>>, t: TreeView)
    requires
        counted(cfg, keys, t),
        t.depth >= 0,
        count_in_scope(keys, cfg.separators@, t.value, t.depth) <= t.keys_count,
    ensures
        count_sums_ok(t),
    decreases t,
{
    let seps = cfg.separators@;
    lemma_sum_counts_as_scoped(cfg, keys, t);
    lemma_sum_scoped_le(t.children, keys, seps, t.value, t.depth);
    assert forall|i: int| 0 <= i < t.children.len() implies count_sums_ok(
        #[trigger] t.children[i],
    ) by {
        let c = t.children[i];
        assert(cfg.min_count_bp * cfg.all_keys_count >= 0) by (nonlinear_arith);
        assert(c.keys_count > 0);
        lemma_scoped_count_witness(keys, seps, t.value, t.depth, c.value);
        let k0 = choose|ki: int|
            0 <= ki < keys.len() && hit(#[trigger] keys[ki], seps, t.value, t.depth, c.value);
        lemma_child_scope_count(keys, seps, t.value, t.depth, keys[k0], c.value);
        lemma_counted_count_sums(cfg, keys, c);
    }
}

/// A counted tree with no memory at its root has no memory anywhere:
/// the count pass leaves attribution entirely to the memory pass.
pub proof fn lemma_counted_mem_zero(cfg: Config, keys: Seq<Seq<char>>, t: TreeView)
    requires
        counted(cfg, keys, t),
        t.memory_usage == 0,
    ensures
        mem_le(t, 0),
    decreases t,
{
    assert forall|i: int| 0 <= i < t.children.len() implies mem_le(
        #[trigger] t.children[i],
        0,
    ) by {
        lemma_counted_mem_zero(cfg, keys, t.children[i]);
    }
}

/// The whole analysis: build the tree shape by counting derived
/// prefixes, attribute each key's byte cost down its matching path,
/// sort every node's children by the configured metric, and append
/// remainder children where the unreported keys exceed the configured
/// minimum frequency. The remainder step is skipped when overlapping
/// sibling prefixes left a node's children claiming more memory than
/// the node itself, where no exact remainder exists.
pub fn run(cfg: &Config, keys: &Vec<String>, costs: &Vec<usize>) -> (root: KeyPrefix)
    requires
        keys@.len() == costs@.len(),
        sum_costs(costs@) <= usize::MAX,
    ensures
        tree_view(root).wf(),
        tree_view(root).value == ""@,
        tree_view(root).depth == 0,
        tree_view(root).keys_count == cfg.all_keys_count,
        exists|t0: TreeView|
            {
                &&& #[trigger] counted(*cfg, keys.deep_view(), t0)
                &&& t0.value == ""@
                &&& t0.depth == 0
                &&& t0.keys_count == cfg.all_keys_count
                &&& t0.memory_usage == 0
                &&& {
                    let attributed = attribute_all(t0, keys.deep_view(), costs@);
                    let sorted = spec_reorder(cfg.sort_order, attributed);
                    tree_view(root) == (if backfill_ok(*cfg, sorted) {
                        spec_backfill(*cfg, sorted)
                    } else {
                        sorted
                    })
                }
            },
{
    let mut root = KeyPrefix::new("", 0, cfg.all_keys_count, 0);
    analyze_count(cfg, keys, &mut root);
    let ghost t0 = tree_view(root);
    proof {
        lemma_counted_mem_zero(*cfg, keys.deep_view(), t0);
        lemma_sum_costs_nonneg(costs@);
        crate::attribution::lemma_mem_le_mono(t0, 0, usize::MAX - sum_costs(costs@));
    }
    analyze_memory_usage(&mut root, keys, costs);
    proof {
        lemma_counted_wf(*cfg, keys.deep_view(), t0);
        crate::attribution::lemma_attribute_all_wf(t0, keys.deep_view(), costs@);
        crate::attribution::lemma_attribute_all_shape(t0, keys.deep_view(), costs@);
        crate::normalizer::lemma_reorder_wf(cfg.sort_order, tree_view(root));
        crate::normalizer::lemma_roots_preserved(*cfg, tree_view(root));
    }
    reorder(cfg, &mut root);
    proof {
        crate::normalizer::lemma_backfill_wf(*cfg, tree_view(root));
        crate::normalizer::lemma_roots_preserved(*cfg, tree_view(root));
    }
    if backfill_ok_check(cfg, &root) {
        backfill_other_keys(cfg, &mut root);
    }
    root
}

} // verus!
