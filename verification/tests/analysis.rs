use prefix_analyzer::analyzer::{analyze_count, run};
use prefix_analyzer::attribution::analyze_memory_usage;
use prefix_analyzer::config::{Config, OutputFormat, SortOrder};
use prefix_analyzer::key_prefix::KeyPrefix;
use prefix_analyzer::normalizer::{backfill_other_keys, reorder};

fn keys(v: &[&str]) -> Vec<String> {
    v.iter().map(|s| s.to_string()).collect()
}

fn config(separators: &str, depth: usize, min_count_bp: u64, all: usize, order: SortOrder) -> Config {
    Config::new(
        separators.to_string(),
        depth,
        min_count_bp,
        all,
        order,
        OutputFormat::Plain,
    )
}

#[test]
fn counting_scenario() {
    // Keys {a:1, a:2, b:1} with separator ':' and depth 1 at a 1%
    // threshold: root counts 3 keys, child 'a' two and child 'b' one.
    let cfg = config(":", 1, 100, 3, SortOrder::KeysCount);
    let ks = keys(&["a:1", "a:2", "b:1"]);
    let mut root = KeyPrefix::new("", 0, 3, 0);
    analyze_count(&cfg, &ks, &mut root);
    assert_eq!(root.keys_count, 3);
    assert_eq!(root.children.len(), 2);
    let a = root.children.iter().find(|c| c.value == "a").unwrap();
    let b = root.children.iter().find(|c| c.value == "b").unwrap();
    assert_eq!(a.keys_count, 2);
    assert_eq!(b.keys_count, 1);
    assert_eq!(a.depth, 1);
    assert_eq!(b.depth, 1);
    assert!(a.children.is_empty());
    assert!(b.children.is_empty());
}

#[test]
fn memory_scenario() {
    // Costs a:1=10, a:2=20, b:1=5 on the tree of the counting scenario
    // put 30 bytes on 'a', 5 on 'b' and 35 on the root.
    let cfg = config(":", 1, 100, 3, SortOrder::KeysCount);
    let ks = keys(&["a:1", "a:2", "b:1"]);
    let costs: Vec<usize> = vec![10, 20, 5];
    let mut root = KeyPrefix::new("", 0, 3, 0);
    analyze_count(&cfg, &ks, &mut root);
    analyze_memory_usage(&mut root, &ks, &costs);
    assert_eq!(root.memory_usage, 35);
    let a = root.children.iter().find(|c| c.value == "a").unwrap();
    let b = root.children.iter().find(|c| c.value == "b").unwrap();
    assert_eq!(a.memory_usage, 30);
    assert_eq!(b.memory_usage, 5);
}

fn leaf(value: &str, depth: usize, count: usize, mem: usize) -> KeyPrefix {
    KeyPrefix::new(value, depth, count, mem)
}

#[test]
fn remainder_dropped_below_threshold() {
    // Root of 100 keys with children summing to 80 leaves a remainder
    // of 20 keys; at a 25% threshold the remainder is dropped.
    let cfg = config(":", 10, 2500, 100, SortOrder::KeysCount);
    let mut root = KeyPrefix::new("", 0, 100, 0);
    root.children.push(leaf("a", 1, 50, 0));
    root.children.push(leaf("b", 1, 30, 0));
    backfill_other_keys(&cfg, &mut root);
    assert_eq!(root.children.len(), 2);
}

#[test]
fn remainder_appended_above_threshold() {
    // The same remainder of 20 keys is appended at a 10% threshold.
    let cfg = config(":", 10, 1000, 100, SortOrder::KeysCount);
    let mut root = KeyPrefix::new("", 0, 100, 0);
    root.children.push(leaf("a", 1, 50, 0));
    root.children.push(leaf("b", 1, 30, 0));
    backfill_other_keys(&cfg, &mut root);
    assert_eq!(root.children.len(), 3);
    let other = &root.children[2];
    assert_eq!(other.value, "[other]");
    assert_eq!(other.keys_count, 20);
    assert_eq!(other.depth, 1);
    assert!(other.children.is_empty());
}

#[test]
fn remainder_makes_sums_exact() {
    // With a remainder present, the children's counts and memory add
    // up to the parent's, exactly.
    let cfg = config(":", 10, 100, 100, SortOrder::KeysCount);
    let mut root = KeyPrefix::new("", 0, 100, 1000);
    root.children.push(leaf("a", 1, 50, 600));
    root.children.push(leaf("b", 1, 30, 150));
    backfill_other_keys(&cfg, &mut root);
    assert_eq!(root.children.len(), 3);
    let count_sum: usize = root.children.iter().map(|c| c.keys_count).sum();
    let mem_sum: usize = root.children.iter().map(|c| c.memory_usage).sum();
    assert_eq!(count_sum, root.keys_count);
    assert_eq!(mem_sum, root.memory_usage);
    assert_eq!(root.children[2].memory_usage, 250);
}

#[test]
fn sort_by_keys_count() {
    // Counts {10, 50, 5} sorted descending by count give {50, 10, 5}.
    let cfg = config(":", 10, 100, 100, SortOrder::KeysCount);
    let mut root = KeyPrefix::new("", 0, 100, 0);
    root.children.push(leaf("x", 1, 10, 100));
    root.children.push(leaf("y", 1, 50, 10));
    root.children.push(leaf("z", 1, 5, 200));
    reorder(&cfg, &mut root);
    let counts: Vec<usize> = root.children.iter().map(|c| c.keys_count).collect();
    assert_eq!(counts, vec![50, 10, 5]);
}

#[test]
fn sort_by_memory_usage() {
    // The same children sorted by memory {100, 10, 200} give the order
    // of their memory usage, independent of their counts.
    let cfg = config(":", 10, 100, 100, SortOrder::MemoryUsage);
    let mut root = KeyPrefix::new("", 0, 100, 0);
    root.children.push(leaf("x", 1, 10, 100));
    root.children.push(leaf("y", 1, 50, 10));
    root.children.push(leaf("z", 1, 5, 200));
    reorder(&cfg, &mut root);
    let mems: Vec<usize> = root.children.iter().map(|c| c.memory_usage).collect();
    assert_eq!(mems, vec![200, 100, 10]);
    let counts: Vec<usize> = root.children.iter().map(|c| c.keys_count).collect();
    assert_eq!(counts, vec![5, 10, 50]);
}

#[test]
fn sort_keeps_tied_children_in_order() {
    // Children with equal metrics keep their previous relative order.
    let cfg = config(":", 10, 100, 100, SortOrder::KeysCount);
    let mut root = KeyPrefix::new("", 0, 100, 0);
    root.children.push(leaf("first", 1, 7, 0));
    root.children.push(leaf("second", 1, 7, 0));
    root.children.push(leaf("third", 1, 9, 0));
    reorder(&cfg, &mut root);
    let values: Vec<&str> = root.children.iter().map(|c| c.value.as_str()).collect();
    assert_eq!(values, vec!["third", "first", "second"]);
}

fn trees_equal(a: &KeyPrefix, b: &KeyPrefix) -> bool {
    a.value == b.value && a.depth == b.depth && a.keys_count == b.keys_count
        && a.memory_usage == b.memory_usage && a.children.len() == b.children.len()
        && a.children.iter().zip(b.children.iter()).all(|(x, y)| trees_equal(x, y))
}

fn clone_tree(t: &KeyPrefix) -> KeyPrefix {
    let mut c = KeyPrefix::new(t.value.as_str(), t.depth, t.keys_count, t.memory_usage);
    for child in t.children.iter() {
        c.children.push(clone_tree(child));
    }
    c
}

#[test]
fn normalizing_twice_changes_nothing() {
    // Normalizing an already-normalized tree returns it unchanged: the
    // second remainder is zero and dropped, and sorting is stable.
    let cfg = config(":", 10, 100, 100, SortOrder::KeysCount);
    let mut root = KeyPrefix::new("", 0, 100, 900);
    root.children.push(leaf("a", 1, 20, 100));
    root.children.push(leaf("b", 1, 50, 600));
    reorder(&cfg, &mut root);
    backfill_other_keys(&cfg, &mut root);
    let once = clone_tree(&root);
    reorder(&cfg, &mut root);
    backfill_other_keys(&cfg, &mut root);
    assert!(trees_equal(&once, &root));
}

#[test]
fn counting_is_shard_order_independent() {
    // The same key set split across shards and merged in either order
    // produces the same counts per derived prefix.
    let cfg = config(":", 1, 100, 4, SortOrder::KeysCount);
    let shard_one = ["a:1", "b:1"];
    let shard_two = ["a:2", "a:3"];
    let mut merged_one: Vec<String> = keys(&shard_one);
    merged_one.extend(keys(&shard_two));
    let mut merged_two: Vec<String> = keys(&shard_two);
    merged_two.extend(keys(&shard_one));
    let mut root_one = KeyPrefix::new("", 0, 4, 0);
    let mut root_two = KeyPrefix::new("", 0, 4, 0);
    analyze_count(&cfg, &merged_one, &mut root_one);
    analyze_count(&cfg, &merged_two, &mut root_two);
    for root in [&root_one, &root_two] {
        let a = root.children.iter().find(|c| c.value == "a").unwrap();
        let b = root.children.iter().find(|c| c.value == "b").unwrap();
        assert_eq!(a.keys_count, 3);
        assert_eq!(b.keys_count, 1);
    }
}

#[test]
fn attribution_is_path_exclusive() {
    // A key's cost lands on the nodes along its own path and never on a
    // sibling subtree.
    let ks = keys(&["a:1", "b:1"]);
    let costs: Vec<usize> = vec![10, 7];
    let mut root = KeyPrefix::new("", 0, 2, 0);
    root.children.push(leaf("a", 1, 1, 0));
    root.children.push(leaf("b", 1, 1, 0));
    analyze_memory_usage(&mut root, &ks, &costs);
    assert_eq!(root.memory_usage, 17);
    assert_eq!(root.children[0].memory_usage, 10);
    assert_eq!(root.children[1].memory_usage, 7);
}

#[test]
fn full_run_orders_and_attributes() {
    // The whole pipeline on the counting scenario, sorted by memory:
    // 'a' (30 bytes) comes before 'b' (5 bytes) and no remainder is
    // added because the children account for every key.
    let cfg = config(":", 1, 100, 3, SortOrder::MemoryUsage);
    let ks = keys(&["a:1", "a:2", "b:1"]);
    let costs: Vec<usize> = vec![10, 20, 5];
    let root = run(&cfg, &ks, &costs);
    assert_eq!(root.keys_count, 3);
    assert_eq!(root.memory_usage, 35);
    assert_eq!(root.children.len(), 2);
    assert_eq!(root.children[0].value, "a");
    assert_eq!(root.children[0].memory_usage, 30);
    assert_eq!(root.children[1].value, "b");
    assert_eq!(root.children[1].memory_usage, 5);
}

#[test]
fn full_run_adds_remainder_for_rare_prefixes() {
    // Keys whose prefixes stay under the threshold end up in the
    // remainder bucket instead of their own nodes.
    let cfg = config(":", 1, 3000, 5, SortOrder::KeysCount);
    let ks = keys(&["a:1", "a:2", "a:3", "b:1", "c:1"]);
    let costs: Vec<usize> = vec![1, 1, 1, 1, 1];
    let root = run(&cfg, &ks, &costs);
    // 'a' holds 60% of the keys; 'b' and 'c' hold 20% each and stay
    // under the 30% threshold, but together the unreported 40% exceed
    // it, so a remainder child of two keys is appended.
    assert_eq!(root.children.len(), 2);
    assert_eq!(root.children[0].value, "a");
    assert_eq!(root.children[0].keys_count, 3);
    assert_eq!(root.children[1].value, "[other]");
    assert_eq!(root.children[1].keys_count, 2);
}

#[test]
fn empty_observation_leaves_the_root_alone() {
    // No keys scanned: the root keeps its startup count and gains
    // neither children nor memory; the remainder needs children to
    // exist, so none is added.
    let cfg = config(":", 5, 100, 0, SortOrder::KeysCount);
    let ks: Vec<String> = Vec::new();
    let costs: Vec<usize> = Vec::new();
    let root = run(&cfg, &ks, &costs);
    assert_eq!(root.keys_count, 0);
    assert_eq!(root.memory_usage, 0);
    assert!(root.children.is_empty());
}

#[test]
fn zero_depth_stops_all_recursion() {
    // With a maximum depth of zero the root is scanned but no child is
    // ever created.
    let cfg = config(":", 0, 100, 2, SortOrder::KeysCount);
    let ks = keys(&["a:1", "b:2"]);
    let costs: Vec<usize> = vec![3, 4];
    let root = run(&cfg, &ks, &costs);
    assert!(root.children.is_empty());
    assert_eq!(root.memory_usage, 7);
}

#[test]
fn duplicate_keys_count_twice() {
    // The observation is a multiset: the same key seen twice adds two
    // to its prefix's count and its cost twice.
    let cfg = config(":", 1, 100, 3, SortOrder::KeysCount);
    let ks = keys(&["a:1", "a:1", "b:1"]);
    let costs: Vec<usize> = vec![10, 10, 5];
    let root = run(&cfg, &ks, &costs);
    let a = root.children.iter().find(|c| c.value == "a").unwrap();
    assert_eq!(a.keys_count, 2);
    assert_eq!(a.memory_usage, 20);
}
