use prefix_analyzer::config::{Config, OutputFormat, SortOrder};
use prefix_analyzer::frequency::FrequencyCounter;
use prefix_analyzer::prefix::Prefix;
use prefix_analyzer::prefix_rule::derive_prefix;

#[test]
fn splits_at_first_separator() {
    assert_eq!(derive_prefix("a:1", ":", 0), "a");
    assert_eq!(derive_prefix("user:42:name", ":", 0), "user");
}

#[test]
fn splits_at_later_separators() {
    assert_eq!(derive_prefix("user:42:name", ":", 1), "user:42");
    assert_eq!(derive_prefix("user:42:name", ":", 2), "user:42:name");
}

#[test]
fn whole_key_when_no_separator() {
    assert_eq!(derive_prefix("plainkey", ":", 0), "plainkey");
    assert_eq!(derive_prefix("", ":", 0), "");
}

#[test]
fn consecutive_separators_count_as_one_run() {
    assert_eq!(derive_prefix("a::b:c", ":", 0), "a");
    assert_eq!(derive_prefix("a::b:c", ":", 1), "a::b");
}

#[test]
fn any_separator_character_delimits() {
    assert_eq!(derive_prefix("a:b/c|d", ":/|", 0), "a");
    assert_eq!(derive_prefix("a:b/c|d", ":/|", 1), "a:b");
    assert_eq!(derive_prefix("a:b/c|d", ":/|", 2), "a:b/c");
    assert_eq!(derive_prefix("a:/b", ":/|", 0), "a");
    assert_eq!(derive_prefix("a:/b", ":/|", 1), "a:/b");
}

#[test]
fn leading_separator_gives_empty_prefix() {
    assert_eq!(derive_prefix(":x", ":", 0), "");
    assert_eq!(derive_prefix(":x", ":", 1), ":x");
}

#[test]
fn counter_increments_and_inserts() {
    let mut counter = FrequencyCounter::new();
    counter.increment("a".to_string());
    counter.increment("b".to_string());
    counter.increment("a".to_string());
    assert_eq!(counter.len(), 2);
    assert_eq!(counter.key_at(0).as_str(), "a");
    assert_eq!(counter.count_at(0), 2);
    assert_eq!(counter.key_at(1).as_str(), "b");
    assert_eq!(counter.count_at(1), 1);
}

#[test]
fn config_carries_its_fields() {
    let cfg = Config::new(
        ":/|".to_string(),
        999,
        100,
        12,
        SortOrder::MemoryUsage,
        OutputFormat::Json,
    );
    assert_eq!(cfg.separators, ":/|");
    assert_eq!(cfg.depth, 999);
    assert_eq!(cfg.min_count_bp, 100);
    assert_eq!(cfg.all_keys_count, 12);
    assert!(matches!(cfg.sort_order, SortOrder::MemoryUsage));
    assert!(matches!(cfg.output_format, OutputFormat::Json));
}

#[test]
fn qualifies_compares_against_the_global_key_count() {
    // 20 of 100 keys is 20%: above a 10% threshold, not above 25%.
    let low = Config::new(":".to_string(), 1, 1000, 100, SortOrder::KeysCount, OutputFormat::Plain);
    let high = Config::new(":".to_string(), 1, 2500, 100, SortOrder::KeysCount, OutputFormat::Plain);
    assert!(low.qualifies(20));
    assert!(!high.qualifies(20));
    // The comparison is strict: exactly the threshold does not qualify.
    let exact = Config::new(":".to_string(), 1, 2000, 100, SortOrder::KeysCount, OutputFormat::Plain);
    assert!(!exact.qualifies(20));
}

#[test]
fn prefix_node_starts_empty() {
    let root = Prefix::new(None, 0, 10);
    assert!(root.value.is_none());
    assert_eq!(root.keys_count, 10);
    assert_eq!(root.memory_usage, 0);
    assert!(root.children.is_empty());
    let named = Prefix::new(Some("user"), 1, 3);
    assert_eq!(named.value.as_deref(), Some("user"));
    assert_eq!(named.depth, 1);
}
