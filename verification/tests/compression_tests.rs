use agent_memory::CompressionConfig;
use agent_memory::CompressionStrategy;
use agent_memory::MemoryCompressor;
use agent_memory::MemoryStore;
use agent_memory::MemoryValue;

fn json_with_timestamp(ts: &str) -> MemoryValue {
    MemoryValue::Json(vec![
        ("content".to_string(), MemoryValue::Str("test data".to_string())),
        ("timestamp".to_string(), MemoryValue::Str(ts.to_string())),
    ])
}

#[test]
fn test_memory_stats_calculation() {
    let mut store = MemoryStore::new();
    let compressor = MemoryCompressor::new(CompressionConfig::default());

    let namespace = "test";
    let now = chrono::Utc::now().to_rfc3339();
    for i in 0..5 {
        let key = format!("{}::item::{}", namespace, i);
        store.set(key, json_with_timestamp(now.as_str()));
    }

    let stats = compressor.calculate_stats(&store, namespace).unwrap();
    assert_eq!(stats.item_count, 5);
    assert!(stats.total_bytes > 0);
    assert!(stats.avg_item_size > 0);
    assert!(stats.oldest_timestamp.is_some());
    assert!(stats.newest_timestamp.is_some());
}

#[test]
fn test_remove_old_items() {
    let mut store = MemoryStore::new();
    let compressor = MemoryCompressor::new(CompressionConfig::default());
    let namespace = "test";

    let old_time = chrono::Utc::now() - chrono::Duration::days(10);
    store.set(format!("{}::old", namespace), json_with_timestamp(old_time.to_rfc3339().as_str()));

    let now = chrono::Utc::now();
    store.set(format!("{}::recent", namespace), json_with_timestamp(now.to_rfc3339().as_str()));

    let cutoff = (chrono::Utc::now() - chrono::Duration::days(5)).timestamp_millis();
    let deleted = compressor.remove_old_items(&mut store, namespace, cutoff).unwrap();

    assert_eq!(deleted, 1);
    assert_eq!(store.count(Some(namespace)), 1);
    assert!(store.get("test::recent").is_some());
    assert!(store.get("test::old").is_none());
}

#[test]
fn items_without_timestamps_are_never_removed() {
    let mut store = MemoryStore::new();
    let compressor = MemoryCompressor::new(CompressionConfig::default());
    store.set("ns::plain".to_string(), MemoryValue::Int(7));
    store.set(
        "ns::unparseable".to_string(),
        MemoryValue::Json(vec![("timestamp".to_string(), MemoryValue::Str("not a date".to_string()))]),
    );
    let deleted = compressor.remove_old_items(&mut store, "ns", i64::MAX).unwrap();
    assert_eq!(deleted, 0);
    assert_eq!(store.count(Some("ns")), 2);
}

#[test]
fn least_important_items_go_first() {
    let mut store = MemoryStore::new();
    let compressor = MemoryCompressor::new(CompressionConfig::default());
    for (name, imp) in [("a", 900i64), ("b", 100), ("c", 500)] {
        store.set(
            format!("ns::{}", name),
            MemoryValue::Json(vec![("importance".to_string(), MemoryValue::Int(imp))]),
        );
    }
    // only the two lowest-ranked are inspected; one of them is below the bar
    let removed = compressor.remove_least_important(&mut store, "ns", 400, 2).unwrap();
    assert_eq!(removed, 1);
    assert!(store.get("ns::b").is_none());
    assert!(store.get("ns::a").is_some());
    assert!(store.get("ns::c").is_some());
}

#[test]
fn the_lowest_ranked_leave_first_when_more_qualify_than_the_cap() {
    let mut store = MemoryStore::new();
    let compressor = MemoryCompressor::new(CompressionConfig::default());
    for (name, imp) in [("a", 100i64), ("b", 50), ("c", 200)] {
        store.set(
            format!("ns::{}", name),
            MemoryValue::Json(vec![("importance".to_string(), MemoryValue::Int(imp))]),
        );
    }
    // all three fall below the bar, but only the two lowest may leave
    let removed = compressor.remove_least_important(&mut store, "ns", 1000, 2).unwrap();
    assert_eq!(removed, 2);
    assert!(store.get("ns::b").is_none());
    assert!(store.get("ns::a").is_none());
    assert!(store.get("ns::c").is_some());
}

#[test]
fn stats_report_the_extreme_timestamps() {
    let mut store = MemoryStore::new();
    let compressor = MemoryCompressor::new(CompressionConfig::default());
    let early = chrono::DateTime::from_timestamp_millis(1_000_000).unwrap().to_rfc3339();
    let late = chrono::DateTime::from_timestamp_millis(9_000_000).unwrap().to_rfc3339();
    let middle = chrono::DateTime::from_timestamp_millis(5_000_000).unwrap().to_rfc3339();
    store.set("ns::a".to_string(), json_with_timestamp(middle.as_str()));
    store.set("ns::b".to_string(), json_with_timestamp(early.as_str()));
    store.set("ns::c".to_string(), json_with_timestamp(late.as_str()));
    store.set("ns::d".to_string(), MemoryValue::Int(7));

    let stats = compressor.calculate_stats(&store, "ns").unwrap();
    assert_eq!(stats.item_count, 4);
    assert_eq!(stats.oldest_timestamp, Some(1_000_000));
    assert_eq!(stats.newest_timestamp, Some(9_000_000));
}

#[test]
fn needs_compression_reflects_both_budgets() {
    let compressor = MemoryCompressor::new(CompressionConfig::default());
    let stats = compressor.calculate_stats(&MemoryStore::new(), "none").unwrap();
    assert!(!compressor.needs_compression(&stats));
    let _ = CompressionStrategy::RemoveOldest;
}

#[test]
fn compression_plan_and_apply_round() {
    let mut store = MemoryStore::new();
    let compressor = MemoryCompressor::new(CompressionConfig::default());
    let ns = "session::s::conversation";

    let base = chrono::Utc::now();
    for i in 0..4i64 {
        let ts = (base + chrono::Duration::seconds(i)).to_rfc3339();
        store.set(
            format!("{}::msg_{}", ns, i),
            MemoryValue::Json(vec![
                ("role".to_string(), MemoryValue::Str("user".to_string())),
                ("content".to_string(), MemoryValue::Str(format!("message {}", i))),
                ("timestamp".to_string(), MemoryValue::Str(ts)),
            ]),
        );
    }

    let (keys, transcript) = compressor.conversation_compression_plan(&store, ns, 2).unwrap();
    assert_eq!(keys.len(), 2);
    assert!(transcript.as_str().contains("user: message 0"));
    assert!(transcript.as_str().contains("user: message 1"));

    let deleted = compressor
        .apply_conversation_compression(&mut store, ns, &keys, "two old messages")
        .unwrap();
    assert_eq!(deleted, 2);
    assert!(store.get("session::s::conversation::summary::compressed").is_some());
    assert!(store.get("session::s::conversation::msg_0").is_none());
    assert!(store.get("session::s::conversation::msg_3").is_some());
}
