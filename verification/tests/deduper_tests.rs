use rust_crawler::deduper::{create_deduper, normalize_url, sort_pairs, MemoryDeduper, UrlDeduper};

#[test]
fn test_memory_deduper_basic() {
    let mut deduper = MemoryDeduper::new();

    assert!(deduper.try_add("https://example.com"));
    assert_eq!(deduper.len(), 1);

    assert!(!deduper.try_add("https://example.com"));
    assert_eq!(deduper.len(), 1);

    assert!(deduper.try_add("https://other.com"));
    assert_eq!(deduper.len(), 2);
}

#[test]
fn test_deduper_normalizes_trailing_slash() {
    let mut deduper = MemoryDeduper::new();

    assert!(deduper.try_add("https://example.com"));
    assert!(!deduper.try_add("https://example.com/"));

    assert!(deduper.try_add("https://example.com/page"));
    assert!(!deduper.try_add("https://example.com/page/"));
    assert_eq!(deduper.len(), 2);
}

#[test]
fn test_deduper_normalizes_query_and_fragment() {
    let mut deduper = MemoryDeduper::new();

    assert!(deduper.try_add("https://example.com/page?b=2&a=1#section"));
    assert!(!deduper.try_add("https://example.com/page?a=1&b=2"));
    assert_eq!(deduper.len(), 1);
}

#[test]
fn normal_forms() {
    assert_eq!(normalize_url("https://example.com"), Some("https://example.com".to_string()));
    assert_eq!(normalize_url("https://example.com/a//"), Some("https://example.com/a".to_string()));
    assert_eq!(normalize_url("HTTPS://Example.COM/p?z=1&a=2&a=1#x"), Some("https://example.com/p?a=1&a=2&z=1".to_string()));
    assert_eq!(normalize_url("https://example.com/p?"), Some("https://example.com/p?".to_string()));
    assert_eq!(normalize_url("not a url"), None);
}

#[test]
fn unparsable_urls_are_kept_as_they_are() {
    let mut deduper = create_deduper();
    assert!(deduper.is_empty());
    assert!(deduper.try_add("not a url"));
    assert!(!deduper.try_add("not a url"));
    assert!(deduper.try_add("not a url/"));
    assert_eq!(deduper.len(), 2);
    assert!(!deduper.is_empty());
}

#[test]
fn pairs_sort_by_name_then_value() {
    let pairs = vec![
        ("b".to_string(), "1".to_string()),
        ("a".to_string(), "2".to_string()),
        ("a".to_string(), "10".to_string()),
        ("ab".to_string(), "".to_string()),
        ("é".to_string(), "x".to_string()),
        ("Z".to_string(), "x".to_string()),
    ];
    let sorted = sort_pairs(pairs);
    let names: Vec<(&str, &str)> = sorted.iter().map(|(a, b)| (a.as_str(), b.as_str())).collect();
    assert_eq!(names, vec![("Z", "x"), ("a", "10"), ("a", "2"), ("ab", ""), ("b", "1"), ("é", "x")]);
}

#[test]
fn with_capacity_and_default_start_empty() {
    let d = MemoryDeduper::with_capacity(16);
    assert_eq!(d.len(), 0);
    let d2 = MemoryDeduper::default();
    assert!(d2.is_empty());
}
