use rust_crawler::models::{CrawlStats, CrawlTask, Link, Page};
use rust_crawler::urls::WebUrl;

#[test]
fn test_page_creation() {
    let page = Page::new("https://example.com".to_string(), 200, 0, 100);
    assert_eq!(page.url, "https://example.com");
    assert_eq!(page.status_code, 200);
    assert_eq!(page.depth, 0);
    assert!(page.title.is_none());
}

#[test]
fn test_link_counts() {
    let mut page = Page::new("https://example.com".to_string(), 200, 0, 100);
    page.links.push(Link::new("Home".to_string(), "https://example.com/home".to_string(), true));
    page.links.push(Link::new("External".to_string(), "https://other.com".to_string(), false));

    assert_eq!(page.internal_link_count(), 1);
    assert_eq!(page.external_link_count(), 1);
}

#[test]
fn link_counts_add_up_to_the_number_of_links() {
    let mut page = Page::new("https://example.com".to_string(), 200, 1, 5);
    for i in 0..7 {
        page.links.push(Link::new(format!("l{}", i), format!("https://x/{}", i), i % 3 == 0));
    }
    assert_eq!(page.internal_link_count(), 3);
    assert_eq!(page.external_link_count(), 4);
    assert_eq!(page.internal_link_count() + page.external_link_count(), page.links.len());
    assert!(page.content.is_none());
    assert_eq!(page.fetch_duration_ms, 5);
    assert!(page.crawled_at > 0);
}

#[test]
fn default_stats_are_zero() {
    let stats = CrawlStats::default();
    assert_eq!(stats.pages_fetched, 0);
    assert_eq!(stats.pages_parsed, 0);
    assert_eq!(stats.pages_failed, 0);
    assert_eq!(stats.links_discovered, 0);
    assert_eq!(stats.links_queued, 0);
    assert_eq!(stats.total_duration, std::time::Duration::ZERO);
}

#[test]
fn task_copies_keep_url_and_depth() {
    let task = CrawlTask::new(WebUrl::parse("https://example.com/a").unwrap(), 3);
    let copy = task.clone();
    assert_eq!(copy.url.as_str(), "https://example.com/a");
    assert_eq!(copy.depth, 3);
}
