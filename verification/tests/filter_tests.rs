use rust_crawler::config::CrawlerConfig;
use rust_crawler::filter::{FilterResult, UrlFilter};
use rust_crawler::urls::WebUrl;

fn create_filter() -> UrlFilter {
    let config = CrawlerConfig {
        max_depth: 2,
        allowed_domains: vec!["example.com".to_string()],
        exclude_patterns: vec!["/admin".to_string()],
        include_patterns: vec![],
        page_template: None,
        page_range: None,
        ..CrawlerConfig::default_for_test()
    };
    UrlFilter::new(config)
}

#[test]
fn test_allow_valid_url() {
    let filter = create_filter();
    let url = WebUrl::parse("https://example.com/page").unwrap();
    assert!(filter.should_crawl(&url, 1).is_allowed());
}

#[test]
fn test_deny_depth_exceeded() {
    let filter = create_filter();
    let url = WebUrl::parse("https://example.com/page").unwrap();
    let result = filter.should_crawl(&url, 3);
    assert!(!result.is_allowed());
    assert_eq!(result.reason(), Some("超出最大深度限制"));
}

#[test]
fn test_deny_wrong_domain() {
    let filter = create_filter();
    let url = WebUrl::parse("https://other.com/page").unwrap();
    let result = filter.should_crawl(&url, 1);
    assert!(!result.is_allowed());
}

#[test]
fn test_deny_excluded_pattern() {
    let filter = create_filter();
    let url = WebUrl::parse("https://example.com/admin/login").unwrap();
    let result = filter.should_crawl(&url, 1);
    assert!(!result.is_allowed());
}

#[test]
fn test_deny_non_http_protocol() {
    let filter = create_filter();
    let url = WebUrl::parse("ftp://example.com/file").unwrap();
    let result = filter.should_crawl(&url, 1);
    assert!(!result.is_allowed());
    assert_eq!(result.reason(), Some("不支持的协议"));
}

#[test]
fn test_include_pattern_must_match() {
    let config = CrawlerConfig {
        max_depth: 2,
        allowed_domains: vec!["example.com".to_string()],
        include_patterns: vec!["/house/".to_string(), "/zu/".to_string()],
        exclude_patterns: vec![],
        page_template: None,
        page_range: None,
        ..CrawlerConfig::default_for_test()
    };
    let filter = UrlFilter::new(config);

    let matching = WebUrl::parse("https://example.com/house/detail.html").unwrap();
    assert!(filter.should_crawl(&matching, 1).is_allowed());

    let matching2 = WebUrl::parse("https://example.com/zu/list.html").unwrap();
    assert!(filter.should_crawl(&matching2, 1).is_allowed());

    let not_matching = WebUrl::parse("https://example.com/news/").unwrap();
    assert!(!filter.should_crawl(&not_matching, 1).is_allowed());
    assert_eq!(filter.should_crawl(&not_matching, 1).reason(), Some("URL 不匹配任何包含模式"));
}

#[test]
fn test_is_internal() {
    let base = WebUrl::parse("https://example.com/page").unwrap();
    let internal = WebUrl::parse("https://example.com/other").unwrap();
    let external = WebUrl::parse("https://other.com/page").unwrap();

    assert!(UrlFilter::is_internal(&base, &internal));
    assert!(!UrlFilter::is_internal(&base, &external));
}

#[test]
fn denial_reasons_for_domain_and_pattern() {
    let filter = create_filter();
    let other = WebUrl::parse("https://other.com/page").unwrap();
    assert_eq!(filter.should_crawl(&other, 1).reason(), Some("域名不在白名单中或匹配排除模式"));
    let admin = WebUrl::parse("https://example.com/admin").unwrap();
    assert_eq!(filter.should_crawl(&admin, 2).reason(), Some("域名不在白名单中或匹配排除模式"));
    assert_eq!(filter.should_crawl(&admin, 2).is_allowed(), false);
}

#[test]
fn depth_is_checked_before_scheme() {
    let filter = create_filter();
    let ftp = WebUrl::parse("ftp://example.com/file").unwrap();
    assert_eq!(filter.should_crawl(&ftp, 3).reason(), Some("超出最大深度限制"));
    assert_eq!(filter.should_crawl(&WebUrl::parse("https://example.com/").unwrap(), 2).reason(), None);
}

#[test]
fn filter_result_accessors() {
    assert!(FilterResult::Allow.is_allowed());
    assert_eq!(FilterResult::Allow.reason(), None);
    assert!(!FilterResult::Deny("x").is_allowed());
    assert_eq!(FilterResult::Deny("x").reason(), Some("x"));
}

#[test]
fn hosts_must_both_exist_to_be_internal() {
    let base = WebUrl::parse("https://example.com/").unwrap();
    let no_host = WebUrl::parse("mailto:someone@example.com").unwrap();
    assert!(!UrlFilter::is_internal(&base, &no_host));
    assert!(!UrlFilter::is_internal(&no_host, &no_host));
}

#[test]
fn domain_is_checked_before_scheme() {
    let filter = create_filter();
    let ftp = WebUrl::parse("ftp://other.com/file").unwrap();
    assert_eq!(filter.should_crawl(&ftp, 1), FilterResult::Deny("域名不在白名单中或匹配排除模式"));
    let ftp_admin = WebUrl::parse("ftp://example.com/admin").unwrap();
    assert_eq!(filter.should_crawl(&ftp_admin, 1).reason(), Some("域名不在白名单中或匹配排除模式"));
}

#[test]
fn include_patterns_are_checked_before_scheme() {
    let filter = UrlFilter::new(CrawlerConfig {
        include_patterns: vec!["/blog".to_string()],
        ..CrawlerConfig::default_for_test()
    });
    let ftp = WebUrl::parse("ftp://example.com/file").unwrap();
    assert_eq!(filter.should_crawl(&ftp, 1).reason(), Some("URL 不匹配任何包含模式"));
    let ftp_blog = WebUrl::parse("ftp://example.com/blog").unwrap();
    assert_eq!(filter.should_crawl(&ftp_blog, 1).reason(), Some("不支持的协议"));
}
