use rust_crawler::config::CrawlerConfig;
use rust_crawler::crawler::{CrawlStep, Crawler, CrawlerError, TaskCheck};
use rust_crawler::fetcher::FetchResult;
use rust_crawler::models::{CrawlResult, CrawlStats};

/// A site of linked pages, each listed as (url, links).
fn site() -> Vec<(&'static str, Vec<&'static str>)> {
    vec![
        ("https://example.com/", vec!["/a", "/b", "https://other.com/x", "/a#top"]),
        ("https://example.com/a", vec!["/", "/c"]),
        ("https://example.com/b", vec!["/c", "/d"]),
        ("https://example.com/c", vec!["/e"]),
        ("https://example.com/d", vec![]),
        ("https://example.com/e", vec![]),
        ("https://other.com/x", vec![]),
    ]
}

fn page_html(links: &[&str]) -> String {
    let anchors: Vec<String> = links.iter().map(|l| format!("<a href=\"{}\">{}</a>", l, l)).collect();
    format!("<html><head><title>t</title></head><body>{}</body></html>", anchors.join(" "))
}

/// Runs a crawl against `site()`, one task at a time; returns the fetched
/// URLs in order and the final counts.
fn run(config: CrawlerConfig) -> (Vec<String>, CrawlStats) {
    let pages = site();
    let mut crawler = Crawler::new(config);
    crawler.enqueue_seeds().map_err(|_| "seed").unwrap();
    let mut fetched = Vec::new();
    loop {
        match crawler.next_step(0) {
            CrawlStep::Fetch(task) => {
                fetched.push(task.url.to_string());
                let result = match crawler.check_task(&task) {
                    TaskCheck::Refused(refused) => refused,
                    TaskCheck::NeedRobots(_) => panic!("robots.txt is not respected here"),
                    TaskCheck::Go => {
                        let outcome = match pages.iter().find(|(u, _)| *u == task.url.as_str()) {
                            Some((_, links)) => Ok(FetchResult {
                                url: task.url.to_string(),
                                status: 200,
                                body: page_html(links),
                                duration_ms: 1,
                                content_type: Some("text/html".to_string()),
                            }),
                            None => Err("无效的状态码: 404".to_string()),
                        };
                        Crawler::task_result(&task, outcome)
                    }
                };
                crawler.record_result(&result);
            }
            CrawlStep::Wait => panic!("nothing is in flight"),
            CrawlStep::Pause(_) => panic!("there is no delay"),
            CrawlStep::Finish => break,
        }
    }
    (fetched, crawler.stats())
}

fn config(max_depth: u32, max_pages: usize, allowed: &[&str]) -> CrawlerConfig {
    CrawlerConfig {
        seeds: vec!["https://example.com/".to_string()],
        max_depth,
        max_pages,
        allowed_domains: allowed.iter().map(|d| d.to_string()).collect(),
        ..CrawlerConfig::default_for_test()
    }
}

#[test]
fn test_crawler_creation() {
    let crawler = Crawler::new(CrawlerConfig::default_for_test());
    let stats = crawler.stats();
    assert_eq!(stats.pages_fetched, 0);
    assert_eq!(stats.links_queued, 0);
    assert_eq!(crawler.config_ref().max_pages, 10);
}

#[test]
fn test_crawler_respects_max_depth() {
    let (fetched, stats) = run(config(1, 0, &[]));
    assert_eq!(
        fetched,
        vec!["https://example.com/", "https://example.com/a", "https://example.com/b", "https://other.com/x"]
    );
    assert_eq!(stats.pages_fetched, 4);
    assert_eq!(stats.pages_parsed, 4);
    assert_eq!(stats.pages_failed, 0);
    assert_eq!(stats.links_queued, 3);
    assert_eq!(stats.links_discovered, 8);
}

#[test]
fn test_crawler_respects_max_pages() {
    let (fetched, stats) = run(config(5, 3, &[]));
    assert_eq!(fetched.len(), 3);
    assert_eq!(stats.pages_fetched, 3);
    assert_eq!(stats.pages_parsed + stats.pages_failed, 3);
}

#[test]
fn test_crawler_domain_filter() {
    let (fetched, stats) = run(config(5, 0, &["example.com"]));
    assert!(fetched.iter().all(|u| u.starts_with("https://example.com/")));
    assert_eq!(fetched.len(), 6);
    assert_eq!(stats.pages_parsed, 6);
}

#[test]
fn no_url_is_fetched_twice() {
    let (fetched, stats) = run(config(5, 0, &[]));
    let mut sorted = fetched.clone();
    sorted.sort();
    sorted.dedup();
    assert_eq!(sorted.len(), fetched.len());
    assert_eq!(fetched.len(), 7);
    assert_eq!(stats.links_queued, 6);
    assert_eq!(stats.pages_fetched, stats.pages_parsed + stats.pages_failed);
}

#[test]
fn failed_fetches_are_counted() {
    let mut crawler = Crawler::new(CrawlerConfig {
        seeds: vec!["https://missing.example/".to_string()],
        ..CrawlerConfig::default_for_test()
    });
    crawler.enqueue_seeds().map_err(|_| "seed").unwrap();
    let task = match crawler.next_step(0) {
        CrawlStep::Fetch(t) => t,
        _ => panic!("a task was expected"),
    };
    assert!(matches!(crawler.check_task(&task), TaskCheck::Go));
    let result = Crawler::task_result(&task, Err("请求超时（超过 10 秒）".to_string()));
    match &result {
        CrawlResult::Failed { url, error, depth } => {
            assert_eq!(url, "https://missing.example/");
            assert_eq!(error, "请求超时（超过 10 秒）");
            assert_eq!(*depth, 0);
        }
        _ => panic!("a failure was expected"),
    }
    crawler.record_result(&result);
    assert!(matches!(crawler.next_step(0), CrawlStep::Finish));
    let stats = crawler.stats();
    assert_eq!((stats.pages_fetched, stats.pages_failed, stats.pages_parsed), (1, 1, 0));
}

#[test]
fn refused_seeds_fail_without_a_fetch() {
    let mut crawler = Crawler::new(CrawlerConfig {
        seeds: vec!["ftp://example.com/file".to_string()],
        ..CrawlerConfig::default_for_test()
    });
    crawler.enqueue_seeds().map_err(|_| "seed").unwrap();
    let task = match crawler.next_step(0) {
        CrawlStep::Fetch(t) => t,
        _ => panic!("a task was expected"),
    };
    match crawler.check_task(&task) {
        TaskCheck::Refused(CrawlResult::Failed { error, .. }) => assert_eq!(error, "不支持的协议"),
        _ => panic!("the filter should refuse the task"),
    }
}

#[test]
fn a_bad_seed_stops_the_crawl() {
    let mut crawler = Crawler::new(CrawlerConfig {
        seeds: vec!["https://example.com".to_string(), "nope".to_string()],
        ..CrawlerConfig::default_for_test()
    });
    match crawler.enqueue_seeds() {
        Err(CrawlerError::UrlParse(msg)) => assert_eq!(msg, "relative URL without a base"),
        _ => panic!("the bad seed should be reported"),
    }
}

#[test]
fn concurrency_limit_makes_the_caller_wait() {
    let mut crawler = Crawler::new(CrawlerConfig {
        seeds: vec!["https://a.example/".to_string(), "https://b.example/".to_string()],
        max_concurrency: 1,
        ..CrawlerConfig::default_for_test()
    });
    crawler.enqueue_seeds().map_err(|_| "seed").unwrap();
    let first = match crawler.next_step(0) {
        CrawlStep::Fetch(t) => t,
        _ => panic!("a task was expected"),
    };
    assert!(matches!(crawler.next_step(0), CrawlStep::Wait));
    let result = Crawler::task_result(&first, Err("x".to_string()));
    crawler.record_result(&result);
    assert!(matches!(crawler.next_step(0), CrawlStep::Fetch(_)));
}

#[test]
fn finishing_sets_the_duration() {
    let mut crawler = Crawler::new(CrawlerConfig::default_for_test());
    crawler.finish(std::time::Duration::from_millis(1500));
    assert_eq!(crawler.stats().total_duration, std::time::Duration::from_millis(1500));
}

#[test]
fn a_seed_listed_twice_is_fetched_once() {
    let mut crawler = Crawler::new(CrawlerConfig {
        seeds: vec![
            "https://example.com/d".to_string(),
            "https://example.com/d".to_string(),
            "https://example.com/e".to_string(),
        ],
        max_concurrency: 5,
        ..CrawlerConfig::default_for_test()
    });
    crawler.enqueue_seeds().map_err(|_| "seed").unwrap();
    let mut fetched = Vec::new();
    while let CrawlStep::Fetch(task) = crawler.next_step(0) {
        fetched.push(task.url.to_string());
    }
    assert_eq!(fetched, vec!["https://example.com/d", "https://example.com/e"]);
    assert_eq!(crawler.stats().pages_fetched, 2);
    assert_eq!(crawler.tasks_in_flight(), 2);
}

#[test]
fn robots_rules_are_learned_once_and_followed() {
    let mut crawler = Crawler::new(CrawlerConfig {
        seeds: vec!["https://example.com/private/a".to_string(), "https://example.com/public".to_string()],
        respect_robots: true,
        max_depth: 2,
        ..CrawlerConfig::default_for_test()
    });
    crawler.enqueue_seeds().map_err(|_| "seed").unwrap();
    let private = match crawler.next_step(0) {
        CrawlStep::Fetch(t) => t,
        _ => panic!("a task was expected"),
    };
    match crawler.check_task(&private) {
        TaskCheck::NeedRobots(u) => assert_eq!(u.as_str(), "https://example.com/robots.txt"),
        _ => panic!("the site's robots.txt should be asked for"),
    }
    let response = Some((200, "User-agent: *\nDisallow: /private\n".to_string()));
    match crawler.learn_robots(&private, &response) {
        TaskCheck::Refused(CrawlResult::Failed { url, error, depth }) => {
            assert_eq!(url, "https://example.com/private/a");
            assert_eq!(error, "robots.txt 不允许抓取");
            assert_eq!(depth, 0);
        }
        _ => panic!("robots.txt should refuse the task"),
    }
    let public = match crawler.next_step(0) {
        CrawlStep::Fetch(t) => t,
        _ => panic!("a task was expected"),
    };
    assert!(matches!(crawler.check_task(&public), TaskCheck::Go));
    assert!(matches!(crawler.check_task(&private), TaskCheck::Refused(_)));
}

#[test]
fn a_missing_robots_file_allows_everything() {
    let mut crawler = Crawler::new(CrawlerConfig { respect_robots: true, ..CrawlerConfig::default_for_test() });
    crawler.enqueue_seeds().map_err(|_| "seed").unwrap();
    let task = match crawler.next_step(0) {
        CrawlStep::Fetch(t) => t,
        _ => panic!("a task was expected"),
    };
    assert!(matches!(crawler.check_task(&task), TaskCheck::NeedRobots(_)));
    assert!(matches!(crawler.learn_robots(&task, &Some((404, "User-agent: *\nDisallow: /\n".to_string()))), TaskCheck::Go));
    assert!(matches!(crawler.check_task(&task), TaskCheck::Go));
}

#[test]
fn launches_are_spaced_by_the_delay() {
    let mut crawler = Crawler::new(CrawlerConfig {
        seeds: vec!["https://a.example/".to_string(), "https://b.example/".to_string()],
        delay_ms: 100,
        ..CrawlerConfig::default_for_test()
    });
    crawler.enqueue_seeds().map_err(|_| "seed").unwrap();
    assert!(matches!(crawler.next_step(1000), CrawlStep::Fetch(_)));
    assert!(matches!(crawler.next_step(1040), CrawlStep::Pause(60)));
    assert!(matches!(crawler.next_step(900), CrawlStep::Pause(200)));
    assert_eq!(crawler.stats().pages_fetched, 1);
    match crawler.next_step(1100) {
        CrawlStep::Fetch(t) => assert_eq!(t.url.as_str(), "https://b.example/"),
        _ => panic!("the second task should start once the delay has passed"),
    }
    assert!(matches!(crawler.next_step(5000), CrawlStep::Wait));
}
