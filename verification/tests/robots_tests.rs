use rust_crawler::robots::{parse_robots_txt, RobotsDecision, RobotsManager, RobotsTxt};
use rust_crawler::urls::WebUrl;

#[test]
fn test_parse_robots_txt_allow_disallow() {
    let text = "User-agent: *\nDisallow: /admin\nAllow: /admin/public\n";

    let robots = parse_robots_txt(text, "rust-crawler");
    assert!(!robots.is_allowed("/admin"));
    assert!(robots.is_allowed("/admin/public"));
    assert!(robots.is_allowed("/about"));
}

#[test]
fn test_parse_specific_user_agent() {
    let text = "User-agent: BadBot\nDisallow: /\n\nUser-agent: rust-crawler\nDisallow: /private\n";

    let robots = parse_robots_txt(text, "rust-crawler/0.1.0");
    assert!(robots.is_allowed("/public"));
    assert!(!robots.is_allowed("/private"));
}

#[test]
fn longest_rule_wins_and_allow_wins_ties() {
    let robots = RobotsTxt::from_rules(
        vec!["/a".to_string(), "/shop/".to_string()],
        vec!["/shop".to_string(), "/a".to_string(), "".to_string()],
    );
    assert!(robots.is_allowed("/a/b"));
    assert!(robots.is_allowed("/shop/cart"));
    assert!(!robots.is_allowed("/shopping"));
    assert!(robots.is_allowed("/other"));
    assert!(RobotsTxt::empty().is_allowed("/anything"));
    assert!(RobotsTxt::default().is_allowed("/"));
}

#[test]
fn comments_case_and_carriage_returns() {
    let text = "USER-AGENT: *   # everyone\r\nDISALLOW: /tmp # scratch\r\n";
    let robots = parse_robots_txt(text, "any");
    assert!(!robots.is_allowed("/tmp/x"));
    assert!(robots.is_allowed("/home"));
}

#[test]
fn manager_asks_for_robots_then_answers_from_memory() {
    let mut manager = RobotsManager::new("rust-crawler".to_string());
    let url = WebUrl::parse("https://example.com/private/page").unwrap();
    let key = match manager.check(&url) {
        RobotsDecision::Fetch { key, robots_url } => {
            assert_eq!(key, "https://example.com");
            assert_eq!(robots_url.as_str(), "https://example.com/robots.txt");
            key
        }
        RobotsDecision::Known(_) => panic!("rules are not known yet"),
    };
    let rules = manager.rules_from(&Some((200, "User-agent: *\nDisallow: /private\n".to_string())));
    manager.remember(key, rules);
    assert!(matches!(manager.check(&url), RobotsDecision::Known(false)));
    let open = WebUrl::parse("https://example.com/public").unwrap();
    assert!(matches!(manager.check(&open), RobotsDecision::Known(true)));
}

#[test]
fn missing_or_failed_robots_allow_everything() {
    let mut manager = RobotsManager::new("bot".to_string());
    let rules = manager.rules_from(&Some((404, "User-agent: *\nDisallow: /\n".to_string())));
    assert!(rules.is_allowed("/x"));
    let rules = manager.rules_from(&None);
    assert!(rules.is_allowed("/x"));
    manager.remember("http://a.test".to_string(), rules);
    let url = WebUrl::parse("http://a.test/x").unwrap();
    assert!(matches!(manager.check(&url), RobotsDecision::Known(true)));
    let no_host = WebUrl::parse("data:text/plain,hi").unwrap();
    assert!(matches!(manager.check(&no_host), RobotsDecision::Known(true)));
}

#[test]
fn remembering_again_replaces_the_rules() {
    let mut manager = RobotsManager::new("bot".to_string());
    let url = WebUrl::parse("http://a.test/x").unwrap();
    manager.remember("http://a.test".to_string(), parse_robots_txt("User-agent: *\nDisallow: /x\n", "bot"));
    assert!(matches!(manager.check(&url), RobotsDecision::Known(false)));
    manager.remember("http://a.test".to_string(), RobotsTxt::empty());
    assert!(matches!(manager.check(&url), RobotsDecision::Known(true)));
}

#[test]
fn the_agents_own_group_wins_over_the_wildcard() {
    let text = "User-agent: *\nDisallow: /\n\nUser-agent: rust-crawler\nDisallow: /private\n";
    let robots = parse_robots_txt(text, "rust-crawler/0.1.0");
    assert!(robots.is_allowed("/public"));
    assert!(!robots.is_allowed("/private"));
    let other = parse_robots_txt(text, "other-bot");
    assert!(!other.is_allowed("/public"));
}
