use rust_crawler::config::{ConfigError, CrawlerConfig, OutputFormat};
use rust_crawler::urls::WebUrl;

#[test]
fn test_output_format_from_str() {
    assert_eq!("json".parse::<OutputFormat>().unwrap(), OutputFormat::Json);
    assert_eq!("csv".parse::<OutputFormat>().unwrap(), OutputFormat::Csv);
    assert_eq!("sqlite".parse::<OutputFormat>().unwrap(), OutputFormat::Sqlite);
    assert!("unknown".parse::<OutputFormat>().is_err());
}

#[test]
fn test_config_validation() {
    let mut config = CrawlerConfig::default_for_test();
    assert!(config.validate().is_ok());

    config.seeds.clear();
    assert!(matches!(config.validate(), Err(ConfigError::NoSeeds)));

    config.seeds = vec!["not-a-url".to_string()];
    assert!(matches!(config.validate(), Err(ConfigError::InvalidUrl(_, _))));

    config = CrawlerConfig::default_for_test();
    config.max_concurrency = 0;
    assert!(matches!(config.validate(), Err(ConfigError::InvalidConcurrency)));
}

#[test]
fn test_is_url_allowed() {
    let config = CrawlerConfig {
        allowed_domains: vec!["example.com".to_string()],
        exclude_patterns: vec!["/admin".to_string()],
        ..CrawlerConfig::default_for_test()
    };

    let allowed = WebUrl::parse("https://example.com/page").unwrap();
    let denied_domain = WebUrl::parse("https://other.com/page").unwrap();
    let denied_pattern = WebUrl::parse("https://example.com/admin").unwrap();

    assert!(config.is_url_allowed(&allowed));
    assert!(!config.is_url_allowed(&denied_domain));
    assert!(!config.is_url_allowed(&denied_pattern));
}

#[test]
fn format_names_ignore_case_and_unknown_names_are_refused() {
    assert_eq!(OutputFormat::parse_name("JSON"), Ok(OutputFormat::Json));
    assert_eq!(OutputFormat::parse_name("Sqlite"), Ok(OutputFormat::Sqlite));
    let err = OutputFormat::parse_name("xml").unwrap_err();
    assert_eq!(err, "未知的输出格式: xml，可选: json, csv, sqlite");
}

#[test]
fn format_names_and_extensions() {
    assert_eq!(OutputFormat::Json.to_string(), "json");
    assert_eq!(OutputFormat::Csv.to_string(), "csv");
    assert_eq!(OutputFormat::Sqlite.to_string(), "sqlite");
    assert_eq!(OutputFormat::Json.extension(), "json");
    assert_eq!(OutputFormat::Csv.extension(), "csv");
    assert_eq!(OutputFormat::Sqlite.extension(), "db");
    assert_eq!(OutputFormat::default(), OutputFormat::Json);
}

#[test]
fn output_path_takes_the_format_extension() {
    let mut config = CrawlerConfig::default_for_test();
    assert_eq!(config.output_path_with_ext(), "test_output.json");
    config.format = OutputFormat::Sqlite;
    assert_eq!(config.output_path_with_ext(), "test_output.db");
    config.output = "out/results.txt".to_string();
    config.format = OutputFormat::Csv;
    assert_eq!(config.output_path_with_ext(), "out/results.csv");
}

#[test]
fn validation_reports_the_bad_seed_and_a_deep_crawl() {
    let mut config = CrawlerConfig::default_for_test();
    config.seeds = vec!["https://ok.example".to_string(), "nope".to_string()];
    match config.validate() {
        Err(ConfigError::InvalidUrl(seed, msg)) => {
            assert_eq!(seed, "nope");
            assert_eq!(msg, "relative URL without a base");
        }
        _ => panic!("expected an invalid seed"),
    }
    let mut config = CrawlerConfig::default_for_test();
    config.max_depth = 11;
    assert!(matches!(config.validate(), Err(ConfigError::DepthTooLarge(11))));
    config.max_depth = 10;
    assert!(config.validate().is_ok());
}

#[test]
fn subdomains_of_an_allowed_domain_pass() {
    let config = CrawlerConfig {
        allowed_domains: vec!["example.com".to_string()],
        ..CrawlerConfig::default_for_test()
    };
    assert!(config.is_url_allowed(&WebUrl::parse("https://docs.example.com/x").unwrap()));
    assert!(!config.is_url_allowed(&WebUrl::parse("https://badexample.com/x").unwrap()));
}

#[test]
fn default_test_config_values() {
    let c = CrawlerConfig::default_for_test();
    assert_eq!(c.seeds, vec!["https://example.com".to_string()]);
    assert_eq!(c.max_depth, 1);
    assert_eq!(c.max_concurrency, 5);
    assert_eq!(c.max_pages, 10);
    assert_eq!(c.user_agent, "rust-crawler/test");
    assert_eq!(c.format, OutputFormat::Json);
}

#[test]
fn a_format_name_parses_back_in_any_case() {
    for f in [OutputFormat::Json, OutputFormat::Csv, OutputFormat::Sqlite] {
        let name = f.to_string();
        assert_eq!(name.parse::<OutputFormat>(), Ok(f));
        assert_eq!(name.to_uppercase().parse::<OutputFormat>(), Ok(f));
    }
}
