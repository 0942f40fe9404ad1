use rust_crawler::models::{Link, Page};
use rust_crawler::storage::{push_csv_field, push_decimal, CsvStorage, SqliteStorage};

#[test]
fn test_create_csv_storage() {
    let storage = CsvStorage::new("test.csv");
    assert!(storage.is_ok());
}

#[test]
fn test_create_sqlite_storage() {
    let storage = SqliteStorage::new("test.db");
    assert!(storage.is_ok());
}

fn sample_page() -> Page {
    Page {
        url: "https://example.com/a?x=1,2".to_string(),
        title: Some("Say \"hi\"".to_string()),
        content: None,
        status_code: 200,
        depth: 1,
        links: vec![
            Link::new("a".to_string(), "https://example.com/".to_string(), true),
            Link::new("b".to_string(), "https://other.com/".to_string(), false),
        ],
        fetch_duration_ms: 1234,
        crawled_at: 1700000000,
    }
}

#[test]
fn csv_header_and_records() {
    let csv = CsvStorage::new("out.csv").unwrap();
    assert_eq!(csv.path_str(), "out.csv");
    assert_eq!(csv.header_line(), "url,title,content,status_code,depth,link_count,fetch_duration_ms,crawled_at\n");
    assert_eq!(
        csv.record_line(&sample_page()),
        "\"https://example.com/a?x=1,2\",\"Say \"\"hi\"\"\",,200,1,2,1234,1700000000\n"
    );
}

#[test]
fn csv_fields_are_quoted_only_where_needed() {
    let mut out = Vec::new();
    push_csv_field(&"plain".chars().collect(), &mut out);
    out.push('|');
    push_csv_field(&"two\nlines".chars().collect(), &mut out);
    out.push('|');
    push_csv_field(&"\"".chars().collect(), &mut out);
    out.push('|');
    push_csv_field(&Vec::new(), &mut out);
    assert_eq!(out.iter().collect::<String>(), "plain|\"two\nlines\"|\"\"\"\"|");
}

#[test]
fn decimals_have_no_leading_zeros() {
    let mut out = Vec::new();
    push_decimal(0, &mut out);
    out.push(' ');
    push_decimal(907, &mut out);
    out.push(' ');
    push_decimal(u64::MAX, &mut out);
    assert_eq!(out.iter().collect::<String>(), "0 907 18446744073709551615");
}

#[test]
fn sqlite_rows_and_statements() {
    let db = SqliteStorage::new("out.db").unwrap();
    assert_eq!(db.path_str(), "out.db");
    assert!(db.create_table_sql().starts_with("CREATE TABLE IF NOT EXISTS pages (url TEXT NOT NULL"));
    assert!(db.insert_sql().starts_with("INSERT INTO pages (url, title, content"));
    let mut page = sample_page();
    page.fetch_duration_ms = u64::MAX;
    let row = db.row(&page);
    assert_eq!(row.url, "https://example.com/a?x=1,2");
    assert_eq!(row.title.as_deref(), Some("Say \"hi\""));
    assert_eq!(row.content, None);
    assert_eq!((row.status_code, row.depth, row.link_count), (200, 1, 2));
    assert_eq!(row.fetch_duration_ms, i64::MAX);
    assert_eq!(row.crawled_at, 1700000000);
}
