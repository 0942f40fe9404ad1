use rust_crawler::fetcher::{after_failure, charset_from, check_response, decode_body, FetcherError, RetryStep};

fn ct(s: &str) -> Option<String> {
    Some(s.to_string())
}

#[test]
fn transient_failures() {
    assert!(FetcherError::HttpError("reset".to_string()).is_transient());
    assert!(FetcherError::Timeout(30).is_transient());
    assert!(FetcherError::BadStatus(429).is_transient());
    assert!(FetcherError::BadStatus(500).is_transient());
    assert!(FetcherError::BadStatus(599).is_transient());
    assert!(!FetcherError::BadStatus(404).is_transient());
    assert!(!FetcherError::BadStatus(600).is_transient());
    assert!(!FetcherError::UrlError("bad".to_string()).is_transient());
    assert!(!FetcherError::NotHtml(None).is_transient());
}

#[test]
fn responses_are_checked_by_status_then_type() {
    assert!(check_response(200, &ct("text/html; charset=utf-8")).is_ok());
    assert!(check_response(204, &ct("application/xhtml+xml")).is_ok());
    assert!(check_response(299, &None).is_ok());
    assert!(matches!(check_response(404, &ct("text/html")), Err(FetcherError::BadStatus(404))));
    assert!(matches!(check_response(301, &ct("image/png")), Err(FetcherError::BadStatus(301))));
    match check_response(200, &ct("image/png")) {
        Err(FetcherError::NotHtml(Some(t))) => assert_eq!(t, "image/png"),
        _ => panic!("a non-HTML type was accepted"),
    }
}

#[test]
fn charset_is_read_from_the_parameters() {
    assert_eq!(charset_from(&ct("text/html; charset=GBK")), Some("GBK".to_string()));
    assert_eq!(charset_from(&ct("text/html;Charset= utf-8 ;q=1")), Some("utf-8".to_string()));
    assert_eq!(charset_from(&ct("text/html")), None);
    assert_eq!(charset_from(&ct("charset=big5")), Some("big5".to_string()));
    assert_eq!(charset_from(&None), None);
}

#[test]
fn bodies_decode_by_charset() {
    let gbk_bytes: &[u8] = &[0xc4, 0xe3, 0xba, 0xc3];
    assert_eq!(decode_body(&ct("text/html; charset=gbk"), gbk_bytes), "你好");
    assert_eq!(decode_body(&ct("text/html; charset=GB2312"), gbk_bytes), "你好");
    assert_eq!(decode_body(&ct("text/html; charset=utf-8"), "héllo".as_bytes()), "héllo");
    assert_eq!(decode_body(&ct("text/html; charset=latin1"), &[0x63, 0x61, 0x66, 0xe9]), "café");
    assert_eq!(decode_body(&ct("text/html; charset=big5"), &[0xa4, 0xa4]), "中");
    assert_eq!(decode_body(&ct("text/html; charset=shift_jis"), &[0x82, 0xa0]), "あ");
    assert_eq!(decode_body(&ct("text/html; charset=euc-kr"), &[0xb0, 0xa1]), "가");
    // an unknown charset: UTF-8 when valid, else GBK
    assert_eq!(decode_body(&ct("text/html; charset=x-unknown"), "ok".as_bytes()), "ok");
    assert_eq!(decode_body(&ct("text/html; charset=x-unknown"), gbk_bytes), "你好");
}

#[test]
fn without_a_charset_many_replacements_switch_to_gbk() {
    let gbk_bytes: &[u8] = &[0xc4, 0xe3, 0xba, 0xc3];
    assert_eq!(decode_body(&None, gbk_bytes), "你好");
    assert_eq!(decode_body(&None, "plain".as_bytes()), "plain");
    // one replaced byte in a long text stays UTF-8
    let mut mostly_ascii = vec![b'a'; 100];
    mostly_ascii.push(0xff);
    let decoded = decode_body(&None, &mostly_ascii);
    assert!(decoded.starts_with("aaaa"));
    assert!(decoded.ends_with('\u{FFFD}'));
}

#[test]
fn retries_only_transient_failures_while_attempts_remain() {
    let timeout = FetcherError::Timeout(5);
    assert!(matches!(after_failure(0, 2, 500, &timeout), RetryStep::RetryAfter(500)));
    assert!(matches!(after_failure(1, 2, 500, &timeout), RetryStep::RetryAfter(500)));
    assert!(matches!(after_failure(2, 2, 500, &timeout), RetryStep::GiveUp));
    assert!(matches!(after_failure(0, 2, 500, &FetcherError::BadStatus(404)), RetryStep::GiveUp));
    assert!(matches!(after_failure(0, 0, 500, &timeout), RetryStep::GiveUp));
}

#[test]
fn valid_utf8_decodes_alike_with_and_without_a_charset() {
    let bytes = "<p>héllo, 世界</p>".as_bytes();
    let with = decode_body(&ct("text/html; charset=UTF-8"), bytes);
    let without = decode_body(&None, bytes);
    let plain = decode_body(&ct("text/html"), bytes);
    assert_eq!(with, "<p>héllo, 世界</p>");
    assert_eq!(with, without);
    assert_eq!(with, plain);
}
