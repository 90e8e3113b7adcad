use docs_scraper::config::{IndexSetting, MeilisearchConfig};
use docs_scraper::sink::{
    batch_ranges, client_failure_message, deletion_filter, distinct_urls, health_failure_message,
    index_check_verdict, should_write, IndexProbe,
};

fn meili(host: &str, index: &str) -> MeilisearchConfig {
    MeilisearchConfig {
        host: host.to_string(),
        api_key: String::new(),
        index_uid: index.to_string(),
        index_setting: IndexSetting::default(),
        patch_size: 500,
    }
}

#[test]
fn writing_needs_host_and_index() {
    assert!(should_write(&meili("http://localhost:7700", "docs")));
    assert!(!should_write(&meili("  ", "docs")));
    assert!(!should_write(&meili("http://localhost:7700", "")));
}

#[test]
fn deletion_filter_escapes_quotes_and_backslashes() {
    assert_eq!(deletion_filter("https://e.test/a"), "url_without_anchor = 'https://e.test/a'");
    assert_eq!(deletion_filter("https://e.test/it's"), r"url_without_anchor = 'https://e.test/it\'s'");
    assert_eq!(deletion_filter(r"a\b"), r"url_without_anchor = 'a\\b'");
}

#[test]
fn distinct_urls_keep_first_occurrence() {
    let urls = vec!["b".to_string(), "a".to_string(), "b".to_string(), "c".to_string(), "a".to_string()];
    assert_eq!(distinct_urls(&urls), vec!["b".to_string(), "a".to_string(), "c".to_string()]);
}

#[test]
fn batches_cover_all_records() {
    assert_eq!(batch_ranges(0, 3), vec![]);
    assert_eq!(batch_ranges(7, 3), vec![(0, 3), (3, 6), (6, 7)]);
    assert_eq!(batch_ranges(6, 3), vec![(0, 3), (3, 6)]);
    assert_eq!(batch_ranges(2, 500), vec![(0, 2)]);
}

#[test]
fn index_check_verdicts() {
    assert!(index_check_verdict(IndexProbe::Found).is_ok());
    assert!(index_check_verdict(IndexProbe::IndexNotFound).is_ok());
    assert!(index_check_verdict(IndexProbe::InvalidApiKey).unwrap_err().contains("invalid_api_key"));
    assert!(index_check_verdict(IndexProbe::MissingAuthorizationHeader)
        .unwrap_err()
        .contains("missing_authorization_header"));
    assert_eq!(
        index_check_verdict(IndexProbe::Other("boom".to_string())).unwrap_err(),
        "MeiliSearch check failed: boom"
    );
}

#[test]
fn connection_failure_messages() {
    assert_eq!(
        client_failure_message("http://h", "bad"),
        "MeiliSearch: MeiliSearch client initialization failed (host: http://h) : bad"
    );
    assert_eq!(
        health_failure_message("http://h", "down"),
        "MeiliSearch: Unable to connect to MeiliSearch (http://h): down. Please check the meilisearch.host configuration, service status and network connectivity."
    );
}
