use docs_scraper::config::{
    Config, CrawlConfig, IndexSetting, MeilisearchConfig, SelectorEntry, SelectorMap,
};
use docs_scraper::crawl::{
    canonical_url, classify_response, is_html_content_type, read_sitemap, CrawlFrontier, FetchOutcome,
    PageVerdict, ResponseKind, SitemapDocument, SitemapWalk,
};

fn base_config() -> Config {
    let mut selectors = SelectorMap::new();
    selectors.insert("lvl0".to_string(), SelectorEntry::Simple("h1".to_string()));
    selectors.insert("content".to_string(), SelectorEntry::Simple("p".to_string()));
    Config {
        only_urls: Vec::new(),
        start_urls: Vec::new(),
        sitemap_urls: Vec::new(),
        stop_urls: None,
        selectors,
        page_rank: Vec::new(),
        crawl: CrawlConfig { concurrency: 2, max_pages: 10, timeout_seconds: 5, user_agent: None },
        meilisearch: MeilisearchConfig {
            host: String::new(),
            api_key: String::new(),
            index_uid: String::new(),
            index_setting: IndexSetting::default(),
            patch_size: 500,
        },
    }
}

const LINKS: &str = r#"<html><body><h1>Docs</h1><p>x</p>
<a href="/docs/a.html">a</a>
<a href="https://other.test/x">elsewhere</a>
<a href="a.html#part">again</a>
<a href="b.html">b</a>
<a>no target</a>
</body></html>"#;

fn page(url: &str, html: &str) -> FetchOutcome {
    FetchOutcome::Page { final_url: url.to_string(), html: html.to_string() }
}

#[test]
fn canonical_url_drops_fragment() {
    assert_eq!(canonical_url("https://example.test/a.html#top"), "https://example.test/a.html");
    assert_eq!(canonical_url("https://Example.TEST"), "https://example.test/");
    assert_eq!(canonical_url("not a url"), "not a url");
}

#[test]
fn html_content_type_detection() {
    assert!(is_html_content_type(Some("text/html; charset=utf-8")));
    assert!(is_html_content_type(Some("application/xhtml+xml, text/html")));
    assert!(!is_html_content_type(Some("application/json")));
    assert!(!is_html_content_type(Some("text/htm")));
    assert!(!is_html_content_type(None));
    assert_eq!(classify_response(false, Some("text/html")), ResponseKind::Failed);
    assert_eq!(classify_response(true, Some("image/png")), ResponseKind::NotHtml);
    assert_eq!(classify_response(true, Some("text/html")), ResponseKind::Html);
}

#[test]
fn follows_same_host_links_once() {
    let mut config = base_config();
    config.start_urls = vec!["https://example.test/docs/".to_string(), "::not a url".to_string()];
    let mut frontier = CrawlFrontier::new(&config, Vec::new());
    assert!(frontier.should_continue());
    let first = frontier.next_fetches();
    assert_eq!(first, vec!["https://example.test/docs/".to_string()]);
    assert!(frontier.next_fetches().is_empty());

    let verdict = frontier.finish_fetch(&config, page("https://example.test/docs/", LINKS)).unwrap();
    assert_eq!(verdict, PageVerdict::Extracted(2));
    let next = frontier.next_fetches();
    assert_eq!(
        next,
        vec!["https://example.test/docs/a.html".to_string(), "https://example.test/docs/b.html".to_string()]
    );
    assert_eq!(frontier.fetched(), 1);
    assert_eq!(frontier.into_records().len(), 2);
}

#[test]
fn sitemap_urls_join_the_seeds() {
    let mut config = base_config();
    config.start_urls = vec!["https://example.test/".to_string()];
    let mut frontier = CrawlFrontier::new(&config, vec!["https://example.test/s.html".to_string()]);
    let urls = frontier.next_fetches();
    assert_eq!(urls, vec!["https://example.test/".to_string(), "https://example.test/s.html".to_string()]);
}

#[test]
fn stop_urls_are_never_fetched() {
    let mut config = base_config();
    config.start_urls =
        vec!["https://example.test/stop.html#x".to_string(), "https://example.test/go.html".to_string()];
    config.stop_urls = Some(vec!["https://example.test/stop.html".to_string()]);
    let mut frontier = CrawlFrontier::new(&config, Vec::new());
    assert_eq!(frontier.next_fetches(), vec!["https://example.test/go.html".to_string()]);
}

#[test]
fn only_urls_mode_stays_within_the_list() {
    let mut config = base_config();
    config.only_urls = vec!["https://example.test/p.html".to_string()];
    config.start_urls = vec!["https://example.test/".to_string()];
    config.stop_urls = Some(vec!["https://example.test/p.html".to_string()]);
    let mut frontier = CrawlFrontier::new(&config, vec!["https://example.test/s.html".to_string()]);
    let urls = frontier.next_fetches();
    assert_eq!(urls, vec!["https://example.test/p.html".to_string()]);
    let verdict = frontier.finish_fetch(&config, page("https://example.test/p.html#top", LINKS)).unwrap();
    assert_eq!(verdict, PageVerdict::Extracted(2));
    assert!(frontier.next_fetches().is_empty());
    assert!(!frontier.should_continue());
}

#[test]
fn redirect_outside_only_urls_is_skipped() {
    let mut config = base_config();
    config.only_urls = vec!["https://example.test/p.html".to_string()];
    let mut frontier = CrawlFrontier::new(&config, Vec::new());
    frontier.next_fetches();
    let verdict = frontier.finish_fetch(&config, page("https://example.test/elsewhere.html", LINKS)).unwrap();
    assert_eq!(verdict, PageVerdict::OutsideOnlyUrls);
    assert_eq!(frontier.skipped(), 1);
    assert_eq!(frontier.fetched(), 0);
    assert!(frontier.into_records().is_empty());
}

#[test]
fn failures_and_non_html_are_counted() {
    let mut config = base_config();
    config.start_urls = vec!["https://example.test/a".to_string(), "https://example.test/b".to_string()];
    let mut frontier = CrawlFrontier::new(&config, Vec::new());
    assert_eq!(frontier.next_fetches().len(), 2);
    assert_eq!(frontier.finish_fetch(&config, FetchOutcome::Failed).unwrap(), PageVerdict::Failed);
    assert_eq!(frontier.finish_fetch(&config, FetchOutcome::NotHtml).unwrap(), PageVerdict::NotHtml);
    assert_eq!(frontier.failed(), 1);
    assert_eq!(frontier.skipped(), 1);
}

#[test]
fn page_limit_bounds_the_crawl() {
    let mut config = base_config();
    config.crawl.max_pages = 1;
    config.start_urls = vec!["https://example.test/a".to_string(), "https://example.test/b".to_string()];
    let mut frontier = CrawlFrontier::new(&config, Vec::new());
    assert_eq!(frontier.next_fetches(), vec!["https://example.test/a".to_string()]);
    assert!(!frontier.should_continue());
    assert!(frontier.next_fetches().is_empty());
}

#[test]
fn extraction_error_ends_the_crawl() {
    let mut config = base_config();
    config.selectors.insert("content".to_string(), SelectorEntry::Simple("[".to_string()));
    config.start_urls = vec!["https://example.test/a".to_string()];
    let mut frontier = CrawlFrontier::new(&config, Vec::new());
    frontier.next_fetches();
    let error = frontier.finish_fetch(&config, page("https://example.test/a", LINKS)).unwrap_err();
    assert!(error.starts_with("selectors.content: invalid CSS selector:"));
}

#[test]
fn sitemap_index_expands_and_url_sets_collect() {
    let mut walk = SitemapWalk::new("https://example.test/sitemap.xml");
    let current = walk.next_sitemap().unwrap();
    assert_eq!(current, "https://example.test/sitemap.xml");
    walk.add_document(
        &current,
        SitemapDocument::Index(vec!["sub.xml".to_string(), "https://example.test/other.xml".to_string()]),
    )
    .unwrap();
    assert_eq!(walk.next_sitemap().as_deref(), Some("https://example.test/sub.xml"));
    walk.add_document(
        "https://example.test/sub.xml",
        SitemapDocument::UrlSet(vec!["https://example.test/a".to_string(), "relative".to_string()]),
    )
    .unwrap();
    assert_eq!(walk.next_sitemap().as_deref(), Some("https://example.test/other.xml"));
    assert_eq!(walk.next_sitemap(), None);
    assert_eq!(walk.into_urls(), vec!["https://example.test/a".to_string()]);
}

#[test]
fn sitemap_index_with_unresolvable_location_fails() {
    let mut walk = SitemapWalk::new("not a url");
    let current = walk.next_sitemap().unwrap();
    assert!(walk.add_document(&current, SitemapDocument::Index(vec!["sub.xml".to_string()])).is_err());
    assert_eq!(walk.next_sitemap(), None);
}

#[test]
fn seeds_are_normalized_urls() {
    let mut config = base_config();
    config.start_urls = vec!["HTTPS://Example.TEST/docs".to_string()];
    let mut frontier = CrawlFrontier::new(&config, Vec::new());
    assert_eq!(frontier.next_fetches(), vec!["https://example.test/docs".to_string()]);
}

#[test]
fn stop_urls_ignore_fragments_on_both_sides() {
    let mut config = base_config();
    config.start_urls = vec!["https://a.test/x#g".to_string(), "https://a.test/y".to_string()];
    config.stop_urls = Some(vec!["https://a.test/x#f".to_string()]);
    let mut frontier = CrawlFrontier::new(&config, Vec::new());
    assert_eq!(frontier.next_fetches(), vec!["https://a.test/y".to_string()]);
}

#[test]
fn sitemap_index_is_recognised_by_its_sitemaps() {
    let index = vec!["https://e.test/a.xml".to_string()];
    match read_sitemap(Some(Vec::new()), Some(index.clone())) {
        Some(SitemapDocument::Index(locs)) => assert_eq!(locs, index),
        _ => panic!("expected an index"),
    }
    let pages = vec!["https://e.test/p".to_string()];
    match read_sitemap(Some(pages.clone()), Some(Vec::new())) {
        Some(SitemapDocument::UrlSet(locs)) => assert_eq!(locs, pages),
        _ => panic!("expected a URL set"),
    }
    match read_sitemap(None, Some(index.clone())) {
        Some(SitemapDocument::Index(locs)) => assert_eq!(locs, index),
        _ => panic!("expected an index"),
    }
    assert!(read_sitemap(None, None).is_none());
}
