use docs_scraper::config::{
    Config, CrawlConfig, IndexSetting, MeilisearchConfig, PageRankRule, SelectorEntry, SelectorMap,
};

fn config_with_rules(rules: Vec<(&str, i32)>) -> Config {
    Config {
        only_urls: Vec::new(),
        start_urls: Vec::new(),
        sitemap_urls: Vec::new(),
        stop_urls: None,
        selectors: SelectorMap::new(),
        page_rank: rules
            .into_iter()
            .map(|(pattern, rank)| PageRankRule { pattern: pattern.to_string(), rank })
            .collect(),
        crawl: CrawlConfig::default(),
        meilisearch: MeilisearchConfig {
            host: String::new(),
            api_key: String::new(),
            index_uid: String::new(),
            index_setting: IndexSetting::default(),
            patch_size: 500,
        },
    }
}

#[test]
fn page_rank_without_matching_rule_is_zero() {
    let config = config_with_rules(vec![("https://example.com/about.html", 10)]);
    assert_eq!(config.page_rank_for("https://example.com/docs/a.html"), 0);
    assert_eq!(config_with_rules(vec![]).page_rank_for("https://example.com/"), 0);
}

#[test]
fn page_rank_prefix_and_exact_patterns() {
    let config = config_with_rules(vec![
        ("https://example.com/docs/**", 80),
        ("https://example.com/about.html", 10),
    ]);
    assert_eq!(config.page_rank_for("https://example.com/docs/intro.html"), 80);
    assert_eq!(config.page_rank_for("https://example.com/docs/"), 80);
    assert_eq!(config.page_rank_for("https://example.com/about.html"), 10);
    assert_eq!(config.page_rank_for("https://example.com/about.html#x"), 0);
    assert_eq!(config.page_rank_for("https://example.com/doc"), 0);
}

#[test]
fn later_matching_rule_overrides() {
    let config = config_with_rules(vec![
        ("https://example.com/**", 5),
        ("https://example.com/docs/**", 80),
        ("https://example.com/docs/old.html", -3),
    ]);
    assert_eq!(config.page_rank_for("https://example.com/docs/old.html"), -3);
    assert_eq!(config.page_rank_for("https://example.com/docs/new.html"), 80);
    assert_eq!(config.page_rank_for("https://example.com/blog"), 5);
}

#[test]
fn lone_double_star_matches_everything() {
    let config = config_with_rules(vec![("**", 7)]);
    assert_eq!(config.page_rank_for(""), 7);
    assert_eq!(config.page_rank_for("https://x.test/"), 7);
}

#[test]
fn selector_entry_accessors() {
    let simple = SelectorEntry::Simple("h1".to_string());
    assert_eq!(simple.raw_selector(), "h1");
    assert!(!simple.is_global());
    assert_eq!(simple.default_value(), None);
    let detailed = SelectorEntry::Detailed {
        selector: ".title".to_string(),
        global: true,
        default_value: Some("Docs".to_string()),
        attribute: None,
    };
    assert_eq!(detailed.raw_selector(), ".title");
    assert!(detailed.is_global());
    assert_eq!(detailed.default_value(), Some("Docs"));
}

#[test]
fn selector_map_insert_replaces() {
    let mut map = SelectorMap::new();
    map.insert("lvl0".to_string(), SelectorEntry::Simple("h1".to_string()));
    map.insert("content".to_string(), SelectorEntry::Simple("p".to_string()));
    map.insert("lvl0".to_string(), SelectorEntry::Simple("h2".to_string()));
    assert_eq!(map.len(), 2);
    assert_eq!(map.get("lvl0").map(|e| e.raw_selector()), Some("h2"));
    assert_eq!(map.get("content").map(|e| e.raw_selector()), Some("p"));
    assert!(map.get("lvl1").is_none());
    assert_eq!(map.item_at(0).0, "lvl0");
}

#[test]
fn crawl_defaults_follow_the_documentation() {
    let crawl = CrawlConfig::default();
    assert_eq!(crawl.concurrency, 4);
    assert_eq!(crawl.max_pages, 1000);
    assert_eq!(crawl.timeout_seconds, 60);
    assert_eq!(crawl.user_agent, None);
}

#[test]
fn index_setting_defaults_follow_the_documentation() {
    let setting = IndexSetting::default();
    assert_eq!(setting.displayed_attributes, vec!["*".to_string()]);
    assert!(setting.searchable_attributes.contains(&"content".to_string()));
    assert!(setting.searchable_attributes.contains(&"hierarchy_lvl0".to_string()));
    assert_eq!(setting.filterable_attributes, vec!["lang".to_string(), "url_without_anchor".to_string()]);
    assert!(setting.sortable_attributes.is_empty());
    assert_eq!(
        setting.ranking_rules,
        ["words", "typo", "attribute", "proximity", "exactness", "page_rank:desc", "level:desc", "position:asc"]
            .map(String::from)
            .to_vec()
    );
}
