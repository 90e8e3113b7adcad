use docs_scraper::config::{
    Config, CrawlConfig, IndexSetting, MeilisearchConfig, PageRankRule, SelectorEntry, SelectorMap,
};
use docs_scraper::extract::{extract_page, get_level_weight};

fn example_config() -> Config {
    let mut selectors = SelectorMap::new();
    selectors.insert("lvl0".to_string(), SelectorEntry::Simple("h1".to_string()));
    selectors.insert("lvl1".to_string(), SelectorEntry::Simple("h2".to_string()));
    selectors.insert("content".to_string(), SelectorEntry::Simple("p".to_string()));
    Config {
        only_urls: Vec::new(),
        start_urls: Vec::new(),
        sitemap_urls: Vec::new(),
        stop_urls: None,
        page_rank: Vec::new(),
        selectors,
        crawl: CrawlConfig::default(),
        meilisearch: MeilisearchConfig {
            host: "http://127.0.0.1:7700".to_string(),
            api_key: "test_api_key".to_string(),
            index_uid: "test_index".to_string(),
            index_setting: IndexSetting::default(),
            patch_size: 100,
        },
    }
}

const PAGE: &str = r#"<!DOCTYPE html>
<html lang="en">
<head><title>Tree</title></head>
<body>
  <h1>标题</h1>
  <h2>副标题一</h2>
  <p>段落一</p>
  <p>   </p>
  <h2 id="second">副标题二</h2>
  <p>段落
     二</p>
  <div><p>段落三</p></div>
  <h1>新标题</h1>
  <p>段落四</p>
</body>
</html>"#;

#[test]
fn level_weight_matches_docsearch_rules() {
    assert_eq!(get_level_weight("lvl0"), 100);
    assert_eq!(get_level_weight("lvl2"), 80);
    assert_eq!(get_level_weight("lvl6"), 40);
    assert_eq!(get_level_weight("content"), 0);
    assert_eq!(get_level_weight("unknown"), 0);
}

#[test]
fn level_weight_reads_signed_and_padded_levels() {
    assert_eq!(get_level_weight("lvl+3"), 70);
    assert_eq!(get_level_weight("lvl-1"), 110);
    assert_eq!(get_level_weight("lvl007"), 30);
    assert_eq!(get_level_weight("lvl"), 0);
    assert_eq!(get_level_weight("lvl1x"), 0);
    assert_eq!(get_level_weight("Lvl1"), 0);
}

#[test]
fn invalid_css_selector_returns_field_name() {
    let mut config = example_config();
    config.selectors.insert("content".to_string(), SelectorEntry::Simple("[".to_string()));

    let error = extract_page("<p>text</p>", "https://example.test/", &config).unwrap_err();
    assert!(error.starts_with("selectors.content: invalid CSS selector:"));
}

#[test]
fn extracts_example_document_in_dom_order() {
    let records = extract_page(PAGE, "https://example.test/tree.html#old", &example_config()).unwrap();

    assert_eq!(records.len(), 8);
    assert_eq!(records.iter().map(|r| r.position).collect::<Vec<_>>(), (0..8).collect::<Vec<_>>());
    let types: Vec<&str> = records.iter().map(|r| r.record_type.as_str()).collect();
    assert_eq!(types, ["lvl0", "lvl1", "content", "lvl1", "content", "content", "lvl0", "content"]);

    assert_eq!(records[0].level, 100);
    assert_eq!(records[0].content, None);
    assert_eq!(records[0].anchor.as_deref(), Some("标题"));
    assert_eq!(records[0].hierarchy.lvl0.as_deref(), Some("标题"));
    assert_eq!(records[0].hierarchy.radio_lvl0.as_deref(), Some("标题"));

    assert_eq!(records[1].level, 90);
    assert_eq!(records[1].hierarchy.lvl0.as_deref(), Some("标题"));
    assert_eq!(records[1].hierarchy.lvl1.as_deref(), Some("副标题一"));
    assert_eq!(records[1].hierarchy.radio_lvl1.as_deref(), Some("副标题一"));
    assert_eq!(records[1].hierarchy.radio_lvl0, None);

    assert_eq!(records[2].level, 0);
    assert_eq!(records[2].content.as_deref(), Some("段落一"));
    assert_eq!(records[2].anchor.as_deref(), Some("副标题一"));
    assert_eq!(records[2].hierarchy.lvl1.as_deref(), Some("副标题一"));
    assert_eq!(records[2].hierarchy.radio_lvl1, None);
    assert_eq!(records[2].lang, "en");
    assert_eq!(records[2].url_without_anchor, "https://example.test/tree.html");
    assert_eq!(records[2].url_without_variables, "https://example.test/tree.html#old");
    assert!(records[2].no_variables);
    assert!(records[2].tags.is_empty());

    assert_eq!(records[3].anchor.as_deref(), Some("second"));
    assert_eq!(records[3].url, "https://example.test/tree.html#second");
    assert_eq!(records[3].hierarchy.lvl1.as_deref(), Some("副标题二"));
    assert_eq!(records[3].hierarchy.radio_lvl1.as_deref(), Some("second"));

    assert_eq!(records[4].content.as_deref(), Some("段落 二"));
    assert_eq!(records[4].anchor.as_deref(), Some("副标题二"));
    assert_eq!(records[5].content.as_deref(), Some("段落三"));

    assert_eq!(records[6].hierarchy.lvl0.as_deref(), Some("新标题"));
    assert_eq!(records[6].hierarchy.lvl1, None);
    assert_eq!(records[7].anchor.as_deref(), Some("新标题"));
    assert_eq!(records[7].hierarchy.lvl1, None);
}

#[test]
fn object_id_is_sha256_of_identity() {
    let records = extract_page(PAGE, "https://example.test/tree.html#old", &example_config()).unwrap();
    assert_eq!(
        records[0].object_id,
        "9017905ac5028f7d688ee0b294355d72f8667ac677f1640f3645b7c1260f7eb6"
    );
}

#[test]
fn object_id_is_stable_for_same_input() {
    let first = extract_page(PAGE, "https://example.test/tree.html#old", &example_config()).unwrap();
    let second = extract_page(PAGE, "https://example.test/tree.html#old", &example_config()).unwrap();
    assert_eq!(first, second);
    for record in &first {
        assert_eq!(record.object_id.len(), 64);
        assert!(record.object_id.chars().all(|c| c.is_ascii_digit() || ('a'..='f').contains(&c)));
    }
    assert_ne!(first[0].object_id, first[1].object_id);
}

#[test]
fn lang_defaults_to_zh_cn() {
    let records = extract_page("<h1>T</h1><p>x</p>", "https://example.test/", &example_config()).unwrap();
    assert_eq!(records.len(), 2);
    assert_eq!(records[0].lang, "zh-CN");
}

#[test]
fn global_selector_uses_default_when_page_has_none() {
    let mut config = example_config();
    config.selectors.insert(
        "lvl0".to_string(),
        SelectorEntry::Detailed {
            selector: ".missing".to_string(),
            global: true,
            default_value: Some("文档".to_string()),
            attribute: None,
        },
    );
    let records = extract_page("<h2>A</h2><p>x</p>", "https://example.test/a", &config).unwrap();
    assert_eq!(records.len(), 3);
    assert_eq!(records[0].record_type, "lvl0");
    assert_eq!(records[0].anchor.as_deref(), Some("文档"));
    assert_eq!(records[1].hierarchy.lvl0.as_deref(), Some("文档"));
    assert_eq!(records[2].anchor.as_deref(), Some("A"));
}

#[test]
fn global_selector_found_on_page_is_not_walked_again() {
    let mut config = example_config();
    config.selectors.insert(
        "lvl0".to_string(),
        SelectorEntry::Detailed {
            selector: "  h1  ".to_string(),
            global: true,
            default_value: Some("文档".to_string()),
            attribute: None,
        },
    );
    let records =
        extract_page(r#"<h1 id="top">Title</h1><p>x</p><h1>Again</h1>"#, "https://example.test/a", &config).unwrap();
    assert_eq!(records.len(), 2);
    assert_eq!(records[0].anchor.as_deref(), Some("top"));
    assert_eq!(records[0].hierarchy.lvl0.as_deref(), Some("Title"));
    assert_eq!(records[0].hierarchy.radio_lvl0.as_deref(), Some("top"));
    assert_eq!(records[0].url, "https://example.test/a#top");
    assert_eq!(records[1].record_type, "content");
    assert_eq!(records[1].anchor.as_deref(), Some("Title"));
}

#[test]
fn blank_selector_is_ignored() {
    let mut config = example_config();
    config.selectors.insert("lvl1".to_string(), SelectorEntry::Simple("   ".to_string()));
    let records = extract_page("<h2>A</h2><p>x</p>", "https://example.test/a", &config).unwrap();
    assert_eq!(records.len(), 1);
    assert_eq!(records[0].record_type, "content");
    assert_eq!(records[0].anchor, None);
}

#[test]
fn unparsable_page_url_is_kept_as_given() {
    let records = extract_page(r#"<h1 id="x">T</h1>"#, "not a url", &example_config()).unwrap();
    assert_eq!(records[0].url_without_anchor, "not a url");
    assert_eq!(records[0].url, "not a url");
}

#[test]
fn page_rank_applies_to_every_record() {
    let mut config = example_config();
    config.page_rank = vec![
        PageRankRule { pattern: "https://example.test/**".to_string(), rank: 80 },
        PageRankRule { pattern: "https://example.test/about.html".to_string(), rank: 10 },
    ];
    let records = extract_page("<h1>T</h1><p>x</p>", "https://example.test/docs/a.html", &config).unwrap();
    assert!(records.iter().all(|r| r.page_rank == 80));
}

#[test]
fn crawl_and_upload_settings_do_not_change_records() {
    let first = extract_page(PAGE, "https://example.test/tree.html", &example_config()).unwrap();
    let mut other = example_config();
    other.crawl.max_pages = 3;
    other.start_urls = vec!["https://example.test/".to_string()];
    other.meilisearch.index_uid = "another".to_string();
    let second = extract_page(PAGE, "https://example.test/tree.html", &other).unwrap();
    assert_eq!(first, second);
}

#[test]
fn content_text_is_collapsed() {
    let records =
        extract_page("<p>  one\t two \n\n three  </p>", "https://example.test/", &example_config()).unwrap();
    assert_eq!(records.len(), 1);
    assert_eq!(records[0].content.as_deref(), Some("one two three"));
}

#[test]
fn global_selector_uses_the_text_it_finds() {
    let mut selectors = SelectorMap::new();
    selectors.insert(
        "lvl0".to_string(),
        SelectorEntry::Detailed {
            selector: "h1".to_string(),
            global: true,
            default_value: Some("D".to_string()),
            attribute: None,
        },
    );
    let mut config = example_config();
    config.selectors = selectors;
    let records = extract_page(
        "<html><body><h1 id='top'>Title</h1></body></html>",
        "https://example.test/p",
        &config,
    )
    .unwrap();
    assert_eq!(records.len(), 1);
    assert_eq!(records[0].record_type, "lvl0");
    assert_eq!(records[0].position, 0);
    assert_eq!(records[0].hierarchy.lvl0.as_deref(), Some("Title"));
}
