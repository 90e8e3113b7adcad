//! Crawler configuration and the page-ranking rules it carries.

use vstd::prelude::*;
use crate::text::{chars_of, chars_equal, chars_start_with, starts_with};

verus! {

/// Upload target and index settings of the Meilisearch instance.
pub struct MeilisearchConfig {
    pub host: String,
    pub api_key: String,
    pub index_uid: String,
    pub index_setting: IndexSetting,
    pub patch_size: usize,
}

/// Index attributes and ranking rules applied before upload.
pub struct IndexSetting {
    pub displayed_attributes: Vec<String>,
    pub searchable_attributes: Vec<String>,
    pub filterable_attributes: Vec<String>,
    pub sortable_attributes: Vec<String>,
    pub ranking_rules: Vec<String>,
}

/// The documented defaults: every attribute displayed; the heading fields
/// and the content searchable; the language and the page URL filterable (the
/// incremental deletion filters on `url_without_anchor`); nothing sortable;
/// ranking by the text rules, then page rank, level and position.
impl Default for IndexSetting {
    fn default() -> (r: Self)
        ensures
            r.displayed_attributes.deep_view() == seq!["*"@],
            r.searchable_attributes.deep_view() == seq![
                "hierarchy_radio_lvl0"@,
                "hierarchy_radio_lvl1"@,
                "hierarchy_radio_lvl2"@,
                "hierarchy_radio_lvl3"@,
                "hierarchy_radio_lvl4"@,
                "hierarchy_radio_lvl5"@,
                "hierarchy_radio_lvl6"@,
                "hierarchy_lvl0"@,
                "hierarchy_lvl1"@,
                "hierarchy_lvl2"@,
                "hierarchy_lvl3"@,
                "hierarchy_lvl4"@,
                "hierarchy_lvl5"@,
                "hierarchy_lvl6"@,
                "content"@,
            ],
            r.filterable_attributes.deep_view() == seq!["lang"@, "url_without_anchor"@],
            r.sortable_attributes@.len() == 0,
            r.ranking_rules.deep_view() == seq![
                "words"@,
                "typo"@,
                "attribute"@,
                "proximity"@,
                "exactness"@,
                "page_rank:desc"@,
                "level:desc"@,
                "position:asc"@,
            ],
    {
        let r = IndexSetting {
            displayed_attributes: vec!["*".to_owned()],
            searchable_attributes: vec![
                "hierarchy_radio_lvl0".to_owned(),
                "hierarchy_radio_lvl1".to_owned(),
                "hierarchy_radio_lvl2".to_owned(),
                "hierarchy_radio_lvl3".to_owned(),
                "hierarchy_radio_lvl4".to_owned(),
                "hierarchy_radio_lvl5".to_owned(),
                "hierarchy_radio_lvl6".to_owned(),
                "hierarchy_lvl0".to_owned(),
                "hierarchy_lvl1".to_owned(),
                "hierarchy_lvl2".to_owned(),
                "hierarchy_lvl3".to_owned(),
                "hierarchy_lvl4".to_owned(),
                "hierarchy_lvl5".to_owned(),
                "hierarchy_lvl6".to_owned(),
                "content".to_owned(),
            ],
            filterable_attributes: vec!["lang".to_owned(), "url_without_anchor".to_owned()],
            sortable_attributes: Vec::new(),
            ranking_rules: vec![
                "words".to_owned(),
                "typo".to_owned(),
                "attribute".to_owned(),
                "proximity".to_owned(),
                "exactness".to_owned(),
                "page_rank:desc".to_owned(),
                "level:desc".to_owned(),
                "position:asc".to_owned(),
            ],
        };
        assert(r.displayed_attributes.deep_view() =~= seq!["*"@]);
        assert(r.searchable_attributes.deep_view() =~= seq![
            "hierarchy_radio_lvl0"@,
            "hierarchy_radio_lvl1"@,
            "hierarchy_radio_lvl2"@,
            "hierarchy_radio_lvl3"@,
            "hierarchy_radio_lvl4"@,
            "hierarchy_radio_lvl5"@,
            "hierarchy_radio_lvl6"@,
            "hierarchy_lvl0"@,
            "hierarchy_lvl1"@,
            "hierarchy_lvl2"@,
            "hierarchy_lvl3"@,
            "hierarchy_lvl4"@,
            "hierarchy_lvl5"@,
            "hierarchy_lvl6"@,
            "content"@,
        ]);
        assert(r.filterable_attributes.deep_view() =~= seq!["lang"@, "url_without_anchor"@]);
        assert(r.ranking_rules.deep_view() =~= seq![
            "words"@,
            "typo"@,
            "attribute"@,
            "proximity"@,
            "exactness"@,
            "page_rank:desc"@,
            "level:desc"@,
            "position:asc"@,
        ]);
        r
    }
}

/// Overrides the page-level ranking weight of pages whose URL matches `pattern`.
pub struct PageRankRule {
    pub pattern: String,
    pub rank: i32,
}

impl View for PageRankRule {
    type V = (Seq<char>, i32);

    open spec fn view(&self) -> (Seq<char>, i32) {
        (self.pattern@, self.rank)
    }
}

/// Resource limits and request parameters of the HTTP crawl.
pub struct CrawlConfig {
    pub concurrency: usize,
    pub max_pages: usize,
    pub timeout_seconds: u64,
    pub user_agent: Option<String>,
}

/// The documented defaults: 4 concurrent requests, at most 1000 pages, a
/// 60-second timeout, the crawler's own user agent.
impl Default for CrawlConfig {
    fn default() -> (r: Self)
        ensures
            r.concurrency == 4,
            r.max_pages == 1000,
            r.timeout_seconds == 60,
            r.user_agent is None,
    {
        CrawlConfig { concurrency: 4, max_pages: 1000, timeout_seconds: 60, user_agent: None }
    }
}

/// A CSS selector for one record kind: either a bare selector, or one with
/// options. A global selector is evaluated once per page.
pub enum SelectorEntry {
    Simple(String),
    Detailed {
        selector: String,
        global: bool,
        default_value: Option<String>,
        attribute: Option<String>,
    },
}

/// The selector text of an entry.
pub open spec fn entry_selector(e: SelectorEntry) -> Seq<char> {
    match e {
        SelectorEntry::Simple(s) => s@,
        SelectorEntry::Detailed { selector, .. } => selector@,
    }
}

/// Whether an entry is global.
pub open spec fn entry_is_global(e: SelectorEntry) -> bool {
    match e {
        SelectorEntry::Simple(_) => false,
        SelectorEntry::Detailed { global, .. } => global,
    }
}

/// The fallback text of an entry.
pub open spec fn entry_default(e: SelectorEntry) -> Option<Seq<char>> {
    match e {
        SelectorEntry::Simple(_) => None,
        SelectorEntry::Detailed { default_value, .. } => match default_value {
            Some(v) => Some(v@),
            None => None,
        },
    }
}

impl SelectorEntry {
    pub fn raw_selector(&self) -> (r: &str)
        ensures
            r@ == entry_selector(*self),
    {
        match self {
            SelectorEntry::Simple(s) => s.as_str(),
            SelectorEntry::Detailed { selector, .. } => selector.as_str(),
        }
    }

    pub fn is_global(&self) -> (r: bool)
        ensures
            r == entry_is_global(*self),
    {
        match self {
            SelectorEntry::Simple(_) => false,
            SelectorEntry::Detailed { global, .. } => *global,
        }
    }

    pub fn default_value(&self) -> (r: Option<&str>)
        ensures
            match r {
                Some(v) => entry_default(*self) == Some(v@),
                None => entry_default(*self) is None,
            },
    {
        match self {
            SelectorEntry::Simple(_) => None,
            SelectorEntry::Detailed { default_value, .. } => match default_value {
                Some(v) => Some(v.as_str()),
                None => None,
            },
        }
    }
}

/// Named selectors, each name at most once, kept in insertion order.
pub struct SelectorMap {
    items: Vec<(String, SelectorEntry)>,
}

impl SelectorMap {
    /// The names, in order.
    pub closed spec fn names(&self) -> Seq<Seq<char>> {
        self.items@.map_values(|p: (String, SelectorEntry)| p.0@)
    }

    /// The entries, in the order of `names`.
    pub closed spec fn entries(&self) -> Seq<SelectorEntry> {
        self.items@.map_values(|p: (String, SelectorEntry)| p.1)
    }

    /// No name occurs twice.
    pub open spec fn wf(&self) -> bool {
        &&& self.names().no_duplicates()
        &&& self.names().len() == self.entries().len()
    }

    /// The entry stored under `name`.
    pub open spec fn lookup(&self, name: Seq<char>) -> Option<SelectorEntry> {
        if self.names().contains(name) {
            Some(self.entries()[self.names().index_of(name)])
        } else {
            None
        }
    }

    pub fn new() -> (r: Self)
        ensures
            r.wf(),
            r.names().len() == 0,
    {
        let r = SelectorMap { items: Vec::new() };
        assert(r.names() =~= Seq::<Seq<char>>::empty());
        r
    }

    /// The number of names.
    pub fn len(&self) -> (r: usize)
        ensures
            r == self.names().len(),
            r == self.entries().len(),
    {
        self.items.len()
    }

    /// The name and entry at position `i`.
    pub fn item_at(&self, i: usize) -> (r: (&str, &SelectorEntry))
        requires
            i < self.names().len(),
        ensures
            r.0@ == self.names()[i as int],
            *r.1 == self.entries()[i as int],
    {
        let p = &self.items[i];
        (p.0.as_str(), &p.1)
    }

    /// The position of `name`, if it is stored.
    pub fn position_of(&self, name: &str) -> (r: Option<usize>)
        requires
            self.wf(),
        ensures
            match r {
                Some(i) => i < self.names().len() && self.names()[i as int] == name@
                    && self.names().index_of(name@) == i,
                None => !self.names().contains(name@),
            },
    {
        let target = chars_of(name);
        let mut i: usize = 0;
        while i < self.items.len()
            invariant
                self.wf(),
                i <= self.items.len(),
                target@ == name@,
                forall|k: int| 0 <= k < i ==> self.names()[k] != name@,
            decreases self.items.len() - i,
        {
            let key = chars_of(self.items[i].0.as_str());
            if chars_equal(&key, &target) {
                assert(self.names()[i as int] == name@);
                assert(self.names().contains(name@));
                proof {
                    let j = self.names().index_of(name@);
                    assert(self.names()[j] == name@);
                    if j != i {
                        assert(self.names().no_duplicates());
                    }
                }
                return Some(i);
            }
            i = i + 1;
        }
        proof {
            if self.names().contains(name@) {
                let j = choose|j: int| 0 <= j < self.names().len() && self.names()[j] == name@;
                assert(self.names()[j] != name@);
            }
        }
        None
    }

    /// The entry stored under `name`.
    pub fn get(&self, name: &str) -> (r: Option<&SelectorEntry>)
        requires
            self.wf(),
        ensures
            match r {
                Some(e) => self.lookup(name@) == Some(*e),
                None => self.lookup(name@) is None,
            },
    {
        match self.position_of(name) {
            Some(i) => Some(&self.items[i].1),
            None => None,
        }
    }

    /// Stores `entry` under `name`, replacing an entry stored there before.
    pub fn insert(&mut self, name: String, entry: SelectorEntry)
        requires
            old(self).wf(),
        ensures
            final(self).wf(),
            final(self).lookup(name@) == Some(entry),
            forall|n: Seq<char>| n != name@ ==> #[trigger] final(self).lookup(n) == old(self).lookup(n),
    {
        match self.position_of(name.as_str()) {
            Some(i) => {
                let ghost old_names = self.names();
                self.items.set(i, (name, entry));
                assert(self.names() =~= old_names);
                assert(self.names().index_of(name@) == i);
            }
            None => {
                let ghost old_names = self.names();
                let ghost old_entries = self.entries();
                let ghost key = name@;
                self.items.push((name, entry));
                assert(self.names() =~= old_names.push(key));
                assert(self.entries() =~= old_entries.push(entry));
                proof {
                    assert forall|a: int, b: int| 0 <= a < b < self.names().len() implies
                        self.names()[a] != self.names()[b] by {
                        if b == old_names.len() {
                            assert(old_names.contains(old_names[a]));
                        }
                    }
                    assert(self.names()[old_names.len() as int] == key);
                    let j = self.names().index_of(key);
                    if j < old_names.len() {
                        assert(old_names[j] == key);
                        assert(old_names.contains(key));
                    }
                    assert forall|n: Seq<char>| n != key implies #[trigger] self.lookup(n)
                        == old(self).lookup(n) by {
                        if old_names.contains(n) {
                            let k = old_names.index_of(n);
                            assert(self.names()[k] == n);
                            assert(self.names().contains(n));
                        } else {
                            if self.names().contains(n) {
                                let k = choose|k: int| 0 <= k < self.names().len() && self.names()[k] == n;
                                if k < old_names.len() {
                                    assert(old_names[k] == n);
                                }
                            }
                        }
                    }
                }
            }
        }
    }
}

/// Whether `url` is matched by a page-rank pattern: a pattern that ends in
/// `**` matches every URL that starts with the rest of it, any other
/// pattern matches only the URL equal to it.
pub open spec fn pattern_matches(url: Seq<char>, pattern: Seq<char>) -> bool {
    if pattern.len() >= 2 && pattern[pattern.len() - 1] == '*' && pattern[pattern.len() - 2] == '*' {
        starts_with(url, pattern.take(pattern.len() - 2))
    } else {
        url == pattern
    }
}

/// The rank of the last rule whose pattern matches `url`, or 0 when none does.
pub open spec fn rank_for(rules: Seq<(Seq<char>, i32)>, url: Seq<char>) -> i32
    decreases rules.len(),
{
    if rules.len() == 0 {
        0
    } else if pattern_matches(url, rules.last().0) {
        rules.last().1
    } else {
        rank_for(rules.drop_last(), url)
    }
}

fn matches_page_pattern(page_url: &str, pattern: &str) -> (r: bool)
    ensures
        r == pattern_matches(page_url@, pattern@),
{
    let url = chars_of(page_url);
    let pat = chars_of(pattern);
    let n = pat.len();
    if n >= 2 && pat[n - 1] == '*' && pat[n - 2] == '*' {
        chars_start_with(&url, &pat, n - 2)
    } else {
        chars_equal(&url, &pat)
    }
}

/// Complete crawler configuration.
pub struct Config {
    pub only_urls: Vec<String>,
    pub start_urls: Vec<String>,
    pub sitemap_urls: Vec<String>,
    pub stop_urls: Option<Vec<String>>,
    pub selectors: SelectorMap,
    pub page_rank: Vec<PageRankRule>,
    pub crawl: CrawlConfig,
    pub meilisearch: MeilisearchConfig,
}

impl Config {
    /// The page-rank rules as (pattern, rank) pairs.
    pub open spec fn rank_rules(&self) -> Seq<(Seq<char>, i32)> {
        self.page_rank@.map_values(|r: PageRankRule| r@)
    }

    /// The ranking weight of a page: that of the last rule matching its URL, 0 if none.
    pub fn page_rank_for(&self, page_url: &str) -> (r: i32)
        ensures
            r == rank_for(self.rank_rules(), page_url@),
    {
        let mut rank: i32 = 0;
        let mut i: usize = 0;
        while i < self.page_rank.len()
            invariant
                i <= self.page_rank.len(),
                rank == rank_for(self.rank_rules().take(i as int), page_url@),
            decreases self.page_rank.len() - i,
        {
            let rule = &self.page_rank[i];
            assert(self.rank_rules().take(i + 1).drop_last() =~= self.rank_rules().take(i as int));
            if matches_page_pattern(page_url, rule.pattern.as_str()) {
                rank = rule.rank;
            }
            i = i + 1;
        }
        assert(self.rank_rules().take(i as int) =~= self.rank_rules());
        rank
    }
}

/// A URL that no rule matches ranks 0.
pub proof fn law_unmatched_page_ranks_zero(rules: Seq<(Seq<char>, i32)>, url: Seq<char>)
    requires
        forall|i: int| 0 <= i < rules.len() ==> !pattern_matches(url, #[trigger] rules[i].0),
    ensures
        rank_for(rules, url) == 0,
    decreases rules.len(),
{
    if rules.len() > 0 {
        assert(!pattern_matches(url, rules[rules.len() - 1].0));
        law_unmatched_page_ranks_zero(rules.drop_last(), url);
    }
}

/// A rule appended after the others decides the rank of every URL it matches,
/// and leaves the rank of every other URL as it was.
pub proof fn law_later_rule_overrides(rules: Seq<(Seq<char>, i32)>, rule: (Seq<char>, i32), url: Seq<char>)
    ensures
        pattern_matches(url, rule.0) ==> rank_for(rules.push(rule), url) == rule.1,
        !pattern_matches(url, rule.0) ==> rank_for(rules.push(rule), url) == rank_for(rules, url),
{
    assert(rules.push(rule).drop_last() =~= rules);
}

} // verus!
