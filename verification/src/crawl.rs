//! Crawl decisions: the frontier of pages to fetch, what a fetched page
//! contributes, and how sitemaps expand into page URLs. The fetching itself
//! happens elsewhere; this module decides what to fetch and what to keep.

use vstd::prelude::*;
use vstd::hash_set::StringHashSet;
use std::collections::VecDeque;
use crate::config::Config;
use crate::dom::{css_selector_error, parse_document, select_attrs, selected_attrs, CompiledSelector};
use crate::extract::{builtin_error_message, compile_builtin, extract_page, page_extraction};
use crate::model::{RecordModel, SearchRecord};
use crate::text::{chars_of, chars_equal};
use crate::web::{host_of, join_url, parse_url, strip_fragment, url_host, url_join, url_parse, url_without_fragment};

verus! {

/// The page-level form of a URL: without its fragment (the text as given
/// when it does not parse).
pub open spec fn canonical(url: Seq<char>) -> Seq<char> {
    match url_without_fragment(url) {
        Some(c) => c,
        None => url,
    }
}

/// The page-level form of a URL, used to tell pages apart.
pub fn canonical_url(url: &str) -> (r: String)
    ensures
        r@ == canonical(url@),
{
    match strip_fragment(url) {
        Some(c) => c,
        None => url.to_owned(),
    }
}

/// Whether an entry of the list equals the URL when fragments are ignored:
/// the entry is the URL, or the URL without its fragment, or the two are
/// the same without their fragments.
pub open spec fn stop_listed(s: Seq<Seq<char>>, url: Seq<char>) -> bool {
    exists|i: int|
        0 <= i < s.len() && (#[trigger] s[i] == url || s[i] == canonical(url) || canonical(s[i]) == canonical(
            url,
        ))
}

/// Whether a URL is one of the stop URLs, fragments ignored.
pub open spec fn stopped(stops: Option<Seq<Seq<char>>>, url: Seq<char>) -> bool {
    match stops {
        Some(s) => stop_listed(s, url),
        None => false,
    }
}

fn is_stop(stops: &Option<Vec<String>>, url: &str) -> (r: bool)
    ensures
        r == stopped(stops.deep_view(), url@),
{
    match stops {
        None => false,
        Some(list) => {
            let target = chars_of(url);
            let canon = canonical_url(url);
            let canon_chars = chars_of(canon.as_str());
            let mut i: usize = 0;
            assert(stops.deep_view() == Some(list.deep_view()));
            while i < list.len()
                invariant
                    i <= list.len(),
                    stops.deep_view() == Some(list.deep_view()),
                    target@ == url@,
                    canon_chars@ == canonical(url@),
                    forall|k: int|
                        0 <= k < i ==> list@[k]@ != url@ && list@[k]@ != canonical(url@) && canonical(list@[k]@)
                            != canonical(url@),
                decreases list.len() - i,
            {
                let s = chars_of(list[i].as_str());
                let entry_canon = canonical_url(list[i].as_str());
                let ec = chars_of(entry_canon.as_str());
                if chars_equal(&s, &target) || chars_equal(&s, &canon_chars) || chars_equal(&ec, &canon_chars) {
                    let ghost sv = list.deep_view();
                    assert(stops.deep_view() == Some(sv));
                    assert(sv[i as int] == list@[i as int]@);
                    assert(sv[i as int] == url@ || sv[i as int] == canonical(url@) || canonical(sv[i as int])
                        == canonical(url@));
                    assert(stop_listed(sv, url@));
                    return true;
                }
                i = i + 1;
            }
            proof {
                let s = list.deep_view();
                assert(stops.deep_view() == Some(s));
                if stopped(stops.deep_view(), url@) {
                    let k = choose|k: int|
                        0 <= k < s.len() && (s[k] == url@ || s[k] == canonical(url@) || canonical(s[k])
                            == canonical(url@));
                    assert(s[k] == list@[k]@);
                }
            }
            false
        },
    }
}

/// The serializations of the texts that parse as URLs, in order.
pub open spec fn parsed_urls(texts: Seq<Seq<char>>) -> Seq<Seq<char>>
    decreases texts.len(),
{
    if texts.len() == 0 {
        seq![]
    } else {
        let prev = parsed_urls(texts.drop_last());
        match url_parse(texts.last()) {
            Ok(u) => prev.push(u),
            Err(_) => prev,
        }
    }
}

/// The frontier as plain values.
pub struct FrontierModel {
    /// URLs waiting to be fetched, first first.
    pub queue: Seq<Seq<char>>,
    /// Page-level forms of every URL ever queued.
    pub queued: Set<Seq<char>>,
    /// Page-level forms of every URL taken from the queue.
    pub visited: Set<Seq<char>>,
    /// In incremental mode, the page-level forms of the configured pages.
    pub only: Option<Set<Seq<char>>>,
    /// Hosts whose links are followed.
    pub allowed: Set<Seq<char>>,
    /// URLs never fetched.
    pub stops: Option<Seq<Seq<char>>>,
    pub in_flight: usize,
    pub workers: usize,
    pub max_pages: usize,
    pub fetched: usize,
    pub failed: usize,
    pub skipped: usize,
    pub records: Seq<RecordModel>,
}

/// Which pages a crawl fetches, what it has fetched and what it has extracted.
pub struct CrawlFrontier {
    queue: VecDeque<String>,
    queued: StringHashSet,
    visited: StringHashSet,
    only: Option<StringHashSet>,
    allowed: StringHashSet,
    stops: Option<Vec<String>>,
    in_flight: usize,
    workers: usize,
    max_pages: usize,
    fetched: usize,
    failed: usize,
    skipped: usize,
    records: Vec<SearchRecord>,
}

/// The seed URLs: in incremental mode the configured pages that parse;
/// otherwise the start URLs that parse, then the sitemap URLs.
pub open spec fn seed_queue(config: Config, sitemap: Seq<Seq<char>>) -> Seq<Seq<char>> {
    if config.only_urls@.len() > 0 {
        parsed_urls(config.only_urls.deep_view())
    } else {
        parsed_urls(config.start_urls.deep_view()) + sitemap
    }
}

/// The page-level forms of the URLs.
pub open spec fn canonical_set(urls: Seq<Seq<char>>) -> Set<Seq<char>> {
    Set::new(|c: Seq<char>| exists|i: int| 0 <= i < urls.len() && canonical(urls[i]) == c)
}

/// The hosts of the URLs.
pub open spec fn host_set(urls: Seq<Seq<char>>) -> Set<Seq<char>> {
    Set::new(|h: Seq<char>| exists|i: int| 0 <= i < urls.len() && url_host(urls[i]) == Some(h))
}

/// Whether another fetch may start: a worker is free and the pages taken
/// from the queue plus those being fetched stay under the page limit.
pub open spec fn may_start(st: FrontierModel) -> bool {
    st.in_flight < st.workers && st.visited.len() + st.in_flight < st.max_pages
}

/// Takes URLs from the queue while a fetch may start: a URL whose page was
/// already taken, or a stop URL, is dropped; every other one is started.
/// Gives the frontier after and the started URLs in order.
pub open spec fn start_fetches(st: FrontierModel) -> (FrontierModel, Seq<Seq<char>>)
    decreases st.queue.len(),
{
    if !may_start(st) || st.queue.len() == 0 {
        (st, seq![])
    } else {
        let u = st.queue[0];
        let c = canonical(u);
        let next = FrontierModel { queue: st.queue.drop_first(), visited: st.visited.insert(c), ..st };
        if st.visited.contains(c) || stopped(st.stops, u) {
            start_fetches(next)
        } else {
            let r = start_fetches(FrontierModel { in_flight: (st.in_flight + 1) as usize, ..next });
            (r.0, seq![u] + r.1)
        }
    }
}

/// The outcome of fetching one page.
pub enum FetchOutcome {
    /// The request failed or the server answered with an error status.
    Failed,
    /// The response is not HTML.
    NotHtml,
    /// An HTML page, at the URL the request ended at.
    Page { final_url: String, html: String },
}

/// What became of a fetched page.
#[derive(Debug, PartialEq, Eq)]
pub enum PageVerdict {
    Failed,
    NotHtml,
    /// In incremental mode, the request ended outside the configured pages.
    OutsideOnlyUrls,
    /// The page was extracted into this many records.
    Extracted(usize),
}

/// The frontier after following the links of a page at `base`: a link that
/// resolves to a URL on an allowed host whose page was not queued before
/// joins the queue.
pub open spec fn follow_links(st: FrontierModel, base: Seq<char>, hrefs: Seq<Option<Seq<char>>>) -> FrontierModel
    decreases hrefs.len(),
{
    if hrefs.len() == 0 {
        st
    } else {
        let prev = follow_links(st, base, hrefs.drop_last());
        match hrefs.last() {
            None => prev,
            Some(href) => match url_join(base, href) {
                Err(_) => prev,
                Ok(next) => {
                    let host = match url_host(next) {
                        Some(h) => h,
                        None => Seq::<char>::empty(),
                    };
                    if prev.allowed.contains(host) && !prev.queued.contains(canonical(next)) {
                        FrontierModel {
                            queue: prev.queue.push(next),
                            queued: prev.queued.insert(canonical(next)),
                            ..prev
                        }
                    } else {
                        prev
                    }
                },
            },
        }
    }
}

/// The frontier after one fetch ends, and what became of the page; or the
/// extraction error that ends the crawl.
pub open spec fn finish_fetch(st: FrontierModel, config: Config, outcome: FetchOutcome) -> Result<
    (FrontierModel, PageVerdict),
    Seq<char>,
> {
    let done = FrontierModel { in_flight: (st.in_flight - 1) as usize, ..st };
    match outcome {
        FetchOutcome::Failed => Ok((FrontierModel { failed: (st.failed + 1) as usize, ..done }, PageVerdict::Failed)),
        FetchOutcome::NotHtml => Ok(
            (FrontierModel { skipped: (st.skipped + 1) as usize, ..done }, PageVerdict::NotHtml),
        ),
        FetchOutcome::Page { final_url, html } => {
            let url = final_url@;
            if st.only matches Some(only) && !only.contains(canonical(url)) {
                Ok(
                    (
                        FrontierModel { skipped: (st.skipped + 1) as usize, ..done },
                        PageVerdict::OutsideOnlyUrls,
                    ),
                )
            } else {
                match page_extraction(html@, url, config) {
                    Err(m) => Err(m),
                    Ok(rs) => {
                        let kept = FrontierModel {
                            fetched: (st.fetched + 1) as usize,
                            records: st.records + rs,
                            ..done
                        };
                        if st.only is None {
                            match css_selector_error("a[href]"@) {
                                Some(e) => Err(builtin_error_message("a[href]"@, e)),
                                None => Ok(
                                    (
                                        follow_links(kept, url, selected_attrs(html@, "a[href]"@, "href"@)),
                                        PageVerdict::Extracted(rs.len() as usize),
                                    ),
                                ),
                            }
                        } else {
                            Ok((kept, PageVerdict::Extracted(rs.len() as usize)))
                        }
                    },
                }
            }
        },
    }
}

impl CrawlFrontier {
    pub closed spec fn model(&self) -> FrontierModel {
        FrontierModel {
            queue: self.queue.deep_view(),
            queued: self.queued@,
            visited: self.visited@,
            only: match self.only {
                Some(s) => Some(s@),
                None => None,
            },
            allowed: self.allowed@,
            stops: self.stops.deep_view(),
            in_flight: self.in_flight,
            workers: self.workers,
            max_pages: self.max_pages,
            fetched: self.fetched,
            failed: self.failed,
            skipped: self.skipped,
            records: self.records@.map_values(|r: SearchRecord| r@),
        }
    }

    /// The frontier's invariant: at least one worker; no more pages taken
    /// from the queue than the page limit; every fetch that ended or runs
    /// was started for a distinct taken page.
    pub open spec fn wf(&self) -> bool {
        let m = self.model();
        &&& m.workers >= 1
        &&& m.visited.finite()
        &&& m.visited.len() <= m.max_pages
        &&& m.fetched + m.failed + m.skipped + m.in_flight <= m.visited.len()
    }
}


fn clone_strings(v: &Vec<String>) -> (r: Vec<String>)
    ensures
        r.deep_view() == v.deep_view(),
{
    let mut r: Vec<String> = Vec::new();
    let mut i: usize = 0;
    while i < v.len()
        invariant
            i <= v.len(),
            r.len() == i,
            forall|k: int| 0 <= k < i ==> (#[trigger] r@[k])@ == v@[k]@,
        decreases v.len() - i,
    {
        r.push(v[i].clone());
        i = i + 1;
    }
    assert(r.deep_view() =~= v.deep_view());
    r
}

fn push_parsed(queue: &mut VecDeque<String>, texts: &Vec<String>)
    ensures
        final(queue).deep_view() == old(queue).deep_view() + parsed_urls(texts.deep_view()),
{
    let ghost start = queue.deep_view();
    let mut i: usize = 0;
    while i < texts.len()
        invariant
            i <= texts.len(),
            queue.deep_view() == start + parsed_urls(texts.deep_view().take(i as int)),
        decreases texts.len() - i,
    {
        let ghost before = queue.deep_view();
        assert(texts.deep_view().take(i + 1).drop_last() =~= texts.deep_view().take(i as int));
        assert(texts.deep_view().take(i + 1).last() == texts@[i as int]@);
        match parse_url(texts[i].as_str()) {
            Ok(u) => {
                queue.push_back(u);
                assert(queue.deep_view() =~= before.push(queue@.last()@));
            },
            Err(_) => {},
        }
        i = i + 1;
    }
    assert(texts.deep_view().take(i as int) =~= texts.deep_view());
}

proof fn lemma_canonical_set_push(q: Seq<Seq<char>>, u: Seq<char>)
    ensures
        canonical_set(q.push(u)) == canonical_set(q).insert(canonical(u)),
        host_set(q.push(u)) == match url_host(u) {
            Some(h) => host_set(q).insert(h),
            None => host_set(q),
        },
{
    let p = q.push(u);
    assert forall|c: Seq<char>| canonical_set(p).contains(c) == canonical_set(q).insert(canonical(u)).contains(c) by {
        if canonical_set(q).contains(c) {
            let i = choose|i: int| 0 <= i < q.len() && canonical(q[i]) == c;
            assert(p[i] == q[i]);
        }
        if canonical_set(p).contains(c) {
            let i = choose|i: int| 0 <= i < p.len() && canonical(p[i]) == c;
            if i < q.len() {
                assert(p[i] == q[i]);
            }
        }
        assert(p[q.len() as int] == u);
    }
    assert(canonical_set(p) =~= canonical_set(q).insert(canonical(u)));
    let hs = match url_host(u) {
        Some(h) => host_set(q).insert(h),
        None => host_set(q),
    };
    assert forall|h: Seq<char>| host_set(p).contains(h) == hs.contains(h) by {
        if host_set(q).contains(h) {
            let i = choose|i: int| 0 <= i < q.len() && url_host(q[i]) == Some(h);
            assert(p[i] == q[i]);
        }
        if host_set(p).contains(h) {
            let i = choose|i: int| 0 <= i < p.len() && url_host(p[i]) == Some(h);
            if i < q.len() {
                assert(p[i] == q[i]);
            }
        }
        assert(p[q.len() as int] == u);
    }
    assert(host_set(p) =~= hs);
}

impl CrawlFrontier {
    /// Seeds the frontier: in incremental mode (`only_urls` not empty) with
    /// the configured pages only, and stop URLs do not apply; otherwise with
    /// the start URLs and then the sitemap URLs. Links are followed only to
    /// the hosts of the seeds.
    pub fn new(config: &Config, sitemap_urls: Vec<String>) -> (r: Self)
        ensures
            r.wf(),
            r.model().queue == seed_queue(*config, sitemap_urls.deep_view()),
            r.model().queued == canonical_set(r.model().queue),
            r.model().visited == Set::<Seq<char>>::empty(),
            r.model().only == (if config.only_urls@.len() > 0 {
                Some(canonical_set(r.model().queue))
            } else {
                None
            }),
            r.model().allowed == host_set(r.model().queue),
            r.model().stops == (if config.only_urls@.len() > 0 {
                None
            } else {
                config.stop_urls.deep_view()
            }),
            r.model().in_flight == 0,
            r.model().workers == (if config.crawl.concurrency >= 1 {
                config.crawl.concurrency
            } else {
                1
            }),
            r.model().max_pages == config.crawl.max_pages,
            r.model().fetched == 0,
            r.model().failed == 0,
            r.model().skipped == 0,
            r.model().records.len() == 0,
    {
        let incremental = config.only_urls.len() > 0;
        let mut queue: VecDeque<String> = VecDeque::new();
        assert(queue.deep_view() =~= Seq::<Seq<char>>::empty());
        if incremental {
            push_parsed(&mut queue, &config.only_urls);
            assert(queue.deep_view() =~= seed_queue(*config, sitemap_urls.deep_view()));
        } else {
            push_parsed(&mut queue, &config.start_urls);
            let ghost before = queue.deep_view();
            let mut i: usize = 0;
            while i < sitemap_urls.len()
                invariant
                    i <= sitemap_urls.len(),
                    queue.deep_view() == before + sitemap_urls.deep_view().take(i as int),
                decreases sitemap_urls.len() - i,
            {
                let ghost prev = queue.deep_view();
                queue.push_back(sitemap_urls[i].clone());
                assert(queue.deep_view() =~= prev.push(sitemap_urls@[i as int]@));
                assert(sitemap_urls.deep_view().take(i + 1) =~= sitemap_urls.deep_view().take(i as int).push(
                    sitemap_urls@[i as int]@,
                ));
                i = i + 1;
            }
            assert(sitemap_urls.deep_view().take(i as int) =~= sitemap_urls.deep_view());
        }
        let ghost q = queue.deep_view();
        let mut queued = StringHashSet::new();
        let mut only_set = StringHashSet::new();
        let mut allowed = StringHashSet::new();
        let mut i: usize = 0;
        assert(canonical_set(q.take(0)) =~= Set::<Seq<char>>::empty());
        assert(host_set(q.take(0)) =~= Set::<Seq<char>>::empty());
        while i < queue.len()
            invariant
                q == queue.deep_view(),
                i <= q.len(),
                queued@ == canonical_set(q.take(i as int)),
                only_set@ == canonical_set(q.take(i as int)),
                allowed@ == host_set(q.take(i as int)),
            decreases queue.len() - i,
        {
            let u = &queue[i];
            assert(q[i as int] == u@);
            proof {
                lemma_canonical_set_push(q.take(i as int), u@);
                assert(q.take(i + 1) =~= q.take(i as int).push(u@));
            }
            let c = canonical_url(u.as_str());
            only_set.insert(c.clone());
            queued.insert(c);
            match host_of(u.as_str()) {
                Some(h) => {
                    allowed.insert(h);
                },
                None => {},
            }
            i = i + 1;
        }
        assert(q.take(i as int) =~= q);
        let stops = if incremental {
            None
        } else {
            match &config.stop_urls {
                Some(list) => Some(clone_strings(list)),
                None => None,
            }
        };
        let workers = if config.crawl.concurrency >= 1 {
            config.crawl.concurrency
        } else {
            1
        };
        let r = CrawlFrontier {
            queue,
            queued,
            visited: StringHashSet::new(),
            only: if incremental {
                Some(only_set)
            } else {
                None
            },
            allowed,
            stops,
            in_flight: 0,
            workers,
            max_pages: config.crawl.max_pages,
            fetched: 0,
            failed: 0,
            skipped: 0,
            records: Vec::new(),
        };
        assert(r.model().records =~= Seq::<RecordModel>::empty());
        r
    }

    /// Whether the crawl goes on: URLs are waiting and the page limit is not reached.
    pub fn should_continue(&self) -> (r: bool)
        ensures
            r == (self.model().queue.len() > 0 && self.model().visited.len() < self.model().max_pages),
    {
        self.queue.len() > 0 && self.visited.len() < self.max_pages
    }

    /// Takes URLs from the queue to fetch, as `start_fetches` says.
    pub fn next_fetches(&mut self) -> (r: Vec<String>)
        requires
            old(self).wf(),
        ensures
            final(self).wf(),
            (final(self).model(), r.deep_view()) == start_fetches(old(self).model()),
    {
        let ghost target = start_fetches(self.model());
        let mut out: Vec<String> = Vec::new();
        loop
            invariant
                self.wf(),
                target == start_fetches(old(self).model()),
                start_fetches(self.model()).0 == target.0,
                out.deep_view() + start_fetches(self.model()).1 == target.1,
            ensures
                self.wf(),
                (self.model(), out.deep_view()) == target,
            decreases self.model().queue.len(),
        {
            let ghost st = self.model();
            if !(self.in_flight < self.workers && self.in_flight < self.max_pages && self.visited.len()
                < self.max_pages - self.in_flight) {
                assert(!may_start(st));
                assert(start_fetches(st) == (st, Seq::<Seq<char>>::empty()));
                assert(out.deep_view() =~= out.deep_view() + Seq::<Seq<char>>::empty());
                break ;
            }
            let u = match self.queue.pop_front() {
                Some(u) => u,
                None => {
                    assert(start_fetches(st) == (st, Seq::<Seq<char>>::empty()));
                    assert(out.deep_view() =~= out.deep_view() + Seq::<Seq<char>>::empty());
                    break ;
                },
            };
            assert(st.queue[0] == u@);
            assert(self.queue.deep_view() =~= st.queue.drop_first());
            let c = canonical_url(u.as_str());
            let fresh = self.visited.insert(c);
            if !fresh || is_stop(&self.stops, u.as_str()) {
                continue ;
            }
            self.in_flight = self.in_flight + 1;
            let ghost before = out.deep_view();
            out.push(u);
            assert(out.deep_view() =~= before.push(u@));
            assert(before.push(u@) + start_fetches(self.model()).1 =~= before + (seq![u@]
                + start_fetches(self.model()).1));
        }
        out
    }

    fn follow_page_links(&mut self, base: &str, html: &str, links_selector: &CompiledSelector)
        requires
            old(self).wf(),
            links_selector@ == "a[href]"@,
        ensures
            final(self).wf(),
            final(self).model() == follow_links(old(self).model(), base@, selected_attrs(html@, "a[href]"@, "href"@)),
    {
        let doc = parse_document(html);
        let links = select_attrs(&doc, links_selector, "href");
        let ghost hv = links.deep_view();
        let mut i: usize = 0;
        while i < links.len()
            invariant
                self.wf(),
                hv == links.deep_view(),
                hv == selected_attrs(html@, "a[href]"@, "href"@),
                i <= links.len(),
                self.model() == follow_links(old(self).model(), base@, hv.take(i as int)),
            decreases links.len() - i,
        {
            let ghost prev = self.model();
            assert(hv.take(i + 1).drop_last() =~= hv.take(i as int));
            assert(hv.take(i + 1).last() == links@[i as int].deep_view());
            match &links[i] {
                Some(href) => match join_url(base, href.as_str()) {
                    Ok(next) => {
                        let host = match host_of(next.as_str()) {
                            Some(h) => h,
                            None => String::new(),
                        };
                        if self.allowed.contains(host.as_str()) {
                            let c = canonical_url(next.as_str());
                            if self.queued.insert(c) {
                                self.queue.push_back(next);
                                assert(self.model().queue =~= prev.queue.push(next@));
                            } else {
                                assert(self.model().queued =~= prev.queued);
                            }
                        }
                    },
                    Err(_) => {},
                },
                None => {},
            }
            i = i + 1;
        }
        assert(hv.take(i as int) =~= hv);
    }

    /// Records what became of one fetch, as `finish_fetch` says. An
    /// extraction error leaves the frontier as it was.
    pub fn finish_fetch(&mut self, config: &Config, outcome: FetchOutcome) -> (r: Result<PageVerdict, String>)
        requires
            old(self).wf(),
            old(self).model().in_flight > 0,
            config.selectors.wf(),
        ensures
            final(self).wf(),
            match r {
                Ok(v) => finish_fetch(old(self).model(), *config, outcome) == Ok::<
                    (FrontierModel, PageVerdict),
                    Seq<char>,
                >((final(self).model(), v)),
                Err(m) => finish_fetch(old(self).model(), *config, outcome) == Err::<
                    (FrontierModel, PageVerdict),
                    Seq<char>,
                >(m@) && final(self).model() == old(self).model(),
            },
    {
        match outcome {
            FetchOutcome::Failed => {
                self.in_flight = self.in_flight - 1;
                self.failed = self.failed + 1;
                Ok(PageVerdict::Failed)
            },
            FetchOutcome::NotHtml => {
                self.in_flight = self.in_flight - 1;
                self.skipped = self.skipped + 1;
                Ok(PageVerdict::NotHtml)
            },
            FetchOutcome::Page { final_url, html } => {
                let outside = match &self.only {
                    Some(set) => {
                        let c = canonical_url(final_url.as_str());
                        !set.contains(c.as_str())
                    },
                    None => false,
                };
                if outside {
                    self.in_flight = self.in_flight - 1;
                    self.skipped = self.skipped + 1;
                    return Ok(PageVerdict::OutsideOnlyUrls);
                }
                let mut rs = match extract_page(html.as_str(), final_url.as_str(), config) {
                    Ok(rs) => rs,
                    Err(m) => {
                        return Err(m);
                    },
                };
                let links_selector = if self.only.is_none() {
                    match compile_builtin("a[href]") {
                        Ok(c) => Some(c),
                        Err(m) => {
                            return Err(m);
                        },
                    }
                } else {
                    None
                };
                let n = rs.len();
                let ghost old_records = self.records@;
                let ghost added = rs@;
                self.in_flight = self.in_flight - 1;
                self.fetched = self.fetched + 1;
                self.records.append(&mut rs);
                assert(self.records@.map_values(|r: SearchRecord| r@) =~= old_records.map_values(
                    |r: SearchRecord| r@,
                ) + added.map_values(|r: SearchRecord| r@));
                match &links_selector {
                    Some(c) => self.follow_page_links(final_url.as_str(), html.as_str(), c),
                    None => {},
                }
                Ok(PageVerdict::Extracted(n))
            },
        }
    }

    /// The number of pages extracted.
    pub fn fetched(&self) -> (r: usize)
        ensures
            r == self.model().fetched,
    {
        self.fetched
    }

    /// The number of fetches that failed.
    pub fn failed(&self) -> (r: usize)
        ensures
            r == self.model().failed,
    {
        self.failed
    }

    /// The number of fetched pages that were not extracted.
    pub fn skipped(&self) -> (r: usize)
        ensures
            r == self.model().skipped,
    {
        self.skipped
    }

    /// The records extracted so far, in the order the pages finished.
    pub fn into_records(self) -> (r: Vec<SearchRecord>)
        ensures
            r@.map_values(|x: SearchRecord| x@) == self.model().records,
    {
        self.records
    }
}


/// Every page started is one not taken before, never a stop URL, and is
/// taken afterwards; no page is started twice; taken pages stay taken; and
/// the queue only loses URLs from its front.
pub proof fn law_started_pages_fresh(st: FrontierModel)
    ensures
        ({
            let (st2, out) = start_fetches(st);
            &&& forall|i: int|
                0 <= i < out.len() ==> !st.visited.contains(canonical(#[trigger] out[i])) && st2.visited.contains(
                    canonical(out[i]),
                ) && !stopped(st.stops, out[i])
            &&& forall|i: int, j: int| 0 <= i < j < out.len() ==> canonical(#[trigger] out[i]) != canonical(#[trigger] out[j])
            &&& st.visited.subset_of(st2.visited)
            &&& st2.queue.len() <= st.queue.len()
            &&& st2.queue == st.queue.skip(st.queue.len() - st2.queue.len())
            &&& st2.stops == st.stops
        }),
    decreases st.queue.len(),
{
    if !may_start(st) || st.queue.len() == 0 {
        assert(st.queue.skip(0) =~= st.queue);
    } else {
        let u = st.queue[0];
        let c = canonical(u);
        let next = FrontierModel { queue: st.queue.drop_first(), visited: st.visited.insert(c), ..st };
        if st.visited.contains(c) || stopped(st.stops, u) {
            law_started_pages_fresh(next);
            let (st2, out) = start_fetches(next);
            assert(st.queue.drop_first().skip(next.queue.len() - st2.queue.len()) =~= st.queue.skip(
                st.queue.len() - st2.queue.len(),
            ));
        } else {
            let inner = FrontierModel { in_flight: (st.in_flight + 1) as usize, ..next };
            law_started_pages_fresh(inner);
            let (st2, rest) = start_fetches(inner);
            let out = seq![u] + rest;
            assert(start_fetches(st) == (st2, out));
            assert forall|i: int| 0 <= i < out.len() implies !st.visited.contains(canonical(#[trigger] out[i]))
                && st2.visited.contains(canonical(out[i])) && !stopped(st.stops, out[i]) by {
                if i > 0 {
                    assert(out[i] == rest[i - 1]);
                }
            }
            assert forall|i: int, j: int| 0 <= i < j < out.len() implies canonical(#[trigger] out[i]) != canonical(
                #[trigger] out[j],
            ) by {
                assert(out[j] == rest[j - 1]);
                if i > 0 {
                    assert(out[i] == rest[i - 1]);
                } else {
                    assert(inner.visited.contains(c));
                }
            }
            assert(st.queue.drop_first().skip(inner.queue.len() - st2.queue.len()) =~= st.queue.skip(
                st.queue.len() - st2.queue.len(),
            ));
        }
    }
}

/// Starting fetches never takes more pages than the limit allows and never
/// runs more fetches than there are workers.
pub proof fn law_start_respects_limits(st: FrontierModel)
    requires
        st.visited.finite(),
        st.visited.len() <= st.max_pages,
        st.in_flight <= st.workers,
    ensures
        start_fetches(st).0.visited.finite(),
        start_fetches(st).0.visited.len() <= st.max_pages,
        start_fetches(st).0.in_flight <= st.workers,
        start_fetches(st).0.max_pages == st.max_pages,
        start_fetches(st).0.workers == st.workers,
    decreases st.queue.len(),
{
    if !may_start(st) || st.queue.len() == 0 {
    } else {
        let u = st.queue[0];
        let c = canonical(u);
        let next = FrontierModel { queue: st.queue.drop_first(), visited: st.visited.insert(c), ..st };
        if st.visited.contains(c) || stopped(st.stops, u) {
            law_started_pages_fresh(st);
            law_start_respects_limits(next);
        } else {
            let inner = FrontierModel { in_flight: (st.in_flight + 1) as usize, ..next };
            law_start_respects_limits(inner);
        }
    }
}

/// What following links adds to the queue: URLs on allowed hosts whose
/// pages were not queued before, appended after the URLs already waiting.
pub proof fn law_links_stay_on_allowed_hosts(st: FrontierModel, base: Seq<char>, hrefs: Seq<Option<Seq<char>>>)
    ensures
        ({
            let st2 = follow_links(st, base, hrefs);
            &&& st2.queue.len() >= st.queue.len()
            &&& st2.queue.take(st.queue.len() as int) == st.queue
            &&& forall|i: int|
                st.queue.len() <= i < st2.queue.len() ==> st.allowed.contains(
                    match url_host(#[trigger] st2.queue[i]) {
                        Some(h) => h,
                        None => Seq::<char>::empty(),
                    },
                ) && !st.queued.contains(canonical(st2.queue[i])) && st2.queued.contains(canonical(st2.queue[i]))
            &&& st.queued.subset_of(st2.queued)
            &&& st2.allowed == st.allowed
            &&& st2.visited == st.visited
            &&& st2.only == st.only
            &&& st2.records == st.records
        }),
    decreases hrefs.len(),
{
    if hrefs.len() > 0 {
        law_links_stay_on_allowed_hosts(st, base, hrefs.drop_last());
        let prev = follow_links(st, base, hrefs.drop_last());
        let st2 = follow_links(st, base, hrefs);
        if st2.queue.len() > prev.queue.len() {
            assert forall|i: int| st.queue.len() <= i < st2.queue.len() implies st.allowed.contains(
                match url_host(#[trigger] st2.queue[i]) {
                    Some(h) => h,
                    None => Seq::<char>::empty(),
                },
            ) && !st.queued.contains(canonical(st2.queue[i])) && st2.queued.contains(canonical(st2.queue[i])) by {
                if i < prev.queue.len() {
                    assert(st2.queue[i] == prev.queue[i]);
                }
            }
            assert(st2.queue.take(st.queue.len() as int) =~= st.queue) by {
                assert(st2.queue.take(st.queue.len() as int) =~= prev.queue.take(st.queue.len() as int));
            }
        }
    }
}

/// In incremental mode a finished fetch never adds to the queue; and a page
/// whose URL, without fragment, is not one of the configured pages is
/// skipped without records.
pub proof fn law_incremental_stays_within_pages(st: FrontierModel, config: Config, outcome: FetchOutcome)
    requires
        st.only is Some,
    ensures
        finish_fetch(st, config, outcome) matches Ok((st2, v)) ==> st2.queue == st.queue && st2.queued
            == st.queued,
        (outcome matches FetchOutcome::Page { final_url, html } && !st.only->0.contains(
            canonical(final_url@),
        )) ==> (finish_fetch(st, config, outcome) matches Ok((st2, v)) && v == PageVerdict::OutsideOnlyUrls
            && st2.records == st.records),
{
}


/// `needle` occurs in `s` as a run of consecutive characters.
pub open spec fn contains_text(s: Seq<char>, needle: Seq<char>) -> bool {
    exists|i: int| 0 <= i && i + needle.len() <= s.len() && #[trigger] s.subrange(i, i + needle.len()) == needle
}

fn occurs_at(s: &Vec<char>, needle: &Vec<char>, at: usize) -> (r: bool)
    requires
        at + needle.len() <= s.len(),
    ensures
        r == (s@.subrange(at as int, at + needle.len()) == needle@),
{
    let mut k: usize = 0;
    while k < needle.len()
        invariant
            at + needle.len() <= s.len(),
            k <= needle.len(),
            forall|j: int| 0 <= j < k ==> s@[at + j] == needle@[j],
        decreases needle.len() - k,
    {
        if s[at + k] != needle[k] {
            assert(s@.subrange(at as int, at + needle.len())[k as int] != needle@[k as int]);
            return false;
        }
        k = k + 1;
    }
    assert(s@.subrange(at as int, at + needle.len()) =~= needle@);
    true
}

/// Whether a response's `Content-Type` marks it as HTML: it contains `text/html`.
#[verifier::loop_isolation(false)]
pub fn is_html_content_type(content_type: Option<&str>) -> (r: bool)
    ensures
        r == match content_type {
            Some(t) => contains_text(t@, "text/html"@),
            None => false,
        },
{
    match content_type {
        None => false,
        Some(t) => {
            let s = chars_of(t);
            let needle = chars_of("text/html");
            if needle.len() > s.len() {
                return false;
            }
            let last = s.len() - needle.len();
            let mut i: usize = 0;
            proof {
                reveal_strlit("text/html");
            }
            while i <= last
                invariant
                    needle.len() == 9,
                    last + needle.len() == s.len(),
                    s@ == t@,
                    needle@ == "text/html"@,
                    i <= last + 1,
                    forall|j: int| 0 <= j < i ==> #[trigger] s@.subrange(j, j + needle.len()) != needle@,
                decreases last + 1 - i,
            {
                if occurs_at(&s, &needle, i) {
                    assert(t@.subrange(i as int, i + "text/html"@.len()) == "text/html"@);
                    return true;
                }
                i = i + 1;
            }
            proof {
                if contains_text(t@, "text/html"@) {
                    let j = choose|j: int| 0 <= j && j + needle@.len() <= s@.len() && #[trigger] s@.subrange(
                        j,
                        j + needle@.len(),
                    ) == needle@;
                    assert(j <= last);
                }
            }
            false
        },
    }
}

/// What a fetched sitemap holds.
pub enum SitemapDocument {
    /// A URL set: the page locations.
    UrlSet(Vec<String>),
    /// A sitemap index: the locations of further sitemaps.
    Index(Vec<String>),
}

/// How a fetched sitemap is read, from its readings as a URL set and as a
/// sitemap index (`None` where it does not read as one): as an index when
/// that reading lists sitemaps and the URL-set reading lists no pages; else
/// as the URL set; else as the index; and not at all when neither reads.
pub open spec fn sitemap_reading(url_set: Option<Vec<String>>, index: Option<Vec<String>>) -> Option<
    SitemapDocument,
> {
    match index {
        Some(i) => if i@.len() > 0 && (url_set is None || url_set->0@.len() == 0) {
            Some(SitemapDocument::Index(i))
        } else {
            match url_set {
                Some(u) => Some(SitemapDocument::UrlSet(u)),
                None => Some(SitemapDocument::Index(i)),
            }
        },
        None => match url_set {
            Some(u) => Some(SitemapDocument::UrlSet(u)),
            None => None,
        },
    }
}

/// Decides how a fetched sitemap is read, as `sitemap_reading` says: an
/// index is recognised by the sitemaps it lists, even where the same text
/// also reads as an empty URL set.
pub fn read_sitemap(url_set: Option<Vec<String>>, index: Option<Vec<String>>) -> (r: Option<SitemapDocument>)
    ensures
        r == sitemap_reading(url_set, index),
{
    match index {
        Some(i) => {
            let set_is_empty = match &url_set {
                Some(u) => u.len() == 0,
                None => true,
            };
            if i.len() > 0 && set_is_empty {
                Some(SitemapDocument::Index(i))
            } else {
                match url_set {
                    Some(u) => Some(SitemapDocument::UrlSet(u)),
                    None => Some(SitemapDocument::Index(i)),
                }
            }
        },
        None => match url_set {
            Some(u) => Some(SitemapDocument::UrlSet(u)),
            None => None,
        },
    }
}

/// A sitemap location as a URL: parsed on its own, else resolved against
/// the sitemap that lists it.
pub open spec fn resolve_location(current: Seq<char>, loc: Seq<char>) -> Result<Seq<char>, Seq<char>> {
    match url_parse(loc) {
        Ok(u) => Ok(u),
        Err(_) => url_join(current, loc),
    }
}

/// All locations resolved, or the error of the first that does not resolve.
pub open spec fn resolve_locations(current: Seq<char>, locs: Seq<Seq<char>>) -> Result<Seq<Seq<char>>, Seq<char>>
    decreases locs.len(),
{
    if locs.len() == 0 {
        Ok(seq![])
    } else {
        match resolve_locations(current, locs.drop_last()) {
            Err(e) => Err(e),
            Ok(prev) => match resolve_location(current, locs.last()) {
                Err(e) => Err(e),
                Ok(u) => Ok(prev.push(u)),
            },
        }
    }
}

/// The expansion of sitemaps into page URLs, breadth first.
pub struct SitemapWalk {
    pending: VecDeque<String>,
    urls: Vec<String>,
}

impl SitemapWalk {
    /// Sitemaps still to fetch, first first.
    pub closed spec fn pending(&self) -> Seq<Seq<char>> {
        self.pending.deep_view()
    }

    /// Page URLs found so far.
    pub closed spec fn urls(&self) -> Seq<Seq<char>> {
        self.urls.deep_view()
    }

    /// A walk that starts at one sitemap.
    pub fn new(sitemap: &str) -> (r: Self)
        ensures
            r.pending() == seq![sitemap@],
            r.urls().len() == 0,
    {
        let mut pending = VecDeque::new();
        pending.push_back(sitemap.to_owned());
        let r = SitemapWalk { pending, urls: Vec::new() };
        assert(r.pending() =~= seq![sitemap@]);
        assert(r.urls() =~= Seq::<Seq<char>>::empty());
        r
    }

    /// The next sitemap to fetch.
    pub fn next_sitemap(&mut self) -> (r: Option<String>)
        ensures
            match r {
                Some(s) => old(self).pending().len() > 0 && s@ == old(self).pending()[0]
                    && final(self).pending() == old(self).pending().drop_first(),
                None => old(self).pending().len() == 0 && final(self).pending() == old(self).pending(),
            },
            final(self).urls() == old(self).urls(),
    {
        let r = self.pending.pop_front();
        proof {
            if r is Some {
                assert(self.pending() =~= old(self).pending().drop_first());
            }
        }
        r
    }

    /// Takes in the fetched sitemap `current`: a URL set adds its locations
    /// that parse to the page URLs; an index queues its locations, each
    /// resolved, and fails, changing nothing, on the first that does not resolve.
    #[verifier::loop_isolation(false)]
    pub fn add_document(&mut self, current: &str, doc: SitemapDocument) -> (r: Result<(), String>)
        ensures
            match doc {
                SitemapDocument::UrlSet(locs) => r is Ok && final(self).urls() == old(self).urls()
                    + parsed_urls(locs.deep_view()) && final(self).pending() == old(self).pending(),
                SitemapDocument::Index(locs) => match resolve_locations(current@, locs.deep_view()) {
                    Ok(ns) => r is Ok && final(self).pending() == old(self).pending() + ns
                        && final(self).urls() == old(self).urls(),
                    Err(e) => (r matches Err(m) && m@ == e) && final(self).pending() == old(self).pending()
                        && final(self).urls() == old(self).urls(),
                },
            },
    {
        match doc {
            SitemapDocument::UrlSet(locs) => {
                let ghost start = self.urls();
                let mut i: usize = 0;
                while i < locs.len()
                    invariant
                        i <= locs.len(),
                        self.urls() == start + parsed_urls(locs.deep_view().take(i as int)),
                        self.pending() == old(self).pending(),
                        start == old(self).urls(),
                    decreases locs.len() - i,
                {
                    let ghost before = self.urls();
                    assert(locs.deep_view().take(i + 1).drop_last() =~= locs.deep_view().take(i as int));
                    assert(locs.deep_view().take(i + 1).last() == locs@[i as int]@);
                    match parse_url(locs[i].as_str()) {
                        Ok(u) => {
                            self.urls.push(u);
                            assert(self.urls() =~= before.push(self.urls@.last()@));
                        },
                        Err(_) => {},
                    }
                    i = i + 1;
                }
                assert(locs.deep_view().take(i as int) =~= locs.deep_view());
                Ok(())
            },
            SitemapDocument::Index(locs) => {
                let mut resolved: Vec<String> = Vec::new();
                let mut i: usize = 0;
                assert(locs.deep_view().take(0) =~= Seq::<Seq<char>>::empty());
                assert(resolved.deep_view() =~= Seq::<Seq<char>>::empty());
                while i < locs.len()
                    invariant
                        i <= locs.len(),
                        resolve_locations(current@, locs.deep_view().take(i as int)) == Ok::<
                            Seq<Seq<char>>,
                            Seq<char>,
                        >(resolved.deep_view()),
                    decreases locs.len() - i,
                {
                    let ghost ls = locs.deep_view();
                    assert(ls.take(i + 1).drop_last() =~= ls.take(i as int));
                    assert(ls.take(i + 1).last() == locs@[i as int]@);
                    let next = match parse_url(locs[i].as_str()) {
                        Ok(u) => u,
                        Err(_) => match join_url(current, locs[i].as_str()) {
                            Ok(u) => u,
                            Err(e) => {
                                proof {
                                    assert(resolve_location(current@, ls[i as int]) == Err::<Seq<char>, Seq<char>>(e@));
                                    assert(resolve_locations(current@, ls.take(i + 1)) == Err::<Seq<Seq<char>>, Seq<char>>(e@));
                                    lemma_resolve_error_persists(current@, ls, (i + 1) as nat);
                                }
                                return Err(e);
                            },
                        },
                    };
                    let ghost before = resolved.deep_view();
                    resolved.push(next);
                    assert(resolved.deep_view() =~= before.push(resolved@.last()@));
                    i = i + 1;
                }
                assert(locs.deep_view().take(i as int) =~= locs.deep_view());
                let mut k: usize = 0;
                let ghost start = self.pending();
                while k < resolved.len()
                    invariant
                        k <= resolved.len(),
                        self.pending() == start + resolved.deep_view().take(k as int),
                        start == old(self).pending(),
                        self.urls() == old(self).urls(),
                    decreases resolved.len() - k,
                {
                    let ghost before = self.pending();
                    self.pending.push_back(resolved[k].clone());
                    assert(self.pending() =~= before.push(resolved@[k as int]@));
                    assert(resolved.deep_view().take(k + 1) =~= resolved.deep_view().take(k as int).push(
                        resolved@[k as int]@,
                    ));
                    k = k + 1;
                }
                assert(resolved.deep_view().take(k as int) =~= resolved.deep_view());
                Ok(())
            },
        }
    }

    /// The page URLs found.
    pub fn into_urls(self) -> (r: Vec<String>)
        ensures
            r.deep_view() == self.urls(),
    {
        self.urls
    }
}

/// Once a prefix of the locations fails to resolve, so do all the locations.
proof fn lemma_resolve_error_persists(current: Seq<char>, locs: Seq<Seq<char>>, n: nat)
    requires
        n <= locs.len(),
        resolve_locations(current, locs.take(n as int)) is Err,
    ensures
        resolve_locations(current, locs) == resolve_locations(current, locs.take(n as int)),
    decreases locs.len() - n,
{
    if n < locs.len() {
        assert(locs.take((n + 1) as int).drop_last() =~= locs.take(n as int));
        lemma_resolve_error_persists(current, locs, (n + 1) as nat);
    } else {
        assert(locs.take(n as int) =~= locs);
    }
}


/// How a response is treated.
#[derive(Debug, PartialEq, Eq)]
pub enum ResponseKind {
    /// An error status: the fetch failed.
    Failed,
    /// A success that is not HTML: skipped.
    NotHtml,
    /// A success with HTML: the page is read.
    Html,
}

/// Classifies a response by whether its status is a success and by its
/// `Content-Type` header.
pub fn classify_response(success: bool, content_type: Option<&str>) -> (r: ResponseKind)
    ensures
        r == (if !success {
            ResponseKind::Failed
        } else if !match content_type {
            Some(t) => contains_text(t@, "text/html"@),
            None => false,
        } {
            ResponseKind::NotHtml
        } else {
            ResponseKind::Html
        }),
{
    if !success {
        ResponseKind::Failed
    } else if !is_html_content_type(content_type) {
        ResponseKind::NotHtml
    } else {
        ResponseKind::Html
    }
}


/// Each started fetch takes a page of its own: the pages taken grow by at
/// least the number of fetches started. With the page limit on the pages
/// taken, no crawl starts more fetches than the limit.
pub proof fn law_started_count_bounded(st: FrontierModel)
    requires
        st.visited.finite(),
    ensures
        start_fetches(st).0.visited.finite(),
        st.visited.len() + start_fetches(st).1.len() <= start_fetches(st).0.visited.len(),
    decreases st.queue.len(),
{
    if !may_start(st) || st.queue.len() == 0 {
    } else {
        let u = st.queue[0];
        let c = canonical(u);
        let next = FrontierModel { queue: st.queue.drop_first(), visited: st.visited.insert(c), ..st };
        if st.visited.contains(c) || stopped(st.stops, u) {
            law_started_count_bounded(next);
        } else {
            let inner = FrontierModel { in_flight: (st.in_flight + 1) as usize, ..next };
            law_started_count_bounded(inner);
        }
    }
}

/// A URL is a stop URL exactly when some entry of the stop list is that
/// URL, or is that URL without its fragment, or names the same page once
/// both drop their fragments; a URL that merely lies below a stop URL is
/// not stopped. Without a stop list nothing is stopped.
pub proof fn law_stop_urls_name_pages(stops: Option<Seq<Seq<char>>>, u: Seq<char>)
    ensures
        stopped(stops, u) <==> (stops matches Some(s) && exists|i: int|
            0 <= i < s.len() && (#[trigger] s[i] == u || s[i] == canonical(u) || canonical(s[i]) == canonical(u))),
{
}

/// While a worker is free and the page limit allows, the URL at the front
/// of the queue is started first, unless its page was already taken or a
/// stop URL names it (as `law_stop_urls_name_pages` says).
pub proof fn law_front_url_is_started(st: FrontierModel)
    requires
        st.in_flight < st.workers,
        st.visited.len() + st.in_flight < st.max_pages,
        st.queue.len() > 0,
        !st.visited.contains(canonical(st.queue[0])),
        st.stops matches Some(s) ==> forall|i: int|
            0 <= i < s.len() ==> #[trigger] s[i] != st.queue[0] && s[i] != canonical(st.queue[0]) && canonical(s[i])
                != canonical(st.queue[0]),
    ensures
        start_fetches(st).1.len() > 0,
        start_fetches(st).1[0] == st.queue[0],
{
    law_stop_urls_name_pages(st.stops, st.queue[0]);
    assert(!stopped(st.stops, st.queue[0]));
    let u = st.queue[0];
    let next = FrontierModel { queue: st.queue.drop_first(), visited: st.visited.insert(canonical(u)), ..st };
    let inner = FrontierModel { in_flight: (st.in_flight + 1) as usize, ..next };
    let r = start_fetches(inner);
    assert(start_fetches(st).1 == seq![u] + r.1);
}

/// The seed queue outside incremental mode is the start URLs that parse, in
/// order, followed by every sitemap URL, whether or not there are start
/// URLs; in incremental mode it is the configured pages that parse.
pub proof fn law_seeds_are_start_then_sitemap_urls(config: Config, sitemap: Seq<Seq<char>>)
    ensures
        config.only_urls@.len() == 0 ==> seed_queue(config, sitemap) == parsed_urls(config.start_urls.deep_view())
            + sitemap,
        config.only_urls@.len() == 0 ==> seed_queue(config, sitemap).len() >= sitemap.len() && seed_queue(
            config,
            sitemap,
        ).skip(seed_queue(config, sitemap).len() - sitemap.len()) == sitemap,
        config.only_urls@.len() > 0 ==> seed_queue(config, sitemap) == parsed_urls(config.only_urls.deep_view()),
{
    let p = parsed_urls(config.start_urls.deep_view());
    assert((p + sitemap).skip(p.len() as int) =~= sitemap);
}

/// The parsed URLs are exactly what the texts that parse give, in order:
/// each comes from a text that parses, and each text that parses gives
/// one of them.
pub proof fn law_parsed_urls_keep_what_parses(texts: Seq<Seq<char>>)
    ensures
        parsed_urls(texts).len() <= texts.len(),
        forall|k: int|
            0 <= k < parsed_urls(texts).len() ==> exists|i: int|
                0 <= i < texts.len() && #[trigger] url_parse(texts[i]) == Ok::<Seq<char>, Seq<char>>(
                    #[trigger] parsed_urls(texts)[k],
                ),
        forall|i: int|
            0 <= i < texts.len() && (#[trigger] url_parse(texts[i])) is Ok ==> parsed_urls(texts).contains(
                url_parse(texts[i])->Ok_0,
            ),
    decreases texts.len(),
{
    if texts.len() > 0 {
        let pre = texts.drop_last();
        law_parsed_urls_keep_what_parses(pre);
        let p = parsed_urls(pre);
        let q = parsed_urls(texts);
        assert forall|k: int| 0 <= k < q.len() implies exists|i: int|
            0 <= i < texts.len() && #[trigger] url_parse(texts[i]) == Ok::<Seq<char>, Seq<char>>(
                #[trigger] q[k],
            ) by {
            if k < p.len() {
                assert(q[k] == p[k]);
                let i = choose|i: int| 0 <= i < pre.len() && url_parse(pre[i]) == Ok::<Seq<char>, Seq<char>>(p[k]);
                assert(texts[i] == pre[i]);
            } else {
                assert(url_parse(texts[texts.len() - 1]) == Ok::<Seq<char>, Seq<char>>(q[k]));
            }
        }
        assert forall|i: int| 0 <= i < texts.len() && (#[trigger] url_parse(texts[i])) is Ok implies q.contains(
            url_parse(texts[i])->Ok_0,
        ) by {
            if i < pre.len() {
                assert(texts[i] == pre[i]);
                assert(p.contains(url_parse(pre[i])->Ok_0));
                let k = choose|k: int| 0 <= k < p.len() && p[k] == url_parse(pre[i])->Ok_0;
                assert(q[k] == p[k]);
            } else {
                assert(q[q.len() - 1] == url_parse(texts[i])->Ok_0);
            }
        }
    }
}

/// What following links keeps and adds: every page newly queued has an
/// entry appended to the queue, and every link that resolves to a URL on
/// an allowed host ends with its page queued.
proof fn lemma_follow_links_reaches(st: FrontierModel, base: Seq<char>, hrefs: Seq<Option<Seq<char>>>)
    ensures
        ({
            let st2 = follow_links(st, base, hrefs);
            &&& st.queued.subset_of(st2.queued)
            &&& st2.allowed == st.allowed
            &&& st2.queue.len() >= st.queue.len()
            &&& forall|c: Seq<char>|
                #[trigger] st2.queued.contains(c) && !st.queued.contains(c) ==> exists|j: int|
                    st.queue.len() <= j < st2.queue.len() && canonical(#[trigger] st2.queue[j]) == c
            &&& forall|k: int|
                0 <= k < hrefs.len() && (#[trigger] hrefs[k] matches Some(h) && url_join(base, h) matches Ok(n)
                    && st.allowed.contains(
                    match url_host(n) {
                        Some(x) => x,
                        None => Seq::<char>::empty(),
                    },
                )) ==> st2.queued.contains(canonical(url_join(base, hrefs[k]->Some_0)->Ok_0))
        }),
    decreases hrefs.len(),
{
    if hrefs.len() > 0 {
        let pre = hrefs.drop_last();
        lemma_follow_links_reaches(st, base, pre);
        let prev = follow_links(st, base, pre);
        let st2 = follow_links(st, base, hrefs);
        assert(prev.queued.subset_of(st2.queued));
        assert(st2.queue.len() >= prev.queue.len());
        assert forall|j: int| 0 <= j < prev.queue.len() implies st2.queue[j] == prev.queue[j] by {}
        assert forall|c: Seq<char>| #[trigger] st2.queued.contains(c) && !st.queued.contains(c) implies exists|j: int|
            st.queue.len() <= j < st2.queue.len() && canonical(#[trigger] st2.queue[j]) == c by {
            if prev.queued.contains(c) {
                let j = choose|j: int| st.queue.len() <= j < prev.queue.len() && canonical(#[trigger] prev.queue[j]) == c;
                assert(st2.queue[j] == prev.queue[j]);
            } else {
                let j = prev.queue.len() as int;
                assert(canonical(st2.queue[j]) == c);
            }
        }
        assert forall|k: int|
            0 <= k < hrefs.len() && (#[trigger] hrefs[k] matches Some(h) && url_join(base, h) matches Ok(n)
                && st.allowed.contains(
                match url_host(n) {
                    Some(x) => x,
                    None => Seq::<char>::empty(),
                },
            )) implies st2.queued.contains(canonical(url_join(base, hrefs[k]->Some_0)->Ok_0)) by {
            if k < pre.len() {
                assert(hrefs[k] == pre[k]);
            }
        }
    }
}

/// Following the links of a page misses none: every link that resolves
/// against the page URL to a URL on an allowed host, written relative or
/// absolute, ends with its page queued, and when that page was not queued
/// before, a URL of that page is appended to the queue.
pub proof fn law_links_to_allowed_hosts_are_followed(st: FrontierModel, base: Seq<char>, hrefs: Seq<Option<Seq<char>>>)
    ensures
        forall|k: int|
            0 <= k < hrefs.len() && (#[trigger] hrefs[k] matches Some(h) && url_join(base, h) matches Ok(n)
                && st.allowed.contains(
                match url_host(n) {
                    Some(x) => x,
                    None => Seq::<char>::empty(),
                },
            )) ==> ({
                let st2 = follow_links(st, base, hrefs);
                let c = canonical(url_join(base, hrefs[k]->Some_0)->Ok_0);
                &&& st2.queued.contains(c)
                &&& !st.queued.contains(c) ==> exists|j: int|
                    st.queue.len() <= j < st2.queue.len() && canonical(#[trigger] st2.queue[j]) == c
            }),
{
    lemma_follow_links_reaches(st, base, hrefs);
}

/// Outside incremental mode, once an HTML page is extracted, every link on
/// it that resolves against the page's final URL to a URL on an allowed
/// host ends with its page queued; a page not queued before gets a URL
/// appended to the queue.
pub proof fn law_extracted_page_links_are_queued(st: FrontierModel, config: Config, final_url: String, html: String)
    requires
        st.only is None,
    ensures
        finish_fetch(st, config, FetchOutcome::Page { final_url, html }) matches Ok((st2, v)) ==> forall|k: int|
            0 <= k < selected_attrs(html@, "a[href]"@, "href"@).len() && (#[trigger] selected_attrs(
                html@,
                "a[href]"@,
                "href"@,
            )[k] matches Some(h) && url_join(final_url@, h) matches Ok(n) && st.allowed.contains(
                match url_host(n) {
                    Some(x) => x,
                    None => Seq::<char>::empty(),
                },
            )) ==> ({
                let c = canonical(url_join(final_url@, selected_attrs(html@, "a[href]"@, "href"@)[k]->Some_0)->Ok_0);
                &&& st2.queued.contains(c)
                &&& !st.queued.contains(c) ==> exists|j: int|
                    st.queue.len() <= j < st2.queue.len() && canonical(#[trigger] st2.queue[j]) == c
            }),
{
    let outcome = FetchOutcome::Page { final_url, html };
    if let Ok(rs) = page_extraction(html@, final_url@, config) {
        let done = FrontierModel { in_flight: (st.in_flight - 1) as usize, ..st };
        let kept = FrontierModel { fetched: (st.fetched + 1) as usize, records: st.records + rs, ..done };
        law_links_to_allowed_hosts_are_followed(kept, final_url@, selected_attrs(html@, "a[href]"@, "href"@));
    }
}

} // verus!
