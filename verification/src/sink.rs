//! Planning the upload to Meilisearch: whether to write at all, which old
//! documents to delete in incremental mode, how to batch the records, and
//! how to read the answer of the pre-crawl index check.

use vstd::prelude::*;
use vstd::hash_set::StringHashSet;
use crate::config::MeilisearchConfig;
use crate::text::{chars_of, has_visible, is_blank, push_char};

verus! {

/// Whether an index is configured: neither the host nor the index name is blank.
pub open spec fn index_configured(config: MeilisearchConfig) -> bool {
    has_visible(config.host@) && has_visible(config.index_uid@)
}

/// Whether uploading (and the index check) should run: only when an index is
/// configured; otherwise the crawl runs without writing anywhere.
pub fn should_write(config: &MeilisearchConfig) -> (r: bool)
    ensures
        r == index_configured(*config),
{
    !(is_blank(config.host.as_str()) || is_blank(config.index_uid.as_str()))
}

/// A character as written inside a single-quoted filter value: backslash
/// and single quote are preceded by a backslash.
pub open spec fn escape_char(c: char) -> Seq<char> {
    if c == '\\' {
        seq!['\\', '\\']
    } else if c == '\'' {
        seq!['\\', '\'']
    } else {
        seq![c]
    }
}

/// A text as written inside a single-quoted filter value.
pub open spec fn escape_filter_value(s: Seq<char>) -> Seq<char>
    decreases s.len(),
{
    if s.len() == 0 {
        seq![]
    } else {
        escape_char(s[0]) + escape_filter_value(s.drop_first())
    }
}

/// Reads back a filter value: a backslash takes the next character as it is.
pub open spec fn unescape_filter_value(s: Seq<char>) -> Seq<char>
    decreases s.len(),
{
    if s.len() == 0 {
        seq![]
    } else if s[0] == '\\' && s.len() >= 2 {
        seq![s[1]] + unescape_filter_value(s.skip(2))
    } else {
        seq![s[0]] + unescape_filter_value(s.drop_first())
    }
}

proof fn lemma_escape_append(s: Seq<char>, c: char)
    ensures
        escape_filter_value(s.push(c)) == escape_filter_value(s) + escape_char(c),
    decreases s.len(),
{
    if s.len() == 0 {
        assert(s.push(c).drop_first() =~= Seq::<char>::empty());
        assert(s.push(c)[0] == c);
        assert(escape_filter_value(s.push(c).drop_first()) == Seq::<char>::empty());
        assert(escape_filter_value(s) == Seq::<char>::empty());
        assert(escape_filter_value(s.push(c)) =~= escape_char(c) + Seq::<char>::empty());
    } else {
        lemma_escape_append(s.drop_first(), c);
        assert(s.push(c).drop_first() =~= s.drop_first().push(c));
        assert(escape_filter_value(s.push(c)) =~= escape_char(s[0]) + (escape_filter_value(s.drop_first())
            + escape_char(c)));
    }
}

/// Reading back an escaped value gives the text back.
pub proof fn law_filter_value_round_trip(s: Seq<char>)
    ensures
        unescape_filter_value(escape_filter_value(s)) == s,
    decreases s.len(),
{
    if s.len() > 0 {
        law_filter_value_round_trip(s.drop_first());
        let e = escape_filter_value(s);
        let rest = escape_filter_value(s.drop_first());
        let c = s[0];
        if c == '\\' || c == '\'' {
            assert(e.skip(2) =~= rest);
            assert(e[0] == '\\');
            assert(e[1] == c);
        } else {
            assert(e.drop_first() =~= rest);
            assert(e[0] == c);
        }
        assert(unescape_filter_value(e) =~= seq![c] + s.drop_first());
        assert(seq![c] + s.drop_first() =~= s);
    }
}

/// The filter that selects the documents of one page.
pub open spec fn deletion_filter_text(url: Seq<char>) -> Seq<char> {
    "url_without_anchor = '"@ + escape_filter_value(url) + "'"@
}

/// The filter that selects the documents of one page for deletion.
pub fn deletion_filter(url: &str) -> (r: String)
    ensures
        r@ == deletion_filter_text(url@),
{
    let cs = chars_of(url);
    let mut r = "url_without_anchor = '".to_owned();
    let ghost prefix = r@;
    let mut i: usize = 0;
    assert(cs@.take(0) =~= Seq::<char>::empty());
    while i < cs.len()
        invariant
            i <= cs.len(),
            r@ == prefix + escape_filter_value(cs@.take(i as int)),
        decreases cs.len() - i,
    {
        let c = cs[i];
        proof {
            lemma_escape_append(cs@.take(i as int), c);
            assert(cs@.take(i + 1) =~= cs@.take(i as int).push(c));
        }
        if c == '\\' {
            push_char(&mut r, '\\');
            push_char(&mut r, '\\');
        } else if c == '\'' {
            push_char(&mut r, '\\');
            push_char(&mut r, '\'');
        } else {
            push_char(&mut r, c);
        }
        assert(r@ =~= prefix + escape_filter_value(cs@.take(i + 1)));
        i = i + 1;
    }
    assert(cs@.take(i as int) =~= url@);
    r.append("'");
    r
}

/// The first occurrences of the texts, in order.
pub open spec fn distinct_texts(s: Seq<Seq<char>>) -> Seq<Seq<char>>
    decreases s.len(),
{
    if s.len() == 0 {
        seq![]
    } else {
        let p = distinct_texts(s.drop_last());
        if p.contains(s.last()) {
            p
        } else {
            p.push(s.last())
        }
    }
}

/// The pages whose old documents incremental mode deletes: each configured
/// page once, in the order of first mention.
pub fn distinct_urls(urls: &Vec<String>) -> (r: Vec<String>)
    ensures
        r.deep_view() == distinct_texts(urls.deep_view()),
{
    let mut seen = StringHashSet::new();
    let mut r: Vec<String> = Vec::new();
    let mut i: usize = 0;
    while i < urls.len()
        invariant
            i <= urls.len(),
            r.deep_view() == distinct_texts(urls.deep_view().take(i as int)),
            forall|t: Seq<char>| seen@.contains(t) <==> r.deep_view().contains(t),
        decreases urls.len() - i,
    {
        let ghost uv = urls.deep_view();
        assert(uv.take(i + 1).drop_last() =~= uv.take(i as int));
        assert(uv.take(i + 1).last() == urls@[i as int]@);
        let ghost before = r.deep_view();
        if !seen.contains(urls[i].as_str()) {
            seen.insert(urls[i].clone());
            r.push(urls[i].clone());
            assert(r.deep_view() =~= before.push(urls@[i as int]@));
            assert forall|t: Seq<char>| seen@.contains(t) <==> r.deep_view().contains(t) by {
                if r.deep_view().contains(t) && t != urls@[i as int]@ {
                    let k = choose|k: int| 0 <= k < r.deep_view().len() && r.deep_view()[k] == t;
                    assert(before[k] == t);
                }
                if before.contains(t) {
                    let k = choose|k: int| 0 <= k < before.len() && before[k] == t;
                    assert(r.deep_view()[k] == t);
                }
                assert(r.deep_view()[before.len() as int] == urls@[i as int]@);
            }
        }
        i = i + 1;
    }
    assert(urls.deep_view().take(i as int) =~= urls.deep_view());
    r
}

/// Every text of the list occurs once in `distinct_texts`, and nothing else does.
pub proof fn law_distinct_texts(s: Seq<Seq<char>>)
    ensures
        distinct_texts(s).no_duplicates(),
        forall|t: Seq<char>| distinct_texts(s).contains(t) <==> s.contains(t),
    decreases s.len(),
{
    if s.len() > 0 {
        law_distinct_texts(s.drop_last());
        let p = distinct_texts(s.drop_last());
        assert forall|t: Seq<char>| distinct_texts(s).contains(t) <==> s.contains(t) by {
            if s.drop_last().contains(t) {
                let k = choose|k: int| 0 <= k < s.drop_last().len() && s.drop_last()[k] == t;
                assert(s[k] == t);
            }
            if s.contains(t) {
                let k = choose|k: int| 0 <= k < s.len() && s[k] == t;
                if k < s.len() - 1 {
                    assert(s.drop_last()[k] == t);
                }
            }
            if !p.contains(s.last()) {
                let q = p.push(s.last());
                assert(q[p.len() as int] == s.last());
                if q.contains(t) {
                    let k = choose|k: int| 0 <= k < q.len() && q[k] == t;
                    if k < p.len() {
                        assert(p[k] == t);
                    }
                }
                if p.contains(t) {
                    let k = choose|k: int| 0 <= k < p.len() && p[k] == t;
                    assert(q[k] == t);
                }
            }
        }
        if !p.contains(s.last()) {
            let q = p.push(s.last());
            assert forall|a: int, b: int| 0 <= a < q.len() && 0 <= b < q.len() && a != b implies q[a] != q[b] by {
                if a == p.len() as int {
                    assert(q[b] == p[b]);
                } else if b == p.len() as int {
                    assert(q[a] == p[a]);
                } else {
                    assert(q[a] == p[a] && q[b] == p[b]);
                }
            }
        }
    }
}

/// The record ranges `[start, end)` of the upload batches: consecutive,
/// covering `0..len`, each of `size` records except possibly the last.
pub open spec fn batches_of(ranges: Seq<(usize, usize)>, len: nat, size: nat) -> bool {
    &&& (len == 0 <==> ranges.len() == 0)
    &&& ranges.len() > 0 ==> ranges[0].0 == 0 && ranges.last().1 == len
    &&& forall|k: int| 0 <= k < ranges.len() - 1 ==> #[trigger] ranges[k].1 == ranges[k + 1].0
    &&& forall|k: int| 0 <= k < ranges.len() ==> (#[trigger] ranges[k]).0 < ranges[k].1 && ranges[k].1 - ranges[k].0 <= size
    &&& forall|k: int| 0 <= k < ranges.len() - 1 ==> (#[trigger] ranges[k]).1 - ranges[k].0 == size
}

/// The upload batches of `len` records, `size` records each (the last may
/// hold fewer), as `slice::chunks` cuts them.
pub fn batch_ranges(len: usize, size: usize) -> (r: Vec<(usize, usize)>)
    requires
        size > 0,
    ensures
        batches_of(r@, len as nat, size as nat),
{
    let mut r: Vec<(usize, usize)> = Vec::new();
    let mut start: usize = 0;
    while start < len
        invariant
            size > 0,
            start <= len,
            (start == 0 <==> r@.len() == 0),
            r@.len() > 0 ==> r@[0].0 == 0 && r@.last().1 == start,
            forall|k: int| 0 <= k < r@.len() - 1 ==> #[trigger] r@[k].1 == r@[k + 1].0,
            forall|k: int| 0 <= k < r@.len() ==> (#[trigger] r@[k]).0 < r@[k].1 && r@[k].1 - r@[k].0 <= size,
            forall|k: int| 0 <= k < r@.len() ==> (#[trigger] r@[k]).1 - r@[k].0 == size,
        decreases len - start,
    {
        let end = if len - start > size {
            start + size
        } else {
            len
        };
        if end - start < size {
            r.push((start, end));
            start = end;
            assert(batches_of(r@, len as nat, size as nat));
            return r;
        }
        r.push((start, end));
        start = end;
    }
    r
}

/// What the index check saw when reading the target index.
pub enum IndexProbe {
    /// The index exists and the key may read it.
    Found,
    /// The server rejected the API key.
    InvalidApiKey,
    /// The request carried no authorization header.
    MissingAuthorizationHeader,
    /// The index does not exist, or the key may not see it.
    IndexNotFound,
    /// Any other failure, with its message.
    Other(String),
}

/// The verdict of the index check: the crawl goes ahead when the index was
/// found or does not exist yet (it is created on the first upload), and
/// stops with an explanation when the key is rejected or missing or the
/// check failed otherwise.
pub fn index_check_verdict(probe: IndexProbe) -> (r: Result<(), String>)
    ensures
        match probe {
            IndexProbe::Found => r is Ok,
            IndexProbe::IndexNotFound => r is Ok,
            IndexProbe::InvalidApiKey => r matches Err(m) && m@
                == "MeiliSearch: API key is invalid (invalid_api_key). Please check whether the MEILISEARCH_API_KEY environment variable is set correctly."@,
            IndexProbe::MissingAuthorizationHeader => r matches Err(m) && m@
                == "No valid Authorization header (missing_authorization_header) was provided. Please set the MEILISEARCH_API_KEY environment variable."@,
            IndexProbe::Other(e) => r matches Err(m) && m@ == "MeiliSearch check failed: "@ + e@,
        },
{
    match probe {
        IndexProbe::Found => Ok(()),
        IndexProbe::IndexNotFound => Ok(()),
        IndexProbe::InvalidApiKey => Err(
            "MeiliSearch: API key is invalid (invalid_api_key). Please check whether the MEILISEARCH_API_KEY environment variable is set correctly.".to_owned(),
        ),
        IndexProbe::MissingAuthorizationHeader => Err(
            "No valid Authorization header (missing_authorization_header) was provided. Please set the MEILISEARCH_API_KEY environment variable.".to_owned(),
        ),
        IndexProbe::Other(e) => {
            let mut m = "MeiliSearch check failed: ".to_owned();
            m.append(e.as_str());
            Err(m)
        },
    }
}


/// The message when the Meilisearch client cannot be created.
pub fn client_failure_message(host: &str, error: &str) -> (r: String)
    ensures
        r@ == "MeiliSearch: MeiliSearch client initialization failed (host: "@ + host@ + ") : "@ + error@,
{
    let mut m = "MeiliSearch: MeiliSearch client initialization failed (host: ".to_owned();
    m.append(host);
    m.append(") : ");
    m.append(error);
    m
}

/// The message when Meilisearch does not answer the health check.
pub fn health_failure_message(host: &str, error: &str) -> (r: String)
    ensures
        r@ == "MeiliSearch: Unable to connect to MeiliSearch ("@ + host@ + "): "@ + error@
            + ". Please check the meilisearch.host configuration, service status and network connectivity."@,
{
    let mut m = "MeiliSearch: Unable to connect to MeiliSearch (".to_owned();
    m.append(host);
    m.append("): ");
    m.append(error);
    m.append(". Please check the meilisearch.host configuration, service status and network connectivity.");
    m
}

} // verus!
