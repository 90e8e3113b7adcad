//! Turns one HTML page into search records: headings set the current
//! heading path, content blocks inherit it, in document order.

use vstd::prelude::*;
use vstd::utf8::encode_utf8;
use crate::config::{entry_default, entry_is_global, entry_selector, rank_for, Config, SelectorMap};
use crate::digest::{sha256, sha256_digest};
use crate::dom::{
    compile_selector, css_selector_error, elements_below, first_match, parse_document, scan_below,
    select_attrs, select_first, selected_attrs, selector_texts, CompiledSelector, Document, ElementFacts,
};
use crate::model::{HierarchyFields, RecordModel, SearchRecord};
use crate::text::{
    chars_of, decimal, digit, digit_char, has_visible, hex_lower, is_blank, normalize_text,
    normalized_text, parse_i32, parse_i32_from, push_char, push_decimal, starts_with, to_hex_lower,
    trim, trim_str,
};
use crate::web::{set_fragment, strip_fragment, url_with_fragment, url_without_fragment};

verus! {

/// The record type of heading level `l`: `lvl` followed by the digit.
pub open spec fn level_name(l: int) -> Seq<char> {
    "lvl"@ + seq![digit_char(l)]
}

/// The level number of a record type `lvlN`, parsed as `str::parse::<i32>` does.
pub open spec fn level_number(record_type: Seq<char>) -> Option<int> {
    if starts_with(record_type, seq!['l', 'v', 'l']) {
        parse_i32(record_type.skip(3))
    } else {
        None
    }
}

/// The search weight of a record type: `100 - 10 * N` for `lvlN`, 0 otherwise.
pub open spec fn level_weight(record_type: Seq<char>) -> int {
    match level_number(record_type) {
        Some(l) => 100 - l * 10,
        None => 0,
    }
}

/// The search weight of a record type: `lvlN` weighs `100 - 10 * N`, every
/// other type 0.
pub fn get_level_weight(record_type: &str) -> (w: i32)
    requires
        level_number(record_type@) matches Some(l) ==> i32::MIN <= l * 10 <= i32::MAX
            && i32::MIN <= 100 - l * 10 <= i32::MAX,
    ensures
        w == level_weight(record_type@),
{
    let cs = chars_of(record_type);
    if cs.len() >= 3 && cs[0] == 'l' && cs[1] == 'v' && cs[2] == 'l' {
        assert(cs@.take(3) =~= seq!['l', 'v', 'l']);
        match parse_i32_from(&cs, 3) {
            Some(l) => 100 - l * 10,
            None => 0,
        }
    } else {
        proof {
            if cs.len() >= 3 {
                assert(cs@.take(3)[0] == cs@[0]);
                assert(cs@.take(3)[1] == cs@[1]);
                assert(cs@.take(3)[2] == cs@[2]);
            }
        }
        0
    }
}

pub proof fn lemma_level_name_weight(l: int)
    requires
        0 <= l < 7,
    ensures
        level_number(level_name(l)) == Some(l),
        level_weight(level_name(l)) == 100 - 10 * l,
{
    reveal_strlit("lvl");
    let t = level_name(l);
    assert(t.take(3) =~= seq!['l', 'v', 'l']);
    let ds = t.skip(3);
    assert(ds =~= seq![digit_char(l)]);
    let c = digit_char(l);
    assert(c == (48 + l) as char);
    assert(c as int == 48 + l);
    assert(ds.drop_last() =~= Seq::<char>::empty());
    assert(crate::text::digits_value(ds.drop_last()) == 0);
    assert(crate::text::digits_value(ds) == l);
    assert(ds[0] == c);
    assert(crate::text::all_digits(ds));
    assert(c != '-' && c != '+');
    assert(parse_i32(ds) == Some(l));
}

pub proof fn lemma_content_weight()
    ensures
        level_number("content"@) is None,
        level_weight("content"@) == 0,
{
    reveal_strlit("content");
    assert("content"@.take(3)[0] == 'c');
}

/// An element's `id` as an anchor: kept only when it is not blank.
pub open spec fn anchor_of(id: Option<Seq<char>>) -> Option<Seq<char>> {
    match id {
        Some(s) => if has_visible(s) {
            Some(s)
        } else {
            None
        },
        None => None,
    }
}

fn element_anchor(id: &Option<String>) -> (r: Option<String>)
    ensures
        r.deep_view() == anchor_of(id.deep_view()),
{
    match id {
        Some(s) => if is_blank(s.as_str()) {
            None
        } else {
            Some(s.clone())
        },
        None => None,
    }
}

/// The page URL without its fragment, or the URL as given when it does not parse.
pub open spec fn page_without_anchor(url: Seq<char>) -> Seq<char> {
    match url_without_fragment(url) {
        Some(u) => u,
        None => url,
    }
}

/// The record URL: the page URL with the anchor as fragment, when there is a
/// non-empty anchor and the page URL parses; else the URL as given.
pub open spec fn record_url(url: Seq<char>, anchor: Option<Seq<char>>) -> Seq<char> {
    match anchor {
        Some(a) => if a.len() > 0 {
            match url_with_fragment(page_without_anchor(url), a) {
                Some(u) => u,
                None => url,
            }
        } else {
            url
        },
        None => url,
    }
}

/// The text that identifies a record: page URL without fragment, type,
/// anchor and position, separated by `|`.
pub open spec fn identity_text(
    url_without_anchor: Seq<char>,
    record_type: Seq<char>,
    anchor: Option<Seq<char>>,
    position: usize,
) -> Seq<char> {
    url_without_anchor + seq!['|'] + record_type + seq!['|'] + (match anchor {
        Some(a) => a,
        None => Seq::<char>::empty(),
    }) + seq!['|'] + decimal(position as nat)
}

/// The object id: lowercase hex of the SHA-256 digest of the UTF-8 identity text.
pub open spec fn object_id_of(identity: Seq<char>) -> Seq<char> {
    hex_lower(sha256(encode_utf8(identity)))
}

/// The radio fields: the anchor at the record's own heading level, nothing elsewhere.
pub open spec fn radio_fields(anchor: Option<Seq<char>>, radio_level: Option<int>) -> Seq<Option<Seq<char>>> {
    Seq::new(7, |i: int| if radio_level == Some(i) { anchor } else { None })
}

/// The record built from its parts.
pub open spec fn record_model(
    url: Seq<char>,
    lang: Seq<char>,
    anchor: Option<Seq<char>>,
    content: Option<Seq<char>>,
    record_type: Seq<char>,
    position: usize,
    hierarchy: Seq<Option<Seq<char>>>,
    radio_level: Option<int>,
    page_rank: i32,
) -> RecordModel {
    let uwa = page_without_anchor(url);
    RecordModel {
        anchor,
        content,
        record_type,
        tags: Seq::empty(),
        url: record_url(url, anchor),
        url_without_variables: url,
        lang,
        url_without_anchor: uwa,
        no_variables: true,
        object_id: object_id_of(identity_text(uwa, record_type, anchor, position)),
        page_rank,
        level: level_weight(record_type) as i32,
        position,
        levels: seven_levels(hierarchy),
        radios: radio_fields(anchor, radio_level),
    }
}

/// The heading path held in a record: the first seven levels of the given
/// path, unset where the path is shorter.
pub open spec fn seven_levels(h: Seq<Option<Seq<char>>>) -> Seq<Option<Seq<char>>> {
    Seq::new(7, |i: int| if i < h.len() { h[i] } else { None })
}

/// The weight of a record type fits an `i32` (`get_level_weight` would
/// overflow otherwise).
pub open spec fn weight_fits(record_type: Seq<char>) -> bool {
    level_number(record_type) matches Some(l) ==> i32::MIN <= l * 10 <= i32::MAX && i32::MIN <= 100 - l * 10
        <= i32::MAX
}

fn level_at(h: &Vec<Option<String>>, k: usize) -> (r: Option<String>)
    ensures
        r.deep_view() == (if k < h.len() { h.deep_view()[k as int] } else { None }),
{
    if k < h.len() {
        clone_text(&h[k])
    } else {
        None
    }
}

fn clone_text(o: &Option<String>) -> (r: Option<String>)
    ensures
        r.deep_view() == o.deep_view(),
{
    match o {
        Some(s) => Some(s.clone()),
        None => None,
    }
}

fn make_record(
    url: &str,
    lang: String,
    anchor: Option<String>,
    content: Option<String>,
    record_type: String,
    position: usize,
    hierarchy: &Vec<Option<String>>,
    radio_level: Option<usize>,
    page_rank: i32,
) -> (r: SearchRecord)
    requires
        weight_fits(record_type@),
    ensures
        r@ == record_model(
            url@,
            lang@,
            anchor.deep_view(),
            content.deep_view(),
            record_type@,
            position,
            hierarchy.deep_view(),
            match radio_level {
                Some(l) => Some(l as int),
                None => None,
            },
            page_rank,
        ),
        r.object_id@.len() == 64,
{
    let ghost radio = match radio_level {
        Some(l) => Some(l as int),
        None => None,
    };
    let url_without_anchor = match strip_fragment(url) {
        Some(u) => u,
        None => url.to_owned(),
    };
    let url_text = match &anchor {
        Some(a) => if !a.as_str().is_empty() {
            match set_fragment(url_without_anchor.as_str(), a.as_str()) {
                Some(u) => u,
                None => url.to_owned(),
            }
        } else {
            url.to_owned()
        },
        None => url.to_owned(),
    };
    let mut identity = url_without_anchor.clone();
    push_char(&mut identity, '|');
    identity.append(record_type.as_str());
    push_char(&mut identity, '|');
    match &anchor {
        Some(a) => identity.append(a.as_str()),
        None => {},
    }
    push_char(&mut identity, '|');
    push_decimal(&mut identity, position);
    assert(identity@ =~= identity_text(url_without_anchor@, record_type@, anchor.deep_view(), position));
    let digest = sha256_digest(identity.as_str().as_bytes());
    let object_id = to_hex_lower(&digest);
    proof {
        crate::text::lemma_hex_lower_len(digest@);
    }
    let mut fields = HierarchyFields::default();
    fields.lvl0 = level_at(hierarchy, 0);
    fields.lvl1 = level_at(hierarchy, 1);
    fields.lvl2 = level_at(hierarchy, 2);
    fields.lvl3 = level_at(hierarchy, 3);
    fields.lvl4 = level_at(hierarchy, 4);
    fields.lvl5 = level_at(hierarchy, 5);
    fields.lvl6 = level_at(hierarchy, 6);
    match radio_level {
        Some(0) => fields.radio_lvl0 = clone_text(&anchor),
        Some(1) => fields.radio_lvl1 = clone_text(&anchor),
        Some(2) => fields.radio_lvl2 = clone_text(&anchor),
        Some(3) => fields.radio_lvl3 = clone_text(&anchor),
        Some(4) => fields.radio_lvl4 = clone_text(&anchor),
        Some(5) => fields.radio_lvl5 = clone_text(&anchor),
        Some(6) => fields.radio_lvl6 = clone_text(&anchor),
        _ => {},
    }
    let level = get_level_weight(record_type.as_str());
    let r = SearchRecord {
        anchor,
        content,
        level,
        record_type,
        tags: Vec::new(),
        url: url_text,
        url_without_variables: url.to_owned(),
        lang,
        url_without_anchor,
        no_variables: true,
        object_id,
        page_rank,
        position,
        hierarchy: fields,
    };
    assert(r@.levels =~= seven_levels(hierarchy.deep_view()));
    assert(r@.radios =~= radio_fields(anchor.deep_view(), radio));
    assert(r@.tags =~= Seq::<Seq<char>>::empty());
    r
}


/// The heading path and the records produced so far.
pub type PageState = (Seq<Option<Seq<char>>>, Seq<RecordModel>);

/// The state held by the extractor's heading path and record list.
pub open spec fn state_of(hierarchy: Vec<Option<String>>, records: Vec<SearchRecord>) -> PageState {
    (hierarchy.deep_view(), records@.map_values(|r: SearchRecord| r@))
}

/// The message for a selector that does not compile.
pub open spec fn selector_error_message(name: Seq<char>, error: Seq<char>) -> Seq<char> {
    "selectors."@ + name + ": invalid CSS selector: "@ + error
}

/// The error for the first selector, from position `i` on, whose trimmed
/// text is not empty and does not compile.
pub open spec fn failure_from(sel: SelectorMap, i: int) -> Option<Seq<char>>
    decreases sel.names().len() - i,
{
    if i < 0 || i >= sel.names().len() {
        None
    } else {
        let src = trim(entry_selector(sel.entries()[i]));
        if src.len() > 0 && css_selector_error(src) is Some {
            Some(selector_error_message(sel.names()[i], css_selector_error(src)->0))
        } else {
            failure_from(sel, i + 1)
        }
    }
}

/// The error for the first selector, in the map's order, that does not compile.
pub open spec fn selector_failure(sel: SelectorMap) -> Option<Seq<char>> {
    failure_from(sel, 0)
}

/// Every selector whose trimmed text is not empty compiles.
pub open spec fn selectors_compile(sel: SelectorMap) -> bool {
    forall|i: int|
        0 <= i < sel.entries().len() ==> (trim(entry_selector(#[trigger] sel.entries()[i])).len() > 0
            ==> css_selector_error(trim(entry_selector(sel.entries()[i]))) is None)
}

/// The trimmed selector text stored under `name`, when there is one and it is not empty.
pub open spec fn compiled_source(sel: SelectorMap, name: Seq<char>) -> Option<Seq<char>> {
    match sel.lookup(name) {
        Some(e) => if trim(entry_selector(e)).len() > 0 {
            Some(trim(entry_selector(e)))
        } else {
            None
        },
        None => None,
    }
}

/// The selector slots that the body walk tests: levels 0 to 6, then content.
pub open spec fn slot_name(k: int) -> Seq<char> {
    if k < 7 {
        level_name(k)
    } else {
        "content"@
    }
}

/// The selector texts of the slots before `n` that hold a selector, in slot order.
pub open spec fn scan_sources(sel: SelectorMap, n: nat) -> Seq<Seq<char>>
    decreases n,
{
    if n == 0 {
        seq![]
    } else {
        let p = scan_sources(sel, (n - 1) as nat);
        match compiled_source(sel, slot_name(n - 1)) {
            Some(s) => p.push(s),
            None => p,
        }
    }
}

/// Whether slot `k` holds a selector that matches, given the per-selector
/// match results `m` of a body scan.
pub open spec fn slot_matched(sel: SelectorMap, m: Seq<bool>, k: int) -> bool {
    compiled_source(sel, slot_name(k)) is Some && m[scan_sources(sel, k as nat).len() as int]
}

/// The first heading level, from `l` on, whose selector matches.
pub open spec fn first_matched_level(sel: SelectorMap, m: Seq<bool>, l: int) -> Option<int>
    decreases 7 - l,
{
    if l < 0 || l >= 7 {
        None
    } else if slot_matched(sel, m, l) {
        Some(l)
    } else {
        first_matched_level(sel, m, l + 1)
    }
}

/// Whether the selector of heading level `l` is global.
pub open spec fn level_is_global(sel: SelectorMap, l: int) -> bool {
    match sel.lookup(level_name(l)) {
        Some(e) => entry_is_global(e),
        None => false,
    }
}

/// The heading path after a heading of level `l` with text `t`: shallower
/// levels kept, level `l` set, deeper levels cleared.
pub open spec fn heading_path(h: Seq<Option<Seq<char>>>, l: int, t: Seq<char>) -> Seq<Option<Seq<char>>> {
    Seq::new(7, |i: int| if i < l { h[i] } else if i == l { Some(t) } else { None })
}

/// The deepest heading that is set.
pub open spec fn deepest_heading(h: Seq<Option<Seq<char>>>) -> Option<Seq<char>>
    decreases h.len(),
{
    if h.len() == 0 {
        None
    } else if h.last() is Some {
        h.last()
    } else {
        deepest_heading(h.drop_last())
    }
}

/// What the page holds for a global heading level, as (anchor, text): the
/// normalized text of the first element its selector selects, when that
/// text is not empty, with the element's `id` as anchor when the `id` is not
/// blank, else the text.
pub open spec fn global_found(html: Seq<char>, sel: SelectorMap, l: int) -> Option<(Seq<char>, Seq<char>)> {
    match compiled_source(sel, level_name(l)) {
        None => None,
        Some(src) => match first_match(html, src, "id"@) {
            None => None,
            Some(f) => {
                let t = normalized_text(f.1);
                if t.len() == 0 {
                    None
                } else {
                    let a = match anchor_of(f.0) {
                        Some(a) => a,
                        None => t,
                    };
                    Some((a, t))
                }
            },
        },
    }
}

/// The (anchor, text) of a global heading level: what the page holds, else
/// the configured default as both; none for a level that is not global.
pub open spec fn global_value(html: Seq<char>, sel: SelectorMap, l: int) -> Option<(Seq<char>, Seq<char>)> {
    match sel.lookup(level_name(l)) {
        Some(e) => if entry_is_global(e) {
            match global_found(html, sel, l) {
                Some(v) => Some(v),
                None => match entry_default(e) {
                    Some(d) => Some((d, d)),
                    None => None,
                },
            }
        } else {
            None
        },
        None => None,
    }
}

/// A global heading level sets its level of the path to its text and
/// yields a record with its anchor.
pub open spec fn global_step(
    html: Seq<char>,
    url: Seq<char>,
    lang: Seq<char>,
    rank: i32,
    sel: SelectorMap,
    st: PageState,
    l: int,
) -> PageState {
    match global_value(html, sel, l) {
        None => st,
        Some(v) => {
            let h = st.0.update(l, Some(v.1));
            (h, st.1.push(record_model(url, lang, Some(v.0), None, level_name(l), st.1.len() as usize, h, Some(l), rank)))
        },
    }
}

/// The state after the global heading levels below `n`.
pub open spec fn global_pass(
    html: Seq<char>,
    url: Seq<char>,
    lang: Seq<char>,
    rank: i32,
    sel: SelectorMap,
    n: nat,
) -> PageState
    decreases n,
{
    if n == 0 {
        (Seq::new(7, |i: int| None::<Seq<char>>), Seq::empty())
    } else {
        global_step(html, url, lang, rank, sel, global_pass(html, url, lang, rank, sel, (n - 1) as nat), n - 1)
    }
}

/// One body element: a heading (the first level whose selector matches)
/// that is not global and has text sets the path and yields a heading
/// record; else a content element with text yields a content record under
/// the deepest heading; every other element changes nothing.
pub open spec fn body_step(
    url: Seq<char>,
    lang: Seq<char>,
    rank: i32,
    sel: SelectorMap,
    st: PageState,
    f: (Seq<bool>, Option<Seq<char>>, Seq<Seq<char>>),
) -> PageState {
    let h = st.0;
    let rs = st.1;
    match first_matched_level(sel, f.0, 0) {
        Some(l) => if level_is_global(sel, l) {
            st
        } else {
            let t = normalized_text(f.2);
            if t.len() == 0 {
                st
            } else {
                let h2 = heading_path(h, l, t);
                let a = match anchor_of(f.1) {
                    Some(x) => x,
                    None => t,
                };
                (h2, rs.push(record_model(url, lang, Some(a), None, level_name(l), rs.len() as usize, h2, Some(l), rank)))
            }
        },
        None => if slot_matched(sel, f.0, 7) {
            let t = normalized_text(f.2);
            if t.len() == 0 {
                st
            } else {
                (h, rs.push(record_model(url, lang, deepest_heading(h), Some(t), "content"@, rs.len() as usize, h, None, rank)))
            }
        } else {
            st
        },
    }
}

/// The state after the global levels and then the given body elements.
pub open spec fn body_pass(
    html: Seq<char>,
    url: Seq<char>,
    lang: Seq<char>,
    rank: i32,
    sel: SelectorMap,
    facts: Seq<(Seq<bool>, Option<Seq<char>>, Seq<Seq<char>>)>,
) -> PageState
    decreases facts.len(),
{
    if facts.len() == 0 {
        global_pass(html, url, lang, rank, sel, 7)
    } else {
        body_step(url, lang, rank, sel, body_pass(html, url, lang, rank, sel, facts.drop_last()), facts.last())
    }
}

/// The page language: the `lang` attribute of the first element that
/// `html[lang]` selects, else `zh-CN`.
pub open spec fn page_lang(html: Seq<char>) -> Seq<char> {
    let langs = selected_attrs(html, "html[lang]"@, "lang"@);
    if langs.len() > 0 && langs[0] is Some {
        langs[0]->0
    } else {
        "zh-CN"@
    }
}

/// The message for a selector of the extractor's own that does not compile.
pub open spec fn builtin_error_message(source: Seq<char>, error: Seq<char>) -> Seq<char> {
    "built-in selector "@ + source + ": invalid CSS selector: "@ + error
}

/// The error for the first of the extractor's own selectors (`body`, `*`,
/// `html[lang]`) that does not compile.
pub open spec fn builtin_failure() -> Option<Seq<char>> {
    if css_selector_error("body"@) is Some {
        Some(builtin_error_message("body"@, css_selector_error("body"@)->0))
    } else if css_selector_error("*"@) is Some {
        Some(builtin_error_message("*"@, css_selector_error("*"@)->0))
    } else if css_selector_error("html[lang]"@) is Some {
        Some(builtin_error_message("html[lang]"@, css_selector_error("html[lang]"@)->0))
    } else {
        None
    }
}

/// The records of a page: the global heading levels, then every element
/// below `<body>` in document order. Or the error for the first configured
/// selector that does not compile, else for the first of the extractor's
/// own selectors that does not.
pub open spec fn page_extraction(html: Seq<char>, url: Seq<char>, config: Config) -> Result<Seq<RecordModel>, Seq<char>> {
    let sel = config.selectors;
    match selector_failure(sel) {
        Some(m) => Err(m),
        None => match builtin_failure() {
            Some(m) => Err(m),
            None => Ok(
                body_pass(
                    html,
                    url,
                    page_lang(html),
                    rank_for(config.rank_rules(), url),
                    sel,
                    elements_below(html, "body"@, "*"@, scan_sources(sel, 8), "id"@),
                ).1,
            ),
        },
    }
}

/// Compiles one of the extractor's own selectors.
pub(crate) fn compile_builtin(source: &str) -> (r: Result<CompiledSelector, String>)
    ensures
        match r {
            Ok(c) => c@ == source@ && css_selector_error(source@) is None,
            Err(m) => css_selector_error(source@) is Some && m@ == builtin_error_message(
                source@,
                css_selector_error(source@)->0,
            ),
        },
{
    match compile_selector(source) {
        Ok(c) => Ok(c),
        Err(e) => {
            let mut m = "built-in selector ".to_owned();
            m.append(source);
            m.append(": invalid CSS selector: ");
            m.append(e.as_str());
            Err(m)
        },
    }
}

/// Checks, in the map's order, that every non-blank selector compiles.
fn validate_selectors(sel: &SelectorMap) -> (r: Result<(), String>)
    requires
        sel.wf(),
    ensures
        match r {
            Ok(_) => selector_failure(*sel) is None && selectors_compile(*sel),
            Err(m) => selector_failure(*sel) == Some(m@),
        },
{
    let n = sel.len();
    let mut i: usize = 0;
    while i < n
        invariant
            n == sel.names().len() == sel.entries().len(),
            i <= n,
            failure_from(*sel, 0) == failure_from(*sel, i as int),
            forall|k: int|
                0 <= k < i ==> (trim(entry_selector(#[trigger] sel.entries()[k])).len() > 0
                    ==> css_selector_error(trim(entry_selector(sel.entries()[k]))) is None),
        decreases n - i,
    {
        let (name, entry) = sel.item_at(i);
        let raw = trim_str(entry.raw_selector());
        if !raw.is_empty() {
            match compile_selector(raw) {
                Ok(_) => {},
                Err(e) => {
                    let mut msg = "selectors.".to_owned();
                    msg.append(name);
                    msg.append(": invalid CSS selector: ");
                    msg.append(e.as_str());
                    return Err(msg);
                },
            }
        }
        i = i + 1;
    }
    Ok(())
}

fn level_name_string(l: usize) -> (r: String)
    requires
        l < 7,
    ensures
        r@ == level_name(l as int),
{
    let mut s = "lvl".to_owned();
    push_char(&mut s, digit(l as u8));
    s
}

fn slot_name_string(k: usize) -> (r: String)
    requires
        k < 8,
    ensures
        r@ == slot_name(k as int),
{
    if k < 7 {
        level_name_string(k)
    } else {
        "content".to_owned()
    }
}

fn compiled_text<'a>(sel: &'a SelectorMap, name: &str) -> (r: Option<&'a str>)
    requires
        sel.wf(),
    ensures
        match r {
            Some(t) => compiled_source(*sel, name@) == Some(t@),
            None => compiled_source(*sel, name@) is None,
        },
{
    match sel.get(name) {
        Some(e) => {
            let t = trim_str(e.raw_selector());
            if t.is_empty() {
                None
            } else {
                Some(t)
            }
        },
        None => None,
    }
}

proof fn lemma_compiled_source_compiles(sel: SelectorMap, name: Seq<char>)
    requires
        sel.wf(),
        selectors_compile(sel),
        compiled_source(sel, name) is Some,
    ensures
        css_selector_error(compiled_source(sel, name)->0) is None,
{
    let i = sel.names().index_of(name);
    assert(0 <= i < sel.entries().len());
    assert(trim(entry_selector(sel.entries()[i])).len() > 0);
}

/// The slots hold the compiled selectors of levels 0 to 6 and content.
pub open spec fn slots_ready(sel: SelectorMap, scan: Seq<CompiledSelector>, slots: Seq<Option<usize>>) -> bool {
    &&& slots.len() == 8
    &&& selector_texts(scan) == scan_sources(sel, 8)
    &&& forall|k: int|
        0 <= k < 8 ==> #[trigger] slots[k] == (if compiled_source(sel, slot_name(k)) is Some {
            Some(scan_sources(sel, k as nat).len() as usize)
        } else {
            None::<usize>
        })
    &&& forall|k: int|
        0 <= k < 8 && compiled_source(sel, slot_name(k)) is Some ==> scan_sources(sel, k as nat).len()
            < scan.len() && scan[scan_sources(sel, k as nat).len() as int]@ == compiled_source(
            sel,
            #[trigger] slot_name(k),
        )->0
}

fn compile_slots(sel: &SelectorMap) -> (r: (Vec<CompiledSelector>, Vec<Option<usize>>))
    requires
        sel.wf(),
        selectors_compile(*sel),
    ensures
        slots_ready(*sel, r.0@, r.1@),
{
    let mut scan: Vec<CompiledSelector> = Vec::new();
    let mut slots: Vec<Option<usize>> = Vec::new();
    let mut k: usize = 0;
    while k < 8
        invariant
            sel.wf(),
            selectors_compile(*sel),
            k <= 8,
            slots.len() == k,
            selector_texts(scan@) == scan_sources(*sel, k as nat),
            forall|j: int|
                0 <= j < k ==> #[trigger] slots@[j] == (if compiled_source(*sel, slot_name(j)) is Some {
                    Some(scan_sources(*sel, j as nat).len() as usize)
                } else {
                    None::<usize>
                }),
            forall|j: int|
                0 <= j < k && compiled_source(*sel, slot_name(j)) is Some ==> scan_sources(
                    *sel,
                    j as nat,
                ).len() < scan.len() && scan@[scan_sources(*sel, j as nat).len() as int]@
                    == compiled_source(*sel, #[trigger] slot_name(j))->0,
        decreases 8 - k,
    {
        let name = slot_name_string(k);
        let ghost before = scan@;
        match compiled_text(sel, name.as_str()) {
            Some(t) => {
                proof {
                    lemma_compiled_source_compiles(*sel, name@);
                }
                match compile_selector(t) {
                    Ok(c) => {
                        slots.push(Some(scan.len()));
                        scan.push(c);
                        assert(selector_texts(scan@) =~= selector_texts(before).push(t@));
                        assert forall|j: int|
                            0 <= j < k && compiled_source(*sel, slot_name(j)) is Some implies scan_sources(
                            *sel,
                            j as nat,
                        ).len() < scan.len() && scan@[scan_sources(*sel, j as nat).len() as int]@
                            == compiled_source(*sel, #[trigger] slot_name(j))->0 by {
                            assert(scan@[scan_sources(*sel, j as nat).len() as int] == before[scan_sources(
                                *sel,
                                j as nat,
                            ).len() as int]);
                        }
                    },
                    Err(_) => {
                        assert(false);
                        slots.push(None);
                    },
                }
            },
            None => {
                slots.push(None);
            },
        }
        assert(slots@[k as int] == (if compiled_source(*sel, slot_name(k as int)) is Some {
            Some(scan_sources(*sel, k as nat).len() as usize)
        } else {
            None::<usize>
        }));
        k = k + 1;
    }
    (scan, slots)
}


fn deepest(h: &Vec<Option<String>>) -> (r: Option<String>)
    ensures
        r.deep_view() == deepest_heading(h.deep_view()),
{
    let mut i = h.len();
    assert(h.deep_view().take(i as int) =~= h.deep_view());
    while i > 0
        invariant
            i <= h.len(),
            deepest_heading(h.deep_view()) == deepest_heading(h.deep_view().take(i as int)),
        decreases i,
    {
        let ghost t = h.deep_view().take(i as int);
        assert(t.drop_last() =~= h.deep_view().take(i - 1));
        assert(t.last() == h.deep_view()[i - 1]);
        if h[i - 1].is_some() {
            return clone_text(&h[i - 1]);
        }
        i = i - 1;
    }
    assert(h.deep_view().take(0) =~= Seq::<Option<Seq<char>>>::empty());
    None
}

fn slot_hit(
    Ghost(sel): Ghost<SelectorMap>,
    scan: &Vec<CompiledSelector>,
    slots: &Vec<Option<usize>>,
    matches: &Vec<bool>,
    k: usize,
) -> (r: bool)
    requires
        slots_ready(sel, scan@, slots@),
        matches.len() == scan.len(),
        k < 8,
    ensures
        r == slot_matched(sel, matches@, k as int),
{
    match slots[k] {
        Some(j) => matches[j],
        None => false,
    }
}

fn matched_level(
    Ghost(sel): Ghost<SelectorMap>,
    scan: &Vec<CompiledSelector>,
    slots: &Vec<Option<usize>>,
    matches: &Vec<bool>,
) -> (r: Option<usize>)
    requires
        slots_ready(sel, scan@, slots@),
        matches.len() == scan.len(),
    ensures
        match r {
            Some(l) => l < 7 && first_matched_level(sel, matches@, 0) == Some(l as int),
            None => first_matched_level(sel, matches@, 0) is None,
        },
{
    let mut l: usize = 0;
    while l < 7
        invariant
            slots_ready(sel, scan@, slots@),
            matches.len() == scan.len(),
            l <= 7,
            first_matched_level(sel, matches@, 0) == first_matched_level(sel, matches@, l as int),
        decreases 7 - l,
    {
        if slot_hit(Ghost(sel), scan, slots, matches, l) {
            return Some(l);
        }
        l = l + 1;
    }
    None
}

fn global_level(
    doc: &Document,
    config: &Config,
    scan: &Vec<CompiledSelector>,
    slots: &Vec<Option<usize>>,
    l: usize,
    url: &str,
    lang: &String,
    rank: i32,
    hierarchy: &mut Vec<Option<String>>,
    records: &mut Vec<SearchRecord>,
)
    requires
        config.selectors.wf(),
        slots_ready(config.selectors, scan@, slots@),
        l < 7,
        old(hierarchy).len() == 7,
        forall|i: int| 0 <= i < old(records).len() ==> (#[trigger] old(records)@[i]).object_id@.len() == 64,
    ensures
        final(hierarchy).len() == 7,
        forall|i: int| 0 <= i < final(records).len() ==> (#[trigger] final(records)@[i]).object_id@.len() == 64,
        state_of(*final(hierarchy), *final(records)) == global_step(
            doc@,
            url@,
            lang@,
            rank,
            config.selectors,
            state_of(*old(hierarchy), *old(records)),
            l as int,
        ),
{
    let ghost sel = config.selectors;
    let name = level_name_string(l);
    let entry = match config.selectors.get(name.as_str()) {
        Some(e) => e,
        None => {
            return ;
        },
    };
    if !entry.is_global() {
        return ;
    }
    assert(slot_name(l as int) == level_name(l as int));
    let found: Option<(String, String)> = match slots[l] {
        Some(j) => match select_first(doc, &scan[j], "id") {
            Some(p) => {
                assert(compiled_source(sel, slot_name(l as int)) is Some);
                assert(scan_sources(sel, l as nat).len() < scan.len());
                assert(j as int == scan_sources(sel, l as nat).len());
                assert(compiled_source(sel, level_name(l as int)) == Some(scan@[j as int]@));
                let t = normalize_text(&p.1);
                assert(first_match(doc@, scan@[j as int]@, "id"@) == Some((p.0.deep_view(), p.1.deep_view())));
                if t.as_str().is_empty() {
                    None
                } else {
                    let a = match element_anchor(&p.0) {
                        Some(a) => a,
                        None => t.clone(),
                    };
                    Some((a, t))
                }
            },
            None => {
                assert(first_match(doc@, scan@[j as int]@, "id"@) is None);
                None
            },
        },
        None => {
            assert(compiled_source(sel, level_name(l as int)) is None);
            None
        },
    };
    assert(found.deep_view() == global_found(doc@, sel, l as int));
    let value: Option<(String, String)> = match found {
        Some(v) => Some(v),
        None => match entry.default_value() {
            Some(d) => Some((d.to_owned(), d.to_owned())),
            None => None,
        },
    };
    assert(value.deep_view() == global_value(doc@, sel, l as int));
    match value {
        Some((anchor, text)) => {
            let ghost old_records = records@;
            let ghost text_view = text@;
            hierarchy.set(l, Some(text));
            let pos = records.len();
            assert(name@ == level_name(l as int));
            proof {
                lemma_level_name_weight(l as int);
            }
            let rec = make_record(url, lang.clone(), Some(anchor), None, name, pos, hierarchy, Some(l), rank);
            records.push(rec);
            assert(records@.map_values(|r: SearchRecord| r@) =~= old_records.map_values(
                |r: SearchRecord| r@,
            ).push(rec@));
            assert(hierarchy.deep_view() =~= old(hierarchy).deep_view().update(l as int, Some(text_view)));
        },
        None => {},
    }
}

fn body_element(
    config: &Config,
    scan: &Vec<CompiledSelector>,
    slots: &Vec<Option<usize>>,
    fact: &ElementFacts,
    url: &str,
    lang: &String,
    rank: i32,
    hierarchy: &mut Vec<Option<String>>,
    records: &mut Vec<SearchRecord>,
)
    requires
        config.selectors.wf(),
        slots_ready(config.selectors, scan@, slots@),
        fact.matches.len() == scan.len(),
        old(hierarchy).len() == 7,
        forall|i: int| 0 <= i < old(records).len() ==> (#[trigger] old(records)@[i]).object_id@.len() == 64,
    ensures
        final(hierarchy).len() == 7,
        forall|i: int| 0 <= i < final(records).len() ==> (#[trigger] final(records)@[i]).object_id@.len() == 64,
        state_of(*final(hierarchy), *final(records)) == body_step(
            url@,
            lang@,
            rank,
            config.selectors,
            state_of(*old(hierarchy), *old(records)),
            fact@,
        ),
{
    let ghost sel = config.selectors;
    let ghost old_records = records@;
    match matched_level(Ghost(sel), scan, slots, &fact.matches) {
        Some(l) => {
            let name = level_name_string(l);
            let global = match config.selectors.get(name.as_str()) {
                Some(e) => e.is_global(),
                None => false,
            };
            if global {
                return ;
            }
            let t = normalize_text(&fact.text);
            if t.as_str().is_empty() {
                return ;
            }
            hierarchy.set(l, Some(t.clone()));
            let mut i = l + 1;
            while i < 7
                invariant
                    l < i <= 7,
                    hierarchy.len() == 7,
                    old(hierarchy).len() == 7,
                    forall|k: int| 0 <= k < l ==> hierarchy@[k] == old(hierarchy)@[k],
                    hierarchy@[l as int].deep_view() == Some(t@),
                    forall|k: int| l < k < i ==> hierarchy@[k] is None,
                decreases 7 - i,
            {
                hierarchy.set(i, None);
                i = i + 1;
            }
            assert forall|k: int| 0 <= k < 7 implies hierarchy.deep_view()[k] == heading_path(
                old(hierarchy).deep_view(),
                l as int,
                t@,
            )[k] by {
                if k < l {
                    assert(hierarchy@[k] == old(hierarchy)@[k]);
                }
            }
            assert(hierarchy.deep_view() =~= heading_path(old(hierarchy).deep_view(), l as int, t@));
            let a = match element_anchor(&fact.attribute) {
                Some(a) => a,
                None => t,
            };
            let pos = records.len();
            proof {
                lemma_level_name_weight(l as int);
            }
            let rec = make_record(url, lang.clone(), Some(a), None, name, pos, hierarchy, Some(l), rank);
            records.push(rec);
            assert(records@.map_values(|r: SearchRecord| r@) =~= old_records.map_values(
                |r: SearchRecord| r@,
            ).push(rec@));
        },
        None => {
            if slot_hit(Ghost(sel), scan, slots, &fact.matches, 7) {
                let t = normalize_text(&fact.text);
                if t.as_str().is_empty() {
                    return ;
                }
                let anchor = deepest(hierarchy);
                let pos = records.len();
                let kind = "content".to_owned();
                proof {
                    lemma_content_weight();
                }
                let rec = make_record(url, lang.clone(), anchor, Some(t), kind, pos, hierarchy, None, rank);
                records.push(rec);
                assert(records@.map_values(|r: SearchRecord| r@) =~= old_records.map_values(
                    |r: SearchRecord| r@,
                ).push(rec@));
            }
        },
    }
}

/// Extracts the search records of one page, in document order: first the
/// global heading levels, then every heading and content element below
/// `<body>`. Fails, before anything is extracted, with the message of the
/// first configured selector that does not compile.
pub fn extract_page(html: &str, page_url: &str, config: &Config) -> (r: Result<Vec<SearchRecord>, String>)
    requires
        config.selectors.wf(),
    ensures
        match r {
            Ok(records) => page_extraction(html@, page_url@, *config) == Ok::<Seq<RecordModel>, Seq<char>>(
                records@.map_values(|x: SearchRecord| x@),
            ),
            Err(m) => page_extraction(html@, page_url@, *config) == Err::<Seq<RecordModel>, Seq<char>>(m@),
        },
        r matches Ok(records) ==> forall|i: int|
            0 <= i < records.len() ==> (#[trigger] records@[i]).position == i
                && records@[i].object_id@.len() == 64,
{
    let document = parse_document(html);
    match validate_selectors(&config.selectors) {
        Ok(_) => {},
        Err(m) => {
            return Err(m);
        },
    }
    let (scan, slots) = compile_slots(&config.selectors);
    let body_selector = match compile_builtin("body") {
        Ok(c) => c,
        Err(m) => {
            return Err(m);
        },
    };
    let all_selector = match compile_builtin("*") {
        Ok(c) => c,
        Err(m) => {
            return Err(m);
        },
    };
    let lang_selector = match compile_builtin("html[lang]") {
        Ok(c) => c,
        Err(m) => {
            return Err(m);
        },
    };
    let langs = select_attrs(&document, &lang_selector, "lang");
    let lang = if langs.len() > 0 {
        match &langs[0] {
            Some(l) => l.clone(),
            None => "zh-CN".to_owned(),
        }
    } else {
        "zh-CN".to_owned()
    };
    assert(lang@ == page_lang(html@));
    let rank = config.page_rank_for(page_url);
    let ghost sel = config.selectors;
    let mut hierarchy: Vec<Option<String>> = Vec::new();
    let mut k: usize = 0;
    while k < 7
        invariant
            k <= 7,
            hierarchy.len() == k,
            forall|i: int| 0 <= i < k ==> hierarchy@[i] is None,
        decreases 7 - k,
    {
        hierarchy.push(None);
        k = k + 1;
    }
    let mut records: Vec<SearchRecord> = Vec::new();
    assert(state_of(hierarchy, records) =~= global_pass(html@, page_url@, lang@, rank, sel, 0));
    let mut l: usize = 0;
    while l < 7
        invariant
            config.selectors.wf(),
            sel == config.selectors,
            slots_ready(sel, scan@, slots@),
            document@ == html@,
            l <= 7,
            hierarchy.len() == 7,
            forall|j: int| 0 <= j < records.len() ==> (#[trigger] records@[j]).object_id@.len() == 64,
            state_of(hierarchy, records) == global_pass(html@, page_url@, lang@, rank, sel, l as nat),
        decreases 7 - l,
    {
        global_level(&document, config, &scan, &slots, l, page_url, &lang, rank, &mut hierarchy, &mut records);
        l = l + 1;
    }
    let facts = scan_below(&document, &body_selector, &all_selector, &scan, "id");
    let ghost fv = facts@.map_values(|f: ElementFacts| f@);
    let mut i: usize = 0;
    while i < facts.len()
        invariant
            config.selectors.wf(),
            sel == config.selectors,
            slots_ready(sel, scan@, slots@),
            fv == facts@.map_values(|f: ElementFacts| f@),
            forall|j: int| 0 <= j < facts.len() ==> (#[trigger] facts@[j]).matches@.len() == scan.len(),
            i <= facts.len(),
            hierarchy.len() == 7,
            forall|j: int| 0 <= j < records.len() ==> (#[trigger] records@[j]).object_id@.len() == 64,
            state_of(hierarchy, records) == body_pass(html@, page_url@, lang@, rank, sel, fv.take(i as int)),
        decreases facts.len() - i,
    {
        assert(fv.take(i + 1).drop_last() =~= fv.take(i as int));
        assert(fv.take(i + 1).last() == facts@[i as int]@);
        body_element(config, &scan, &slots, &facts[i], page_url, &lang, rank, &mut hierarchy, &mut records);
        i = i + 1;
    }
    assert(fv.take(i as int) =~= fv);
    proof {
        lemma_body_pass(html@, page_url@, lang@, rank, sel, fv);
        let rs = records@.map_values(|x: SearchRecord| x@);
        assert forall|j: int| 0 <= j < records.len() implies (#[trigger] records@[j]).position == j by {
            assert(rs[j] == records@[j]@);
            assert(well_formed_record(rs[j], j, page_url@, lang@, rank));
        }
    }
    Ok(records)
}


/// What every record of a page satisfies, for the record at position `i`.
pub open spec fn well_formed_record(r: RecordModel, i: int, url: Seq<char>, lang: Seq<char>, rank: i32) -> bool {
    &&& r.position == i as usize
    &&& r.url_without_variables == url
    &&& r.url_without_anchor == (match url_without_fragment(url) {
        Some(u) => u,
        None => url,
    })
    &&& r.url == (match r.anchor {
        Some(a) => if a.len() > 0 {
            match url_with_fragment(r.url_without_anchor, a) {
                Some(u) => u,
                None => url,
            }
        } else {
            url
        },
        None => url,
    })
    &&& r.object_id == hex_lower(
        sha256(
            encode_utf8(
                r.url_without_anchor + seq!['|'] + r.record_type + seq!['|'] + (match r.anchor {
                    Some(a) => a,
                    None => Seq::<char>::empty(),
                }) + seq!['|'] + decimal(r.position as nat),
            ),
        ),
    )
    &&& r.lang == lang
    &&& r.page_rank == rank
    &&& r.no_variables
    &&& r.tags.len() == 0
    &&& forall|k: int| 0 <= k < r.object_id.len() ==> crate::text::is_lower_hex_digit(#[trigger] r.object_id[k])
    &&& r.levels.len() == 7
    &&& r.radios.len() == 7
    &&& ({
        ||| {
            &&& r.record_type == "content"@
            &&& r.level == 0
            &&& r.content matches Some(t) && t.len() > 0 && crate::text::is_collapsed(t)
            &&& r.anchor == deepest_heading(r.levels)
            &&& forall|k: int| 0 <= k < 7 ==> #[trigger] r.radios[k] is None
        }
        ||| exists|l: int|
            0 <= l < 7 && #[trigger] level_name(l) == r.record_type && r.level == 100 - 10 * l
                && r.content is None && r.anchor is Some && r.levels[l] is Some && (forall|k: int|
                l < k < 7 ==> #[trigger] r.levels[k] is None) && (forall|k: int|
                0 <= k < 7 ==> #[trigger] r.radios[k] == if k == l {
                    r.anchor
                } else {
                    None
                })
    })
}

proof fn lemma_object_id_hex(identity: Seq<char>)
    ensures
        forall|k: int|
            0 <= k < object_id_of(identity).len() ==> crate::text::is_lower_hex_digit(
                #[trigger] object_id_of(identity)[k],
            ),
{
    crate::text::lemma_hex_lower_digits(sha256(encode_utf8(identity)));
}

proof fn lemma_heading_record(
    url: Seq<char>,
    lang: Seq<char>,
    a: Seq<char>,
    l: int,
    pos: usize,
    h: Seq<Option<Seq<char>>>,
    rank: i32,
)
    requires
        0 <= l < 7,
        h.len() == 7,
        h[l] is Some,
        forall|k: int| l < k < 7 ==> h[k] is None,
    ensures
        well_formed_record(
            record_model(url, lang, Some(a), None, level_name(l), pos, h, Some(l), rank),
            pos as int,
            url,
            lang,
            rank,
        ),
{
    let r = record_model(url, lang, Some(a), None, level_name(l), pos, h, Some(l), rank);
    assert(seven_levels(h) =~= h);
    lemma_level_name_weight(l);
    lemma_object_id_hex(identity_text(page_without_anchor(url), level_name(l), Some(a), pos));
    assert(level_name(l) == r.record_type);
    assert(forall|k: int| 0 <= k < 7 ==> #[trigger] r.radios[k] == if k == l { r.anchor } else { None });
}

proof fn lemma_content_record(
    url: Seq<char>,
    lang: Seq<char>,
    t: Seq<char>,
    pos: usize,
    h: Seq<Option<Seq<char>>>,
    rank: i32,
)
    requires
        h.len() == 7,
        t.len() > 0,
        crate::text::is_collapsed(t),
    ensures
        well_formed_record(
            record_model(url, lang, deepest_heading(h), Some(t), "content"@, pos, h, None, rank),
            pos as int,
            url,
            lang,
            rank,
        ),
{
    lemma_content_weight();
    assert(seven_levels(h) =~= h);
    lemma_object_id_hex(identity_text(page_without_anchor(url), "content"@, deepest_heading(h), pos));
}

/// The state after the global levels below `n`: a 7-level path whose levels
/// from `n` on are unset, and well-formed records at their positions.
proof fn lemma_global_pass(html: Seq<char>, url: Seq<char>, lang: Seq<char>, rank: i32, sel: SelectorMap, n: nat)
    requires
        n <= 7,
    ensures
        global_pass(html, url, lang, rank, sel, n).0.len() == 7,
        forall|k: int| n <= k < 7 ==> (#[trigger] global_pass(html, url, lang, rank, sel, n).0[k]) is None,
        forall|i: int|
            0 <= i < global_pass(html, url, lang, rank, sel, n).1.len() ==> well_formed_record(
                #[trigger] global_pass(html, url, lang, rank, sel, n).1[i],
                i,
                url,
                lang,
                rank,
            ),
    decreases n,
{
    if n > 0 {
        let m = (n - 1) as nat;
        lemma_global_pass(html, url, lang, rank, sel, m);
        let prev = global_pass(html, url, lang, rank, sel, m);
        let l = n - 1;
        match global_value(html, sel, l) {
            None => {},
            Some(v) => {
                let h = prev.0.update(l, Some(v.1));
                lemma_heading_record(url, lang, v.0, l, prev.1.len() as usize, h, rank);
                let st = global_pass(html, url, lang, rank, sel, n);
                assert forall|i: int| 0 <= i < st.1.len() implies well_formed_record(
                    #[trigger] st.1[i],
                    i,
                    url,
                    lang,
                    rank,
                ) by {
                    if i < prev.1.len() {
                        assert(st.1[i] == prev.1[i]);
                    }
                }
            },
        }
    }
}

/// The state after the global levels and the given body elements: a 7-level
/// path and well-formed records at their positions.
proof fn lemma_body_pass(
    html: Seq<char>,
    url: Seq<char>,
    lang: Seq<char>,
    rank: i32,
    sel: SelectorMap,
    facts: Seq<(Seq<bool>, Option<Seq<char>>, Seq<Seq<char>>)>,
)
    ensures
        body_pass(html, url, lang, rank, sel, facts).0.len() == 7,
        forall|i: int|
            0 <= i < body_pass(html, url, lang, rank, sel, facts).1.len() ==> well_formed_record(
                #[trigger] body_pass(html, url, lang, rank, sel, facts).1[i],
                i,
                url,
                lang,
                rank,
            ),
    decreases facts.len(),
{
    if facts.len() == 0 {
        lemma_global_pass(html, url, lang, rank, sel, 7);
    } else {
        lemma_body_pass(html, url, lang, rank, sel, facts.drop_last());
        let prev = body_pass(html, url, lang, rank, sel, facts.drop_last());
        let st = body_pass(html, url, lang, rank, sel, facts);
        let f = facts.last();
        let pos = prev.1.len() as usize;
        match first_matched_level(sel, f.0, 0) {
            Some(l) => {
                lemma_first_matched_level_range(sel, f.0, 0);
                if !level_is_global(sel, l) && normalized_text(f.2).len() > 0 {
                    let t = normalized_text(f.2);
                    let h2 = heading_path(prev.0, l, t);
                    let a = match anchor_of(f.1) {
                        Some(x) => x,
                        None => t,
                    };
                    lemma_heading_record(url, lang, a, l, pos, h2, rank);
                }
            },
            None => {
                if slot_matched(sel, f.0, 7) && normalized_text(f.2).len() > 0 {
                    crate::text::law_collapse_spaces_normal_form(crate::text::join_spaced(f.2));
                    lemma_content_record(url, lang, normalized_text(f.2), pos, prev.0, rank);
                }
            },
        }
        assert forall|i: int| 0 <= i < st.1.len() implies well_formed_record(#[trigger] st.1[i], i, url, lang, rank) by {
            if i < prev.1.len() {
                assert(st.1[i] == prev.1[i]);
            }
        }
    }
}

proof fn lemma_first_matched_level_range(sel: SelectorMap, m: Seq<bool>, l: int)
    ensures
        first_matched_level(sel, m, l) matches Some(k) ==> 0 <= k < 7,
    decreases 7 - l,
{
    if 0 <= l < 7 && !slot_matched(sel, m, l) {
        lemma_first_matched_level_range(sel, m, l + 1);
    }
}

/// Every record of an extracted page sits at its own position, carries the
/// page's URL, language and rank, has a lowercase-hex object id, and is
/// either a heading record of a level `l` (weight `100 - 10 * l`, its
/// heading path set at `l` and cleared below, its anchor in the radio field
/// of level `l` only) or a content record (weight 0, non-empty content with
/// its whitespace collapsed, anchored at the deepest heading of its path, no
/// radio field).
pub proof fn law_extracted_records_well_formed(html: Seq<char>, url: Seq<char>, config: Config)
    ensures
        page_extraction(html, url, config) matches Ok(rs) ==> forall|i: int|
            0 <= i < rs.len() ==> well_formed_record(
                #[trigger] rs[i],
                i,
                url,
                page_lang(html),
                rank_for(config.rank_rules(), url),
            ),
{
    let sel = config.selectors;
    lemma_body_pass(
        html,
        url,
        page_lang(html),
        rank_for(config.rank_rules(), url),
        sel,
        elements_below(html, "body"@, "*"@, scan_sources(sel, 8), "id"@),
    );
}


/// Every record of an extracted page, heading or content alike, points at
/// its anchor: when the record has a non-empty anchor and the page URL
/// parses, its URL is the page URL without fragment with the anchor set as
/// fragment; otherwise it is the page URL as given.
pub proof fn law_record_url_carries_anchor(html: Seq<char>, url: Seq<char>, config: Config)
    ensures
        page_extraction(html, url, config) matches Ok(rs) ==> forall|i: int|
            0 <= i < rs.len() ==> (#[trigger] rs[i]).url == (match rs[i].anchor {
                Some(a) => if a.len() > 0 {
                    match url_with_fragment(
                        match url_without_fragment(url) {
                            Some(u) => u,
                            None => url,
                        },
                        a,
                    ) {
                        Some(u) => u,
                        None => url,
                    }
                } else {
                    url
                },
                None => url,
            }),
{
    law_extracted_records_well_formed(html, url, config);
}

/// Each record of an extracted page is identified by the page URL without
/// fragment, its type, its anchor and its position, separated by `|`; its
/// object id is the lowercase hex SHA-256 of that text in UTF-8; and two
/// records of the same page at different positions never share that text,
/// whatever their type or anchor.
pub proof fn law_record_identities_distinct(html: Seq<char>, url: Seq<char>, config: Config)
    ensures
        page_extraction(html, url, config) matches Ok(rs) ==> {
            &&& forall|i: int|
                0 <= i < rs.len() && i <= usize::MAX ==> (#[trigger] rs[i]).object_id == hex_lower(
                    sha256(
                        encode_utf8(
                            rs[i].url_without_anchor + seq!['|'] + rs[i].record_type + seq!['|'] + (match rs[i].anchor {
                                Some(a) => a,
                                None => Seq::<char>::empty(),
                            }) + seq!['|'] + decimal(i as nat),
                        ),
                    ),
                )
            &&& forall|i: int, j: int|
                0 <= i < j < rs.len() && j <= usize::MAX ==> #[trigger] rs[i].url_without_anchor + seq!['|']
                    + rs[i].record_type + seq!['|'] + (match rs[i].anchor {
                    Some(a) => a,
                    None => Seq::<char>::empty(),
                }) + seq!['|'] + decimal(i as nat) != #[trigger] rs[j].url_without_anchor + seq!['|']
                    + rs[j].record_type + seq!['|'] + (match rs[j].anchor {
                    Some(a) => a,
                    None => Seq::<char>::empty(),
                }) + seq!['|'] + decimal(j as nat)
        },
{
    law_extracted_records_well_formed(html, url, config);
    if let Ok(rs) = page_extraction(html, url, config) {
        assert forall|i: int, j: int| 0 <= i < j < rs.len() && j <= usize::MAX implies #[trigger] rs[i].url_without_anchor
            + seq!['|'] + rs[i].record_type + seq!['|'] + (match rs[i].anchor {
            Some(a) => a,
            None => Seq::<char>::empty(),
        }) + seq!['|'] + decimal(i as nat) != #[trigger] rs[j].url_without_anchor + seq!['|'] + rs[j].record_type
            + seq!['|'] + (match rs[j].anchor {
            Some(a) => a,
            None => Seq::<char>::empty(),
        }) + seq!['|'] + decimal(j as nat) by {
            let pi = rs[i].url_without_anchor + seq!['|'] + rs[i].record_type + seq!['|'] + (match rs[i].anchor {
                Some(a) => a,
                None => Seq::<char>::empty(),
            });
            let pj = rs[j].url_without_anchor + seq!['|'] + rs[j].record_type + seq!['|'] + (match rs[j].anchor {
                Some(a) => a,
                None => Seq::<char>::empty(),
            });
            crate::text::lemma_decimal_reads_back(i as nat);
            crate::text::lemma_decimal_reads_back(j as nat);
            crate::text::lemma_decimal_injective(i as nat, j as nat);
            if pi + seq!['|'] + decimal(i as nat) == pj + seq!['|'] + decimal(j as nat) {
                crate::text::lemma_digit_suffix_after_separator(pi, decimal(i as nat), pj, decimal(j as nat), '|');
            }
        }
    }
}

/// Extraction depends on the configuration only through its selectors and
/// its page-rank rules: the same page under two configurations that agree
/// on those gives the same records, with the same object ids.
pub proof fn law_extraction_depends_on_selectors_and_ranks(html: Seq<char>, url: Seq<char>, a: Config, b: Config)
    requires
        a.selectors == b.selectors,
        a.rank_rules() == b.rank_rules(),
    ensures
        page_extraction(html, url, a) == page_extraction(html, url, b),
{
}

} // verus!
