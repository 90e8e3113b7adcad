//! The parsed HTML document and CSS selectors, through the `scraper` crate.
//! What the extractor reads of a document is handed over as plain values.

use vstd::prelude::*;
use scraper::{Html, Selector};

verus! {

#[verifier::external_type_specification]
#[verifier::external_body]
pub struct ExHtml(Html);

#[verifier::external_type_specification]
#[verifier::external_body]
pub struct ExSelector(Selector);

/// What `scraper::Selector::parse` gives for a selector text: `None` when the
/// text parses, else the `Display` text of the `SelectorErrorKind` it returns.
pub uninterp spec fn css_selector_error(source: Seq<char>) -> Option<Seq<char>>;

/// For each element that `scraper::ElementRef::select` yields for the
/// selector text `inner` below each element that `scraper::Html::select`
/// yields for `outer`, in the document that `scraper::Html::parse_document`
/// builds from `html`: whether each of the selector texts `selectors`
/// matches it, the value of its attribute `attr`, and its text nodes in
/// document order.
pub uninterp spec fn elements_below(
    html: Seq<char>,
    outer: Seq<char>,
    inner: Seq<char>,
    selectors: Seq<Seq<char>>,
    attr: Seq<char>,
) -> Seq<(Seq<bool>, Option<Seq<char>>, Seq<Seq<char>>)>;

/// The first element of the document parsed from `html` that
/// `scraper::Html::select` yields for the selector text: the value of its
/// attribute `attr` and its text nodes.
pub uninterp spec fn first_match(html: Seq<char>, selector: Seq<char>, attr: Seq<char>) -> Option<
    (Option<Seq<char>>, Seq<Seq<char>>),
>;

/// The value of the attribute `attr` of each element of the document parsed
/// from `html` that `scraper::Html::select` yields for the selector text, in
/// the order it yields them.
pub uninterp spec fn selected_attrs(html: Seq<char>, selector: Seq<char>, attr: Seq<char>) -> Seq<
    Option<Seq<char>>,
>;

/// A parsed HTML document together with the text it was parsed from.
pub struct Document {
    source: String,
    tree: Html,
}

impl View for Document {
    type V = Seq<char>;

    closed spec fn view(&self) -> Seq<char> {
        self.source@
    }
}

/// A compiled CSS selector together with its text.
pub struct CompiledSelector {
    source: String,
    inner: Selector,
}

impl View for CompiledSelector {
    type V = Seq<char>;

    closed spec fn view(&self) -> Seq<char> {
        self.source@
    }
}

/// What the extractor reads of one element.
pub struct ElementFacts {
    /// For each selector handed to the scan, whether it matches the element.
    pub matches: Vec<bool>,
    /// The value of the attribute asked for.
    pub attribute: Option<String>,
    /// The text nodes below the element, in document order.
    pub text: Vec<String>,
}

impl View for ElementFacts {
    type V = (Seq<bool>, Option<Seq<char>>, Seq<Seq<char>>);

    open spec fn view(&self) -> (Seq<bool>, Option<Seq<char>>, Seq<Seq<char>>) {
        (self.matches@, self.attribute.deep_view(), self.text.deep_view())
    }
}

/// The texts of a list of selectors.
pub open spec fn selector_texts(selectors: Seq<CompiledSelector>) -> Seq<Seq<char>> {
    selectors.map_values(|s: CompiledSelector| s@)
}

/// Parses an HTML document (`scraper::Html::parse_document`), keeping its text.
#[verifier::external_body]
pub(crate) fn parse_document(html: &str) -> (d: Document)
    ensures
        d@ == html@,
{
    Document { source: html.to_string(), tree: Html::parse_document(html) }
}

/// Compiles a selector text (`scraper::Selector::parse`); an error is given
/// as its message.
#[verifier::external_body]
pub(crate) fn compile_selector(source: &str) -> (r: Result<CompiledSelector, String>)
    ensures
        match r {
            Ok(s) => s@ == source@ && css_selector_error(source@) is None,
            Err(m) => css_selector_error(source@) == Some(m@),
        },
{
    match Selector::parse(source) {
        Ok(inner) => Ok(CompiledSelector { source: source.to_string(), inner }),
        Err(e) => Err(e.to_string()),
    }
}

/// Walks the elements that `inner` selects below each element that `outer`
/// selects and reports, for each, the selectors that match it
/// (`scraper::Selector::matches`), the value of its attribute `attr` and its
/// text nodes (`scraper::ElementRef::text`).
#[verifier::external_body]
pub(crate) fn scan_below(
    doc: &Document,
    outer: &CompiledSelector,
    inner: &CompiledSelector,
    selectors: &Vec<CompiledSelector>,
    attr: &str,
) -> (r: Vec<ElementFacts>)
    ensures
        r@.map_values(|f: ElementFacts| f@) == elements_below(doc@, outer@, inner@, selector_texts(selectors@), attr@),
        forall|i: int| 0 <= i < r.len() ==> (#[trigger] r@[i]).matches@.len() == selectors.len(),
{
    let mut out = Vec::new();
    for b in doc.tree.select(&outer.inner) {
        for e in b.select(&inner.inner) {
            let matches = selectors.iter().map(|s| s.inner.matches(&e)).collect();
            let value = e.value().attr(attr).map(str::to_string);
            out.push(ElementFacts { matches, attribute: value, text: e.text().map(str::to_string).collect() });
        }
    }
    out
}

/// The value of an attribute and the text nodes of the first element that a
/// selector selects (`scraper::Html::select`).
#[verifier::external_body]
pub(crate) fn select_first(doc: &Document, selector: &CompiledSelector, attr: &str) -> (r: Option<(Option<String>, Vec<String>)>)
    ensures
        match r {
            Some(p) => first_match(doc@, selector@, attr@) == Some((p.0.deep_view(), p.1.deep_view())),
            None => first_match(doc@, selector@, attr@) is None,
        },
{
    doc.tree.select(&selector.inner).next().map(
        |e| (e.value().attr(attr).map(str::to_string), e.text().map(str::to_string).collect()),
    )
}

/// The value of an attribute of each element that a selector selects
/// (`scraper::Html::select`), in the order it yields them.
#[verifier::external_body]
pub(crate) fn select_attrs(doc: &Document, selector: &CompiledSelector, attr: &str) -> (r: Vec<Option<String>>)
    ensures
        r.deep_view() == selected_attrs(doc@, selector@, attr@),
{
    doc.tree.select(&selector.inner).map(|e| e.value().attr(attr).map(str::to_string)).collect()
}

} // verus!
