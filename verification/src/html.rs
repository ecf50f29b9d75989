//! HTML queries answered by the `scraper` crate, and the paragraph text that
//! the descriptions are built from.

use crate::text::{chars_of, join, join_chars, trim, trim_chars};
use vstd::prelude::*;

verus! {

/// What `scraper` gives for the fragment `html`: for each element that the CSS
/// selector `selector` matches, in the order in which `Html::select` walks the
/// parsed tree (the order its nodes were inserted, which the HTML parser may
/// make differ from the source order), the element's descendant text nodes;
/// `None` when `selector` does not parse. No clause says more of this order.
pub uninterp spec fn fragment_texts(html: Seq<char>, selector: Seq<char>) -> Option<Seq<Seq<Seq<char>>>>;

/// What `scraper` gives for the document `html`: for each element that the CSS
/// selector `selector` matches, in the order in which `Html::select` walks the
/// parsed tree (the order its nodes were inserted), the value of its attribute
/// `attr` (`None` where it has none); `None` when `selector` does not parse.
pub uninterp spec fn document_attrs(html: Seq<char>, selector: Seq<char>, attr: Seq<char>) -> Option<Seq<Option<Seq<char>>>>;

/// Parses `html` with `scraper::Html::parse_fragment`, selects with
/// `scraper::Selector::parse(selector)` and collects each match's
/// `ElementRef::text()`. The contract claims only that the result is
/// `fragment_texts` of the arguments.
#[verifier::external_body]
pub(crate) fn select_fragment_texts(html: &str, selector: &str) -> (r: Option<Vec<Vec<String>>>)
    ensures
        r.deep_view() == fragment_texts(html@, selector@),
{
    let sel = scraper::Selector::parse(selector).ok()?;
    let fragment = scraper::Html::parse_fragment(html);
    Some(fragment.select(&sel).map(|e| e.text().map(String::from).collect()).collect())
}

/// Parses `html` with `scraper::Html::parse_document`, selects with
/// `scraper::Selector::parse(selector)` and reads `ElementRef::attr(attr)` of
/// each match. The contract claims only that the result is `document_attrs`
/// of the arguments.
#[verifier::external_body]
pub(crate) fn select_document_attrs(html: &str, selector: &str, attr: &str) -> (r: Option<Vec<Option<String>>>)
    ensures
        r.deep_view() == document_attrs(html@, selector@, attr@),
{
    let sel = scraper::Selector::parse(selector).ok()?;
    let document = scraper::Html::parse_document(html);
    Some(document.select(&sel).map(|e| e.attr(attr).map(String::from)).collect())
}

/// The text of one element: its text nodes joined by single spaces, trimmed.
pub open spec fn element_text(parts: Seq<Seq<char>>) -> Seq<char> {
    trim(join(parts, seq![' ']))
}

/// The text of each element in `texts`, in order.
pub open spec fn element_texts(texts: Seq<Seq<Seq<char>>>) -> Seq<Seq<char>> {
    texts.map_values(|parts: Seq<Seq<char>>| element_text(parts))
}

/// The texts of the `<p>` elements of the fragment `html`, in the order in
/// which `scraper` selects them.
pub open spec fn paragraphs(html: Seq<char>) -> Seq<Seq<char>> {
    match fragment_texts(html, "p"@) {
        Some(texts) => element_texts(texts),
        None => Seq::empty(),
    }
}

/// The text of one element from its text nodes.
pub fn element_text_exec(parts: &Vec<String>) -> (r: Vec<char>)
    ensures
        r@ == element_text(parts.deep_view()),
{
    let mut pieces: Vec<Vec<char>> = Vec::new();
    let n = parts.len();
    let mut i: usize = 0;
    while i < n
        invariant
            n == parts@.len(),
            i <= n,
            pieces.deep_view() =~= parts.deep_view().take(i as int),
        decreases n - i,
    {
        let ghost before = pieces.deep_view();
        let piece = chars_of(parts[i].as_str());
        pieces.push(piece);
        assert(piece.deep_view() =~= piece@);
        assert(pieces.deep_view() =~= before.push(piece@));
        assert(parts.deep_view().take(i + 1) =~= parts.deep_view().take(i as int).push(
            parts.deep_view()[i as int],
        ));
        i = i + 1;
    }
    assert(parts.deep_view().take(n as int) =~= parts.deep_view());
    let space: Vec<char> = vec![' '];
    let joined = join_chars(&pieces, space.as_slice());
    assert(space@ =~= seq![' ']);
    trim_chars(joined.as_slice())
}

/// The text of each element, in order.
pub fn element_texts_exec(texts: &Vec<Vec<String>>) -> (r: Vec<Vec<char>>)
    ensures
        r.deep_view() == element_texts(texts.deep_view()),
{
    let mut r: Vec<Vec<char>> = Vec::new();
    let n = texts.len();
    let mut i: usize = 0;
    while i < n
        invariant
            n == texts@.len(),
            i <= n,
            r.deep_view() =~= element_texts(texts.deep_view().take(i as int)),
        decreases n - i,
    {
        let ghost before = r.deep_view();
        let t = element_text_exec(&texts[i]);
        r.push(t);
        assert(t.deep_view() =~= t@);
        assert(r.deep_view() =~= before.push(t@));
        assert(texts.deep_view().take(i + 1) =~= texts.deep_view().take(i as int).push(
            texts.deep_view()[i as int],
        ));
        i = i + 1;
    }
    assert(texts.deep_view().take(n as int) =~= texts.deep_view());
    r
}

/// The texts of the `<p>` elements of the fragment `html`.
pub fn paragraphs_exec(html: &str) -> (r: Vec<Vec<char>>)
    ensures
        r.deep_view() == paragraphs(html@),
{
    match select_fragment_texts(html, "p") {
        Some(texts) => element_texts_exec(&texts),
        None => Vec::new(),
    }
}

} // verus!
