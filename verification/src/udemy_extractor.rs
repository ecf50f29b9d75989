//! Course data taken out of feed descriptions and out of discudemy pages.

use crate::html::{element_texts, element_texts_exec, paragraphs, paragraphs_exec, document_attrs, select_document_attrs};
use crate::text::{
    after_last, after_last_chars, chars_of, contains, contains_exec, first_occurrence, lemma_first_occurrence_unique,
    split_once, split_once_chars,
    starts_with, starts_with_exec, string_from_chars, trim, trim_chars,
};
use vstd::prelude::*;

verus! {

/// A paragraph that can serve as the description: not empty, not repeating
/// the course title, and not a bare link.
pub open spec fn is_candidate(text: Seq<char>, title: Seq<char>) -> bool {
    text.len() > 0 && !contains(text, title) && !starts_with(text, "http"@)
}

/// The first candidate paragraph, if any.
pub open spec fn first_candidate(paras: Seq<Seq<char>>, title: Seq<char>) -> Option<Seq<char>>
    decreases paras.len(),
{
    if paras.len() == 0 {
        None
    } else if is_candidate(paras[0], title) {
        Some(paras[0])
    } else {
        first_candidate(paras.drop_first(), title)
    }
}

/// The first candidate is a candidate.
proof fn lemma_first_candidate_is_candidate(paras: Seq<Seq<char>>, title: Seq<char>)
    ensures
        first_candidate(paras, title) matches Some(t) ==> is_candidate(t, title),
    decreases paras.len(),
{
    if paras.len() > 0 && !is_candidate(paras[0], title) {
        lemma_first_candidate_is_candidate(paras.drop_first(), title);
    }
}

/// The paragraph chosen for the description is the first, in the order
/// given, that is not empty, does not contain the title anywhere and does not
/// begin with "http": it stands at some position `k`, and every paragraph
/// before `k` is empty, contains the title or begins with "http". There is
/// none exactly when every paragraph is of that kind.
pub proof fn lemma_first_candidate_is_first_useful(paras: Seq<Seq<char>>, title: Seq<char>)
    ensures
        match first_candidate(paras, title) {
            Some(t) => exists|k: int|
                0 <= k < paras.len() && #[trigger] paras[k] == t && t.len() > 0 && !contains(t, title)
                    && !starts_with(t, "http"@) && forall|j: int|
                    0 <= j < k ==> (#[trigger] paras[j].len() == 0 || contains(paras[j], title)
                        || starts_with(paras[j], "http"@)),
            None => forall|j: int|
                0 <= j < paras.len() ==> (#[trigger] paras[j].len() == 0 || contains(paras[j], title)
                    || starts_with(paras[j], "http"@)),
        },
    decreases paras.len(),
{
    if paras.len() > 0 {
        let rest = paras.drop_first();
        lemma_first_candidate_is_first_useful(rest, title);
        if !is_candidate(paras[0], title) {
            match first_candidate(rest, title) {
                Some(t) => {
                    let k = choose|k: int|
                        0 <= k < rest.len() && #[trigger] rest[k] == t && t.len() > 0 && !contains(t, title)
                            && !starts_with(t, "http"@) && forall|j: int|
                            0 <= j < k ==> (#[trigger] rest[j].len() == 0 || contains(rest[j], title)
                                || starts_with(rest[j], "http"@));
                    assert(paras[k + 1] == rest[k]);
                    assert forall|j: int| 0 <= j < k + 1 implies (#[trigger] paras[j].len() == 0 || contains(
                        paras[j],
                        title,
                    ) || starts_with(paras[j], "http"@)) by {
                        if j > 0 {
                            assert(paras[j] == rest[j - 1]);
                        }
                    }
                },
                None => {
                    assert forall|j: int| 0 <= j < paras.len() implies (#[trigger] paras[j].len() == 0
                        || contains(paras[j], title) || starts_with(paras[j], "http"@)) by {
                        if j > 0 {
                            assert(paras[j] == rest[j - 1]);
                        }
                    }
                },
            }
        }
    }
}

/// The description built from the paragraph texts: the first candidate
/// paragraph, with a "Published by:" part moved onto a line of its own.
pub open spec fn description_of(paras: Seq<Seq<char>>, title: Seq<char>) -> Seq<char> {
    match first_candidate(paras, title) {
        None => "No description provided"@,
        Some(text) => match split_once(text, "Published by:"@) {
            Some((before, after)) => trim(before) + "\n\nPublished by: "@ + trim(after),
            None => text,
        },
    }
}

/// The description is the first paragraph that is not empty, does not
/// contain the title and does not begin with "http", as it stands when it
/// does not mention "Published by:"; when it does, the part before the first
/// mention, trimmed, then a blank line, "Published by: " and the part after
/// the mention, trimmed.
pub proof fn lemma_description_is_first_useful_paragraph(paras: Seq<Seq<char>>, title: Seq<char>, i: int, m: int)
    requires
        0 <= i < paras.len(),
        paras[i].len() > 0,
        !contains(paras[i], title),
        !starts_with(paras[i], "http"@),
        forall|j: int|
            0 <= j < i ==> (#[trigger] paras[j].len() == 0 || contains(paras[j], title)
                || starts_with(paras[j], "http"@)),
    ensures
        !contains(paras[i], "Published by:"@) ==> description_of(paras, title) == paras[i],
        first_occurrence(paras[i], "Published by:"@, m) ==> description_of(paras, title) == trim(
            paras[i].subrange(0, m),
        ) + "\n\nPublished by: "@ + trim(paras[i].subrange(m + 13, paras[i].len() as int)),
{
    lemma_first_candidate_is_first_useful(paras, title);
    match first_candidate(paras, title) {
        Some(t) => {
            let k = choose|k: int|
                0 <= k < paras.len() && #[trigger] paras[k] == t && t.len() > 0 && !contains(t, title)
                    && !starts_with(t, "http"@) && forall|j: int|
                    0 <= j < k ==> (#[trigger] paras[j].len() == 0 || contains(paras[j], title)
                        || starts_with(paras[j], "http"@));
            if k < i {
                assert(paras[k].len() == 0 || contains(paras[k], title) || starts_with(paras[k], "http"@));
            }
            if k > i {
                assert(paras[i].len() == 0 || contains(paras[i], title) || starts_with(paras[i], "http"@));
            }
            assert(k == i);
        },
        None => {
            assert(paras[i].len() == 0 || contains(paras[i], title) || starts_with(paras[i], "http"@));
        },
    }
    if first_occurrence(paras[i], "Published by:"@, m) {
        reveal_strlit("Published by:");
        assert(contains(paras[i], "Published by:"@));
        let c = choose|c: int| first_occurrence(paras[i], "Published by:"@, c);
        lemma_first_occurrence_unique(paras[i], "Published by:"@, c, m);
    }
}

/// Without a paragraph that is not empty, does not contain the title and
/// does not begin with "http", the description is "No description provided".
pub proof fn lemma_description_default(paras: Seq<Seq<char>>, title: Seq<char>)
    requires
        forall|j: int|
            0 <= j < paras.len() ==> (#[trigger] paras[j].len() == 0 || contains(paras[j], title)
                || starts_with(paras[j], "http"@)),
    ensures
        description_of(paras, title) == "No description provided"@,
{
    lemma_first_candidate_is_first_useful(paras, title);
    if first_candidate(paras, title) is Some {
        let t = first_candidate(paras, title)->0;
        let k = choose|k: int|
            0 <= k < paras.len() && #[trigger] paras[k] == t && t.len() > 0 && !contains(t, title)
                && !starts_with(t, "http"@) && forall|j: int|
                0 <= j < k ==> (#[trigger] paras[j].len() == 0 || contains(paras[j], title)
                    || starts_with(paras[j], "http"@));
        assert(paras[k].len() == 0 || contains(paras[k], title) || starts_with(paras[k], "http"@));
    }
}

/// The description from the paragraph texts.
pub fn description_from_paragraphs(paras: &Vec<Vec<char>>, title: &str) -> (r: String)
    ensures
        r@ == description_of(paras.deep_view(), title@),
        r@.len() > 0,
{
    let title_chars = chars_of(title);
    let http = chars_of("http");
    let ghost ps = paras.deep_view();
    let n = paras.len();
    let mut i: usize = 0;
    let mut found: Option<usize> = None;
    assert(ps.skip(0) =~= ps);
    while i < n
        invariant_except_break
            found is None,
        invariant
            n == paras@.len(),
            ps == paras.deep_view(),
            i <= n,
            title_chars@ == title@,
            http@ == "http"@,
            first_candidate(ps, title@) == first_candidate(ps.skip(i as int), title@),
        ensures
            match found {
                Some(k) => k < n && first_candidate(ps, title@) == Some(ps[k as int]),
                None => first_candidate(ps, title@) is None,
            },
        decreases n - i,
    {
        let p = &paras[i];
        assert(p@ =~= ps[i as int]);
        assert(ps.skip(i as int)[0] == ps[i as int]);
        if p.len() > 0 && !contains_exec(p.as_slice(), title_chars.as_slice())
            && !starts_with_exec(p.as_slice(), http.as_slice()) {
            found = Some(i);
            break;
        }
        assert(ps.skip(i as int).drop_first() =~= ps.skip(i + 1));
        i = i + 1;
    }
    match found {
        None => {
            proof {
                reveal_strlit("No description provided");
            }
            String::from_str("No description provided")
        },
        Some(k) => {
            proof {
                lemma_first_candidate_is_candidate(ps, title@);
            }
            let text = &paras[k];
            assert(text@ =~= ps[k as int]);
            let marker = chars_of("Published by:");
            match split_once_chars(text.as_slice(), marker.as_slice()) {
                Some((before, after)) => {
                    let mut out = trim_chars(before.as_slice());
                    let sep = chars_of("\n\nPublished by: ");
                    proof {
                        reveal_strlit("\n\nPublished by: ");
                    }
                    let tail = trim_chars(after.as_slice());
                    let ghost b = out@;
                    out.append(&mut sep.clone());
                    out.append(&mut tail.clone());
                    assert(out@ =~= b + sep@ + tail@);
                    string_from_chars(out.as_slice())
                },
                None => string_from_chars(text.as_slice()),
            }
        },
    }
}

/// The description from the text nodes of each `<p>` element.
pub fn main_description_from_texts(texts: &Vec<Vec<String>>, title: &str) -> (r: String)
    ensures
        r@ == description_of(element_texts(texts.deep_view()), title@),
        r@.len() > 0,
{
    let paras = element_texts_exec(texts);
    description_from_paragraphs(&paras, title)
}

/// The course description shown on the web page: the first `<p>` of the feed
/// description that is not empty, does not repeat the title and is not a bare
/// link, with its "Published by:" part on a line of its own; "No description
/// provided" when there is no such paragraph.
pub fn extract_main_description(description_html: &str, title: &str) -> (r: String)
    ensures
        r@ == description_of(paragraphs(description_html@), title@),
        r@.len() > 0,
{
    let paras = paragraphs_exec(description_html);
    description_from_paragraphs(&paras, title)
}


/// What the `regex` crate gives for `pattern` on `haystack`: `None` when the
/// pattern does not compile; otherwise the text of capture group `group` of the
/// leftmost-first match, `None` when there is no match or the group took no part.
pub uninterp spec fn regex_first_capture(pattern: Seq<char>, haystack: Seq<char>, group: nat) -> Option<Option<Seq<char>>>;

/// Compiles `pattern` with `regex::Regex::new` and reads group `group` of
/// `Regex::captures(haystack)`. The contract claims only that the result is
/// `regex_first_capture` of the arguments.
#[verifier::external_body]
fn first_capture(pattern: &str, haystack: &str, group: usize) -> (r: Option<Option<String>>)
    ensures
        r.deep_view() == regex_first_capture(pattern@, haystack@, group as nat),
{
    let re = regex::Regex::new(pattern).ok()?;
    Some(re.captures(haystack).and_then(|c| c.get(group)).map(|m| m.as_str().to_string()))
}

/// The pattern of an image tag's source address.
pub open spec fn img_src_pattern() -> Seq<char> {
    "<img src=\"([^\"]+)\""@
}

/// The thumbnail address: the source of the first `<img src="...">` in the
/// description, as the regular expression `<img src="([^"]+)"` finds it.
pub open spec fn thumbnail_of(description_html: Seq<char>) -> Option<Seq<char>> {
    match regex_first_capture(img_src_pattern(), description_html, 1) {
        Some(Some(src)) => Some(src),
        _ => None,
    }
}

/// The captured text of a regular expression's result: nothing when the
/// pattern did not compile, did not match, or the group took no part.
pub open spec fn captured_text(capture: Option<Option<Seq<char>>>) -> Option<Seq<char>> {
    match capture {
        Some(Some(text)) => Some(text),
        _ => None,
    }
}

/// The captured text of a regular expression's result.
pub fn capture_text(capture: Option<Option<String>>) -> (r: Option<String>)
    ensures
        r.deep_view() == captured_text(capture.deep_view()),
{
    match capture {
        Some(Some(text)) => Some(text),
        _ => None,
    }
}

/// The address of the first image in the description.
pub fn extract_thumbnail_url(description_html: &str) -> (r: Option<String>)
    ensures
        r.deep_view() == thumbnail_of(description_html@),
        r.deep_view() == captured_text(regex_first_capture(img_src_pattern(), description_html@, 1)),
{
    capture_text(first_capture("<img src=\"([^\"]+)\"", description_html, 1))
}

/// The discudemy page that redirects to the course behind the feed link
/// `link`: its last path segment under `/go/`.
pub open spec fn go_page_url(link: Seq<char>) -> Seq<char> {
    "https://www.discudemy.com/go/"@ + after_last(link, '/') + "#google_vignette"@
}

/// The discudemy redirect page for the feed link `link`.
pub fn go_page_url_exec(link: &str) -> (r: String)
    ensures
        r@ == go_page_url(link@),
{
    let link_chars = chars_of(link);
    let slug = after_last_chars(link_chars.as_slice(), '/');
    let mut out = chars_of("https://www.discudemy.com/go/");
    let ghost prefix = out@;
    out.append(&mut slug.clone());
    let tail = chars_of("#google_vignette");
    out.append(&mut tail.clone());
    assert(out@ =~= prefix + slug@ + tail@);
    string_from_chars(out.as_slice())
}

/// A link to Udemy itself rather than back to discudemy.
pub open spec fn is_udemy_link(href: Seq<char>) -> bool {
    contains(href, "udemy.com"@) && !contains(href, "discudemy.com"@)
}

/// The first link target that goes to Udemy; elements without the attribute
/// are skipped.
pub open spec fn first_udemy_link(hrefs: Seq<Option<Seq<char>>>) -> Option<Seq<char>>
    decreases hrefs.len(),
{
    if hrefs.len() == 0 {
        None
    } else {
        match hrefs[0] {
            Some(h) => if is_udemy_link(h) {
                Some(h)
            } else {
                first_udemy_link(hrefs.drop_first())
            },
            None => first_udemy_link(hrefs.drop_first()),
        }
    }
}

/// The Udemy link chosen is the first target, in the order given, that
/// mentions udemy.com and not discudemy.com: it stands at some position
/// `k`, and no target before `k` is such a link. There is none exactly when
/// no target is such a link.
pub proof fn lemma_first_udemy_link_is_first_match(hrefs: Seq<Option<Seq<char>>>)
    ensures
        match first_udemy_link(hrefs) {
            Some(h) => exists|k: int|
                0 <= k < hrefs.len() && #[trigger] hrefs[k] == Some(h) && contains(h, "udemy.com"@)
                    && !contains(h, "discudemy.com"@) && forall|j: int|
                    0 <= j < k ==> !(#[trigger] hrefs[j] is Some && contains(hrefs[j]->0, "udemy.com"@)
                        && !contains(hrefs[j]->0, "discudemy.com"@)),
            None => forall|j: int|
                0 <= j < hrefs.len() ==> !(#[trigger] hrefs[j] is Some && contains(hrefs[j]->0, "udemy.com"@)
                    && !contains(hrefs[j]->0, "discudemy.com"@)),
        },
    decreases hrefs.len(),
{
    if hrefs.len() > 0 {
        let rest = hrefs.drop_first();
        lemma_first_udemy_link_is_first_match(rest);
        if hrefs[0] is Some && is_udemy_link(hrefs[0]->0) {
            assert(hrefs[0] == Some(hrefs[0]->0));
        } else {
            assert(first_udemy_link(hrefs) == first_udemy_link(rest));
            match first_udemy_link(rest) {
                Some(h) => {
                    let k = choose|k: int|
                        0 <= k < rest.len() && #[trigger] rest[k] == Some(h) && contains(h, "udemy.com"@)
                            && !contains(h, "discudemy.com"@) && forall|j: int|
                            0 <= j < k ==> !(#[trigger] rest[j] is Some && contains(rest[j]->0, "udemy.com"@)
                                && !contains(rest[j]->0, "discudemy.com"@));
                    assert(hrefs[k + 1] == rest[k]);
                    assert forall|j: int| 0 <= j < k + 1 implies !(#[trigger] hrefs[j] is Some && contains(
                        hrefs[j]->0,
                        "udemy.com"@,
                    ) && !contains(hrefs[j]->0, "discudemy.com"@)) by {
                        if j > 0 {
                            assert(hrefs[j] == rest[j - 1]);
                        }
                    }
                },
                None => {
                    assert forall|j: int| 0 <= j < hrefs.len() implies !(#[trigger] hrefs[j] is Some
                        && contains(hrefs[j]->0, "udemy.com"@) && !contains(hrefs[j]->0, "discudemy.com"@)) by {
                        if j > 0 {
                            assert(hrefs[j] == rest[j - 1]);
                        }
                    }
                },
            }
        }
    }
}

/// The link posted is the page's first Udemy link, and `fallback` when the
/// page has none.
pub proof fn lemma_chosen_link_or_fallback(hrefs: Seq<Option<Seq<char>>>, fallback: Seq<char>)
    ensures
        first_udemy_link(hrefs) is None ==> chosen_link(hrefs, fallback) == fallback,
        first_udemy_link(hrefs) is Some ==> Some(chosen_link(hrefs, fallback)) == first_udemy_link(hrefs),
{
}

/// The link the bot posts: the first Udemy link of the page, else `fallback`.
pub open spec fn chosen_link(hrefs: Seq<Option<Seq<char>>>, fallback: Seq<char>) -> Seq<char> {
    match first_udemy_link(hrefs) {
        Some(h) => h,
        None => fallback,
    }
}

/// Whether `href` goes to Udemy itself.
pub fn is_udemy_link_exec(href: &str) -> (b: bool)
    ensures
        b == is_udemy_link(href@),
{
    let h = chars_of(href);
    let udemy = chars_of("udemy.com");
    let discudemy = chars_of("discudemy.com");
    contains_exec(h.as_slice(), udemy.as_slice()) && !contains_exec(
        h.as_slice(),
        discudemy.as_slice(),
    )
}

/// The first Udemy link among the link targets of a page, else `fallback`.
pub fn choose_udemy_link(hrefs: &Vec<Option<String>>, fallback: &str) -> (r: String)
    ensures
        r@ == chosen_link(hrefs.deep_view(), fallback@),
{
    let ghost hs = hrefs.deep_view();
    let n = hrefs.len();
    let mut i: usize = 0;
    assert(hs.skip(0) =~= hs);
    while i < n
        invariant
            n == hrefs@.len(),
            hs == hrefs.deep_view(),
            i <= n,
            first_udemy_link(hs) == first_udemy_link(hs.skip(i as int)),
        decreases n - i,
    {
        assert(hs.skip(i as int)[0] == hs[i as int]);
        assert(hs.skip(i as int).drop_first() =~= hs.skip(i + 1));
        match &hrefs[i] {
            Some(h) => {
                if is_udemy_link_exec(h.as_str()) {
                    return h.clone();
                }
            },
            None => {},
        }
        i = i + 1;
    }
    String::from_str(fallback)
}

/// The link targets of the `<a href>` elements of `page`.
pub open spec fn page_links(page: Seq<char>) -> Seq<Option<Seq<char>>> {
    match document_attrs(page, "a[href]"@, "href"@) {
        Some(hrefs) => hrefs,
        None => Seq::empty(),
    }
}

/// What the `url` crate makes of `input`: the serialization of the parsed
/// address, or `None` when `input` is not a valid absolute URL.
pub uninterp spec fn url_serialization(input: Seq<char>) -> Option<Seq<char>>;

/// Parses `input` with `reqwest::Url::parse` (the `url` crate's parser)
/// and serializes the result. The contract claims only that the result is
/// `url_serialization` of the input.
#[verifier::external_body]
fn parse_url(input: &str) -> (r: Option<String>)
    ensures
        r.deep_view() == url_serialization(input@),
{
    reqwest::Url::parse(input).ok().map(|u| u.to_string())
}

/// The course address behind a discudemy redirect page: the first Udemy link
/// on `page` (else `fallback`, the feed link), parsed as a URL; `None` when
/// that does not parse.
pub fn udemy_url_from_go_page(page: &str, fallback: &str) -> (r: Option<String>)
    ensures
        r.deep_view() == url_serialization(chosen_link(page_links(page@), fallback@)),
{
    let link = match select_document_attrs(page, "a[href]", "href") {
        Some(hrefs) => choose_udemy_link(&hrefs, fallback),
        None => {
            assert(Seq::<Option<Seq<char>>>::empty().len() == 0);
            String::from_str(fallback)
        },
    };
    parse_url(link.as_str())
}

} // verus!
