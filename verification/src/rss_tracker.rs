//! Decisions of the tracker that posts new feed entries to the channel: which
//! entries to post, what the post says, and which entries to remember.

use crate::config::Config;
use crate::feed::{entry_id, entry_id_exec, text_or, text_or_exec, FeedItem, FeedItemView};
use crate::html::{paragraphs, paragraphs_exec};
use crate::seen_entries::{keys_after_put, SeenEntries};
use crate::text::{
    chars_of, contains, contains_exec, join, join_chars, lemma_contains_in_concat, lemma_join_contains,
    lemma_join_starts_with_first, occurs_at,
    starts_with, starts_with_exec, string_from_chars,
};
use vstd::prelude::*;

verus! {

/// A paragraph worth keeping: not empty and not repeating the title.
pub open spec fn is_kept(text: Seq<char>, title: Seq<char>) -> bool {
    text.len() > 0 && !contains(text, title)
}

/// A kept paragraph that names the publisher.
pub open spec fn is_publisher_line(text: Seq<char>, title: Seq<char>) -> bool {
    is_kept(text, title) && starts_with(text, "Published by:"@)
}

/// A kept paragraph of the description proper.
pub open spec fn is_body_line(text: Seq<char>, title: Seq<char>) -> bool {
    is_kept(text, title) && !starts_with(text, "Published by:"@)
}

/// The paragraphs of the description proper, in order.
pub open spec fn body_lines(paras: Seq<Seq<char>>, title: Seq<char>) -> Seq<Seq<char>> {
    paras.filter(|t: Seq<char>| is_body_line(t, title))
}

/// The last publisher paragraph, if any.
pub open spec fn publisher_line(paras: Seq<Seq<char>>, title: Seq<char>) -> Option<Seq<char>> {
    let lines = paras.filter(|t: Seq<char>| is_publisher_line(t, title));
    if lines.len() > 0 {
        Some(lines.last())
    } else {
        None
    }
}

/// The post's description: the body paragraphs separated by blank lines, then
/// the last publisher paragraph; "No description provided" when that is empty.
pub open spec fn post_description(paras: Seq<Seq<char>>, title: Seq<char>) -> Seq<char> {
    let body = join(body_lines(paras, title), "\n\n"@);
    let text = match publisher_line(paras, title) {
        Some(line) => body + "\n\n"@ + line,
        None => body,
    };
    if text.len() == 0 {
        "No description provided"@
    } else {
        text
    }
}

/// The post's description from the paragraph texts.
pub fn post_description_from_paragraphs(paras: &Vec<Vec<char>>, title: &str) -> (r: String)
    ensures
        r@ == post_description(paras.deep_view(), title@),
        r@.len() > 0,
{
    let title_chars = chars_of(title);
    let marker = chars_of("Published by:");
    let ghost ps = paras.deep_view();
    let ghost body_pred = |t: Seq<char>| is_body_line(t, title@);
    let ghost pub_pred = |t: Seq<char>| is_publisher_line(t, title@);
    let mut body: Vec<Vec<char>> = Vec::new();
    let mut publisher: Option<usize> = None;
    let n = paras.len();
    let mut i: usize = 0;
    while i < n
        invariant
            n == paras@.len(),
            ps == paras.deep_view(),
            i <= n,
            title_chars@ == title@,
            marker@ == "Published by:"@,
            body_pred == (|t: Seq<char>| is_body_line(t, title@)),
            pub_pred == (|t: Seq<char>| is_publisher_line(t, title@)),
            body.deep_view() == ps.take(i as int).filter(body_pred),
            match publisher {
                Some(k) => k < i && ps.take(i as int).filter(pub_pred).len() > 0
                    && ps.take(i as int).filter(pub_pred).last() == ps[k as int],
                None => ps.take(i as int).filter(pub_pred).len() == 0,
            },
        decreases n - i,
    {
        let p = &paras[i];
        assert(p@ =~= ps[i as int]);
        assert(ps.take(i + 1) =~= ps.take(i as int).push(ps[i as int]));
        proof {
            ps.take(i as int).lemma_filter_push(ps[i as int], body_pred);
            ps.take(i as int).lemma_filter_push(ps[i as int], pub_pred);
        }
        if p.len() > 0 && !contains_exec(p.as_slice(), title_chars.as_slice()) {
            if starts_with_exec(p.as_slice(), marker.as_slice()) {
                publisher = Some(i);
            } else {
                let ghost before = body.deep_view();
                let line = p.clone();
                body.push(line);
                assert(body.deep_view() =~= before.push(ps[i as int]));
            }
        }
        i = i + 1;
    }
    assert(ps.take(n as int) =~= ps);
    let sep = chars_of("\n\n");
    let mut out = join_chars(&body, sep.as_slice());
    match publisher {
        Some(k) => {
            let line = &paras[k];
            assert(line@ =~= ps[k as int]);
            let ghost b = out@;
            out.append(&mut sep.clone());
            out.append(&mut line.clone());
            assert(out@ =~= b + sep@ + line@);
        },
        None => {},
    }
    if out.len() == 0 {
        proof {
            reveal_strlit("No description provided");
        }
        String::from_str("No description provided")
    } else {
        string_from_chars(out.as_slice())
    }
}

/// The post's description for a feed description in HTML: its `<p>`
/// paragraphs that are not empty and do not repeat the title, the publisher
/// paragraph last.
pub fn extract_main_description(description_html: &str, title: &str) -> (r: String)
    ensures
        r@ == post_description(paragraphs(description_html@), title@),
        r@.len() > 0,
{
    let paras = paragraphs_exec(description_html);
    post_description_from_paragraphs(&paras, title)
}


/// The title a post shows.
pub open spec fn post_title(item: FeedItemView) -> Seq<char> {
    text_or(item.title, "Untitled Course"@)
}

/// The caption of the post for `item`: its title, a blank line, its
/// description.
pub open spec fn caption_of(item: FeedItemView) -> Seq<char> {
    post_title(item) + "\n\n"@ + post_description(
        paragraphs(text_or(item.description, ""@)),
        post_title(item),
    )
}

/// The caption of the post for `item`.
pub fn caption_for(item: &FeedItem) -> (r: String)
    ensures
        r@ == caption_of(item@),
{
    let title = text_or_exec(&item.title, "Untitled Course");
    let description = text_or_exec(&item.description, "");
    let body = extract_main_description(description.as_str(), title.as_str());
    let mut out = chars_of(title.as_str());
    let ghost t = out@;
    let sep = chars_of("\n\n");
    let rest = chars_of(body.as_str());
    out.append(&mut sep.clone());
    out.append(&mut rest.clone());
    assert(out@ =~= t + sep@ + rest@);
    string_from_chars(out.as_slice())
}

/// Keeping what `p` keeps out of what `q` kept is keeping what `p` keeps,
/// when `p` keeps nothing that `q` drops.
proof fn lemma_filter_within(s: Seq<Seq<char>>, q: spec_fn(Seq<char>) -> bool, p: spec_fn(Seq<char>) -> bool)
    requires
        forall|t: Seq<char>| #[trigger] p(t) ==> q(t),
    ensures
        s.filter(q).filter(p) == s.filter(p),
    decreases s.len(),
{
    if s.len() > 0 {
        let init = s.drop_last();
        lemma_filter_within(init, q, p);
        assert(s == init.push(s.last()));
        init.lemma_filter_push(s.last(), q);
        init.lemma_filter_push(s.last(), p);
        init.filter(q).lemma_filter_push(s.last(), p);
    }
}

/// The last element that `p` keeps is the last of the kept ones.
proof fn lemma_filter_last(s: Seq<Seq<char>>, p: spec_fn(Seq<char>) -> bool, i: int)
    requires
        0 <= i < s.len(),
        p(s[i]),
        forall|j: int| i < j < s.len() ==> !p(#[trigger] s[j]),
    ensures
        s.filter(p).len() > 0,
        s.filter(p).last() == s[i],
    decreases s.len(),
{
    let init = s.drop_last();
    assert(s == init.push(s.last()));
    init.lemma_filter_push(s.last(), p);
    if i < s.len() - 1 {
        assert(!p(s[s.len() - 1]));
        assert forall|j: int| i < j < init.len() implies !p(#[trigger] init[j]) by {
            assert(init[j] == s[j]);
        }
        lemma_filter_last(init, p, i);
    }
}

/// Nothing is kept by `p` from a sequence none of whose elements it keeps.
proof fn lemma_filter_none(s: Seq<Seq<char>>, p: spec_fn(Seq<char>) -> bool)
    requires
        forall|j: int| 0 <= j < s.len() ==> !p(#[trigger] s[j]),
    ensures
        s.filter(p).len() == 0,
    decreases s.len(),
{
    if s.len() > 0 {
        let init = s.drop_last();
        assert(s == init.push(s.last()));
        init.lemma_filter_push(s.last(), p);
        assert(!p(s[s.len() - 1]));
        assert forall|j: int| 0 <= j < init.len() implies !p(#[trigger] init[j]) by {
            assert(init[j] == s[j]);
        }
        lemma_filter_none(init, p);
    }
}

/// The first element that `p` keeps is the first of the kept ones.
proof fn lemma_filter_first(s: Seq<Seq<char>>, p: spec_fn(Seq<char>) -> bool, i: int)
    requires
        0 <= i < s.len(),
        p(s[i]),
        forall|j: int| 0 <= j < i ==> !p(#[trigger] s[j]),
    ensures
        s.filter(p).len() > 0,
        s.filter(p)[0] == s[i],
    decreases s.len(),
{
    let init = s.drop_last();
    assert(s == init.push(s.last()));
    init.lemma_filter_push(s.last(), p);
    if i == s.len() - 1 {
        assert forall|j: int| 0 <= j < init.len() implies !p(#[trigger] init[j]) by {
            assert(init[j] == s[j]);
        }
        lemma_filter_none(init, p);
    } else {
        assert forall|j: int| 0 <= j < i implies !p(#[trigger] init[j]) by {
            assert(init[j] == s[j]);
        }
        assert(init[i] == s[i]);
        lemma_filter_first(init, p, i);
    }
}

/// Without a paragraph that is not empty and does not contain the title,
/// the post's description is "No description provided".
pub proof fn lemma_post_description_default(paras: Seq<Seq<char>>, title: Seq<char>)
    requires
        forall|j: int| 0 <= j < paras.len() ==> (#[trigger] paras[j].len() == 0 || contains(paras[j], title)),
    ensures
        post_description(paras, title) == "No description provided"@,
{
    lemma_filter_none(paras, |t: Seq<char>| is_body_line(t, title));
    lemma_filter_none(paras, |t: Seq<char>| is_publisher_line(t, title));
    assert(join(body_lines(paras, title), "\n\n"@).len() == 0);
}

/// The post's description begins with the first paragraph that is not
/// empty, does not contain the title and does not name the publisher.
pub proof fn lemma_description_starts_with_first_paragraph(paras: Seq<Seq<char>>, title: Seq<char>, i: int)
    requires
        0 <= i < paras.len(),
        paras[i].len() > 0,
        !contains(paras[i], title),
        !starts_with(paras[i], "Published by:"@),
        forall|j: int|
            0 <= j < i ==> !(#[trigger] paras[j].len() > 0 && !contains(paras[j], title)
                && !starts_with(paras[j], "Published by:"@)),
    ensures
        starts_with(post_description(paras, title), paras[i]),
{
    let pred = |t: Seq<char>| is_body_line(t, title);
    assert forall|j: int| 0 <= j < i implies !pred(#[trigger] paras[j]) by {
        assert(!(paras[j].len() > 0 && !contains(paras[j], title) && !starts_with(paras[j], "Published by:"@)));
    }
    lemma_filter_first(paras, pred, i);
    let lines = body_lines(paras, title);
    lemma_join_starts_with_first(lines, "\n\n"@);
    let body = join(lines, "\n\n"@);
    let n = paras[i].len() as int;
    match publisher_line(paras, title) {
        Some(line) => {
            assert((body + "\n\n"@ + line).subrange(0, n) =~= body.subrange(0, n));
        },
        None => {},
    }
}

/// Empty paragraphs make no difference to the post's description: it is
/// the same as for the paragraphs with the empty ones taken out.
pub proof fn lemma_empty_paragraphs_ignored(paras: Seq<Seq<char>>, title: Seq<char>)
    ensures
        post_description(paras, title) == post_description(paras.filter(|t: Seq<char>| t.len() > 0), title),
{
    let q = |t: Seq<char>| t.len() > 0;
    lemma_filter_within(paras, q, |t: Seq<char>| is_body_line(t, title));
    lemma_filter_within(paras, q, |t: Seq<char>| is_publisher_line(t, title));
    assert(body_lines(paras.filter(q), title) == body_lines(paras, title));
    assert(publisher_line(paras.filter(q), title) == publisher_line(paras, title));
}

/// Paragraphs that contain the title make no difference to the post's
/// description: it is the same as for the paragraphs without them.
pub proof fn lemma_title_paragraphs_ignored(paras: Seq<Seq<char>>, title: Seq<char>)
    ensures
        post_description(paras, title) == post_description(
            paras.filter(|t: Seq<char>| !contains(t, title)),
            title,
        ),
{
    let q = |t: Seq<char>| !contains(t, title);
    lemma_filter_within(paras, q, |t: Seq<char>| is_body_line(t, title));
    lemma_filter_within(paras, q, |t: Seq<char>| is_publisher_line(t, title));
    assert(body_lines(paras.filter(q), title) == body_lines(paras, title));
    assert(publisher_line(paras.filter(q), title) == publisher_line(paras, title));
}

/// Every paragraph that is not empty, does not contain the title and does
/// not name the publisher appears in the post's description.
pub proof fn lemma_description_keeps_each_paragraph(paras: Seq<Seq<char>>, title: Seq<char>, i: int)
    requires
        0 <= i < paras.len(),
        paras[i].len() > 0,
        !contains(paras[i], title),
        !starts_with(paras[i], "Published by:"@),
    ensures
        contains(post_description(paras, title), paras[i]),
{
    let pred = |t: Seq<char>| is_body_line(t, title);
    let lines = body_lines(paras, title);
    paras.filter_lemma(pred);
    assert(pred(paras[i]));
    assert(lines.contains(paras[i]));
    let k = choose|k: int| 0 <= k < lines.len() && lines[k] == paras[i];
    lemma_join_contains(lines, "\n\n"@, k);
    let body = join(lines, "\n\n"@);
    match publisher_line(paras, title) {
        Some(line) => {
            lemma_contains_in_concat(body, "\n\n"@, paras[i]);
            lemma_contains_in_concat(body + "\n\n"@, line, paras[i]);
        },
        None => {},
    }
    let text = match publisher_line(paras, title) {
        Some(line) => body + "\n\n"@ + line,
        None => body,
    };
    assert(contains(text, paras[i]));
    let j = choose|j: int| occurs_at(text, paras[i], j);
    assert(text.len() > 0);
}

/// The post's description ends with the last paragraph that names the
/// publisher ("Published by:"), is not empty and does not contain the title.
pub proof fn lemma_description_ends_with_publisher(paras: Seq<Seq<char>>, title: Seq<char>, i: int)
    requires
        0 <= i < paras.len(),
        paras[i].len() > 0,
        !contains(paras[i], title),
        starts_with(paras[i], "Published by:"@),
        forall|j: int|
            i < j < paras.len() ==> !(#[trigger] paras[j].len() > 0 && !contains(paras[j], title)
                && starts_with(paras[j], "Published by:"@)),
    ensures
        post_description(paras, title).len() >= paras[i].len(),
        post_description(paras, title).subrange(
            post_description(paras, title).len() - paras[i].len(),
            post_description(paras, title).len() as int,
        ) == paras[i],
{
    let pred = |t: Seq<char>| is_publisher_line(t, title);
    assert forall|j: int| i < j < paras.len() implies !pred(#[trigger] paras[j]) by {
        assert(!(paras[j].len() > 0 && !contains(paras[j], title) && starts_with(paras[j], "Published by:"@)));
    }
    lemma_filter_last(paras, pred, i);
    assert(publisher_line(paras, title) == Some(paras[i]));
    let text = join(body_lines(paras, title), "\n\n"@) + "\n\n"@ + paras[i];
    assert(text.subrange(text.len() - paras[i].len(), text.len() as int) =~= paras[i]);
}

/// The caption begins with the post's title ("Untitled Course" for an item
/// without one) and a blank line.
pub proof fn lemma_caption_starts_with_title(item: FeedItemView)
    ensures
        starts_with(caption_of(item), text_or(item.title, "Untitled Course"@) + "\n\n"@),
{
    let head = text_or(item.title, "Untitled Course"@) + "\n\n"@;
    let c = caption_of(item);
    assert(c.subrange(0, head.len() as int) =~= head);
}

/// Every paragraph of the item's description that is not empty, does not
/// contain the post's title and does not name the publisher appears in the
/// caption.
pub proof fn lemma_caption_keeps_each_paragraph(item: FeedItemView, i: int)
    requires
        0 <= i < paragraphs(text_or(item.description, ""@)).len(),
        paragraphs(text_or(item.description, ""@))[i].len() > 0,
        !contains(paragraphs(text_or(item.description, ""@))[i], text_or(item.title, "Untitled Course"@)),
        !starts_with(paragraphs(text_or(item.description, ""@))[i], "Published by:"@),
    ensures
        contains(caption_of(item), paragraphs(text_or(item.description, ""@))[i]),
{
    let paras = paragraphs(text_or(item.description, ""@));
    lemma_description_keeps_each_paragraph(paras, post_title(item), i);
    lemma_contains_in_concat(
        post_title(item) + "\n\n"@,
        post_description(paras, post_title(item)),
        paras[i],
    );
}

/// What to do with one feed entry.
pub enum EntryPlan {
    /// The entry was handled before: leave it.
    AlreadySeen,
    /// The entry has no link, so there is nothing to post: remember `id`.
    Remember { id: String },
    /// Resolve `link` to its Udemy course and post it with `caption`, then
    /// report the outcome for `id`.
    Post { id: String, link: String, caption: String },
}

/// How posting an entry went.
#[derive(PartialEq, Eq, Structural, Clone, Copy, Debug)]
pub enum PostOutcome {
    /// The post was sent.
    Posted,
    /// The entry had nothing to post.
    NothingToPost,
    /// The course behind the link could not be found; the entry is dropped.
    LinkUnresolved,
    /// Sending the post failed; the entry is tried again on the next round.
    PostFailed,
}

/// An outcome after which the entry counts as handled.
pub open spec fn is_handled(outcome: PostOutcome) -> bool {
    outcome != PostOutcome::PostFailed
}

/// The state of the tracker between two rounds.
pub struct RssFeedTracker {
    pub channel_id: i64,
    pub feed_url: String,
    pub seen_entries: SeenEntries,
}

impl RssFeedTracker {
    /// A tracker that posts to the configured channel, reads discudemy's
    /// feed, and has seen nothing yet.
    pub fn new(config: &Config) -> (r: RssFeedTracker)
        ensures
            r.seen_entries.capacity() == 500,
            r.channel_id == config.channel_id,
            r.feed_url@ == "https://www.discudemy.com/feed"@,
            r.seen_entries.keys() == Seq::<Seq<char>>::empty(),
    {
        RssFeedTracker {
            channel_id: config.channel_id,
            feed_url: String::from_str("https://www.discudemy.com/feed"),
            seen_entries: SeenEntries::new(500),
        }
    }

    /// What to do with `item`: nothing if its key is remembered, else post it
    /// when it has a link, else just remember it.
    pub fn plan_entry(&self, item: &FeedItem) -> (r: EntryPlan)
        ensures
            (r is AlreadySeen) == self.seen_entries.keys().contains(entry_id(item@)),
            r is Remember ==> item@.link is None,
            r is Post ==> item@.link is Some,
            !(r is AlreadySeen) ==> (item@.link is None <==> r is Remember),
            match r {
                EntryPlan::AlreadySeen => true,
                EntryPlan::Remember { id } => id@ == entry_id(item@),
                EntryPlan::Post { id, link, caption } => id@ == entry_id(item@) && link@
                    == item@.link->0 && caption@ == caption_of(item@),
            },
    {
        let id = entry_id_exec(item);
        if self.seen_entries.contains(id.as_str()) {
            return EntryPlan::AlreadySeen;
        }
        match &item.link {
            None => EntryPlan::Remember { id },
            Some(link) => EntryPlan::Post { id, link: link.clone(), caption: caption_for(item) },
        }
    }

    /// Records how the entry with key `id` went: it is remembered unless
    /// sending its post failed.
    pub fn finish_entry(&mut self, id: String, outcome: PostOutcome)
        ensures
            final(self).seen_entries.capacity() == old(self).seen_entries.capacity(),
            final(self).channel_id == old(self).channel_id,
            final(self).feed_url == old(self).feed_url,
            final(self).seen_entries.keys() == if is_handled(outcome) {
                keys_after_put(
                    old(self).seen_entries.keys(),
                    old(self).seen_entries.capacity(),
                    id@,
                )
            } else {
                old(self).seen_entries.keys()
            },
    {
        if outcome != PostOutcome::PostFailed {
            self.seen_entries.record(id);
        }
    }
}

/// Once an entry is handled it is not posted again: right after its key is
/// recorded, the key is remembered (so `plan_entry` answers `AlreadySeen`).
pub proof fn lemma_handled_entry_is_skipped(keys: Seq<Seq<char>>, cap: nat, item: FeedItemView)
    ensures
        keys_after_put(keys, cap, entry_id(item)).contains(entry_id(item)),
{
    assert(keys_after_put(keys, cap, entry_id(item))[0] == entry_id(item));
}


/// The remembered keys after a round over entries with keys `ids` in which
/// every entry is handled: a key already remembered is skipped (its entry is
/// planned `AlreadySeen`), any other is recorded.
pub open spec fn keys_after_round(keys: Seq<Seq<char>>, cap: nat, ids: Seq<Seq<char>>) -> Seq<Seq<char>>
    decreases ids.len(),
{
    if ids.len() == 0 {
        keys
    } else {
        let prev = keys_after_round(keys, cap, ids.drop_last());
        if prev.contains(ids.last()) {
            prev
        } else {
            keys_after_put(prev, cap, ids.last())
        }
    }
}

/// With room for the keys held and the round's keys together, a round
/// evicts nothing: the keys afterwards are exactly those held before and
/// those of the round, each once.
proof fn lemma_round_remembers(keys: Seq<Seq<char>>, cap: nat, ids: Seq<Seq<char>>)
    requires
        keys.no_duplicates(),
        keys.to_set().union(ids.to_set()).len() <= cap,
    ensures
        keys_after_round(keys, cap, ids).no_duplicates(),
        keys_after_round(keys, cap, ids).to_set() == keys.to_set().union(ids.to_set()),
    decreases ids.len(),
{
    broadcast use vstd::seq_lib::group_seq_lib_default;

    if ids.len() == 0 {
        assert(keys.to_set().union(ids.to_set()) =~= keys.to_set());
    } else {
        let rest = ids.drop_last();
        let last = ids.last();
        assert(ids == rest.push(last));
        rest.lemma_push_to_set_commute(last);
        let all = keys.to_set().union(ids.to_set());
        let before = keys.to_set().union(rest.to_set());
        assert(all =~= before.insert(last));
        vstd::set_lib::lemma_len_subset(before, all);
        lemma_round_remembers(keys, cap, rest);
        let prev = keys_after_round(keys, cap, rest);
        let after = keys_after_round(keys, cap, ids);
        if prev.contains(last) {
            assert(before.contains(last));
            assert(all =~= before);
        } else {
            prev.unique_seq_to_set();
            assert(!before.contains(last));
            assert(all.len() == before.len() + 1);
            assert(prev.len() < cap);
            assert(after == seq![last] + prev);
            assert forall|i: int, j: int| 0 <= i < after.len() && 0 <= j < after.len() && i != j
                implies after[i] != after[j] by {
                if i > 0 && j > 0 {
                    assert(after[i] == prev[i - 1] && after[j] == prev[j - 1]);
                } else if i == 0 {
                    assert(after[j] == prev[j - 1]);
                } else {
                    assert(after[i] == prev[i - 1]);
                }
            }
            assert forall|x: Seq<char>| after.to_set().contains(x) <==> all.contains(x) by {
                if after.contains(x) {
                    let i = choose|i: int| 0 <= i < after.len() && after[i] == x;
                    if i > 0 {
                        assert(prev[i - 1] == x);
                    }
                }
                if prev.contains(x) {
                    let i = choose|i: int| 0 <= i < prev.len() && prev[i] == x;
                    assert(after[i + 1] == x);
                }
                assert(after[0] == last);
            }
            assert(after.to_set() =~= all);
        }
    }
}

/// The keys of `items`, in feed order.
pub open spec fn entry_ids(items: Seq<FeedItemView>) -> Seq<Seq<char>> {
    items.map_values(|it: FeedItemView| entry_id(it))
}

/// No entry is posted twice: take a round over `items` in which every entry
/// was handled, starting from the distinct keys `keys` the tracker held, with
/// room in its memory for those keys and the round's distinct keys together.
/// Nothing is evicted: afterwards every entry of the round is remembered, so
/// on the next round over the same feed `plan_entry` answers `AlreadySeen`
/// for each of them and nothing is posted, and the keys held before stay
/// remembered.
pub proof fn lemma_handled_round_posts_nothing_again(keys: Seq<Seq<char>>, cap: nat, items: Seq<FeedItemView>)
    requires
        keys.no_duplicates(),
        keys.to_set().union(entry_ids(items).to_set()).len() <= cap,
    ensures
        forall|i: int|
            0 <= i < items.len() ==> keys_after_round(keys, cap, entry_ids(items)).contains(
                entry_id(#[trigger] items[i]),
            ),
        forall|k: Seq<char>|
            keys.contains(k) ==> #[trigger] keys_after_round(keys, cap, entry_ids(items)).contains(k),
{
    let ids = entry_ids(items);
    lemma_round_remembers(keys, cap, ids);
    let after = keys_after_round(keys, cap, ids);
    assert forall|i: int| 0 <= i < items.len() implies after.contains(entry_id(#[trigger] items[i])) by {
        assert(ids[i] == entry_id(items[i]));
        assert(ids.to_set().contains(ids[i]));
        assert(after.to_set().contains(ids[i]));
    }
    assert forall|k: Seq<char>| keys.contains(k) implies #[trigger] after.contains(k) by {
        assert(keys.to_set().contains(k));
        assert(after.to_set().contains(k));
    }
}

} // verus!
