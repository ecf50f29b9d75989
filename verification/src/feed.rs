//! Items of an RSS feed, as the rest of the library reads them.

use vstd::prelude::*;

verus! {

/// The fields of an RSS `<item>` that the bot reads.
pub struct FeedItem {
    pub title: Option<String>,
    pub link: Option<String>,
    pub description: Option<String>,
    /// The value of the item's `<guid>`.
    pub guid: Option<String>,
    /// The names of the item's `<category>` elements, in order.
    pub categories: Vec<String>,
}

/// The text of an item's fields.
pub struct FeedItemView {
    pub title: Option<Seq<char>>,
    pub link: Option<Seq<char>>,
    pub description: Option<Seq<char>>,
    pub guid: Option<Seq<char>>,
    pub categories: Seq<Seq<char>>,
}

impl View for FeedItem {
    type V = FeedItemView;

    open spec fn view(&self) -> FeedItemView {
        FeedItemView {
            title: self.title.deep_view(),
            link: self.link.deep_view(),
            description: self.description.deep_view(),
            guid: self.guid.deep_view(),
            categories: self.categories.deep_view(),
        }
    }
}

/// The contents of a list of items.
pub open spec fn item_views(items: Seq<FeedItem>) -> Seq<FeedItemView> {
    items.map_values(|i: FeedItem| i@)
}

/// What the `rss` crate reads from the bytes of a feed: its items, in order,
/// or `None` when the bytes are not a feed it can read.
pub uninterp spec fn rss_items(feed: Seq<u8>) -> Option<Seq<FeedItemView>>;

/// Reads `feed` with `rss::Channel::read_from` and copies the fields of each
/// item. The contract claims only that the result is `rss_items` of the bytes.
#[verifier::external_body]
fn read_channel_items(feed: &[u8]) -> (r: Option<Vec<FeedItem>>)
    ensures
        match r {
            Some(items) => rss_items(feed@) == Some(item_views(items@)),
            None => rss_items(feed@) is None,
        },
{
    let channel = rss::Channel::read_from(feed).ok()?;
    Some(channel.items().iter().map(|it| FeedItem {
        title: it.title().map(String::from),
        link: it.link().map(String::from),
        description: it.description().map(String::from),
        guid: it.guid().map(|g| g.value().to_string()),
        categories: it.categories().iter().map(|c| c.name().to_string()).collect(),
    }).collect())
}

/// Why a feed could not be read.
#[derive(PartialEq, Eq, Structural, Clone, Copy, Debug)]
pub enum FeedError {
    /// The bytes are not an RSS document.
    Unreadable,
}

/// The items of the RSS document in `feed`, in order.
pub fn read_feed(feed: &[u8]) -> (r: Result<Vec<FeedItem>, FeedError>)
    ensures
        match r {
            Ok(items) => rss_items(feed@) == Some(item_views(items@)),
            Err(e) => e == FeedError::Unreadable && rss_items(feed@) is None,
        },
{
    match read_channel_items(feed) {
        Some(items) => Ok(items),
        None => Err(FeedError::Unreadable),
    }
}

/// The value of an optional text, or `default` when it is absent.
pub open spec fn text_or(value: Option<Seq<char>>, default: Seq<char>) -> Seq<char> {
    match value {
        Some(v) => v,
        None => default,
    }
}

/// The value of an optional text, or `default` when it is absent.
pub fn text_or_exec(value: &Option<String>, default: &str) -> (r: String)
    ensures
        r@ == text_or(value.deep_view(), default@),
{
    match value {
        Some(v) => v.clone(),
        None => String::from_str(default),
    }
}

/// The key under which the tracker remembers an item: its guid, else its
/// link, else "unknown".
pub open spec fn entry_id(item: FeedItemView) -> Seq<char> {
    match item.guid {
        Some(g) => g,
        None => text_or(item.link, "unknown"@),
    }
}

/// An item's key is its guid when it has one, else its link when it has
/// one, else "unknown".
pub proof fn lemma_entry_id_cases(item: FeedItemView)
    ensures
        item.guid is Some ==> entry_id(item) == item.guid->0,
        item.guid is None && item.link is Some ==> entry_id(item) == item.link->0,
        item.guid is None && item.link is None ==> entry_id(item) == "unknown"@,
{
}

/// The key under which the tracker remembers `item`.
pub fn entry_id_exec(item: &FeedItem) -> (r: String)
    ensures
        r@ == entry_id(item@),
{
    match &item.guid {
        Some(g) => g.clone(),
        None => text_or_exec(&item.link, "unknown"),
    }
}

} // verus!
