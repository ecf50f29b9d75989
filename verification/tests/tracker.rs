use rustidemy_bot::config::{Config, ConfigError};
use rustidemy_bot::feed::{entry_id_exec, read_feed, FeedError, FeedItem};
use rustidemy_bot::rss_tracker::{caption_for, EntryPlan, PostOutcome, RssFeedTracker};
use rustidemy_bot::seen_entries::SeenEntries;

fn config() -> Config {
    Config::new(Some("token".to_string()), Some("-100123".to_string()), None).unwrap()
}

fn item(guid: Option<&str>, link: Option<&str>) -> FeedItem {
    FeedItem {
        title: Some("Course".to_string()),
        link: link.map(String::from),
        description: Some("<p>About it.</p>".to_string()),
        guid: guid.map(String::from),
        categories: vec![],
    }
}

#[test]
fn config_requires_token_and_channel() {
    assert_eq!(
        Config::new(None, Some("1".to_string()), None).err(),
        Some(ConfigError::BotTokenMissing)
    );
    assert_eq!(
        Config::new(Some("t".to_string()), None, None).err(),
        Some(ConfigError::ChannelIdMissing)
    );
    assert_eq!(
        Config::new(Some("t".to_string()), Some("12a".to_string()), None).err(),
        Some(ConfigError::ChannelIdInvalid)
    );
    assert_eq!(ConfigError::ChannelIdInvalid.message(), "Failed to parse CHANNEL_ID");
    let c = config();
    assert_eq!(c.channel_id, -100123);
    assert_eq!(c.feed_url, "https://www.discudemy.com/feed");
    let c = Config::new(Some("t".to_string()), Some("+7".to_string()), Some("http://f".to_string()))
        .unwrap();
    assert_eq!(c.channel_id, 7);
    assert_eq!(c.feed_url, "http://f");
}

#[test]
fn entry_key_prefers_guid_then_link() {
    assert_eq!(entry_id_exec(&item(Some("g"), Some("l"))), "g");
    assert_eq!(entry_id_exec(&item(None, Some("l"))), "l");
    assert_eq!(entry_id_exec(&item(None, None)), "unknown");
}

#[test]
fn tracker_posts_once_and_retries_failures() {
    let mut tracker = RssFeedTracker::new(&config());
    assert_eq!(tracker.channel_id, -100123);
    assert_eq!(tracker.feed_url, "https://www.discudemy.com/feed");
    let it = item(Some("g1"), Some("https://www.discudemy.com/english/c"));
    match tracker.plan_entry(&it) {
        EntryPlan::Post { id, link, caption } => {
            assert_eq!(id, "g1");
            assert_eq!(link, "https://www.discudemy.com/english/c");
            assert_eq!(caption, "Course\n\nAbout it.");
            tracker.finish_entry(id, PostOutcome::PostFailed);
        }
        _ => panic!("expected a post"),
    }
    // A failed post is planned again.
    match tracker.plan_entry(&it) {
        EntryPlan::Post { id, .. } => tracker.finish_entry(id, PostOutcome::Posted),
        _ => panic!("expected a post"),
    }
    assert!(matches!(tracker.plan_entry(&it), EntryPlan::AlreadySeen));
}

#[test]
fn entries_without_link_are_remembered() {
    let mut tracker = RssFeedTracker::new(&config());
    let it = item(Some("g2"), None);
    match tracker.plan_entry(&it) {
        EntryPlan::Remember { id } => {
            assert_eq!(id, "g2");
            tracker.finish_entry(id, PostOutcome::NothingToPost);
        }
        _ => panic!("expected remember"),
    }
    assert!(matches!(tracker.plan_entry(&it), EntryPlan::AlreadySeen));
    let unresolved = item(Some("g3"), Some("l"));
    tracker.finish_entry(entry_id_exec(&unresolved), PostOutcome::LinkUnresolved);
    assert!(matches!(tracker.plan_entry(&unresolved), EntryPlan::AlreadySeen));
}

#[test]
fn seen_entries_forget_the_least_recent() {
    let mut seen = SeenEntries::new(2);
    seen.record("a".to_string());
    seen.record("b".to_string());
    seen.record("a".to_string());
    seen.record("c".to_string());
    assert!(seen.contains("a"));
    assert!(!seen.contains("b"));
    assert!(seen.contains("c"));
}

#[test]
fn caption_defaults_title() {
    let it = FeedItem { title: None, link: None, description: None, guid: None, categories: vec![] };
    assert_eq!(caption_for(&it), "Untitled Course\n\nNo description provided");
}

#[test]
fn feed_is_read_with_rss() {
    let xml = "<rss version=\"2.0\"><channel><title>t</title><link>l</link><description>d</description>\
               <item><title>One</title><link>https://x/one</link><guid>id-1</guid>\
               <category>Dev</category><category>IT</category></item>\
               <item><description>&lt;p&gt;hi&lt;/p&gt;</description></item>\
               </channel></rss>";
    let items = read_feed(xml.as_bytes()).unwrap();
    assert_eq!(items.len(), 2);
    assert_eq!(items[0].title.as_deref(), Some("One"));
    assert_eq!(items[0].link.as_deref(), Some("https://x/one"));
    assert_eq!(items[0].guid.as_deref(), Some("id-1"));
    assert_eq!(items[0].categories, vec!["Dev".to_string(), "IT".to_string()]);
    assert_eq!(items[1].description.as_deref(), Some("<p>hi</p>"));
    assert_eq!(read_feed(b"not xml at all").err(), Some(FeedError::Unreadable));
}

#[test]
fn a_handled_round_posts_nothing_on_the_next() {
    let mut tracker = RssFeedTracker::new(&config());
    let feed = vec![
        item(Some("r1"), Some("https://x/1")),
        item(Some("r2"), None),
        item(None, Some("https://x/3")),
        item(Some("r1"), Some("https://x/1")),
    ];
    let mut posted = 0;
    for it in &feed {
        match tracker.plan_entry(it) {
            EntryPlan::AlreadySeen => {}
            EntryPlan::Remember { id } => tracker.finish_entry(id, PostOutcome::NothingToPost),
            EntryPlan::Post { id, .. } => {
                posted += 1;
                tracker.finish_entry(id, PostOutcome::Posted)
            }
        }
    }
    assert_eq!(posted, 2);
    for it in &feed {
        assert!(matches!(tracker.plan_entry(it), EntryPlan::AlreadySeen));
    }
}

#[test]
fn a_round_with_repeated_keys_fits_a_small_memory() {
    let mut tracker = RssFeedTracker::new(&config());
    tracker.seen_entries = SeenEntries::new(3);
    tracker.finish_entry("a".to_string(), PostOutcome::Posted);
    tracker.finish_entry("b".to_string(), PostOutcome::Posted);
    let feed = vec![
        item(Some("a"), Some("https://x/a")),
        item(Some("b"), Some("https://x/b")),
        item(Some("c"), Some("https://x/c")),
        item(Some("c"), Some("https://x/c")),
    ];
    let mut posted = 0;
    for it in &feed {
        if let EntryPlan::Post { id, .. } = tracker.plan_entry(it) {
            posted += 1;
            tracker.finish_entry(id, PostOutcome::Posted);
        }
    }
    assert_eq!(posted, 1);
    for it in &feed {
        assert!(matches!(tracker.plan_entry(it), EntryPlan::AlreadySeen));
    }
}
