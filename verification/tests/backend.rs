use rustidemy_bot::backend::{
    article_cover_exec, course_from_item, first_attr_exec, go_url_for_exec, items_to_resolve_exec,
    refresh_courses, udemy_link_on_page_exec, Course, Timestamp,
};
use rustidemy_bot::feed::{read_feed, FeedItem};
use std::time::{SystemTime, UNIX_EPOCH};

fn now() -> Timestamp {
    let d = SystemTime::now().duration_since(UNIX_EPOCH).unwrap();
    Timestamp { secs: d.as_secs() as i64, nanos: d.subsec_nanos() }
}

fn days_before(t: Timestamp, days: i64) -> Timestamp {
    Timestamp { secs: t.secs - days * 86_400, nanos: t.nanos }
}

fn course(link: &str, title: &str, created_at: Timestamp) -> Course {
    Course {
        id: link.to_string(),
        title: title.to_string(),
        description: String::new(),
        thumbnail: String::new(),
        link: link.to_string(),
        category: None,
        high_res_cover: None,
        resolved_udemy_url: None,
        created_at,
    }
}

#[test]
fn test_cache_pruning_and_fetching() {
    // A feed with one new course and its article page, read without an HTTP server.
    let course_url = "http://127.0.0.1:1234/course/new".to_string();
    let rss_feed = format!(
        r#"
        <rss version="2.0">
            <channel>
                <item>
                    <title>New Course</title>
                    <link>{}</link>
                    <description>New course description</description>
                </item>
            </channel>
        </rss>
    "#,
        course_url
    );
    let article = r#"<meta property="og:image" content="new_thumbnail">"#;

    let now = now();
    let mut courses = vec![Course {
        id: "1".to_string(),
        title: "Old Course".to_string(),
        description: "".to_string(),
        thumbnail: "".to_string(),
        link: "old_link".to_string(),
        category: None,
        high_res_cover: None,
        resolved_udemy_url: None,
        created_at: days_before(now, 3),
    }];

    let items = read_feed(rss_feed.as_bytes()).unwrap();
    let mut new_courses = Vec::new();
    for i in items_to_resolve_exec(&items) {
        let cover = article_cover_exec(article);
        new_courses.push(course_from_item(&items[i], None, cover, now));
    }
    refresh_courses(&mut courses, new_courses, now);

    assert_eq!(courses.len(), 1);
    assert_eq!(courses[0].title, "New Course");
    assert!(!courses.iter().any(|c| c.title == "Old Course"));
    assert_eq!(courses[0].thumbnail, "new_thumbnail");
    assert_eq!(courses[0].high_res_cover.as_deref(), Some("new_thumbnail"));
    assert_eq!(courses[0].link, course_url);
}

#[test]
fn refresh_keeps_recent_skips_known_links_and_sorts() {
    let now = Timestamp { secs: 1_000_000, nanos: 500 };
    let mut courses = vec![
        course("a", "a old", Timestamp { secs: 1_000_000 - 172_800, nanos: 500 }),
        course("b", "b recent", Timestamp { secs: 1_000_000 - 172_799, nanos: 0 }),
        course("c", "c recent", Timestamp { secs: 999_000, nanos: 0 }),
    ];
    let new_courses = vec![
        course("b", "b again", now),
        course("d", "d new", now),
        course("d", "d twice", now),
        course("e", "e new", now),
    ];
    refresh_courses(&mut courses, new_courses, now);
    let titles: Vec<&str> = courses.iter().map(|c| c.title.as_str()).collect();
    assert_eq!(titles, vec!["d new", "e new", "c recent", "b recent"]);
}

#[test]
fn two_whole_days_expire_a_course() {
    let now = Timestamp { secs: 2_000_000, nanos: 0 };
    let mut courses = vec![
        course("x", "just under", Timestamp { secs: 2_000_000 - 172_800, nanos: 1 }),
        course("y", "exactly", Timestamp { secs: 2_000_000 - 172_800, nanos: 0 }),
        course("z", "future", Timestamp { secs: 3_000_000, nanos: 0 }),
    ];
    refresh_courses(&mut courses, vec![], now);
    let titles: Vec<&str> = courses.iter().map(|c| c.title.as_str()).collect();
    assert_eq!(titles, vec!["future", "just under"]);
}

#[test]
fn only_first_fifty_items_with_links() {
    let mut items = Vec::new();
    for i in 0..60 {
        items.push(FeedItem {
            title: None,
            link: if i % 2 == 0 { Some(format!("l{}", i)) } else { None },
            description: None,
            guid: None,
            categories: vec![],
        });
    }
    let picked = items_to_resolve_exec(&items);
    assert_eq!(picked.len(), 25);
    assert_eq!(picked[0], 0);
    assert_eq!(picked[24], 48);
}

#[test]
fn go_url_from_last_nonempty_segment() {
    assert_eq!(
        go_url_for_exec("https://www.discudemy.com/english/rust//"),
        Some("https://www.discudemy.com/go/rust".to_string())
    );
    assert_eq!(go_url_for_exec("///"), None);
    assert_eq!(go_url_for_exec(""), None);
}

#[test]
fn pages_give_cover_and_link() {
    assert_eq!(article_cover_exec("<p>none</p>"), None);
    assert_eq!(
        article_cover_exec("<meta property=\"og:image\"><meta property=\"og:image\" content=\"b\">"),
        None
    );
    let page = "<a href=\"https://x.org\">1</a><a href=\"https://www.discudemy.com/udemy.com\">2</a>";
    assert_eq!(
        udemy_link_on_page_exec(page),
        Some("https://www.discudemy.com/udemy.com".to_string())
    );
    assert_eq!(udemy_link_on_page_exec("<a>no</a>"), None);
}

#[test]
fn course_from_item_fields() {
    let item = FeedItem {
        title: None,
        link: Some("https://d/x".to_string()),
        description: None,
        guid: None,
        categories: vec!["Dev".to_string(), "Ops".to_string()],
    };
    let t = Timestamp { secs: 5, nanos: 6 };
    let c = course_from_item(&item, Some("https://udemy/x".to_string()), None, t);
    assert_eq!(c.id, "https://d/x");
    assert_eq!(c.title, "No Title");
    assert_eq!(c.description, "");
    assert_eq!(c.thumbnail, "");
    assert_eq!(c.category.as_deref(), Some("Dev"));
    assert_eq!(c.resolved_udemy_url.as_deref(), Some("https://udemy/x"));
    assert_eq!(c.created_at, t);
}

#[test]
fn first_attr_takes_the_first_element() {
    assert_eq!(first_attr_exec(&None), None);
    assert_eq!(first_attr_exec(&Some(vec![])), None);
    assert_eq!(first_attr_exec(&Some(vec![None, Some("b".to_string())])), None);
    assert_eq!(
        first_attr_exec(&Some(vec![Some("a".to_string()), Some("b".to_string())])).as_deref(),
        Some("a")
    );
}

#[test]
fn refreshing_again_with_the_same_feed_changes_nothing() {
    let t0 = Timestamp { secs: 5_000_000, nanos: 0 };
    let mut courses = vec![course("old", "old", Timestamp { secs: 4_990_000, nanos: 0 })];
    let fetched = || vec![course("n1", "n1", t0), course("n2", "n2", t0), course("old", "dup", t0)];
    refresh_courses(&mut courses, fetched(), t0);
    let first: Vec<(String, String)> =
        courses.iter().map(|c| (c.link.clone(), c.title.clone())).collect();
    let t1 = Timestamp { secs: 5_000_100, nanos: 7 };
    let later = fetched().into_iter().map(|mut c| { c.created_at = t1; c }).collect();
    refresh_courses(&mut courses, later, t1);
    let second: Vec<(String, String)> =
        courses.iter().map(|c| (c.link.clone(), c.title.clone())).collect();
    assert_eq!(first, second);
    assert!(courses.iter().all(|c| c.created_at != t1));
}
