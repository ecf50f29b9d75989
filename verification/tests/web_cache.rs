use rustidemy_bot::feed::FeedItem;
use rustidemy_bot::web_cache::{course_for_item, CacheEntry, Course, WebCache};
use std::time::{SystemTime, UNIX_EPOCH};

fn now_secs() -> u64 {
    SystemTime::now()
        .duration_since(UNIX_EPOCH)
        .unwrap()
        .as_secs()
}

#[test]
fn test_add_and_get_courses() {
    let mut cache = WebCache::new("test_cache_0.json");
    let course = Course {
        url: "http://example.com/course1".to_string(),
        thumbnail: "http://example.com/thumb1.jpg".to_string(),
        title: "Test Course 1".to_string(),
        description: "Description 1".to_string(),
    };
    cache.add(course.clone(), now_secs());

    let courses = cache.get_all_courses();
    assert_eq!(courses.len(), 1);
    assert_eq!(courses[0].url, course.url);
}

#[test]
fn test_prune() {
    let mut cache = WebCache::new("test_cache_1.json");

    let old_course = Course {
        url: "http://example.com/old_course".to_string(),
        thumbnail: "http://example.com/old_thumb.jpg".to_string(),
        title: "Old Course".to_string(),
        description: "Old Description".to_string(),
    };

    // Manually create an old entry
    let mut old_entry = CacheEntry {
        course: old_course,
        timestamp: 0, // A long time ago
    };

    // Get current time and subtract more than two days
    let now = now_secs();
    let three_days_ago = now - (3 * 24 * 60 * 60);
    old_entry.timestamp = three_days_ago;

    cache.insert_entry(old_entry.course.url.clone(), old_entry);

    let new_course = Course {
        url: "http://example.com/new_course".to_string(),
        thumbnail: "http://example.com/new_thumb.jpg".to_string(),
        title: "New Course".to_string(),
        description: "New Description".to_string(),
    };
    let now = now_secs();
    cache.add(new_course, now);

    assert_eq!(cache.len(), 2);
    cache.prune(now);
    assert_eq!(cache.len(), 1);
    assert!(cache.contains_key("http://example.com/new_course"));
}

#[test]
fn test_uniqueness() {
    let mut cache = WebCache::new("test_cache_2.json");
    let course1 = Course {
        url: "http://example.com/course1".to_string(),
        thumbnail: "http://example.com/thumb1.jpg".to_string(),
        title: "Test Course 1".to_string(),
        description: "Description 1".to_string(),
    };
    let course2 = Course {
        url: "http://example.com/course1".to_string(), // Same URL
        thumbnail: "http://example.com/thumb2.jpg".to_string(),
        title: "Test Course 2".to_string(),
        description: "Description 2".to_string(),
    };
    let now = now_secs();
    cache.add(course1, now);
    cache.add(course2.clone(), now);

    let courses = cache.get_all_courses();
    assert_eq!(courses.len(), 1);
    assert_eq!(courses[0].title, "Test Course 2");
}

fn course(url: &str, title: &str) -> Course {
    Course {
        url: url.to_string(),
        thumbnail: String::new(),
        title: title.to_string(),
        description: String::new(),
    }
}

#[test]
fn prune_keeps_entries_younger_than_two_days() {
    let mut cache = WebCache::new("cache.json");
    let now = 1_000_000u64;
    cache.add(course("a", "exactly two days"), now - 172_800);
    cache.add(course("b", "one second short"), now - 172_799);
    cache.add(course("c", "just added"), now);
    cache.prune(now);
    let titles: Vec<String> = cache.get_all_courses().into_iter().map(|c| c.title).collect();
    assert_eq!(titles, vec!["one second short".to_string(), "just added".to_string()]);
}

#[test]
fn prune_twice_removes_nothing_more() {
    let mut cache = WebCache::new("cache.json");
    let now = 500_000u64;
    cache.add(course("a", "old"), now - 300_000);
    cache.add(course("b", "new"), now - 10);
    cache.prune(now);
    let once = cache.len();
    cache.prune(now);
    assert_eq!(once, 1);
    assert_eq!(cache.len(), 1);
}

#[test]
fn replacing_a_course_keeps_its_place() {
    let mut cache = WebCache::new("cache.json");
    cache.add(course("a", "first"), 10);
    cache.add(course("b", "second"), 10);
    cache.add(course("a", "first again"), 20);
    let courses = cache.get_all_courses();
    assert_eq!(courses.len(), 2);
    assert_eq!(courses[0].title, "first again");
    assert_eq!(courses[1].title, "second");
    assert_eq!(cache.entries()[0].1.timestamp, 20);
}

#[test]
fn lookup_by_key_after_insert() {
    let mut cache = WebCache::new("cache.json");
    assert!(!cache.contains_key("k"));
    cache.insert_entry(
        "k".to_string(),
        CacheEntry { course: course("elsewhere", "t"), timestamp: 5 },
    );
    assert!(cache.contains_key("k"));
    assert!(!cache.contains_key("elsewhere"));
    assert_eq!(cache.path(), "cache.json");
}

#[test]
fn stamps_checked_against_now() {
    let mut cache = WebCache::new("cache.json");
    cache.add(course("a", "t"), 100);
    assert!(cache.all_stamped_by(100));
    assert!(!cache.all_stamped_by(99));
}

#[test]
fn course_for_item_uses_description_and_image() {
    let item = FeedItem {
        title: Some("Rust Basics".to_string()),
        link: Some("https://www.discudemy.com/english/rust-basics".to_string()),
        description: Some(
            "<p><img src=\"https://img.example/rust.jpg\"></p><p>Learn Rust fast.</p>".to_string(),
        ),
        guid: None,
        categories: vec![],
    };
    let c = course_for_item(&item, "https://www.udemy.com/course/rust-basics/");
    assert_eq!(c.title, "Rust Basics");
    assert_eq!(c.url, "https://www.udemy.com/course/rust-basics/");
    assert_eq!(c.thumbnail, "https://img.example/rust.jpg");
    assert_eq!(c.description, "Learn Rust fast.");
}

#[test]
fn course_for_item_defaults() {
    let item = FeedItem { title: None, link: None, description: None, guid: None, categories: vec![] };
    let c = course_for_item(&item, "u");
    assert_eq!(c.title, "Untitled Course");
    assert_eq!(c.thumbnail, "https://placehold.co/600x400");
    assert_eq!(c.description, "No description provided");
}
