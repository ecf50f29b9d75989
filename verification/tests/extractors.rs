use rustidemy_bot::rss_tracker;
use rustidemy_bot::udemy_extractor::{
    capture_text, choose_udemy_link, extract_main_description, extract_thumbnail_url, go_page_url_exec,
    main_description_from_texts, udemy_url_from_go_page,
};

#[test]
fn description_takes_first_useful_paragraph() {
    let html = "<p>Rust Basics</p><p>https://example.com</p><p></p>\
                <p>Learn the <b>borrow</b> rules.</p><p>Second paragraph</p>";
    // The text nodes of a paragraph are joined with one space each.
    assert_eq!(extract_main_description(html, "Rust Basics"), "Learn the  borrow  rules.");
}

#[test]
fn description_moves_publisher_to_own_line() {
    let html = "<p>A course.  Published by:  Jane Doe </p>";
    assert_eq!(
        extract_main_description(html, "Title"),
        "A course.\n\nPublished by: Jane Doe"
    );
}

#[test]
fn description_missing() {
    assert_eq!(extract_main_description("", "T"), "No description provided");
    assert_eq!(extract_main_description("<p>T is here</p>", "T"), "No description provided");
    // An empty title occurs in every paragraph.
    assert_eq!(extract_main_description("<p>text</p>", ""), "No description provided");
}

#[test]
fn description_from_text_nodes_joins_and_trims() {
    let texts = vec![
        vec!["  ".to_string()],
        vec![" Learn".to_string(), "Rust\u{3000}".to_string()],
    ];
    assert_eq!(main_description_from_texts(&texts, "zzz"), "Learn Rust");
}

#[test]
fn post_description_keeps_all_paragraphs_and_last_publisher() {
    let html = "<p>Title here</p><p>One</p><p>Published by: A</p><p>Two</p><p>Published by: B</p>";
    assert_eq!(
        rss_tracker::extract_main_description(html, "Title here"),
        "One\n\nTwo\n\nPublished by: B"
    );
}

#[test]
fn post_description_only_publisher() {
    assert_eq!(
        rss_tracker::extract_main_description("<p>Published by: A</p>", "T"),
        "\n\nPublished by: A"
    );
    assert_eq!(rss_tracker::extract_main_description("<div>x</div>", "T"), "No description provided");
}

#[test]
fn thumbnail_is_first_image_source() {
    let html = "<p>x</p><img src=\"\"><img src=\"https://a/1.png\" alt=\"a\"><img src=\"https://a/2.png\">";
    assert_eq!(extract_thumbnail_url(html), Some("https://a/1.png".to_string()));
    assert_eq!(extract_thumbnail_url("<img alt=\"x\" src=\"y\">"), None);
}

#[test]
fn go_page_uses_last_segment() {
    assert_eq!(
        go_page_url_exec("https://www.discudemy.com/english/rust-course"),
        "https://www.discudemy.com/go/rust-course#google_vignette"
    );
    assert_eq!(
        go_page_url_exec("https://www.discudemy.com/english/"),
        "https://www.discudemy.com/go/#google_vignette"
    );
    assert_eq!(go_page_url_exec("plain"), "https://www.discudemy.com/go/plain#google_vignette");
}

#[test]
fn udemy_link_skips_discudemy_and_missing() {
    let hrefs = vec![
        None,
        Some("https://www.discudemy.com/udemy.com".to_string()),
        Some("https://example.com".to_string()),
        Some("https://www.udemy.com/course/x/?couponCode=FREE".to_string()),
        Some("https://www.udemy.com/course/y/".to_string()),
    ];
    assert_eq!(
        choose_udemy_link(&hrefs, "fallback"),
        "https://www.udemy.com/course/x/?couponCode=FREE"
    );
    assert_eq!(choose_udemy_link(&vec![None], "fallback"), "fallback");
}

#[test]
fn udemy_url_from_page_is_parsed() {
    let page = "<html><body><a href=\"https://discudemy.com/x\">no</a>\
                <a href=\"https://www.udemy.com/course/rust/?couponCode=ABC\">go</a></body></html>";
    assert_eq!(
        udemy_url_from_go_page(page, "https://www.discudemy.com/english/rust"),
        Some("https://www.udemy.com/course/rust/?couponCode=ABC".to_string())
    );
    // No Udemy link: the feed link itself, normalized by the URL parser.
    assert_eq!(
        udemy_url_from_go_page("<p>nothing</p>", "HTTPS://Example.COM"),
        Some("https://example.com/".to_string())
    );
    // Neither parses as an absolute URL.
    assert_eq!(udemy_url_from_go_page("<p>nothing</p>", "not a url"), None);
}

#[test]
fn capture_text_of_regex_results() {
    assert_eq!(capture_text(Some(Some("x.png".to_string()))).as_deref(), Some("x.png"));
    assert_eq!(capture_text(Some(None)), None);
    assert_eq!(capture_text(None), None);
}
