//! Core of a bot that relays free Udemy course listings from the discudemy RSS
//! feed to a Telegram channel, and keeps the recent courses for a web page.
//!
//! - `feed`: the items of a feed, read with the `rss` crate.
//! - `html`, `text`: HTML queries (the `scraper` crate) and text operations.
//! - `udemy_extractor`: descriptions, images and course links.
//! - `rss_tracker`, `seen_entries`: which entries the bot posts, and what it
//!   remembers of them (an LRU cache of the `lru` crate).
//! - `web_cache`: the courses of the web page, kept two days.
//! - `backend`: the stand-alone backend's course list and its refresh.
//! - `config`, `server_config`, `number`: settings from the environment.

pub mod backend;
pub mod config;
pub mod feed;
pub mod html;
pub mod number;
pub mod rss_tracker;
pub mod seen_entries;
pub mod server_config;
pub mod text;
pub mod udemy_extractor;
pub mod web_cache;
