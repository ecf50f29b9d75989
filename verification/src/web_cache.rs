//! The courses shown on the web page: one entry per course address, each
//! stamped with the time it was added, dropped after two days.

use crate::feed::{text_or, text_or_exec, FeedItem, FeedItemView};
use crate::html::paragraphs;
use crate::udemy_extractor::{description_of, extract_main_description, extract_thumbnail_url, thumbnail_of};
use vstd::prelude::*;

verus! {

/// A course as the web page shows it.
#[derive(Clone, Debug)]
pub struct Course {
    pub url: String,
    pub thumbnail: String,
    pub title: String,
    pub description: String,
}

/// The text of a course's fields.
pub struct CourseView {
    pub url: Seq<char>,
    pub thumbnail: Seq<char>,
    pub title: Seq<char>,
    pub description: Seq<char>,
}

impl View for Course {
    type V = CourseView;

    open spec fn view(&self) -> CourseView {
        CourseView {
            url: self.url@,
            thumbnail: self.thumbnail@,
            title: self.title@,
            description: self.description@,
        }
    }
}

impl Course {
    /// A copy of the course.
    pub fn duplicate(&self) -> (r: Course)
        ensures
            r@ == self@,
    {
        Course {
            url: self.url.clone(),
            thumbnail: self.thumbnail.clone(),
            title: self.title.clone(),
            description: self.description.clone(),
        }
    }
}

/// A course and the time (seconds since the Unix epoch) it was added.
#[derive(Clone, Debug)]
pub struct CacheEntry {
    pub course: Course,
    pub timestamp: u64,
}

/// The content of an entry.
pub struct EntryView {
    pub course: CourseView,
    pub timestamp: u64,
}

impl View for CacheEntry {
    type V = EntryView;

    open spec fn view(&self) -> EntryView {
        EntryView { course: self.course@, timestamp: self.timestamp }
    }
}

/// How long an entry is kept, in seconds: two days.
pub open spec fn max_age() -> int {
    2int * 24 * 60 * 60
}

/// An entry younger than two days at time `now`.
pub open spec fn is_fresh(entry: EntryView, now: u64) -> bool {
    now - entry.timestamp < max_age()
}

/// `key` is the key of some entry of `s`.
pub open spec fn has_key(s: Seq<(Seq<char>, EntryView)>, key: Seq<char>) -> bool {
    exists|i: int| 0 <= i < s.len() && s[i].0 == key
}

/// The position of the entry with key `key`.
pub open spec fn key_position(s: Seq<(Seq<char>, EntryView)>, key: Seq<char>) -> int {
    choose|i: int| 0 <= i < s.len() && s[i].0 == key
}

/// No two entries share a key.
pub open spec fn distinct_keys(s: Seq<(Seq<char>, EntryView)>) -> bool {
    forall|i: int, j: int| 0 <= i < s.len() && 0 <= j < s.len() && i != j ==> s[i].0 != s[j].0
}

/// The entry stored under `key`.
pub open spec fn lookup(s: Seq<(Seq<char>, EntryView)>, key: Seq<char>) -> Option<EntryView> {
    if has_key(s, key) {
        Some(s[key_position(s, key)].1)
    } else {
        None
    }
}

/// The entries after storing `entry` under `key`: it replaces the entry with
/// that key in place, or comes last when there is none.
pub open spec fn put_entry(s: Seq<(Seq<char>, EntryView)>, key: Seq<char>, entry: EntryView) -> Seq<(Seq<char>, EntryView)> {
    if has_key(s, key) {
        s.update(key_position(s, key), (key, entry))
    } else {
        s.push((key, entry))
    }
}

/// The entries that are still fresh at `now`, in order.
pub open spec fn fresh_entries(s: Seq<(Seq<char>, EntryView)>, now: u64) -> Seq<(Seq<char>, EntryView)> {
    s.filter(|p: (Seq<char>, EntryView)| is_fresh(p.1, now))
}

/// The courses of the entries, in order.
pub open spec fn courses_of(s: Seq<(Seq<char>, EntryView)>) -> Seq<CourseView> {
    s.map_values(|p: (Seq<char>, EntryView)| p.1.course)
}

/// The view of a stored key and entry.
pub open spec fn pair_view(p: (String, CacheEntry)) -> (Seq<char>, EntryView) {
    (p.0@, p.1@)
}

/// Storing keeps the keys distinct.
pub proof fn lemma_put_keeps_keys_distinct(s: Seq<(Seq<char>, EntryView)>, key: Seq<char>, entry: EntryView)
    requires
        distinct_keys(s),
    ensures
        distinct_keys(put_entry(s, key, entry)),
{
    if has_key(s, key) {
        let k = key_position(s, key);
        let t = put_entry(s, key, entry);
        assert forall|i: int, j: int| 0 <= i < t.len() && 0 <= j < t.len() && i != j implies t[i].0
            != t[j].0 by {
            if i == k {
                assert(s[k].0 == key);
            }
            if j == k {
                assert(s[k].0 == key);
            }
        }
    }
}

/// The entries of the web page.
pub struct WebCache {
    entries: Vec<(String, CacheEntry)>,
    path: String,
}

impl View for WebCache {
    type V = Seq<(Seq<char>, EntryView)>;

    closed spec fn view(&self) -> Seq<(Seq<char>, EntryView)> {
        self.entries@.map_values(|p: (String, CacheEntry)| pair_view(p))
    }
}

impl WebCache {
    #[verifier::type_invariant]
    spec fn keys_are_distinct(self) -> bool {
        distinct_keys(self@)
    }

    /// The file the cache is kept in.
    pub closed spec fn file(&self) -> Seq<char> {
        self.path@
    }

    /// An empty cache kept in the file `path`; reading the file's entries is
    /// left to the caller, who then stores them with `insert_entry`.
    pub fn new(path: &str) -> (r: WebCache)
        ensures
            r@ == Seq::<(Seq<char>, EntryView)>::empty(),
            r.file() == path@,
    {
        let r = WebCache { entries: Vec::new(), path: String::from_str(path) };
        assert(r@ =~= Seq::<(Seq<char>, EntryView)>::empty());
        r
    }

    /// The file the cache is kept in.
    pub fn path(&self) -> (r: &String)
        ensures
            r@ == self.file(),
    {
        &self.path
    }

    /// The entries, in order, each with its key.
    pub fn entries(&self) -> (r: &Vec<(String, CacheEntry)>)
        ensures
            r@.map_values(|p: (String, CacheEntry)| pair_view(p)) == self@,
    {
        &self.entries
    }

    /// The number of entries.
    pub fn len(&self) -> (r: usize)
        ensures
            r == self@.len(),
    {
        self.entries.len()
    }

    /// The position of the entry with key `key`, if there is one.
    fn position_of(&self, key: &str) -> (r: Option<usize>)
        ensures
            match r {
                Some(i) => i < self@.len() && self@[i as int].0 == key@,
                None => !has_key(self@, key@),
            },
    {
        let wanted = String::from_str(key);
        let n = self.entries.len();
        let mut i: usize = 0;
        while i < n
            invariant
                n == self@.len(),
                wanted@ == key@,
                i <= n,
                forall|j: int| 0 <= j < i ==> self@[j].0 != key@,
            decreases n - i,
        {
            if self.entries[i].0 == wanted {
                return Some(i);
            }
            i = i + 1;
        }
        None
    }

    /// Whether some entry has the key `key`.
    pub fn contains_key(&self, key: &str) -> (b: bool)
        ensures
            b == has_key(self@, key@),
    {
        self.position_of(key).is_some()
    }

    /// Stores `entry` under `key`, replacing the entry with that key if any.
    pub fn insert_entry(&mut self, key: String, entry: CacheEntry)
        ensures
            final(self)@ == put_entry(old(self)@, key@, entry@),
            final(self).file() == old(self).file(),
    {
        proof {
            use_type_invariant(&*self);
            lemma_put_keeps_keys_distinct(self@, key@, entry@);
        }
        let ghost before = self@;
        let pos = self.position_of(key.as_str());
        let mut entries: Vec<(String, CacheEntry)> = Vec::new();
        std::mem::swap(&mut entries, &mut self.entries);
        assert(entries@.map_values(|p: (String, CacheEntry)| pair_view(p)) == before);
        match pos {
            Some(i) => {
                proof {
                    let k = key_position(before, key@);
                    assert(before[k].0 == key@);
                    assert(k == i);
                }
                entries.set(i, (key, entry));
            },
            None => {
                entries.push((key, entry));
            },
        }
        assert(entries@.map_values(|p: (String, CacheEntry)| pair_view(p)) =~= put_entry(
            before,
            key@,
            entry@,
        ));
        self.entries = entries;
    }

    /// Whether no entry is stamped later than `now`.
    pub fn all_stamped_by(&self, now: u64) -> (b: bool)
        ensures
            b == (forall|i: int| 0 <= i < self@.len() ==> self@[i].1.timestamp <= now),
    {
        let n = self.entries.len();
        let mut i: usize = 0;
        while i < n
            invariant
                n == self@.len(),
                i <= n,
                forall|j: int| 0 <= j < i ==> self@[j].1.timestamp <= now,
            decreases n - i,
        {
            if self.entries[i].1.timestamp > now {
                assert(self@[i as int].1.timestamp > now);
                return false;
            }
            i = i + 1;
        }
        true
    }

    /// Adds `course`, stamped with `now` (seconds since the Unix epoch),
    /// under its address: a course with the same address is replaced.
    pub fn add(&mut self, course: Course, now: u64)
        ensures
            final(self)@ == put_entry(
                old(self)@,
                course.url@,
                EntryView { course: course@, timestamp: now },
            ),
            final(self).file() == old(self).file(),
    {
        let key = course.url.clone();
        let entry = CacheEntry { course, timestamp: now };
        self.insert_entry(key, entry);
    }

    /// Drops the entries that are two days old or older at `now` (seconds
    /// since the Unix epoch). No entry may be stamped later than `now`.
    pub fn prune(&mut self, now: u64)
        requires
            forall|i: int| 0 <= i < old(self)@.len() ==> old(self)@[i].1.timestamp <= now,
        ensures
            final(self)@ == fresh_entries(old(self)@, now),
            final(self).file() == old(self).file(),
    {
        proof {
            use_type_invariant(&*self);
        }
        let ghost before = self@;
        let ghost fresh = |p: (Seq<char>, EntryView)| is_fresh(p.1, now);
        let two_days_in_seconds: u64 = 2 * 24 * 60 * 60;
        let mut kept: Vec<(String, CacheEntry)> = Vec::new();
        let n = self.entries.len();
        let mut i: usize = 0;
        while i < n
            invariant
                n == before.len(),
                before == self@,
                two_days_in_seconds == max_age(),
                fresh == (|p: (Seq<char>, EntryView)| is_fresh(p.1, now)),
                forall|j: int| 0 <= j < before.len() ==> before[j].1.timestamp <= now,
                i <= n,
                kept@.map_values(|p: (String, CacheEntry)| pair_view(p)) == before.take(
                    i as int,
                ).filter(fresh),
            decreases n - i,
        {
            let ghost old_kept = kept@.map_values(|p: (String, CacheEntry)| pair_view(p));
            let pair = &self.entries[i];
            assert(pair_view(*pair) == before[i as int]);
            assert(before.take(i + 1) =~= before.take(i as int).push(before[i as int]));
            proof {
                before.take(i as int).lemma_filter_push(before[i as int], fresh);
            }
            if now - pair.1.timestamp < two_days_in_seconds {
                let copy = (pair.0.clone(), duplicate_entry(&pair.1));
                kept.push(copy);
                assert(kept@.map_values(|p: (String, CacheEntry)| pair_view(p)) =~= old_kept.push(
                    before[i as int],
                ));
            }
            i = i + 1;
        }
        assert(before.take(n as int) =~= before);
        proof {
            lemma_filter_keeps_keys_distinct(before, fresh);
        }
        self.entries = kept;
    }

    /// The courses of all entries, in the order of the entries.
    pub fn get_all_courses(&self) -> (r: Vec<Course>)
        ensures
            r@.map_values(|c: Course| c@) == courses_of(self@),
    {
        let mut r: Vec<Course> = Vec::new();
        let n = self.entries.len();
        let mut i: usize = 0;
        while i < n
            invariant
                n == self@.len(),
                i <= n,
                r@.map_values(|c: Course| c@) == courses_of(self@.take(i as int)),
            decreases n - i,
        {
            let ghost before = r@.map_values(|c: Course| c@);
            let c = self.entries[i].1.course.duplicate();
            r.push(c);
            assert(self@[i as int].1.course == c@);
            assert(self@.take(i + 1) =~= self@.take(i as int).push(self@[i as int]));
            assert(courses_of(self@.take(i + 1)) =~= courses_of(self@.take(i as int)).push(c@));
            assert(r@.map_values(|c: Course| c@) =~= before.push(c@));
            i = i + 1;
        }
        assert(self@.take(n as int) =~= self@);
        r
    }
}

/// A copy of an entry.
fn duplicate_entry(e: &CacheEntry) -> (r: CacheEntry)
    ensures
        r@ == e@,
{
    CacheEntry { course: e.course.duplicate(), timestamp: e.timestamp }
}

/// Dropping entries keeps the keys distinct.
proof fn lemma_filter_keeps_keys_distinct(s: Seq<(Seq<char>, EntryView)>, pred: spec_fn((Seq<char>, EntryView)) -> bool)
    requires
        distinct_keys(s),
    ensures
        distinct_keys(s.filter(pred)),
    decreases s.len(),
{
    reveal(Seq::filter);
    if s.len() > 0 {
        lemma_filter_keeps_keys_distinct(s.drop_last(), pred);
        let t = s.drop_last().filter(pred);
        if pred(s.last()) {
            assert forall|i: int| 0 <= i < t.len() implies t[i].0 != s.last().0 by {
                s.drop_last().lemma_filter_contains_rev(pred, t[i]);
                let k = choose|k: int| 0 <= k < s.drop_last().len() && s.drop_last()[k] == t[i];
                assert(s[k] == t[i]);
            }
        }
    }
}


/// With distinct keys, the entry with a key sits at the one position that
/// holds that key.
pub proof fn lemma_key_position(s: Seq<(Seq<char>, EntryView)>, key: Seq<char>, i: int)
    requires
        distinct_keys(s),
        0 <= i < s.len(),
        s[i].0 == key,
    ensures
        has_key(s, key),
        key_position(s, key) == i,
        lookup(s, key) == Some(s[i].1),
{
}

/// What is stored is what is read back: after `entry` is stored under `key`,
/// looking up `key` gives `entry`, and every other key gives what it gave
/// before.
pub proof fn lemma_lookup_after_put(s: Seq<(Seq<char>, EntryView)>, key: Seq<char>, entry: EntryView, other: Seq<char>)
    requires
        distinct_keys(s),
    ensures
        lookup(put_entry(s, key, entry), key) == Some(entry),
        other != key ==> lookup(put_entry(s, key, entry), other) == lookup(s, other),
{
    let t = put_entry(s, key, entry);
    lemma_put_keeps_keys_distinct(s, key, entry);
    let k = if has_key(s, key) {
        key_position(s, key)
    } else {
        s.len() as int
    };
    lemma_key_position(t, key, k);
    if other != key {
        if has_key(s, other) {
            let j = key_position(s, other);
            assert(t[j] == s[j]);
            lemma_key_position(t, other, j);
        } else {
            if has_key(t, other) {
                let j = key_position(t, other);
                assert(j != k);
                assert(s[j].0 == other);
            }
        }
    }
}

/// Storing twice under one key keeps only the second entry, where the first
/// one was stored.
pub proof fn lemma_put_twice(s: Seq<(Seq<char>, EntryView)>, key: Seq<char>, first: EntryView, second: EntryView)
    requires
        distinct_keys(s),
    ensures
        put_entry(put_entry(s, key, first), key, second) == put_entry(s, key, second),
{
    let t = put_entry(s, key, first);
    lemma_put_keeps_keys_distinct(s, key, first);
    let k = if has_key(s, key) {
        key_position(s, key)
    } else {
        s.len() as int
    };
    lemma_key_position(t, key, k);
    assert(put_entry(t, key, second) =~= put_entry(s, key, second));
}

/// Storing adds an entry exactly when the key is new.
pub proof fn lemma_put_len(s: Seq<(Seq<char>, EntryView)>, key: Seq<char>, entry: EntryView)
    ensures
        put_entry(s, key, entry).len() == s.len() + if has_key(s, key) {
            0int
        } else {
            1int
        },
{
}

/// Pruning keeps exactly the fresh entries: a key still gives its entry when
/// that entry is fresh, and nothing otherwise.
pub proof fn lemma_lookup_after_prune(s: Seq<(Seq<char>, EntryView)>, now: u64, key: Seq<char>)
    requires
        distinct_keys(s),
    ensures
        lookup(fresh_entries(s, now), key) == match lookup(s, key) {
            Some(e) => if is_fresh(e, now) {
                Some(e)
            } else {
                None
            },
            None => None,
        },
{
    let pred = |p: (Seq<char>, EntryView)| is_fresh(p.1, now);
    let t = fresh_entries(s, now);
    lemma_filter_keeps_keys_distinct(s, pred);
    broadcast use Seq::lemma_filter_contains_rev, Seq::lemma_filter_pred;

    if has_key(s, key) {
        let i = key_position(s, key);
        if is_fresh(s[i].1, now) {
            s.lemma_filter_contains(pred, i);
            let j = choose|j: int| 0 <= j < t.len() && t[j] == s[i];
            lemma_key_position(t, key, j);
        } else if has_key(t, key) {
            let j = key_position(t, key);
            s.lemma_filter_contains_rev(pred, t[j]);
            let m = choose|m: int| 0 <= m < s.len() && s[m] == t[j];
            lemma_key_position(s, key, m);
            s.lemma_filter_pred(pred, j);
        }
    } else if has_key(t, key) {
        let j = key_position(t, key);
        s.lemma_filter_contains_rev(pred, t[j]);
    }
}

/// Pruning twice at the same time prunes nothing more.
pub proof fn lemma_prune_idempotent(s: Seq<(Seq<char>, EntryView)>, now: u64)
    ensures
        fresh_entries(fresh_entries(s, now), now) == fresh_entries(s, now),
    decreases s.len(),
{
    let pred = |p: (Seq<char>, EntryView)| is_fresh(p.1, now);
    reveal(Seq::filter);
    if s.len() > 0 {
        lemma_prune_idempotent(s.drop_last(), now);
        let t = s.drop_last().filter(pred);
        if pred(s.last()) {
            t.lemma_filter_push(s.last(), pred);
        }
    }
}


/// The address shown when a description has no image.
pub open spec fn placeholder_thumbnail() -> Seq<char> {
    "https://placehold.co/600x400"@
}

/// The course shown for a feed item whose link led to `udemy_url`: the
/// item's title ("Untitled Course" when it has none), the description taken
/// from its HTML, the course address, and the description's first image (a
/// placeholder when there is none).
pub open spec fn course_view_for_item(item: FeedItemView, udemy_url: Seq<char>) -> CourseView {
    let title = text_or(item.title, "Untitled Course"@);
    let raw = text_or(item.description, ""@);
    CourseView {
        url: udemy_url,
        thumbnail: match thumbnail_of(raw) {
            Some(src) => src,
            None => placeholder_thumbnail(),
        },
        title: title,
        description: description_of(paragraphs(raw), title),
    }
}

/// Where each field of the course shown for a feed item comes from: the
/// address is the one its link led to; the title is the item's title
/// ("Untitled Course" without one); the description is the one taken from
/// the paragraphs of its description against that title; the thumbnail is
/// the description's first image, or the placeholder without one.
pub proof fn lemma_course_for_item_fields(item: FeedItemView, udemy_url: Seq<char>)
    ensures
        course_view_for_item(item, udemy_url).url == udemy_url,
        item.title is Some ==> course_view_for_item(item, udemy_url).title == item.title->0,
        item.title is None ==> course_view_for_item(item, udemy_url).title == "Untitled Course"@,
        item.description is Some ==> course_view_for_item(item, udemy_url).description == description_of(
            paragraphs(item.description->0),
            course_view_for_item(item, udemy_url).title,
        ),
        item.description is None ==> course_view_for_item(item, udemy_url).description == description_of(
            paragraphs(""@),
            course_view_for_item(item, udemy_url).title,
        ),
        thumbnail_of(text_or(item.description, ""@)) is Some ==> course_view_for_item(item, udemy_url).thumbnail
            == thumbnail_of(text_or(item.description, ""@))->0,
        thumbnail_of(text_or(item.description, ""@)) is None ==> course_view_for_item(item, udemy_url).thumbnail
            == "https://placehold.co/600x400"@,
{
}

/// The course shown for a feed item whose link led to `udemy_url`.
pub fn course_for_item(item: &FeedItem, udemy_url: &str) -> (r: Course)
    ensures
        r@ == course_view_for_item(item@, udemy_url@),
{
    let title = text_or_exec(&item.title, "Untitled Course");
    let raw = text_or_exec(&item.description, "");
    let description = extract_main_description(raw.as_str(), title.as_str());
    let thumbnail = match extract_thumbnail_url(raw.as_str()) {
        Some(src) => src,
        None => String::from_str("https://placehold.co/600x400"),
    };
    Course { url: String::from_str(udemy_url), thumbnail, title, description }
}

} // verus!
