//! The stand-alone web backend: the course list it serves, refreshed from the
//! feed every few minutes.

use crate::feed::{item_views, text_or, text_or_exec, FeedItem, FeedItemView};
use crate::html::{document_attrs, select_document_attrs};
use crate::text::{after_last, after_last_chars, chars_of, contains, contains_exec, strip_trailing, strip_trailing_chars, string_from_chars};
use vstd::prelude::*;

verus! {

/// An instant as seconds since the Unix epoch and nanoseconds within the
/// second (the fields of a `chrono::DateTime<Utc>`).
#[derive(PartialEq, Eq, Structural, Clone, Copy, Debug)]
pub struct Timestamp {
    pub secs: i64,
    pub nanos: u32,
}

/// The instant in nanoseconds since the epoch.
pub open spec fn instant_nanos(t: Timestamp) -> int {
    t.secs * 1_000_000_000 + t.nanos
}

/// `a` is not earlier than `b`, in the order of `DateTime` (seconds, then
/// nanoseconds).
pub open spec fn not_before(a: Timestamp, b: Timestamp) -> bool {
    a.secs > b.secs || (a.secs == b.secs && a.nanos >= b.nanos)
}

/// Integer division rounding toward zero, as Rust divides.
pub open spec fn div_toward_zero(a: int, b: int) -> int {
    if a >= 0 {
        a / b
    } else {
        -((-a) / b)
    }
}

/// The whole days from `earlier` to `later`, as
/// `later.signed_duration_since(earlier).num_days()` counts them: whole
/// seconds rounded toward zero, then whole days rounded toward zero.
pub open spec fn whole_days_between(later: Timestamp, earlier: Timestamp) -> int {
    div_toward_zero(
        div_toward_zero(instant_nanos(later) - instant_nanos(earlier), 1_000_000_000),
        86_400,
    )
}

/// How many days a course stays in the list.
pub open spec fn expiration_days() -> int {
    2
}

/// A course in the list.
pub struct Course {
    pub id: String,
    pub title: String,
    pub description: String,
    pub thumbnail: String,
    pub link: String,
    pub category: Option<String>,
    pub high_res_cover: Option<String>,
    pub resolved_udemy_url: Option<String>,
    pub created_at: Timestamp,
}

/// The content of a course.
pub struct CourseView {
    pub id: Seq<char>,
    pub title: Seq<char>,
    pub description: Seq<char>,
    pub thumbnail: Seq<char>,
    pub link: Seq<char>,
    pub category: Option<Seq<char>>,
    pub high_res_cover: Option<Seq<char>>,
    pub resolved_udemy_url: Option<Seq<char>>,
    pub created_at: Timestamp,
}

impl View for Course {
    type V = CourseView;

    open spec fn view(&self) -> CourseView {
        CourseView {
            id: self.id@,
            title: self.title@,
            description: self.description@,
            thumbnail: self.thumbnail@,
            link: self.link@,
            category: self.category.deep_view(),
            high_res_cover: self.high_res_cover.deep_view(),
            resolved_udemy_url: self.resolved_udemy_url.deep_view(),
            created_at: self.created_at,
        }
    }
}

/// A course added less than two whole days before `now`.
pub open spec fn is_recent(c: CourseView, now: Timestamp) -> bool {
    whole_days_between(now, c.created_at) < expiration_days()
}

/// Fewer than two whole days between the instants exactly when fewer than
/// two days' worth of nanoseconds lie between them.
proof fn lemma_recent_iff(later: Timestamp, earlier: Timestamp)
    ensures
        (whole_days_between(later, earlier) < 2) == (instant_nanos(later) - instant_nanos(earlier)
            < 172_800_000_000_000),
{
    let d = instant_nanos(later) - instant_nanos(earlier);
    if d >= 0 {
        let s = d / 1_000_000_000;
        assert(s >= 0) by (nonlinear_arith)
            requires
                d >= 0,
                s == d / 1_000_000_000,
        ;
        assert((s / 86_400 < 2) == (s < 172_800)) by (nonlinear_arith)
            requires
                s >= 0,
        ;
        assert((s < 172_800) == (d < 172_800_000_000_000)) by (nonlinear_arith)
            requires
                d >= 0,
                s == d / 1_000_000_000,
        ;
    } else {
        let s = (-d) / 1_000_000_000;
        assert(s >= 0) by (nonlinear_arith)
            requires
                -d > 0,
                s == (-d) / 1_000_000_000,
        ;
        let ns = div_toward_zero(d, 1_000_000_000);
        assert(ns == -s);
        if ns < 0 {
            assert((-ns) / 86_400 >= 0) by (nonlinear_arith)
                requires
                    -ns > 0,
            ;
        }
    }
}

/// Whether `c` was added less than two whole days before `now`.
pub fn is_recent_exec(c: &Course, now: Timestamp) -> (b: bool)
    ensures
        b == is_recent(c@, now),
{
    proof {
        lemma_recent_iff(now, c.created_at);
    }
    let d: i128 = (now.secs as i128 - c.created_at.secs as i128) * 1_000_000_000 + (now.nanos as i128
        - c.created_at.nanos as i128);
    assert(d == instant_nanos(now) - instant_nanos(c.created_at)) by (nonlinear_arith)
        requires
            d == (now.secs - c.created_at.secs) * 1_000_000_000 + (now.nanos - c.created_at.nanos),
    ;
    d < 172_800_000_000_000
}


/// A copy of an optional text.
fn copy_text(t: &Option<String>) -> (r: Option<String>)
    ensures
        r.deep_view() == t.deep_view(),
{
    match t {
        Some(v) => Some(v.clone()),
        None => None,
    }
}

impl Course {
    /// A copy of the course.
    pub fn duplicate(&self) -> (r: Course)
        ensures
            r@ == self@,
    {
        Course {
            id: self.id.clone(),
            title: self.title.clone(),
            description: self.description.clone(),
            thumbnail: self.thumbnail.clone(),
            link: self.link.clone(),
            category: copy_text(&self.category),
            high_res_cover: copy_text(&self.high_res_cover),
            resolved_udemy_url: copy_text(&self.resolved_udemy_url),
            created_at: self.created_at,
        }
    }
}

/// The contents of a list of courses.
pub open spec fn views(s: Seq<Course>) -> Seq<CourseView> {
    s.map_values(|c: Course| c@)
}

/// The courses still recent at `now`, in order.
pub open spec fn recent_courses(s: Seq<CourseView>, now: Timestamp) -> Seq<CourseView> {
    s.filter(|c: CourseView| is_recent(c, now))
}

/// Some course of `s` has the link `link`.
pub open spec fn has_link(s: Seq<CourseView>, link: Seq<char>) -> bool {
    exists|i: int| 0 <= i < s.len() && s[i].link == link
}

/// `s` followed by those of `new`, in order, whose link is not yet in the
/// list at the time they come.
pub open spec fn add_unseen(s: Seq<CourseView>, new: Seq<CourseView>) -> Seq<CourseView>
    decreases new.len(),
{
    if new.len() == 0 {
        s
    } else {
        let prev = add_unseen(s, new.drop_last());
        if has_link(prev, new.last().link) {
            prev
        } else {
            prev.push(new.last())
        }
    }
}

/// Each course is at least as new as every course after it.
pub open spec fn sorted_newest_first(s: Seq<CourseView>) -> bool {
    forall|i: int, j: int| 0 <= i < j < s.len() ==> not_before(s[i].created_at, s[j].created_at)
}

/// The courses of `s` created at the instant `t`, in order.
pub open spec fn stamped_at(s: Seq<CourseView>, t: Timestamp) -> Seq<CourseView> {
    s.filter(|c: CourseView| c.created_at == t)
}

/// `r` is `s` stably sorted newest first: sorted, and for each instant the
/// courses created then come in the order they have in `s`.
pub open spec fn is_newest_first_order_of(r: Seq<CourseView>, s: Seq<CourseView>) -> bool {
    &&& sorted_newest_first(r)
    &&& forall|t: Timestamp| #[trigger] stamped_at(r, t) == stamped_at(s, t)
}

/// The list after a refresh at `now` with the freshly read `new` courses:
/// courses two or more days old are dropped, new courses whose link is not
/// listed yet are added, and the list is sorted newest first.
pub open spec fn is_refreshed_list(r: Seq<CourseView>, old: Seq<CourseView>, new: Seq<CourseView>, now: Timestamp) -> bool {
    is_newest_first_order_of(r, add_unseen(recent_courses(old, now), new))
}

/// No two courses share a link.
pub open spec fn distinct_links(s: Seq<CourseView>) -> bool {
    forall|i: int, j: int| 0 <= i < s.len() && 0 <= j < s.len() && i != j ==> s[i].link != s[j].link
}

/// Dropping courses keeps the links distinct.
proof fn lemma_filter_keeps_links_distinct(s: Seq<CourseView>, pred: spec_fn(CourseView) -> bool)
    requires
        distinct_links(s),
    ensures
        distinct_links(s.filter(pred)),
    decreases s.len(),
{
    reveal(Seq::filter);
    if s.len() > 0 {
        lemma_filter_keeps_links_distinct(s.drop_last(), pred);
        let t = s.drop_last().filter(pred);
        if pred(s.last()) {
            assert forall|i: int| 0 <= i < t.len() implies t[i].link != s.last().link by {
                s.drop_last().lemma_filter_contains_rev(pred, t[i]);
                let k = choose|k: int| 0 <= k < s.drop_last().len() && s.drop_last()[k] == t[i];
                assert(s[k] == t[i]);
            }
        }
    }
}

/// Whether some course of `s` has the link `link`.
fn has_link_exec(s: &Vec<Course>, link: &String) -> (b: bool)
    ensures
        b == has_link(views(s@), link@),
{
    let n = s.len();
    let mut i: usize = 0;
    while i < n
        invariant
            n == s@.len(),
            i <= n,
            forall|j: int| 0 <= j < i ==> s@[j].link@ != link@,
        decreases n - i,
    {
        if s[i].link == *link {
            assert(views(s@)[i as int].link == link@);
            return true;
        }
        i = i + 1;
    }
    assert forall|j: int| 0 <= j < views(s@).len() implies views(s@)[j].link != link@ by {
        assert(views(s@)[j] == s@[j]@);
    }
    false
}

/// The courses of `s` still recent at `now`, in order.
fn keep_recent(s: &Vec<Course>, now: Timestamp) -> (r: Vec<Course>)
    ensures
        views(r@) == recent_courses(views(s@), now),
        distinct_links(views(s@)) ==> distinct_links(views(r@)),
{
    let ghost vs = views(s@);
    let ghost pred = |c: CourseView| is_recent(c, now);
    let mut r: Vec<Course> = Vec::new();
    let n = s.len();
    let mut i: usize = 0;
    while i < n
        invariant
            n == s@.len(),
            vs == views(s@),
            pred == (|c: CourseView| is_recent(c, now)),
            i <= n,
            views(r@) == vs.take(i as int).filter(pred),
        decreases n - i,
    {
        let ghost before = views(r@);
        assert(vs[i as int] == s@[i as int]@);
        assert(vs.take(i + 1) =~= vs.take(i as int).push(vs[i as int]));
        proof {
            vs.take(i as int).lemma_filter_push(vs[i as int], pred);
        }
        if is_recent_exec(&s[i], now) {
            let c = s[i].duplicate();
            r.push(c);
            assert(views(r@) =~= before.push(c@));
        }
        i = i + 1;
    }
    assert(vs.take(n as int) =~= vs);
    proof {
        if distinct_links(vs) {
            lemma_filter_keeps_links_distinct(vs, pred);
        }
    }
    r
}

/// Appends the courses of `new` whose link is not yet listed.
fn append_unseen(list: &mut Vec<Course>, new: &Vec<Course>)
    ensures
        views(final(list)@) == add_unseen(views(old(list)@), views(new@)),
        distinct_links(views(old(list)@)) ==> distinct_links(views(final(list)@)),
{
    let ghost start = views(list@);
    let ghost ns = views(new@);
    let n = new.len();
    let mut i: usize = 0;
    assert(ns.take(0) =~= Seq::<CourseView>::empty());
    while i < n
        invariant
            n == new@.len(),
            ns == views(new@),
            i <= n,
            views(list@) == add_unseen(start, ns.take(i as int)),
            distinct_links(start) ==> distinct_links(views(list@)),
        decreases n - i,
    {
        let ghost before = views(list@);
        assert(ns.take(i + 1).drop_last() =~= ns.take(i as int));
        assert(ns.take(i + 1).last() == new@[i as int]@);
        if !has_link_exec(list, &new[i].link) {
            let c = new[i].duplicate();
            list.push(c);
            assert(views(list@) =~= before.push(c@));
            assert forall|p: int| 0 <= p < before.len() implies before[p].link != c@.link by {
                assert(before[p] == list@[p]@);
            }
        }
        i = i + 1;
    }
    assert(ns.take(n as int) =~= ns);
}


/// Inserting a course after every course at least as new as it, and before
/// the rest, keeps the list sorted and stable.
proof fn lemma_insert_keeps_order(rv: Seq<CourseView>, src: Seq<CourseView>, x: CourseView, j: int)
    requires
        sorted_newest_first(rv),
        forall|t: Timestamp| #[trigger] stamped_at(rv, t) == stamped_at(src, t),
        0 <= j <= rv.len(),
        forall|k: int| 0 <= k < j ==> not_before(#[trigger] rv[k].created_at, x.created_at),
        j < rv.len() ==> !not_before(rv[j].created_at, x.created_at),
    ensures
        sorted_newest_first(rv.insert(j, x)),
        forall|t: Timestamp| #[trigger] stamped_at(rv.insert(j, x), t) == stamped_at(src.push(x), t),
{
    let r2 = rv.insert(j, x);
    let a = rv.subrange(0, j);
    let b = rv.subrange(j, rv.len() as int);
    assert(rv =~= a + b);
    assert(r2 =~= a.push(x) + b);
    assert forall|p: int, q: int| 0 <= p < q < r2.len() implies not_before(
        r2[p].created_at,
        r2[q].created_at,
    ) by {
        if q < j {
        } else if q == j {
            assert(r2[p] == rv[p]);
        } else if p < j {
            assert(r2[p] == rv[p]);
            assert(r2[q] == rv[q - 1]);
        } else if p == j {
            assert(r2[q] == rv[q - 1]);
            assert(not_before(rv[j].created_at, rv[q - 1].created_at));
        } else {
            assert(r2[p] == rv[p - 1]);
            assert(r2[q] == rv[q - 1]);
        }
    }
    assert forall|t: Timestamp| #[trigger] stamped_at(r2, t) == stamped_at(src.push(x), t) by {
        let pred = |c: CourseView| c.created_at == t;
        Seq::filter_distributes_over_add(a.push(x), b, pred);
        Seq::filter_distributes_over_add(a, b, pred);
        a.lemma_filter_push(x, pred);
        src.lemma_filter_push(x, pred);
        assert(stamped_at(rv, t) == stamped_at(src, t));
        if x.created_at == t {
            assert forall|k: int| 0 <= k < b.len() implies !pred(#[trigger] b[k]) by {
                assert(b[k] == rv[j + k]);
                if k > 0 {
                    assert(not_before(rv[j].created_at, rv[j + k].created_at));
                }
            }
            b.lemma_all_neg_filter_empty(pred);
            assert(b.filter(pred) =~= Seq::<CourseView>::empty());
            assert(a.filter(pred) + Seq::<CourseView>::empty() =~= a.filter(pred));
            assert(a.filter(pred).push(x) + Seq::<CourseView>::empty() =~= a.filter(pred).push(
                x,
            ));
        }
    }
}

/// The courses of `s`, stably sorted newest first.
fn sort_newest_first(s: &Vec<Course>) -> (r: Vec<Course>)
    ensures
        is_newest_first_order_of(views(r@), views(s@)),
        distinct_links(views(s@)) ==> distinct_links(views(r@)),
{
    let ghost vs = views(s@);
    let mut r: Vec<Course> = Vec::new();
    let n = s.len();
    let mut i: usize = 0;
    assert(vs.take(0) =~= Seq::<CourseView>::empty());
    assert(views(r@) =~= Seq::<CourseView>::empty());
    while i < n
        invariant
            n == s@.len(),
            vs == views(s@),
            i <= n,
            sorted_newest_first(views(r@)),
            forall|t: Timestamp| #[trigger] stamped_at(views(r@), t) == stamped_at(vs.take(i as int), t),
            forall|k: int| 0 <= k < r@.len() ==> exists|m: int| 0 <= m < i && vs[m] == #[trigger] views(r@)[k],
            distinct_links(vs) ==> distinct_links(views(r@)),
        decreases n - i,
    {
        let x = &s[i];
        let xt = x.created_at;
        let m = r.len();
        let mut j: usize = 0;
        while j < m && (r[j].created_at.secs > xt.secs || (r[j].created_at.secs == xt.secs
            && r[j].created_at.nanos >= xt.nanos))
            invariant
                m == r@.len(),
                j <= m,
                forall|k: int| 0 <= k < j ==> not_before(#[trigger] views(r@)[k].created_at, xt),
            decreases m - j,
        {
            assert(views(r@)[j as int] == r@[j as int]@);
            j = j + 1;
        }
        proof {
            if j < m {
                assert(views(r@)[j as int] == r@[j as int]@);
            }
            lemma_insert_keeps_order(views(r@), vs.take(i as int), x@, j as int);
            assert(vs.take(i + 1) =~= vs.take(i as int).push(x@));
        }
        let ghost before = views(r@);
        let c = x.duplicate();
        r.insert(j, c);
        assert(views(r@) =~= before.insert(j as int, c@));
        assert(c@ == vs[i as int]);
        assert forall|k: int| 0 <= k < r@.len() implies exists|m: int| 0 <= m < i + 1 && vs[m] == #[trigger] views(r@)[k] by {
            if k < j {
                assert(views(r@)[k] == before[k]);
            } else if k > j {
                assert(views(r@)[k] == before[k - 1]);
            } else {
                assert(vs[i as int] == views(r@)[k]);
            }
        }
        proof {
            if distinct_links(vs) {
                assert forall|p: int, q: int| 0 <= p < views(r@).len() && 0 <= q < views(r@).len() && p != q
                    implies views(r@)[p].link != views(r@)[q].link by {
                    let rv = views(r@);
                    if p != j as int && q != j as int {
                        let p0 = if p < j { p } else { p - 1 };
                        let q0 = if q < j { q } else { q - 1 };
                        assert(rv[p] == before[p0]);
                        assert(rv[q] == before[q0]);
                    } else {
                        let o = if p == j as int { q } else { p };
                        let o0 = if o < j { o } else { o - 1 };
                        assert(rv[o] == before[o0]);
                        let m = choose|m: int| 0 <= m < i && vs[m] == #[trigger] before[o0];
                        assert(vs[m].link != vs[i as int].link);
                    }
                }
            }
        }
        i = i + 1;
    }
    assert(vs.take(n as int) =~= vs);
    r
}

/// Refreshes the course list at `now` with the freshly read `new_courses`:
/// drops courses two or more days old, adds the new courses whose link is not
/// listed yet, and sorts the list newest first (courses of the same instant
/// keep their order).
pub fn refresh_courses(courses: &mut Vec<Course>, new_courses: Vec<Course>, now: Timestamp)
    ensures
        is_refreshed_list(views(final(courses)@), views(old(courses)@), views(new_courses@), now),
        distinct_links(views(old(courses)@)) ==> distinct_links(views(final(courses)@)),
{
    let mut kept = keep_recent(courses, now);
    append_unseen(&mut kept, &new_courses);
    *courses = sort_newest_first(&kept);
}


/// A stable newest-first order holds the same courses as its source.
pub proof fn lemma_order_same_courses(r: Seq<CourseView>, s: Seq<CourseView>, c: CourseView)
    requires
        is_newest_first_order_of(r, s),
    ensures
        r.contains(c) == s.contains(c),
{
    let t = c.created_at;
    let pred = |x: CourseView| x.created_at == t;
    assert(stamped_at(r, t) == stamped_at(s, t));
    if r.contains(c) {
        let i = choose|i: int| 0 <= i < r.len() && r[i] == c;
        r.lemma_filter_contains(pred, i);
        s.lemma_filter_contains_rev(pred, c);
    }
    if s.contains(c) {
        let i = choose|i: int| 0 <= i < s.len() && s[i] == c;
        s.lemma_filter_contains(pred, i);
        r.lemma_filter_contains_rev(pred, c);
    }
}

/// Two lists sorted newest first with the same courses at each instant, in
/// the same order, are equal.
proof fn lemma_sorted_same_stamps_equal(r1: Seq<CourseView>, r2: Seq<CourseView>)
    requires
        sorted_newest_first(r1),
        sorted_newest_first(r2),
        forall|t: Timestamp| #[trigger] stamped_at(r1, t) == stamped_at(r2, t),
    ensures
        r1 == r2,
    decreases r1.len(),
{
    reveal(Seq::filter);
    if r1.len() == 0 || r2.len() == 0 {
        if r2.len() > 0 {
            let t = r2[0].created_at;
            r2.lemma_filter_contains(|c: CourseView| c.created_at == t, 0);
            assert(stamped_at(r2, t).contains(r2[0]));
            assert(stamped_at(r1, t).len() == 0);
            assert(stamped_at(r1, t) == stamped_at(r2, t));
            assert(false);
        }
        if r1.len() > 0 {
            let t = r1[0].created_at;
            r1.lemma_filter_contains(|c: CourseView| c.created_at == t, 0);
            assert(stamped_at(r1, t).contains(r1[0]));
            assert(stamped_at(r2, t).len() == 0);
            assert(stamped_at(r1, t) == stamped_at(r2, t));
            assert(false);
        }
        assert(r1 =~= r2);
    } else {
        let t1 = r1[0].created_at;
        let t2 = r2[0].created_at;
        let p1 = |x: CourseView| x.created_at == t1;
        let p2 = |x: CourseView| x.created_at == t2;
        r2.lemma_filter_contains(p2, 0);
        assert(stamped_at(r1, t2) == stamped_at(r2, t2));
        r1.filter(p2).lemma_contains_to_index(r2[0]);
        let k1 = choose|k: int| 0 <= k < r1.filter(p2).len() && r1.filter(p2)[k] == r2[0];
        r1.lemma_filter_pred(p2, k1);
        r1.lemma_filter_contains_rev(p2, r2[0]);
        let m1 = choose|m: int| 0 <= m < r1.len() && r1[m] == r2[0];
        if m1 > 0 {
            assert(not_before(r1[0].created_at, r1[m1].created_at));
        }
        r1.lemma_filter_contains(p1, 0);
        assert(stamped_at(r1, t1) == stamped_at(r2, t1));
        r2.lemma_filter_contains_rev(p1, r1[0]);
        let m2 = choose|m: int| 0 <= m < r2.len() && r2[m] == r1[0];
        if m2 > 0 {
            assert(not_before(r2[0].created_at, r2[m2].created_at));
        }
        assert(t1 == t2);
        let tail1 = r1.drop_first();
        let tail2 = r2.drop_first();
        assert(r1 =~= seq![r1[0]] + tail1);
        assert(r2 =~= seq![r2[0]] + tail2);
        assert forall|t: Timestamp| #[trigger] stamped_at(tail1, t) == stamped_at(tail2, t) by {
            let p = |x: CourseView| x.created_at == t;
            tail1.lemma_filter_prepend(r1[0], p);
            tail2.lemma_filter_prepend(r2[0], p);
            assert(stamped_at(r1, t) == stamped_at(r2, t));
            if t == t1 {
                assert(stamped_at(r1, t)[0] == r1[0]);
                assert(stamped_at(tail1, t) =~= stamped_at(r1, t).drop_first());
                assert(stamped_at(tail2, t) =~= stamped_at(r2, t).drop_first());
            } else {
                assert(seq![r1[0]].filter(p) =~= Seq::<CourseView>::empty()) by {
                    reveal(Seq::filter);
                    assert(seq![r1[0]].drop_last() =~= Seq::<CourseView>::empty());
                }
                assert(Seq::<CourseView>::empty() + stamped_at(tail1, t) =~= stamped_at(tail1, t));
                assert(Seq::<CourseView>::empty() + stamped_at(tail2, t) =~= stamped_at(tail2, t));
            }
        }
        lemma_sorted_same_stamps_equal(tail1, tail2);
        assert(stamped_at(r1, t1)[0] == r1[0]);
        assert(stamped_at(r2, t1)[0] == r2[0]);
    }
}

/// The stable newest-first order of a list is unique, so the refreshed list
/// is fully determined by the old list, the new courses and the time.
pub proof fn lemma_newest_first_order_unique(r1: Seq<CourseView>, r2: Seq<CourseView>, s: Seq<CourseView>)
    requires
        is_newest_first_order_of(r1, s),
        is_newest_first_order_of(r2, s),
    ensures
        r1 == r2,
{
    assert forall|t: Timestamp| #[trigger] stamped_at(r1, t) == stamped_at(r2, t) by {
        assert(stamped_at(r1, t) == stamped_at(s, t));
        assert(stamped_at(r2, t) == stamped_at(s, t));
    }
    lemma_sorted_same_stamps_equal(r1, r2);
}


/// Adding new courses keeps every course already listed, and adds only new
/// courses.
proof fn lemma_add_unseen_members(s: Seq<CourseView>, new: Seq<CourseView>, c: CourseView)
    ensures
        s.contains(c) ==> add_unseen(s, new).contains(c),
        add_unseen(s, new).contains(c) ==> s.contains(c) || new.contains(c),
    decreases new.len(),
{
    if new.len() > 0 {
        lemma_add_unseen_members(s, new.drop_last(), c);
        let prev = add_unseen(s, new.drop_last());
        if !has_link(prev, new.last().link) {
            if prev.contains(c) {
                let i = choose|i: int| 0 <= i < prev.len() && prev[i] == c;
                assert(prev.push(new.last())[i] == c);
            }
            if prev.push(new.last()).contains(c) && c != new.last() {
                let i = choose|i: int| 0 <= i < prev.len() + 1 && prev.push(new.last())[i] == c;
                assert(prev[i] == c);
            }
        }
        if new.drop_last().contains(c) {
            let i = choose|i: int| 0 <= i < new.len() - 1 && new.drop_last()[i] == c;
            assert(new[i] == c);
        }
        assert(new[new.len() - 1] == new.last());
    }
}

/// After adding new courses, every link of the new courses is listed, and
/// every link listed before still is.
proof fn lemma_add_unseen_links(s: Seq<CourseView>, new: Seq<CourseView>, link: Seq<char>)
    requires
        has_link(s, link) || exists|i: int| 0 <= i < new.len() && new[i].link == link,
    ensures
        has_link(add_unseen(s, new), link),
    decreases new.len(),
{
    if new.len() > 0 {
        let prev = add_unseen(s, new.drop_last());
        if has_link(s, link) || exists|i: int| 0 <= i < new.len() - 1 && new.drop_last()[i].link == link {
            lemma_add_unseen_links(s, new.drop_last(), link);
            if !has_link(prev, new.last().link) {
                let i = choose|i: int| 0 <= i < prev.len() && prev[i].link == link;
                assert(prev.push(new.last())[i].link == link);
            }
        } else {
            let i = choose|i: int| 0 <= i < new.len() && new[i].link == link;
            if i < new.len() - 1 {
                assert(new.drop_last()[i].link == link);
            }
            assert(new.last().link == link);
            if !has_link(prev, new.last().link) {
                assert(prev.push(new.last())[prev.len() as int].link == link);
            }
        }
    }
}

/// Every course of the refreshed list is an old course that is still recent,
/// or one of the new courses.
pub proof fn lemma_refreshed_courses_come_from_inputs(r: Seq<CourseView>, old: Seq<CourseView>, new: Seq<CourseView>, now: Timestamp, c: CourseView)
    requires
        is_refreshed_list(r, old, new, now),
        r.contains(c),
    ensures
        (old.contains(c) && is_recent(c, now)) || new.contains(c),
{
    let pred = |x: CourseView| is_recent(x, now);
    let kept = recent_courses(old, now);
    lemma_order_same_courses(r, add_unseen(kept, new), c);
    lemma_add_unseen_members(kept, new, c);
    if kept.contains(c) {
        old.lemma_filter_contains_rev(pred, c);
        let k = choose|k: int| 0 <= k < kept.len() && kept[k] == c;
        old.lemma_filter_pred(pred, k);
    }
}

/// Every old course that is still recent stays in the list.
pub proof fn lemma_recent_courses_stay(r: Seq<CourseView>, old: Seq<CourseView>, new: Seq<CourseView>, now: Timestamp, i: int)
    requires
        is_refreshed_list(r, old, new, now),
        0 <= i < old.len(),
        is_recent(old[i], now),
    ensures
        r.contains(old[i]),
{
    let pred = |x: CourseView| is_recent(x, now);
    let kept = recent_courses(old, now);
    old.lemma_filter_contains(pred, i);
    lemma_add_unseen_members(kept, new, old[i]);
    lemma_order_same_courses(r, add_unseen(kept, new), old[i]);
}

/// Every link of the new courses is listed after the refresh.
pub proof fn lemma_new_links_listed(r: Seq<CourseView>, old: Seq<CourseView>, new: Seq<CourseView>, now: Timestamp, i: int)
    requires
        is_refreshed_list(r, old, new, now),
        0 <= i < new.len(),
    ensures
        has_link(r, new[i].link),
{
    let pool = add_unseen(recent_courses(old, now), new);
    lemma_add_unseen_links(recent_courses(old, now), new, new[i].link);
    let k = choose|k: int| 0 <= k < pool.len() && pool[k].link == new[i].link;
    lemma_order_same_courses(r, pool, pool[k]);
    let m = choose|m: int| 0 <= m < r.len() && r[m] == pool[k];
    assert(r[m].link == new[i].link);
}


/// How many feed items one refresh looks at.
pub open spec fn items_per_refresh() -> int {
    50
}

/// The positions of the items a refresh turns into courses: among the first
/// 50 items, those that have a link, in order.
pub open spec fn items_to_resolve(items: Seq<FeedItemView>) -> Seq<int> {
    let n = if items.len() < items_per_refresh() {
        items.len() as int
    } else {
        items_per_refresh()
    };
    Seq::new(n as nat, |i: int| i).filter(|i: int| items[i].link is Some)
}

/// The items a refresh turns into courses are exactly those among the first
/// 50 that have a link, each once and in feed order.
pub proof fn lemma_items_to_resolve_are_linked_prefix(items: Seq<FeedItemView>)
    ensures
        forall|k: int|
            0 <= k < items_to_resolve(items).len() ==> 0 <= #[trigger] items_to_resolve(items)[k] < 50
                && items_to_resolve(items)[k] < items.len() && items[items_to_resolve(items)[k]].link is Some,
        forall|k: int, l: int|
            0 <= k < l < items_to_resolve(items).len() ==> #[trigger] items_to_resolve(items)[k]
                < #[trigger] items_to_resolve(items)[l],
        forall|i: int|
            0 <= i < 50 && i < items.len() && (#[trigger] items[i]).link is Some ==> items_to_resolve(
                items,
            ).contains(i),
{
    let n = if items.len() < 50 {
        items.len() as int
    } else {
        50
    };
    let pred = |i: int| items[i].link is Some;
    lemma_filter_increasing(Seq::new(n as nat, |i: int| i), pred);
    let r = items_to_resolve(items);
    Seq::new(n as nat, |i: int| i).filter_lemma(pred);
    assert forall|k: int| 0 <= k < r.len() implies 0 <= #[trigger] r[k] < 50 && r[k] < items.len()
        && items[r[k]].link is Some by {
        assert(pred(r[k]));
    }
    assert forall|i: int| 0 <= i < 50 && i < items.len() && (#[trigger] items[i]).link is Some implies r.contains(
        i,
    ) by {
        assert(Seq::new(n as nat, |i: int| i)[i] == i);
    }
}

/// Keeping some of a sequence of increasing positions in `0..n` keeps them
/// increasing and within `0..n`.
proof fn lemma_filter_increasing(s: Seq<int>, pred: spec_fn(int) -> bool)
    requires
        forall|k: int| 0 <= k < s.len() ==> #[trigger] s[k] == k,
    ensures
        forall|k: int| 0 <= k < s.filter(pred).len() ==> 0 <= #[trigger] s.filter(pred)[k] < s.len(),
        forall|k: int, l: int|
            0 <= k < l < s.filter(pred).len() ==> #[trigger] s.filter(pred)[k] < #[trigger] s.filter(pred)[l],
    decreases s.len(),
{
    if s.len() > 0 {
        let init = s.drop_last();
        assert forall|k: int| 0 <= k < init.len() implies #[trigger] init[k] == k by {
            assert(init[k] == s[k]);
        }
        lemma_filter_increasing(init, pred);
        assert(s == init.push(s.last()));
        init.lemma_filter_push(s.last(), pred);
        assert(s.last() == s.len() - 1);
    }
}

/// The positions of the items a refresh turns into courses.
pub fn items_to_resolve_exec(items: &Vec<FeedItem>) -> (r: Vec<usize>)
    ensures
        r@.map_values(|i: usize| i as int) == items_to_resolve(item_views(items@)),
{
    let limit: usize = if items.len() < 50 {
        items.len()
    } else {
        50
    };
    let ghost all = Seq::new(limit as nat, |i: int| i);
    let ghost item_list = item_views(items@);
    let ghost pred = |i: int| item_list[i].link is Some;
    let mut r: Vec<usize> = Vec::new();
    let mut i: usize = 0;
    while i < limit
        invariant
            limit <= items@.len(),
            all == Seq::new(limit as nat, |i: int| i),
            item_list == item_views(items@),
            pred == (|i: int| item_list[i].link is Some),
            i <= limit,
            r@.map_values(|i: usize| i as int) == all.take(i as int).filter(pred),
        decreases limit - i,
    {
        let ghost before = r@.map_values(|i: usize| i as int);
        assert(all.take(i + 1) =~= all.take(i as int).push(i as int));
        proof {
            all.take(i as int).lemma_filter_push(i as int, pred);
        }
        assert(item_list[i as int] == items@[i as int]@);
        if items[i].link.is_some() {
            r.push(i);
            assert(r@.map_values(|i: usize| i as int) =~= before.push(i as int));
        }
        i = i + 1;
    }
    assert(all.take(limit as int) =~= all);
    r
}

/// The last segment of `url` that is not empty, splitting at `/`.
pub open spec fn last_segment(url: Seq<char>) -> Option<Seq<char>> {
    let trimmed = strip_trailing(url, '/');
    if trimmed.len() == 0 {
        None
    } else {
        Some(after_last(trimmed, '/'))
    }
}

/// The discudemy redirect page for the article at `url`, named by the last
/// non-empty segment of the address.
pub open spec fn go_url_for(url: Seq<char>) -> Option<Seq<char>> {
    match last_segment(url) {
        Some(slug) => Some("https://www.discudemy.com/go/"@ + slug),
        None => None,
    }
}

/// The value read from a page is the attribute of its first selected
/// element: there is one exactly when the selector parsed, selected at least
/// one element, and the first of them has the attribute.
pub proof fn lemma_first_attr_is_first_element(values: Option<Seq<Option<Seq<char>>>>)
    ensures
        first_attr(values) is Some <==> (values is Some && values->0.len() > 0 && values->0[0] is Some),
        first_attr(values) is Some ==> values->0[0] == first_attr(values),
{
}

/// The discudemy redirect page for the article at `url`.
pub fn go_url_for_exec(url: &str) -> (r: Option<String>)
    ensures
        r.deep_view() == go_url_for(url@),
{
    let chars = chars_of(url);
    let trimmed = strip_trailing_chars(chars.as_slice(), '/');
    if trimmed.len() == 0 {
        return None;
    }
    let slug = after_last_chars(trimmed.as_slice(), '/');
    let mut out = chars_of("https://www.discudemy.com/go/");
    let ghost prefix = out@;
    out.append(&mut slug.clone());
    assert(out@ =~= prefix + slug@);
    Some(string_from_chars(out.as_slice()))
}

/// The attribute value of the first selected element: nothing when the
/// selector did not parse, selected nothing, or the first element lacks the
/// attribute.
pub open spec fn first_attr(values: Option<Seq<Option<Seq<char>>>>) -> Option<Seq<char>> {
    match values {
        Some(values) => if values.len() > 0 {
            values[0]
        } else {
            None
        },
        None => None,
    }
}

/// The cover image an article page announces: the `content` of its first
/// `<meta property="og:image">`.
pub open spec fn article_cover(page: Seq<char>) -> Option<Seq<char>> {
    first_attr(document_attrs(page, "meta[property='og:image']"@, "content"@))
}

/// The attribute value of the first selected element.
pub fn first_attr_exec(values: &Option<Vec<Option<String>>>) -> (r: Option<String>)
    ensures
        r.deep_view() == first_attr(values.deep_view()),
{
    match values {
        Some(values) => if values.len() > 0 {
            match &values[0] {
                Some(v) => Some(v.clone()),
                None => None,
            }
        } else {
            None
        },
        None => None,
    }
}

/// The cover image an article page announces.
pub fn article_cover_exec(page: &str) -> (r: Option<String>)
    ensures
        r.deep_view() == article_cover(page@),
{
    let values = select_document_attrs(page, "meta[property='og:image']", "content");
    first_attr_exec(&values)
}

/// The first link target that mentions udemy.com; elements without the
/// attribute count as an empty target.
pub open spec fn first_link_to_udemy(hrefs: Seq<Option<Seq<char>>>) -> Option<Seq<char>>
    decreases hrefs.len(),
{
    if hrefs.len() == 0 {
        None
    } else {
        match hrefs[0] {
            Some(h) => if contains(h, "udemy.com"@) {
                Some(h)
            } else {
                first_link_to_udemy(hrefs.drop_first())
            },
            None => first_link_to_udemy(hrefs.drop_first()),
        }
    }
}

/// The link chosen is the first target, in the order given, that mentions
/// udemy.com: it stands at some position `k`, and no target before `k`
/// mentions udemy.com. There is none exactly when no target mentions it.
pub proof fn lemma_first_link_to_udemy_is_first_match(hrefs: Seq<Option<Seq<char>>>)
    ensures
        match first_link_to_udemy(hrefs) {
            Some(h) => exists|k: int|
                0 <= k < hrefs.len() && #[trigger] hrefs[k] == Some(h) && contains(h, "udemy.com"@)
                    && forall|j: int|
                    0 <= j < k ==> !(#[trigger] hrefs[j] is Some && contains(hrefs[j]->0, "udemy.com"@)),
            None => forall|j: int|
                0 <= j < hrefs.len() ==> !(#[trigger] hrefs[j] is Some && contains(
                    hrefs[j]->0,
                    "udemy.com"@,
                )),
        },
    decreases hrefs.len(),
{
    if hrefs.len() > 0 {
        let rest = hrefs.drop_first();
        lemma_first_link_to_udemy_is_first_match(rest);
        if hrefs[0] is Some && contains(hrefs[0]->0, "udemy.com"@) {
            assert(hrefs[0] == Some(hrefs[0]->0));
        } else {
            assert(first_link_to_udemy(hrefs) == first_link_to_udemy(rest));
            match first_link_to_udemy(rest) {
                Some(h) => {
                    let k = choose|k: int|
                        0 <= k < rest.len() && #[trigger] rest[k] == Some(h) && contains(h, "udemy.com"@)
                            && forall|j: int|
                            0 <= j < k ==> !(#[trigger] rest[j] is Some && contains(rest[j]->0, "udemy.com"@));
                    assert(hrefs[k + 1] == rest[k]);
                    assert forall|j: int| 0 <= j < k + 1 implies !(#[trigger] hrefs[j] is Some && contains(
                        hrefs[j]->0,
                        "udemy.com"@,
                    )) by {
                        if j > 0 {
                            assert(hrefs[j] == rest[j - 1]);
                        }
                    }
                },
                None => {
                    assert forall|j: int| 0 <= j < hrefs.len() implies !(#[trigger] hrefs[j] is Some
                        && contains(hrefs[j]->0, "udemy.com"@)) by {
                        if j > 0 {
                            assert(hrefs[j] == rest[j - 1]);
                        }
                    }
                },
            }
        }
    }
}

/// The course link on a discudemy redirect page: the first `<a href>` whose
/// target mentions udemy.com.
pub open spec fn udemy_link_on_page(page: Seq<char>) -> Option<Seq<char>> {
    match document_attrs(page, "a[href]"@, "href"@) {
        Some(hrefs) => first_link_to_udemy(hrefs),
        None => None,
    }
}

/// The first link target that mentions udemy.com.
pub fn first_link_to_udemy_exec(hrefs: &Vec<Option<String>>) -> (r: Option<String>)
    ensures
        r.deep_view() == first_link_to_udemy(hrefs.deep_view()),
{
    let ghost hs = hrefs.deep_view();
    let udemy = chars_of("udemy.com");
    let n = hrefs.len();
    let mut i: usize = 0;
    assert(hs.skip(0) =~= hs);
    while i < n
        invariant
            n == hrefs@.len(),
            hs == hrefs.deep_view(),
            udemy@ == "udemy.com"@,
            i <= n,
            first_link_to_udemy(hs) == first_link_to_udemy(hs.skip(i as int)),
        decreases n - i,
    {
        assert(hs.skip(i as int)[0] == hs[i as int]);
        assert(hs.skip(i as int).drop_first() =~= hs.skip(i + 1));
        match &hrefs[i] {
            Some(h) => {
                let hc = chars_of(h.as_str());
                if contains_exec(hc.as_slice(), udemy.as_slice()) {
                    return Some(h.clone());
                }
            },
            None => {},
        }
        i = i + 1;
    }
    None
}

/// The course link on a discudemy redirect page.
pub fn udemy_link_on_page_exec(page: &str) -> (r: Option<String>)
    ensures
        r.deep_view() == udemy_link_on_page(page@),
{
    match select_document_attrs(page, "a[href]", "href") {
        Some(hrefs) => first_link_to_udemy_exec(&hrefs),
        None => None,
    }
}

/// The first category of an item.
pub open spec fn first_category(item: FeedItemView) -> Option<Seq<char>> {
    if item.categories.len() > 0 {
        Some(item.categories[0])
    } else {
        None
    }
}

/// The course for a feed item with link `link`, read at `now`, whose article
/// announced `cover` and whose redirect page led to `resolved`.
pub open spec fn course_view_of(item: FeedItemView, link: Seq<char>, resolved: Option<Seq<char>>, cover: Option<Seq<char>>, now: Timestamp) -> CourseView {
    CourseView {
        id: link,
        title: text_or(item.title, "No Title"@),
        description: text_or(item.description, ""@),
        thumbnail: match cover {
            Some(c) => c,
            None => Seq::empty(),
        },
        link: link,
        category: first_category(item),
        high_res_cover: cover,
        resolved_udemy_url: resolved,
        created_at: now,
    }
}

/// Where each field of a course made from a feed item comes from: id and
/// link are the item's link; title is the item's title ("No Title" when it
/// has none); description is the item's description text as it stands (empty
/// when it has none), whatever the title; category is the item's first
/// category; thumbnail and high-resolution cover are the article's cover
/// (thumbnail empty without one); the resolved address and the creation time
/// are those given.
pub proof fn lemma_course_fields_from_item(
    item: FeedItemView,
    link: Seq<char>,
    resolved: Option<Seq<char>>,
    cover: Option<Seq<char>>,
    now: Timestamp,
)
    ensures
        course_view_of(item, link, resolved, cover, now).id == link,
        course_view_of(item, link, resolved, cover, now).link == link,
        item.title is Some ==> course_view_of(item, link, resolved, cover, now).title == item.title->0,
        item.title is None ==> course_view_of(item, link, resolved, cover, now).title == "No Title"@,
        item.description is Some ==> course_view_of(item, link, resolved, cover, now).description
            == item.description->0,
        item.description is None ==> course_view_of(item, link, resolved, cover, now).description.len() == 0,
        item.categories.len() > 0 ==> course_view_of(item, link, resolved, cover, now).category == Some(
            item.categories[0],
        ),
        item.categories.len() == 0 ==> course_view_of(item, link, resolved, cover, now).category is None,
        cover is Some ==> course_view_of(item, link, resolved, cover, now).thumbnail == cover->0,
        cover is None ==> course_view_of(item, link, resolved, cover, now).thumbnail.len() == 0,
        course_view_of(item, link, resolved, cover, now).high_res_cover == cover,
        course_view_of(item, link, resolved, cover, now).resolved_udemy_url == resolved,
        course_view_of(item, link, resolved, cover, now).created_at == now,
{
    reveal_strlit("");
}

/// The course for a feed item that has a link.
pub fn course_from_item(item: &FeedItem, resolved: Option<String>, cover: Option<String>, now: Timestamp) -> (r: Course)
    requires
        item@.link is Some,
    ensures
        r@ == course_view_of(item@, item@.link->0, resolved.deep_view(), cover.deep_view(), now),
{
    let link = match &item.link {
        Some(l) => l.clone(),
        None => String::new(),
    };
    let category = if item.categories.len() > 0 {
        Some(item.categories[0].clone())
    } else {
        None
    };
    let thumbnail = match &cover {
        Some(c) => c.clone(),
        None => String::new(),
    };
    Course {
        id: link.clone(),
        title: text_or_exec(&item.title, "No Title"),
        description: text_or_exec(&item.description, ""),
        thumbnail,
        link,
        category,
        high_res_cover: cover,
        resolved_udemy_url: resolved,
        created_at: now,
    }
}


/// Courses whose links are all listed already add nothing.
pub proof fn lemma_add_unseen_listed(s: Seq<CourseView>, new: Seq<CourseView>)
    requires
        forall|i: int| 0 <= i < new.len() ==> has_link(s, #[trigger] new[i].link),
    ensures
        add_unseen(s, new) == s,
    decreases new.len(),
{
    if new.len() > 0 {
        assert forall|i: int| 0 <= i < new.drop_last().len() implies has_link(
            s,
            #[trigger] new.drop_last()[i].link,
        ) by {
            assert(new.drop_last()[i] == new[i]);
        }
        lemma_add_unseen_listed(s, new.drop_last());
        assert(has_link(s, new[new.len() - 1].link));
    }
}

/// Dropping stale courses from a list of recent ones drops nothing.
proof fn lemma_all_recent_kept(s: Seq<CourseView>, now: Timestamp)
    requires
        forall|i: int| 0 <= i < s.len() ==> is_recent(#[trigger] s[i], now),
    ensures
        recent_courses(s, now) == s,
    decreases s.len(),
{
    reveal(Seq::filter);
    if s.len() > 0 {
        assert forall|i: int| 0 <= i < s.drop_last().len() implies is_recent(
            #[trigger] s.drop_last()[i],
            now,
        ) by {
            assert(s.drop_last()[i] == s[i]);
        }
        lemma_all_recent_kept(s.drop_last(), now);
        assert(is_recent(s[s.len() - 1], now));
        assert(s.drop_last().push(s.last()) =~= s);
    }
}

/// A refresh is idempotent: after one refresh gave `r1`, a second refresh
/// with courses for the same links leaves the list unchanged, as long as
/// every listed course is still under two whole days old. Nothing is added,
/// removed, reordered or replaced.
pub proof fn lemma_refresh_again_changes_nothing(
    r1: Seq<CourseView>,
    r2: Seq<CourseView>,
    old: Seq<CourseView>,
    new1: Seq<CourseView>,
    new2: Seq<CourseView>,
    now1: Timestamp,
    now2: Timestamp,
)
    requires
        is_refreshed_list(r1, old, new1, now1),
        is_refreshed_list(r2, r1, new2, now2),
        forall|i: int| 0 <= i < new2.len() ==> exists|j: int| 0 <= j < new1.len() && new1[j].link == #[trigger] new2[i].link,
        forall|i: int| 0 <= i < r1.len() ==> is_recent(#[trigger] r1[i], now2),
    ensures
        r2 == r1,
{
    lemma_all_recent_kept(r1, now2);
    assert forall|i: int| 0 <= i < new2.len() implies has_link(r1, #[trigger] new2[i].link) by {
        let j = choose|j: int| 0 <= j < new1.len() && new1[j].link == new2[i].link;
        lemma_new_links_listed(r1, old, new1, now1, j);
    }
    lemma_add_unseen_listed(r1, new2);
    assert(is_newest_first_order_of(r1, r1));
    lemma_newest_first_order_unique(r2, r1, r1);
}

} // verus!
