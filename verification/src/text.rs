//! Character-level text operations with their specifications.

use vstd::prelude::*;
use vstd::std_specs::iter::IteratorSpec;

verus! {

broadcast use vstd::string::group_string_axioms;

/// The characters of `s`, in order.
pub fn chars_of(s: &str) -> (v: Vec<char>)
    ensures
        v@ == s@,
{
    let mut v: Vec<char> = Vec::new();
    let mut it = s.chars();
    loop
        invariant
            it.obeys_prophetic_iter_laws(),
            v@ + it.remaining() == s@,
        ensures
            v@ == s@,
        decreases s@.len() - v@.len(),
    {
        match it.next() {
            Some(c) => {
                v.push(c);
            },
            None => {
                break;
            },
        }
    }
    v
}

/// `String: FromIterator<&char>`: the string whose characters are `cs`, in
/// order.
#[verifier::external_body]
pub(crate) fn string_from_chars(cs: &[char]) -> (s: String)
    ensures
        s@ == cs@,
{
    cs.iter().collect()
}


/// Unicode `White_Space` code points (the property that `str::trim` strips).
pub open spec fn is_whitespace(c: char) -> bool {
    let u = c as u32;
    ||| 0x09 <= u <= 0x0D
    ||| u == 0x20
    ||| u == 0x85
    ||| u == 0xA0
    ||| u == 0x1680
    ||| 0x2000 <= u <= 0x200A
    ||| u == 0x2028
    ||| u == 0x2029
    ||| u == 0x202F
    ||| u == 0x205F
    ||| u == 0x3000
}

/// `s` without its leading whitespace.
pub open spec fn trim_start(s: Seq<char>) -> Seq<char>
    decreases s.len(),
{
    if s.len() > 0 && is_whitespace(s[0]) {
        trim_start(s.drop_first())
    } else {
        s
    }
}

/// `s` without its trailing whitespace.
pub open spec fn trim_end(s: Seq<char>) -> Seq<char>
    decreases s.len(),
{
    if s.len() > 0 && is_whitespace(s.last()) {
        trim_end(s.drop_last())
    } else {
        s
    }
}

/// `s` without leading and trailing whitespace.
pub open spec fn trim(s: Seq<char>) -> Seq<char> {
    trim_end(trim_start(s))
}

/// `t` occurs in `s` at position `i`.
pub open spec fn occurs_at(s: Seq<char>, t: Seq<char>, i: int) -> bool {
    0 <= i && i + t.len() <= s.len() && s.subrange(i, i + t.len()) == t
}

/// `t` occurs somewhere in `s` (the empty pattern occurs in every string).
pub open spec fn contains(s: Seq<char>, t: Seq<char>) -> bool {
    exists|i: int| occurs_at(s, t, i)
}

/// `s` begins with `p`.
pub open spec fn starts_with(s: Seq<char>, p: Seq<char>) -> bool {
    occurs_at(s, p, 0)
}

/// `i` is the first position at which `t` occurs in `s`.
pub open spec fn first_occurrence(s: Seq<char>, t: Seq<char>, i: int) -> bool {
    occurs_at(s, t, i) && forall|j: int| 0 <= j < i ==> !occurs_at(s, t, j)
}

/// The parts of `s` before and after the first occurrence of `pat`, if any.
pub open spec fn split_once(s: Seq<char>, pat: Seq<char>) -> Option<(Seq<char>, Seq<char>)> {
    if contains(s, pat) {
        let i = choose|i: int| first_occurrence(s, pat, i);
        Some((s.subrange(0, i), s.subrange(i + pat.len(), s.len() as int)))
    } else {
        None
    }
}

/// The elements of `list` with `sep` between each two neighbours.
pub open spec fn join(list: Seq<Seq<char>>, sep: Seq<char>) -> Seq<char>
    decreases list.len(),
{
    if list.len() == 0 {
        Seq::empty()
    } else if list.len() == 1 {
        list[0]
    } else {
        join(list.drop_last(), sep) + sep + list.last()
    }
}

/// What occurs in a part of a concatenation occurs in the whole.
pub proof fn lemma_contains_in_concat(a: Seq<char>, b: Seq<char>, t: Seq<char>)
    ensures
        contains(a, t) ==> contains(a + b, t),
        contains(b, t) ==> contains(a + b, t),
{
    if contains(a, t) {
        let i = choose|i: int| occurs_at(a, t, i);
        assert((a + b).subrange(i, i + t.len()) =~= a.subrange(i, i + t.len()));
        assert(occurs_at(a + b, t, i));
    }
    if contains(b, t) {
        let i = choose|i: int| occurs_at(b, t, i);
        assert((a + b).subrange(a.len() + i, a.len() + i + t.len()) =~= b.subrange(i, i + t.len()));
        assert(occurs_at(a + b, t, a.len() + i));
    }
}

/// Every element of a list occurs in the list joined with any separator.
pub proof fn lemma_join_contains(list: Seq<Seq<char>>, sep: Seq<char>, i: int)
    requires
        0 <= i < list.len(),
    ensures
        contains(join(list, sep), list[i]),
    decreases list.len(),
{
    if list.len() == 1 {
        assert(join(list, sep).subrange(0, list[0].len() as int) =~= list[0]);
        assert(occurs_at(join(list, sep), list[0], 0));
    } else {
        let init = list.drop_last();
        assert(join(list, sep) == join(init, sep) + sep + list.last());
        if i == list.len() - 1 {
            assert(list.last().subrange(0, list.last().len() as int) =~= list.last());
            assert(occurs_at(list.last(), list.last(), 0));
            lemma_contains_in_concat(join(init, sep) + sep, list.last(), list[i]);
        } else {
            lemma_join_contains(init, sep, i);
            assert(init[i] == list[i]);
            lemma_contains_in_concat(join(init, sep), sep, list[i]);
            lemma_contains_in_concat(join(init, sep) + sep, list.last(), list[i]);
        }
    }
}

/// A list joined with any separator begins with its first element.
pub proof fn lemma_join_starts_with_first(list: Seq<Seq<char>>, sep: Seq<char>)
    requires
        list.len() > 0,
    ensures
        starts_with(join(list, sep), list[0]),
    decreases list.len(),
{
    if list.len() == 1 {
        assert(join(list, sep).subrange(0, list[0].len() as int) =~= list[0]);
    } else {
        let init = list.drop_last();
        lemma_join_starts_with_first(init, sep);
        assert(init[0] == list[0]);
        let j = join(init, sep);
        assert(join(list, sep) == j + sep + list.last());
        assert((j + sep + list.last()).subrange(0, list[0].len() as int) =~= j.subrange(
            0,
            list[0].len() as int,
        ));
    }
}

/// The part of `s` after the last `c`; all of `s` when `c` does not occur.
pub open spec fn after_last(s: Seq<char>, c: char) -> Seq<char>
    decreases s.len(),
{
    if s.len() == 0 {
        s
    } else if s.last() == c {
        Seq::empty()
    } else {
        after_last(s.drop_last(), c).push(s.last())
    }
}

/// `s` without the run of `c` at its end.
pub open spec fn strip_trailing(s: Seq<char>, c: char) -> Seq<char>
    decreases s.len(),
{
    if s.len() > 0 && s.last() == c {
        strip_trailing(s.drop_last(), c)
    } else {
        s
    }
}

/// Whether `c` is Unicode whitespace.
pub fn is_whitespace_char(c: char) -> (b: bool)
    ensures
        b == is_whitespace(c),
{
    let u = c as u32;
    (0x09 <= u && u <= 0x0D) || u == 0x20 || u == 0x85 || u == 0xA0 || u == 0x1680 || (0x2000
        <= u && u <= 0x200A) || u == 0x2028 || u == 0x2029 || u == 0x202F || u == 0x205F || u
        == 0x3000
}

/// The characters `s[from..to]`.
pub fn copy_range(s: &[char], from: usize, to: usize) -> (r: Vec<char>)
    requires
        from <= to <= s@.len(),
    ensures
        r@ == s@.subrange(from as int, to as int),
{
    let mut r: Vec<char> = Vec::new();
    let mut i = from;
    while i < to
        invariant
            from <= i <= to <= s@.len(),
            r@ == s@.subrange(from as int, i as int),
        decreases to - i,
    {
        r.push(s[i]);
        i = i + 1;
        assert(r@ =~= s@.subrange(from as int, i as int));
    }
    r
}

/// `s` without leading and trailing whitespace.
pub fn trim_chars(s: &[char]) -> (r: Vec<char>)
    ensures
        r@ == trim(s@),
{
    let len = s.len();
    let mut start: usize = 0;
    assert(s@.subrange(0, len as int) =~= s@);
    while start < len && is_whitespace_char(s[start])
        invariant
            len == s@.len(),
            start <= len,
            trim_start(s@) == trim_start(s@.subrange(start as int, len as int)),
        decreases len - start,
    {
        assert(s@.subrange(start as int, len as int).drop_first() =~= s@.subrange(
            start as int + 1,
            len as int,
        ));
        start = start + 1;
    }
    let mut end: usize = len;
    while end > start && is_whitespace_char(s[end - 1])
        invariant
            len == s@.len(),
            start <= end <= len,
            trim_start(s@) == s@.subrange(start as int, len as int),
            trim(s@) == trim_end(s@.subrange(start as int, end as int)),
        decreases end - start,
    {
        assert(s@.subrange(start as int, end as int).drop_last() =~= s@.subrange(
            start as int,
            end as int - 1,
        ));
        end = end - 1;
    }
    copy_range(s, start, end)
}


/// Whether `t` occurs in `s` at position `i`.
pub fn occurs_at_exec(s: &[char], t: &[char], i: usize) -> (b: bool)
    ensures
        b == occurs_at(s@, t@, i as int),
{
    if t.len() > s.len() || i > s.len() - t.len() {
        return false;
    }
    let slen = s.len();
    let mut k: usize = 0;
    while k < t.len()
        invariant
            slen == s@.len(),
            i + t@.len() <= s@.len(),
            k <= t@.len(),
            forall|m: int| 0 <= m < k ==> s@[i + m] == t@[m],
        decreases t@.len() - k,
    {
        if s[i + k] != t[k] {
            assert(s@.subrange(i as int, i + t@.len())[k as int] != t@[k as int]);
            return false;
        }
        k = k + 1;
    }
    assert(s@.subrange(i as int, i + t@.len()) =~= t@);
    true
}

/// The first position at which `t` occurs in `s`, if any.
pub fn find(s: &[char], t: &[char]) -> (r: Option<usize>)
    ensures
        match r {
            Some(i) => first_occurrence(s@, t@, i as int),
            None => !contains(s@, t@),
        },
{
    if t.len() > s.len() {
        return None;
    }
    let last = s.len() - t.len();
    let mut i: usize = 0;
    loop
        invariant
            last + t@.len() == s@.len(),
            i <= last,
            forall|j: int| 0 <= j < i ==> !occurs_at(s@, t@, j),
        decreases last - i,
    {
        if occurs_at_exec(s, t, i) {
            return Some(i);
        }
        if i == last {
            return None;
        }
        i = i + 1;
    }
}

/// The first occurrence of a pattern is unique.
pub proof fn lemma_first_occurrence_unique(s: Seq<char>, t: Seq<char>, i: int, j: int)
    requires
        first_occurrence(s, t, i),
        first_occurrence(s, t, j),
    ensures
        i == j,
{
}

/// Whether `t` occurs in `s`.
pub fn contains_exec(s: &[char], t: &[char]) -> (b: bool)
    ensures
        b == contains(s@, t@),
{
    match find(s, t) {
        Some(_) => true,
        None => false,
    }
}

/// Whether `s` begins with `p`.
pub fn starts_with_exec(s: &[char], p: &[char]) -> (b: bool)
    ensures
        b == starts_with(s@, p@),
{
    occurs_at_exec(s, p, 0)
}

/// The parts of `s` before and after the first occurrence of `pat`.
pub fn split_once_chars(s: &[char], pat: &[char]) -> (r: Option<(Vec<char>, Vec<char>)>)
    ensures
        match r {
            Some((a, b)) => split_once(s@, pat@) == Some((a@, b@)),
            None => split_once(s@, pat@) is None,
        },
{
    let slen = s.len();
    match find(s, pat) {
        Some(i) => {
            proof {
                let k = choose|k: int| first_occurrence(s@, pat@, k);
                lemma_first_occurrence_unique(s@, pat@, i as int, k);
            }
            let a = copy_range(s, 0, i);
            let b = copy_range(s, i + pat.len(), slen);
            Some((a, b))
        },
        None => None,
    }
}

/// The elements of `list` with `sep` between each two neighbours.
pub fn join_chars(list: &Vec<Vec<char>>, sep: &[char]) -> (r: Vec<char>)
    ensures
        r@ == join(list.deep_view(), sep@),
{
    let ghost parts = list.deep_view();
    let mut r: Vec<char> = Vec::new();
    let n = list.len();
    let mut i: usize = 0;
    while i < n
        invariant
            n == list@.len(),
            parts == list.deep_view(),
            i <= n,
            r@ == join(parts.take(i as int), sep@),
        decreases n - i,
    {
        let ghost before = r@;
        if i > 0 {
            let mut k: usize = 0;
            while k < sep.len()
                invariant
                    r@ == before + sep@.take(k as int),
                    k <= sep@.len(),
                decreases sep@.len() - k,
            {
                r.push(sep[k]);
                k = k + 1;
                assert(r@ =~= before + sep@.take(k as int));
            }
            assert(sep@.take(sep@.len() as int) =~= sep@);
        }
        let ghost mid = r@;
        let item = &list[i];
        let mut k: usize = 0;
        while k < item.len()
            invariant
                r@ == mid + item@.take(k as int),
                k <= item@.len(),
            decreases item@.len() - k,
        {
            r.push(item[k]);
            k = k + 1;
            assert(r@ =~= mid + item@.take(k as int));
        }
        assert(item@.take(item@.len() as int) =~= item@);
        assert(parts.take(i + 1).drop_last() =~= parts.take(i as int));
        assert(parts[i as int] == item@);
        if i == 0 {
            assert(r@ =~= join(parts.take(1), sep@));
        }
        i = i + 1;
    }
    assert(parts.take(n as int) =~= parts);
    r
}

/// Unfolding `after_last` over a tail that holds no `c`.
proof fn lemma_after_last_tail(s: Seq<char>, c: char, j: int)
    requires
        0 <= j <= s.len(),
        forall|k: int| j <= k < s.len() ==> s[k] != c,
    ensures
        after_last(s, c) == after_last(s.take(j), c) + s.subrange(j, s.len() as int),
    decreases s.len() - j,
{
    if j < s.len() {
        lemma_after_last_tail(s, c, j + 1);
        assert(s.take(j + 1).drop_last() =~= s.take(j));
        assert(after_last(s.take(j + 1), c) == after_last(s.take(j), c).push(s[j]));
        assert(after_last(s.take(j), c).push(s[j]) + s.subrange(j + 1, s.len() as int)
            =~= after_last(s.take(j), c) + s.subrange(j, s.len() as int));
    } else {
        assert(s.take(j) =~= s);
        assert(s.subrange(j, s.len() as int) =~= Seq::<char>::empty());
        assert(after_last(s, c) + Seq::<char>::empty() =~= after_last(s, c));
    }
}

/// The part of `s` after the last `c`; all of `s` when `c` does not occur.
pub fn after_last_chars(s: &[char], c: char) -> (r: Vec<char>)
    ensures
        r@ == after_last(s@, c),
{
    let len = s.len();
    let mut j: usize = len;
    while j > 0 && s[j - 1] != c
        invariant
            len == s@.len(),
            j <= len,
            forall|k: int| j <= k < len ==> s@[k] != c,
        decreases j,
    {
        j = j - 1;
    }
    proof {
        lemma_after_last_tail(s@, c, j as int);
        if j > 0 {
            assert(s@.take(j as int).drop_last() =~= s@.take(j - 1));
        }
        assert(after_last(s@.take(j as int), c) =~= Seq::<char>::empty());
        assert(Seq::<char>::empty() + s@.subrange(j as int, len as int) =~= s@.subrange(
            j as int,
            len as int,
        ));
    }
    copy_range(s, j, len)
}

/// `s` without the run of `c` at its end.
pub fn strip_trailing_chars(s: &[char], c: char) -> (r: Vec<char>)
    ensures
        r@ == strip_trailing(s@, c),
{
    let len = s.len();
    let mut j: usize = len;
    assert(s@.take(len as int) =~= s@);
    while j > 0 && s[j - 1] == c
        invariant
            len == s@.len(),
            j <= len,
            strip_trailing(s@, c) == strip_trailing(s@.take(j as int), c),
        decreases j,
    {
        assert(s@.take(j as int).drop_last() =~= s@.take(j - 1));
        j = j - 1;
    }
    copy_range(s, 0, j)
}

} // verus!
