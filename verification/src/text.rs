//! Verified text helpers: splitting on a separator character, joining with
//! one, substring search and removal, and de-duplication of characters.
//! These carry the string handling shared by the value model and the
//! operation algebra.

use vstd::prelude::*;

verus! {

/// Behaves as documented for `String::push`: appends one character at the end.
pub assume_specification[ std::string::String::push ](s: &mut String, c: char)
    ensures
        final(s)@ == old(s)@.push(c),
;

/// Index of the first occurrence of `sep` in `s`, or `s.len()` when absent.
pub open spec fn first_sep(s: Seq<char>, sep: char) -> int
    decreases s.len(),
{
    if s.len() == 0 {
        0
    } else if s[0] == sep {
        0
    } else {
        1 + first_sep(s.drop_first(), sep)
    }
}

pub proof fn lemma_first_sep(s: Seq<char>, sep: char)
    ensures
        0 <= first_sep(s, sep) <= s.len(),
        first_sep(s, sep) < s.len() ==> s[first_sep(s, sep)] == sep,
        forall|j: int| 0 <= j < first_sep(s, sep) ==> s[j] != sep,
    decreases s.len(),
{
    if s.len() == 0 {
    } else if s[0] == sep {
    } else {
        lemma_first_sep(s.drop_first(), sep);
        assert forall|j: int| 0 <= j < first_sep(s, sep) implies s[j] != sep by {
            if j > 0 {
                assert(s.drop_first()[j - 1] == s[j]);
            }
        }
    }
}

/// The first separator position is pinned by its characterization: no
/// separator before `i`, and a separator at `i` (or `i` is the length).
pub proof fn lemma_first_sep_is(s: Seq<char>, sep: char, i: int)
    requires
        0 <= i <= s.len(),
        forall|j: int| 0 <= j < i ==> s[j] != sep,
        i < s.len() ==> s[i] == sep,
    ensures
        first_sep(s, sep) == i,
{
    lemma_first_sep(s, sep);
    let f = first_sep(s, sep);
    if f < i {
        assert(s[f] == sep);
    } else if f > i {
        assert(s[i] != sep);
    }
}

/// Split `s` at every occurrence of `sep`; always yields at least one
/// (possibly empty) segment, and none of the segments contains `sep`.
pub open spec fn split_seq(s: Seq<char>, sep: char) -> Seq<Seq<char>>
    decreases s.len(),
{
    let i = first_sep(s, sep);
    if 0 <= i < s.len() {
        seq![s.subrange(0, i)] + split_seq(s.subrange(i + 1, s.len() as int), sep)
    } else {
        seq![s]
    }
}

/// Join the segments of `l`, writing `sep` between consecutive segments.
pub open spec fn join_seq(l: Seq<Seq<char>>, sep: char) -> Seq<char>
    decreases l.len(),
{
    if l.len() == 0 {
        Seq::empty()
    } else if l.len() == 1 {
        l[0]
    } else {
        l[0] + seq![sep] + join_seq(l.drop_first(), sep)
    }
}

pub proof fn lemma_split_at_least_one(s: Seq<char>, sep: char)
    ensures
        split_seq(s, sep).len() >= 1,
        forall|k: int|
            0 <= k < split_seq(s, sep).len() ==> !(#[trigger] split_seq(s, sep)[k]).contains(sep),
    decreases s.len(),
{
    lemma_first_sep(s, sep);
    let i = first_sep(s, sep);
    if 0 <= i < s.len() {
        lemma_split_at_least_one(s.subrange(i + 1, s.len() as int), sep);
        let head = s.subrange(0, i);
        assert(!head.contains(sep)) by {
            assert forall|j: int| 0 <= j < head.len() implies head[j] != sep by {
                assert(head[j] == s[j]);
            }
        }
        assert forall|k: int|
            0 <= k < split_seq(s, sep).len() implies !(#[trigger] split_seq(s, sep)[k]).contains(
            sep,
        ) by {
            if k > 0 {
                assert(split_seq(s, sep)[k] == split_seq(s.subrange(i + 1, s.len() as int), sep)[k
                    - 1]);
            }
        }
    } else {
        assert(i == s.len());
        assert(!s.contains(sep)) by {
            assert forall|j: int| 0 <= j < s.len() implies s[j] != sep by {}
        }
    }
}

/// Splitting after joining recovers the original segments, provided no
/// segment contains the separator and there is at least one segment.
pub proof fn lemma_split_join(l: Seq<Seq<char>>, sep: char)
    requires
        l.len() >= 1,
        forall|k: int| 0 <= k < l.len() ==> !(#[trigger] l[k]).contains(sep),
    ensures
        split_seq(join_seq(l, sep), sep) == l,
    decreases l.len(),
{
    let s = join_seq(l, sep);
    if l.len() == 1 {
        assert(s == l[0]);
        assert(forall|j: int| 0 <= j < s.len() ==> s[j] != sep);
        lemma_first_sep_is(s, sep, s.len() as int);
        assert(split_seq(s, sep) =~~= l);
    } else {
        let head = l[0];
        let rest = join_seq(l.drop_first(), sep);
        assert(s == head + seq![sep] + rest);
        assert forall|j: int| 0 <= j < head.len() implies s[j] != sep by {
            assert(s[j] == head[j]);
        }
        assert(s[head.len() as int] == sep);
        lemma_first_sep_is(s, sep, head.len() as int);
        let i = head.len() as int;
        assert(s.subrange(0, i) =~= head);
        assert(s.subrange(i + 1, s.len() as int) =~= rest);
        assert forall|k: int| 0 <= k < l.drop_first().len() implies !(#[trigger] l.drop_first()[
            k]).contains(sep) by {
            assert(l.drop_first()[k] == l[k + 1]);
        }
        lemma_split_join(l.drop_first(), sep);
        assert(split_seq(s, sep) =~~= seq![head] + split_seq(rest, sep));
        assert(seq![head] + l.drop_first() =~~= l);
    }
}

/// Finds the first occurrence of `sep` in `s`, reported as a character
/// index; returns the character length of `s` when `sep` does not occur.
pub fn find_char(s: &str, sep: char) -> (r: usize)
    ensures
        r == first_sep(s@, sep),
        r <= s@.len(),
{
    let n = s.unicode_len();
    let mut i: usize = 0;
    while i < n
        invariant
            0 <= i <= n,
            n == s@.len(),
            forall|j: int| 0 <= j < i ==> s@[j] != sep,
        decreases n - i,
    {
        if s.get_char(i) == sep {
            proof {
                lemma_first_sep_is(s@, sep, i as int);
            }
            return i;
        }
        i += 1;
    }
    proof {
        lemma_first_sep_is(s@, sep, n as int);
    }
    n
}

/// Splits `s` at every occurrence of `sep`.
pub fn split_char(s: &str, sep: char) -> (r: Vec<String>)
    ensures
        r.deep_view() == split_seq(s@, sep),
        r.len() >= 1,
    decreases s@.len(),
{
    let n = s.unicode_len();
    let i = find_char(s, sep);
    if i == n {
        let mut r: Vec<String> = Vec::new();
        r.push(s.to_owned());
        proof {
            assert(r.deep_view() =~~= split_seq(s@, sep));
        }
        r
    } else {
        let head = s.substring_char(0, i);
        let tail = s.substring_char(i + 1, n);
        let mut r = split_char(tail, sep);
        r.insert(0, head.to_owned());
        proof {
            assert(r.deep_view() =~~= split_seq(s@, sep));
        }
        r
    }
}

proof fn lemma_join_push(l: Seq<Seq<char>>, x: Seq<char>, sep: char)
    ensures
        join_seq(l.push(x), sep) == if l.len() == 0 {
            x
        } else {
            join_seq(l, sep) + seq![sep] + x
        },
    decreases l.len(),
{
    if l.len() == 0 {
        assert(join_seq(l.push(x), sep) == l.push(x)[0]);
        assert(l.push(x)[0] == x);
    } else {
        lemma_join_push(l.drop_first(), x, sep);
        assert(l.push(x).drop_first() =~~= l.drop_first().push(x));
        if l.len() == 1 {
            assert(join_seq(l, sep) == l[0]);
            assert(join_seq(l.push(x), sep) =~= join_seq(l, sep) + seq![sep] + x);
        } else {
            assert(join_seq(l.push(x), sep) =~= join_seq(l, sep) + seq![sep] + x);
        }
    }
}

/// True when `p` occurs in `s` starting at character index `i`.
pub open spec fn match_at(s: Seq<char>, p: Seq<char>, i: int) -> bool {
    0 <= i && i + p.len() <= s.len() && s.subrange(i, i + p.len() as int) == p
}

/// First index at or after `from` where `p` occurs in `s`, or -1.
pub open spec fn first_match_from(s: Seq<char>, p: Seq<char>, from: int) -> int
    decreases s.len() + 1 - from when 0 <= from
{
    if from + p.len() > s.len() {
        -1
    } else if match_at(s, p, from) {
        from
    } else {
        first_match_from(s, p, from + 1)
    }
}

pub proof fn lemma_first_match_pin(s: Seq<char>, p: Seq<char>, from: int, i: int)
    requires
        0 <= from <= i,
        match_at(s, p, i),
        forall|j: int| from <= j < i ==> !match_at(s, p, j),
    ensures
        first_match_from(s, p, from) == i,
    decreases i - from,
{
    if from < i {
        lemma_first_match_pin(s, p, from + 1, i);
    }
}

pub proof fn lemma_first_match_none(s: Seq<char>, p: Seq<char>, from: int)
    requires
        0 <= from <= s.len() + 1,
        forall|j: int| from <= j ==> !match_at(s, p, j),
    ensures
        first_match_from(s, p, from) == -1,
    decreases s.len() + 1 - from,
{
    if from + p.len() > s.len() {
    } else {
        lemma_first_match_none(s, p, from + 1);
    }
}

/// `s` with the first occurrence of `p` (if any) removed.
pub open spec fn remove_first_sub(s: Seq<char>, p: Seq<char>) -> Seq<char> {
    let i = first_match_from(s, p, 0);
    if i >= 0 {
        s.subrange(0, i) + s.subrange(i + p.len() as int, s.len() as int)
    } else {
        s
    }
}

/// True when `p` occurs in `s` starting at character index `i`.
fn match_at_exec(s: &str, p: &str, i: usize, n: usize, m: usize) -> (r: bool)
    requires
        n == s@.len(),
        m == p@.len(),
        i + m <= n,
    ensures
        r == match_at(s@, p@, i as int),
{
    let mut k: usize = 0;
    while k < m
        invariant
            0 <= k <= m,
            n == s@.len(),
            m == p@.len(),
            i + m <= n,
            forall|j: int| 0 <= j < k ==> s@[i + j] == p@[j],
        decreases m - k,
    {
        if s.get_char(i + k) != p.get_char(k) {
            assert(s@.subrange(i as int, i + m) != p@) by {
                assert(s@.subrange(i as int, i + m)[k as int] == s@[i + k]);
            }
            return false;
        }
        k += 1;
    }
    proof {
        assert(s@.subrange(i as int, i + m) =~= p@);
    }
    true
}

/// `s` with the first occurrence of `p` removed; `s` unchanged when `p`
/// does not occur in it.
pub fn remove_first_str(s: &str, p: &str) -> (r: String)
    ensures
        r@ == remove_first_sub(s@, p@),
{
    let n = s.unicode_len();
    let m = p.unicode_len();
    if m <= n {
        let mut i: usize = 0;
        while i < n - m
            invariant
                0 <= i <= n - m,
                m <= n,
                n == s@.len(),
                m == p@.len(),
                forall|j: int| 0 <= j < i ==> !match_at(s@, p@, j),
            decreases n - m - i,
        {
            if match_at_exec(s, p, i, n, m) {
                proof {
                    lemma_first_match_pin(s@, p@, 0, i as int);
                }
                let head = s.substring_char(0, i);
                let tail = s.substring_char(i + m, n);
                return head.to_owned().concat(tail);
            }
            i += 1;
        }
        if match_at_exec(s, p, i, n, m) {
            proof {
                lemma_first_match_pin(s@, p@, 0, i as int);
            }
            let head = s.substring_char(0, i);
            let tail = s.substring_char(i + m, n);
            return head.to_owned().concat(tail);
        }
        proof {
            assert forall|j: int| 0 <= j implies !match_at(s@, p@, j) by {
                if j + p@.len() <= s@.len() {
                    assert(j <= n - m);
                }
            }
            lemma_first_match_none(s@, p@, 0);
        }
        s.to_owned()
    } else {
        proof {
            lemma_first_match_none(s@, p@, 0);
        }
        s.to_owned()
    }
}

/// Splits `s` at the first occurrence of `sep` into the part before and
/// the part after; `None` when `sep` does not occur in `s`.
pub open spec fn split_once_seq(s: Seq<char>, sep: char) -> Option<(Seq<char>, Seq<char>)> {
    let i = first_sep(s, sep);
    if i < s.len() {
        Some((s.subrange(0, i), s.subrange(i + 1, s.len() as int)))
    } else {
        None
    }
}

/// Splits `s` at the first occurrence of `sep`, as `split_once_seq` says.
pub fn split_once_char(s: &str, sep: char) -> (r: Option<(String, String)>)
    ensures
        match r {
            Some((a, b)) => split_once_seq(s@, sep) == Some((a@, b@)),
            None => split_once_seq(s@, sep) is None,
        },
{
    let n = s.unicode_len();
    let i = find_char(s, sep);
    proof {
        lemma_first_sep(s@, sep);
    }
    if i < n {
        let a = s.substring_char(0, i);
        let b = s.substring_char(i + 1, n);
        Some((a.to_owned(), b.to_owned()))
    } else {
        None
    }
}

/// The characters of `s`, keeping only the first occurrence of each and
/// preserving the order of those first occurrences.
pub open spec fn dedup_seq(s: Seq<char>) -> Seq<char>
    decreases s.len(),
{
    if s.len() == 0 {
        Seq::empty()
    } else if s.drop_last().contains(s.last()) {
        dedup_seq(s.drop_last())
    } else {
        dedup_seq(s.drop_last()).push(s.last())
    }
}

pub proof fn lemma_dedup_props(s: Seq<char>)
    ensures
        forall|c: char| #[trigger] dedup_seq(s).contains(c) <==> s.contains(c),
        dedup_seq(s).no_duplicates(),
    decreases s.len(),
{
    if s.len() == 0 {
    } else {
        let dl = s.drop_last();
        let last = s.last();
        let d = dedup_seq(dl);
        lemma_dedup_props(dl);
        assert forall|c: char| #[trigger] dedup_seq(s).contains(c) <==> s.contains(c) by {
            assert(s.contains(c) <==> dl.contains(c) || c == last) by {
                if dl.contains(c) {
                    let i = choose|i: int| 0 <= i < dl.len() && dl[i] == c;
                    assert(s[i] == c);
                }
                if c == last {
                    assert(s[s.len() - 1] == c);
                }
                if s.contains(c) {
                    let i = choose|i: int| 0 <= i < s.len() && s[i] == c;
                    if i < s.len() - 1 {
                        assert(dl[i] == c);
                    }
                }
            }
            if !dl.contains(last) {
                assert(dedup_seq(s) == d.push(last));
                assert(d.push(last).contains(c) <==> d.contains(c) || c == last) by {
                    if d.contains(c) {
                        let i = choose|i: int| 0 <= i < d.len() && d[i] == c;
                        assert(d.push(last)[i] == c);
                    }
                    if c == last {
                        assert(d.push(last)[d.len() as int] == c);
                    }
                    if d.push(last).contains(c) {
                        let i = choose|i: int|
                            0 <= i < d.push(last).len() && d.push(last)[i] == c;
                        if i < d.len() {
                            assert(d[i] == c);
                        }
                    }
                }
            }
        }
        if !dl.contains(last) {
            assert(dedup_seq(s) == d.push(last));
            assert(!d.contains(last));
            assert forall|i: int, j: int|
                0 <= i < j < d.push(last).len() implies d.push(last)[i] != d.push(last)[j] by {
                if j < d.len() {
                    assert(d.push(last)[i] == d[i] && d.push(last)[j] == d[j]);
                } else {
                    assert(d.push(last)[j] == last);
                    assert(d.push(last)[i] == d[i]);
                    if d[i] == last {
                        assert(d.contains(last));
                    }
                }
            }
        }
    }
}

/// De-duplication leaves a sequence that already has no duplicates as it is.
pub proof fn lemma_dedup_of_distinct(s: Seq<char>)
    requires
        s.no_duplicates(),
    ensures
        dedup_seq(s) == s,
    decreases s.len(),
{
    if s.len() == 0 {
        assert(dedup_seq(s) =~= s);
    } else {
        lemma_dedup_of_distinct(s.drop_last());
        assert(!s.drop_last().contains(s.last())) by {
            if s.drop_last().contains(s.last()) {
                let i = choose|i: int|
                    0 <= i < s.drop_last().len() && s.drop_last()[i] == s.last();
                assert(s[i] == s[s.len() - 1]);
            }
        }
        assert(dedup_seq(s) =~= s);
    }
}

/// True when `v` holds the character `c`.
pub fn contains_char(v: &Vec<char>, c: char) -> (r: bool)
    ensures
        r == v@.contains(c),
{
    let mut i: usize = 0;
    while i < v.len()
        invariant
            0 <= i <= v.len(),
            forall|j: int| 0 <= j < i ==> v@[j] != c,
        decreases v.len() - i,
    {
        if v[i] == c {
            return true;
        }
        i += 1;
    }
    false
}

/// The characters of `s`, in order.
pub fn chars_of(s: &str) -> (r: Vec<char>)
    ensures
        r@ == s@,
{
    let n = s.unicode_len();
    let mut r: Vec<char> = Vec::new();
    let mut i: usize = 0;
    while i < n
        invariant
            0 <= i <= n,
            n == s@.len(),
            r@ == s@.take(i as int),
        decreases n - i,
    {
        r.push(s.get_char(i));
        proof {
            assert(s@.take(i as int).push(s@[i as int]) =~= s@.take(i + 1));
        }
        i += 1;
    }
    proof {
        assert(s@.take(n as int) =~= s@);
    }
    r
}

/// Appends to `acc` each character of `extra` that `acc` does not hold yet.
pub fn extend_dedup(acc: &mut Vec<char>, extra: &Vec<char>)
    requires
        old(acc)@.no_duplicates(),
    ensures
        final(acc)@ == dedup_seq(old(acc)@ + extra@),
{
    proof {
        lemma_dedup_of_distinct(old(acc)@);
        assert(old(acc)@ + extra@.take(0) =~= old(acc)@);
    }
    let mut i: usize = 0;
    while i < extra.len()
        invariant
            0 <= i <= extra.len(),
            acc@ == dedup_seq(old(acc)@ + extra@.take(i as int)),
        decreases extra.len() - i,
    {
        let c = extra[i];
        proof {
            assert((old(acc)@ + extra@.take(i + 1)).drop_last() =~= old(acc)@ + extra@.take(
                i as int,
            ));
            assert((old(acc)@ + extra@.take(i + 1)).last() == c);
            lemma_dedup_props(old(acc)@ + extra@.take(i as int));
        }
        if !contains_char(acc, c) {
            acc.push(c);
        }
        i += 1;
    }
    proof {
        assert(old(acc)@ + extra@.take(extra@.len() as int) =~= old(acc)@ + extra@);
    }
}

/// A `String` holding exactly the characters of `v`, in order.
pub fn string_of_chars(v: &Vec<char>) -> (r: String)
    ensures
        r@ == v@,
{
    let mut r = String::new();
    let mut i: usize = 0;
    while i < v.len()
        invariant
            0 <= i <= v.len(),
            r@ == v@.take(i as int),
        decreases v.len() - i,
    {
        r.push(v[i]);
        proof {
            assert(v@.take(i as int).push(v@[i as int]) =~= v@.take(i + 1));
        }
        i += 1;
    }
    proof {
        assert(v@.take(v@.len() as int) =~= v@);
    }
    r
}

/// True when the two strings hold the same characters in the same order.
pub fn str_eq(a: &str, b: &str) -> (r: bool)
    ensures
        r == (a@ == b@),
{
    let n = a.unicode_len();
    if n != b.unicode_len() {
        return false;
    }
    let mut i: usize = 0;
    while i < n
        invariant
            0 <= i <= n,
            n == a@.len() == b@.len(),
            forall|j: int| 0 <= j < i ==> a@[j] == b@[j],
        decreases n - i,
    {
        if a.get_char(i) != b.get_char(i) {
            return false;
        }
        i += 1;
    }
    proof {
        assert(a@ =~= b@);
    }
    true
}

/// Joins the strings of `v`, writing `sep` between consecutive entries.
pub fn join_char(v: &Vec<String>, sep: char) -> (r: String)
    ensures
        r@ == join_seq(v.deep_view(), sep),
{
    let mut r = String::new();
    let mut idx: usize = 0;
    while idx < v.len()
        invariant
            0 <= idx <= v.len(),
            r@ == join_seq(v.deep_view().take(idx as int), sep),
        decreases v.len() - idx,
    {
        if idx > 0 {
            r.push(sep);
        }
        r.append(v[idx].as_str());
        proof {
            let dv = v.deep_view();
            assert(dv.take(idx as int).push(dv[idx as int]) =~~= dv.take(idx + 1));
            lemma_join_push(dv.take(idx as int), dv[idx as int], sep);
        }
        idx += 1;
    }
    proof {
        assert(v.deep_view().take(v.len() as int) =~~= v.deep_view());
    }
    r
}

/// The ASCII-lowercased form of one character: letters `A`-`Z` map to
/// their lowercase forms, everything else stands for itself.
pub open spec fn lower_ascii_char(c: char) -> char {
    if 'A' <= c <= 'Z' {
        ((c as u8) + 32) as char
    } else {
        c
    }
}

/// The ASCII-lowercased form of `s`, as `lower_ascii_char` says.
pub fn ascii_lower(s: &str) -> (r: String)
    ensures
        r@ == s@.map_values(|c: char| lower_ascii_char(c)),
{
    let ghost target = s@.map_values(|c: char| lower_ascii_char(c));
    let n = s.unicode_len();
    let mut r = String::new();
    let mut i: usize = 0;
    while i < n
        invariant
            0 <= i <= n,
            n == s@.len(),
            target == s@.map_values(|c: char| lower_ascii_char(c)),
            r@ == target.take(i as int),
        decreases n - i,
    {
        let c = s.get_char(i);
        if 'A' <= c && c <= 'Z' {
            r.push((((c as u8) + 32) as char));
        } else {
            r.push(c);
        }
        proof {
            assert(r@ =~= target.take(i + 1));
        }
        i += 1;
    }
    proof {
        assert(target.take(n as int) =~= target);
    }
    r
}

/// Join the segments of `l`, writing the separator text `sep` between
/// consecutive segments.
pub open spec fn join_with(l: Seq<Seq<char>>, sep: Seq<char>) -> Seq<char>
    decreases l.len(),
{
    if l.len() == 0 {
        Seq::empty()
    } else if l.len() == 1 {
        l[0]
    } else {
        l[0] + sep + join_with(l.drop_first(), sep)
    }
}

proof fn lemma_join_with_push(l: Seq<Seq<char>>, x: Seq<char>, sep: Seq<char>)
    ensures
        join_with(l.push(x), sep) == if l.len() == 0 {
            x
        } else {
            join_with(l, sep) + sep + x
        },
    decreases l.len(),
{
    if l.len() == 0 {
        assert(join_with(l.push(x), sep) == l.push(x)[0]);
        assert(l.push(x)[0] == x);
    } else {
        lemma_join_with_push(l.drop_first(), x, sep);
        assert(l.push(x).drop_first() =~~= l.drop_first().push(x));
        if l.len() == 1 {
            assert(join_with(l, sep) == l[0]);
            assert(join_with(l.push(x), sep) =~= join_with(l, sep) + sep + x);
        } else {
            assert(join_with(l.push(x), sep) =~= join_with(l, sep) + sep + x);
        }
    }
}

/// Joins the strings of `v`, writing `sep` between consecutive entries.
pub fn join_str(v: &Vec<String>, sep: &str) -> (r: String)
    ensures
        r@ == join_with(v.deep_view(), sep@),
{
    let mut r = String::new();
    let mut idx: usize = 0;
    while idx < v.len()
        invariant
            0 <= idx <= v.len(),
            r@ == join_with(v.deep_view().take(idx as int), sep@),
        decreases v.len() - idx,
    {
        if idx > 0 {
            r.append(sep);
        }
        r.append(v[idx].as_str());
        proof {
            let dv = v.deep_view();
            assert(dv.take(idx as int).push(dv[idx as int]) =~~= dv.take(idx + 1));
            lemma_join_with_push(dv.take(idx as int), dv[idx as int], sep@);
        }
        idx += 1;
    }
    proof {
        assert(v.deep_view().take(v.deep_view().len() as int) =~~= v.deep_view());
    }
    r
}

} // verus!
