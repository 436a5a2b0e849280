//! The operation algebra: given a *current* option value, a *requested*
//! value and an operation, produce the next value or report the
//! combination as unsupported. The rules are stated as a total spec-level
//! decision table (`step_spec`) that the executable `step` is proved to
//! implement arm by arm.

use vstd::prelude::*;

use crate::text::{
    chars_of, contains_char, dedup_seq, extend_dedup, lemma_dedup_props, remove_first_str,
    remove_first_sub, str_eq,
};
use crate::value::{
    find_key, first_key, lemma_first_key, lemma_upsert_wf, map_keys_distinct, upsert,
    upsert_entries, SetValue, ValueView,
};

verus! {

/// The four operations a document can request against an option, with
/// `Assign` replacing and the others editing the current value.
#[derive(Debug, Clone, Copy, PartialEq, Eq, Hash)]
pub enum Operation {
    Append,
    Prepend,
    Remove,
    Assign,
}

/// The operation named by a document token: the canonical names, the
/// word aliases and the sigil aliases recognized at the parsing boundary.
pub open spec fn op_for_token(t: Seq<char>) -> Option<Operation> {
    if t == "Append"@ || t == "append"@ || t == "+"@ {
        Some(Operation::Append)
    } else if t == "Prepend"@ || t == "prepend"@ || t == "^"@ {
        Some(Operation::Prepend)
    } else if t == "Remove"@ || t == "remove"@ || t == "-"@ {
        Some(Operation::Remove)
    } else if t == "Assign"@ || t == "assign"@ || t == "value"@ || t == "="@ {
        Some(Operation::Assign)
    } else {
        None
    }
}

impl Operation {
    /// The operation named by a document token, as `op_for_token` says.
    pub fn parse(token: &str) -> (r: Option<Operation>)
        ensures
            r == op_for_token(token@),
    {
        if str_eq(token, "Append") || str_eq(token, "append") || str_eq(token, "+") {
            Some(Operation::Append)
        } else if str_eq(token, "Prepend") || str_eq(token, "prepend") || str_eq(token, "^") {
            Some(Operation::Prepend)
        } else if str_eq(token, "Remove") || str_eq(token, "remove") || str_eq(token, "-") {
            Some(Operation::Remove)
        } else if str_eq(token, "Assign") || str_eq(token, "assign") || str_eq(token, "value")
            || str_eq(token, "=") {
            Some(Operation::Assign)
        } else {
            None
        }
    }

    /// The gerund used in diagnostics about this operation.
    pub fn gerund(&self) -> (r: String)
        ensures
            r@ == match *self {
                Operation::Append => "appending"@,
                Operation::Prepend => "prepending"@,
                Operation::Remove => "remove"@,
                Operation::Assign => "assigning"@,
            },
    {
        match self {
            Operation::Append => "appending".to_owned(),
            Operation::Prepend => "prepending".to_owned(),
            Operation::Remove => "remove".to_owned(),
            Operation::Assign => "assigning".to_owned(),
        }
    }
}

/// All characters of the segments of `l`, concatenated in order.
pub open spec fn concat_all(l: Seq<Seq<char>>) -> Seq<char>
    decreases l.len(),
{
    if l.len() == 0 {
        Seq::empty()
    } else {
        concat_all(l.drop_last()) + l.last()
    }
}

/// The characters of `cs` that do not occur in `bad`, in order.
pub open spec fn remove_chars(cs: Seq<char>, bad: Seq<char>) -> Seq<char>
    decreases cs.len(),
{
    if cs.len() == 0 {
        Seq::empty()
    } else if bad.contains(cs.last()) {
        remove_chars(cs.drop_last(), bad)
    } else {
        remove_chars(cs.drop_last(), bad).push(cs.last())
    }
}

pub proof fn lemma_remove_chars_props(cs: Seq<char>, bad: Seq<char>)
    ensures
        forall|c: char| #[trigger]
            remove_chars(cs, bad).contains(c) <==> (cs.contains(c) && !bad.contains(c)),
        cs.no_duplicates() ==> remove_chars(cs, bad).no_duplicates(),
    decreases cs.len(),
{
    if cs.len() == 0 {
    } else {
        let dl = cs.drop_last();
        let last = cs.last();
        lemma_remove_chars_props(dl, bad);
        assert forall|i: int, j: int| 0 <= i < j < dl.len() implies dl[i] == cs[i] && dl[j]
            == cs[j] by {}
        assert forall|c: char| #[trigger]
            remove_chars(cs, bad).contains(c) <==> (cs.contains(c) && !bad.contains(c)) by {
            assert(cs.contains(c) <==> dl.contains(c) || c == last) by {
                if dl.contains(c) {
                    let i = choose|i: int| 0 <= i < dl.len() && dl[i] == c;
                    assert(cs[i] == c);
                }
                if c == last {
                    assert(cs[cs.len() - 1] == c);
                }
                if cs.contains(c) {
                    let i = choose|i: int| 0 <= i < cs.len() && cs[i] == c;
                    if i < cs.len() - 1 {
                        assert(dl[i] == c);
                    }
                }
            }
            if !bad.contains(last) {
                let d = remove_chars(dl, bad);
                assert(remove_chars(cs, bad) == d.push(last));
                assert(d.push(last).contains(c) <==> d.contains(c) || c == last) by {
                    if d.contains(c) {
                        let i = choose|i: int| 0 <= i < d.len() && d[i] == c;
                        assert(d.push(last)[i] == c);
                    }
                    if c == last {
                        assert(d.push(last)[d.len() as int] == c);
                    }
                    if d.push(last).contains(c) {
                        let i = choose|i: int|
                            0 <= i < d.push(last).len() && d.push(last)[i] == c;
                        if i < d.len() {
                            assert(d[i] == c);
                        }
                    }
                }
            }
        }
        if cs.no_duplicates() {
            assert(dl.no_duplicates());
            if !bad.contains(last) {
                let d = remove_chars(dl, bad);
                assert(!dl.contains(last)) by {
                    if dl.contains(last) {
                        let i = choose|i: int| 0 <= i < dl.len() && dl[i] == last;
                        assert(cs[i] == cs[cs.len() - 1]);
                    }
                }
                assert(!d.contains(last));
                assert forall|i: int, j: int|
                    0 <= i < j < d.push(last).len() implies d.push(last)[i] != d.push(last)[j] by {
                    if j < d.len() {
                        assert(d.push(last)[i] == d[i] && d.push(last)[j] == d[j]);
                    } else {
                        assert(d.push(last)[j] == last && d.push(last)[i] == d[i]);
                        if d[i] == last {
                            assert(d.contains(last));
                        }
                    }
                }
            }
        }
    }
}

/// First index in `l` equal to `x`, or `l.len()` when absent.
pub open spec fn first_elem(l: Seq<Seq<char>>, x: Seq<char>) -> int
    decreases l.len(),
{
    if l.len() == 0 {
        0
    } else if l[0] == x {
        0
    } else {
        1 + first_elem(l.drop_first(), x)
    }
}

pub proof fn lemma_first_elem(l: Seq<Seq<char>>, x: Seq<char>)
    ensures
        0 <= first_elem(l, x) <= l.len(),
        first_elem(l, x) < l.len() ==> l[first_elem(l, x)] == x,
        forall|j: int| 0 <= j < first_elem(l, x) ==> l[j] != x,
    decreases l.len(),
{
    if l.len() == 0 {
    } else if l[0] == x {
    } else {
        lemma_first_elem(l.drop_first(), x);
        assert forall|j: int| 0 <= j < first_elem(l, x) implies l[j] != x by {
            if j > 0 {
                assert(l.drop_first()[j - 1] == l[j]);
            }
        }
    }
}

pub proof fn lemma_first_elem_is(l: Seq<Seq<char>>, x: Seq<char>, i: int)
    requires
        0 <= i <= l.len(),
        forall|j: int| 0 <= j < i ==> l[j] != x,
        i < l.len() ==> l[i] == x,
    ensures
        first_elem(l, x) == i,
{
    lemma_first_elem(l, x);
    let f = first_elem(l, x);
    if f < i {
        assert(l[f] == x);
    } else if f > i {
        assert(l[i] != x);
    }
}

/// `l` with the first element equal to `x` (if any) removed.
pub open spec fn list_remove_one(l: Seq<Seq<char>>, x: Seq<char>) -> Seq<Seq<char>> {
    let i = first_elem(l, x);
    if i < l.len() {
        l.remove(i)
    } else {
        l
    }
}

/// `l` after removing, for each element of `xs` in order, at most the
/// first element of the list equal to it.
pub open spec fn list_remove_all(l: Seq<Seq<char>>, xs: Seq<Seq<char>>) -> Seq<Seq<char>>
    decreases xs.len(),
{
    if xs.len() == 0 {
        l
    } else {
        list_remove_one(list_remove_all(l, xs.drop_last()), xs.last())
    }
}

/// Overlay `r` onto `c`: store each entry of `r` in order, later entries
/// winning on key collision; entries of `c` keep their positions.
pub open spec fn overlay(
    c: Seq<(Seq<char>, Seq<char>)>,
    r: Seq<(Seq<char>, Seq<char>)>,
) -> Seq<(Seq<char>, Seq<char>)>
    decreases r.len(),
{
    if r.len() == 0 {
        c
    } else {
        upsert(overlay(c, r.drop_last()), r.last().0, r.last().1)
    }
}

pub proof fn lemma_overlay_wf(c: Seq<(Seq<char>, Seq<char>)>, r: Seq<(Seq<char>, Seq<char>)>)
    requires
        map_keys_distinct(c),
    ensures
        map_keys_distinct(overlay(c, r)),
    decreases r.len(),
{
    if r.len() == 0 {
    } else {
        lemma_overlay_wf(c, r.drop_last());
        lemma_upsert_wf(overlay(c, r.drop_last()), r.last().0, r.last().1);
    }
}

/// `es` with the entry keyed `k` (if any) removed.
pub open spec fn remove_key(
    es: Seq<(Seq<char>, Seq<char>)>,
    k: Seq<char>,
) -> Seq<(Seq<char>, Seq<char>)> {
    let j = first_key(es, k);
    if j < es.len() {
        es.remove(j)
    } else {
        es
    }
}

pub proof fn lemma_remove_key_wf(es: Seq<(Seq<char>, Seq<char>)>, k: Seq<char>)
    requires
        map_keys_distinct(es),
    ensures
        map_keys_distinct(remove_key(es, k)),
{
    lemma_first_key(es, k);
    let j = first_key(es, k);
    if j < es.len() {
        let out = es.remove(j);
        assert forall|a: int, b: int|
            0 <= a < b < out.len() implies (#[trigger] out[a]).0 != (#[trigger] out[b]).0 by {
            let a0 = if a < j {
                a
            } else {
                a + 1
            };
            let b0 = if b < j {
                b
            } else {
                b + 1
            };
            assert(out[a] == es[a0] && out[b] == es[b0]);
        }
    }
}

/// `es` after removing, for each key of `ks` in order, the entry with
/// that key if one is present.
pub open spec fn remove_keys(
    es: Seq<(Seq<char>, Seq<char>)>,
    ks: Seq<Seq<char>>,
) -> Seq<(Seq<char>, Seq<char>)>
    decreases ks.len(),
{
    if ks.len() == 0 {
        es
    } else {
        remove_key(remove_keys(es, ks.drop_last()), ks.last())
    }
}

pub proof fn lemma_remove_keys_wf(es: Seq<(Seq<char>, Seq<char>)>, ks: Seq<Seq<char>>)
    requires
        map_keys_distinct(es),
    ensures
        map_keys_distinct(remove_keys(es, ks)),
    decreases ks.len(),
{
    if ks.len() == 0 {
    } else {
        lemma_remove_keys_wf(es, ks.drop_last());
        lemma_remove_key_wf(remove_keys(es, ks.drop_last()), ks.last());
    }
}

/// A copy of the characters of `v`.
pub fn dup_chars(v: &Vec<char>) -> (r: Vec<char>)
    ensures
        r@ == v@,
{
    let mut r: Vec<char> = Vec::new();
    let mut i: usize = 0;
    while i < v.len()
        invariant
            0 <= i <= v.len(),
            r@ == v@.take(i as int),
        decreases v.len() - i,
    {
        r.push(v[i]);
        proof {
            assert(v@.take(i as int).push(v@[i as int]) =~= v@.take(i + 1));
        }
        i += 1;
    }
    proof {
        assert(v@.take(v@.len() as int) =~= v@);
    }
    r
}

/// A copy of the strings of `v`, equal under the deep view.
pub fn dup_strings(v: &Vec<String>) -> (r: Vec<String>)
    ensures
        r.deep_view() == v.deep_view(),
        r.len() == v.len(),
{
    let mut r: Vec<String> = Vec::new();
    let mut i: usize = 0;
    while i < v.len()
        invariant
            0 <= i <= v.len(),
            r.deep_view() == v.deep_view().take(i as int),
            r.len() == i,
        decreases v.len() - i,
    {
        r.push(v[i].clone());
        proof {
            assert(r.deep_view() =~~= v.deep_view().take(i + 1));
        }
        i += 1;
    }
    proof {
        assert(v.deep_view().take(v@.len() as int) =~~= v.deep_view());
    }
    r
}

/// A copy of the map entries of `v`, equal under the deep view.
pub fn dup_entries(v: &Vec<(String, String)>) -> (r: Vec<(String, String)>)
    ensures
        r.deep_view() == v.deep_view(),
        r.len() == v.len(),
{
    let mut r: Vec<(String, String)> = Vec::new();
    let mut i: usize = 0;
    while i < v.len()
        invariant
            0 <= i <= v.len(),
            r.deep_view() == v.deep_view().take(i as int),
            r.len() == i,
        decreases v.len() - i,
    {
        r.push((v[i].0.clone(), v[i].1.clone()));
        proof {
            assert(r.deep_view() =~~= v.deep_view().take(i + 1));
        }
        i += 1;
    }
    proof {
        assert(v.deep_view().take(v@.len() as int) =~~= v.deep_view());
    }
    r
}

impl SetValue {
    /// A copy of this value, equal under the view.
    pub fn dup(&self) -> (r: SetValue)
        ensures
            r@ == self@,
    {
        match self {
            SetValue::Bool(b) => SetValue::Bool(*b),
            SetValue::String(s) => SetValue::String(s.clone()),
            SetValue::Integer(i) => SetValue::Integer(*i),
            SetValue::Float(bits) => SetValue::Float(*bits),
            SetValue::List(v) => SetValue::List(dup_strings(v)),
            SetValue::Chars(v) => SetValue::Chars(dup_chars(v)),
            SetValue::Entries(v) => SetValue::Entries(dup_entries(v)),
        }
    }
}

/// All characters of the strings of `l`, concatenated in order.
fn flatten_chars(l: &Vec<String>) -> (r: Vec<char>)
    ensures
        r@ == concat_all(l.deep_view()),
{
    let ghost dv = l.deep_view();
    let mut r: Vec<char> = Vec::new();
    let mut i: usize = 0;
    while i < l.len()
        invariant
            0 <= i <= l.len(),
            dv == l.deep_view(),
            r@ == concat_all(dv.take(i as int)),
        decreases l.len() - i,
    {
        let mut cs = chars_of(l[i].as_str());
        r.append(&mut cs);
        proof {
            assert(dv.take(i + 1).drop_last() =~~= dv.take(i as int));
            assert(dv.take(i + 1).last() == dv[i as int]);
        }
        i += 1;
    }
    proof {
        assert(dv.take(dv.len() as int) =~~= dv);
    }
    r
}

/// The distinct characters of `c` and `extra` together, `c` first.
fn chars_union(c: &Vec<char>, extra: &Vec<char>) -> (r: Vec<char>)
    requires
        c@.no_duplicates(),
    ensures
        r@ == dedup_seq(c@ + extra@),
{
    let mut r = dup_chars(c);
    extend_dedup(&mut r, extra);
    r
}

/// The characters of `c` that do not occur in `bad`.
fn chars_minus(c: &Vec<char>, bad: &Vec<char>) -> (r: Vec<char>)
    ensures
        r@ == remove_chars(c@, bad@),
{
    let mut r: Vec<char> = Vec::new();
    let mut i: usize = 0;
    while i < c.len()
        invariant
            0 <= i <= c.len(),
            r@ == remove_chars(c@.take(i as int), bad@),
        decreases c.len() - i,
    {
        proof {
            assert(c@.take(i + 1).drop_last() =~= c@.take(i as int));
            assert(c@.take(i + 1).last() == c@[i as int]);
        }
        if !contains_char(bad, c[i]) {
            r.push(c[i]);
        }
        i += 1;
    }
    proof {
        assert(c@.take(c@.len() as int) =~= c@);
    }
    r
}

/// The strings of `a` followed by the strings of `b`.
fn list_concat(a: &Vec<String>, b: &Vec<String>) -> (r: Vec<String>)
    ensures
        r.deep_view() == a.deep_view() + b.deep_view(),
{
    let mut r = dup_strings(a);
    let mut tail = dup_strings(b);
    r.append(&mut tail);
    proof {
        assert(r.deep_view() =~~= a.deep_view() + b.deep_view());
    }
    r
}

/// First index in `l` whose string equals `x`, or the length when absent.
fn find_elem(l: &Vec<String>, x: &str) -> (r: usize)
    ensures
        r == first_elem(l.deep_view(), x@),
        r <= l.len(),
{
    let ghost dv = l.deep_view();
    let mut j: usize = 0;
    while j < l.len()
        invariant
            0 <= j <= l.len(),
            dv == l.deep_view(),
            forall|jj: int| 0 <= jj < j ==> dv[jj] != x@,
        decreases l.len() - j,
    {
        if str_eq(l[j].as_str(), x) {
            proof {
                lemma_first_elem_is(dv, x@, j as int);
            }
            return j;
        }
        j += 1;
    }
    proof {
        lemma_first_elem_is(dv, x@, dv.len() as int);
    }
    j
}

/// `l` with the first string equal to `x` (if any) removed.
fn list_remove_one_exec(l: &Vec<String>, x: &str) -> (r: Vec<String>)
    ensures
        r.deep_view() == list_remove_one(l.deep_view(), x@),
{
    let j = find_elem(l, x);
    let mut r = dup_strings(l);
    if j < r.len() {
        r.remove(j);
        proof {
            assert(r.deep_view() =~~= l.deep_view().remove(j as int));
        }
    }
    r
}

/// `l` after removing the first match of each string of `xs`, in order.
fn list_remove_all_exec(l: &Vec<String>, xs: &Vec<String>) -> (r: Vec<String>)
    ensures
        r.deep_view() == list_remove_all(l.deep_view(), xs.deep_view()),
{
    let ghost xv = xs.deep_view();
    let mut acc = dup_strings(l);
    let mut i: usize = 0;
    while i < xs.len()
        invariant
            0 <= i <= xs.len(),
            xv == xs.deep_view(),
            acc.deep_view() == list_remove_all(l.deep_view(), xv.take(i as int)),
        decreases xs.len() - i,
    {
        proof {
            assert(xv.take(i + 1).drop_last() =~~= xv.take(i as int));
            assert(xv.take(i + 1).last() == xv[i as int]);
        }
        acc = list_remove_one_exec(&acc, xs[i].as_str());
        i += 1;
    }
    proof {
        assert(xv.take(xv.len() as int) =~~= xv);
    }
    acc
}

/// The entries of `c` overlaid with the entries of `r`, in order.
fn entries_overlay_exec(c: &Vec<(String, String)>, r: &Vec<(String, String)>) -> (out: Vec<
    (String, String),
>)
    ensures
        out.deep_view() == overlay(c.deep_view(), r.deep_view()),
{
    let ghost rv = r.deep_view();
    let mut acc = dup_entries(c);
    let mut i: usize = 0;
    while i < r.len()
        invariant
            0 <= i <= r.len(),
            rv == r.deep_view(),
            acc.deep_view() == overlay(c.deep_view(), rv.take(i as int)),
        decreases r.len() - i,
    {
        proof {
            assert(rv.take(i + 1).drop_last() =~~= rv.take(i as int));
            assert(rv.take(i + 1).last() == rv[i as int]);
        }
        upsert_entries(&mut acc, r[i].0.clone(), r[i].1.clone());
        i += 1;
    }
    proof {
        assert(rv.take(rv.len() as int) =~~= rv);
    }
    acc
}

/// `es` with the entry keyed `k` (if any) removed.
fn entries_remove_key_exec(es: &Vec<(String, String)>, k: &str) -> (r: Vec<(String, String)>)
    ensures
        r.deep_view() == remove_key(es.deep_view(), k@),
{
    let j = find_key(es, k);
    let mut r = dup_entries(es);
    if j < r.len() {
        r.remove(j);
        proof {
            assert(r.deep_view() =~~= es.deep_view().remove(j as int));
        }
    }
    r
}

/// `es` after removing the entry of each key of `ks`, in order.
fn entries_remove_keys_exec(es: &Vec<(String, String)>, ks: &Vec<String>) -> (r: Vec<
    (String, String),
>)
    ensures
        r.deep_view() == remove_keys(es.deep_view(), ks.deep_view()),
{
    let ghost kv = ks.deep_view();
    let mut acc = dup_entries(es);
    let mut i: usize = 0;
    while i < ks.len()
        invariant
            0 <= i <= ks.len(),
            kv == ks.deep_view(),
            acc.deep_view() == remove_keys(es.deep_view(), kv.take(i as int)),
        decreases ks.len() - i,
    {
        proof {
            assert(kv.take(i + 1).drop_last() =~~= kv.take(i as int));
            assert(kv.take(i + 1).last() == kv[i as int]);
        }
        acc = entries_remove_key_exec(&acc, ks[i].as_str());
        i += 1;
    }
    proof {
        assert(kv.take(kv.len() as int) =~~= kv);
    }
    acc
}

/// What one algebra step produced: the next value, a floating-point
/// computation left to the host (carrying the operand bit patterns), or
/// an unsupported combination that the caller reports and skips.
#[derive(Debug, Clone, PartialEq)]
pub enum StepOutcome {
    /// The next value to write.
    Next(SetValue),
    /// The host must add the two floating-point operands, current first.
    FloatAppend(u64, u64),
    /// The host must subtract the current value (second) from the
    /// requested value (first): remove keeps the documented
    /// requested-minus-current convention.
    FloatRemove(u64, u64),
    /// No rule covers the combination; the mutation is skipped.
    Unsupported,
}

/// The mathematical shape of a `StepOutcome`.
pub enum StepView {
    Next(ValueView),
    FloatAppend(u64, u64),
    FloatRemove(u64, u64),
    Unsupported,
}

impl View for StepOutcome {
    type V = StepView;

    open spec fn view(&self) -> StepView {
        match self {
            StepOutcome::Next(v) => StepView::Next(v@),
            StepOutcome::FloatAppend(c, r) => StepView::FloatAppend(*c, *r),
            StepOutcome::FloatRemove(c, r) => StepView::FloatRemove(*c, *r),
            StepOutcome::Unsupported => StepView::Unsupported,
        }
    }
}

/// The decision table of the algebra, one arm per rule, in priority
/// order: the flag-list assign conversion, then general assign, then the
/// pairwise edit rules, and everything else unsupported.
pub open spec fn step_spec(cur: ValueView, req: ValueView, op: Operation) -> StepView {
    match (cur, req, op) {
        (ValueView::Chars(_), ValueView::List(l), Operation::Assign) => StepView::Next(
            ValueView::Chars(dedup_seq(concat_all(l))),
        ),
        (_, r, Operation::Assign) => StepView::Next(r),
        (ValueView::Float(c), ValueView::Float(r), Operation::Append) => StepView::FloatAppend(
            c,
            r,
        ),
        (ValueView::Float(c), ValueView::Float(r), Operation::Remove) => StepView::FloatRemove(
            c,
            r,
        ),
        (ValueView::Integer(c), ValueView::Integer(r), Operation::Append) => StepView::Next(
            ValueView::Integer(c.wrapping_add(r)),
        ),
        (ValueView::Integer(c), ValueView::Integer(r), Operation::Remove) => StepView::Next(
            ValueView::Integer(r.wrapping_sub(c)),
        ),
        (ValueView::String(c), ValueView::String(r), Operation::Append) => StepView::Next(
            ValueView::String(c + r),
        ),
        (ValueView::String(c), ValueView::String(r), Operation::Prepend) => StepView::Next(
            ValueView::String(r + c),
        ),
        (ValueView::String(c), ValueView::String(r), Operation::Remove) => StepView::Next(
            ValueView::String(remove_first_sub(c, r)),
        ),
        (ValueView::List(c), ValueView::List(r), Operation::Append) => StepView::Next(
            ValueView::List(c + r),
        ),
        (ValueView::List(c), ValueView::List(r), Operation::Prepend) => StepView::Next(
            ValueView::List(r + c),
        ),
        (ValueView::List(c), ValueView::List(r), Operation::Remove) => StepView::Next(
            ValueView::List(list_remove_all(c, r)),
        ),
        (ValueView::List(c), ValueView::String(r), Operation::Append) => StepView::Next(
            ValueView::List(c.push(r)),
        ),
        (ValueView::List(c), ValueView::String(r), Operation::Prepend) => StepView::Next(
            ValueView::List(seq![r] + c),
        ),
        (ValueView::List(c), ValueView::String(r), Operation::Remove) => StepView::Next(
            ValueView::List(list_remove_one(c, r)),
        ),
        (
            ValueView::Chars(c),
            ValueView::String(r),
            Operation::Append | Operation::Prepend,
        ) => StepView::Next(ValueView::Chars(dedup_seq(c + r))),
        (ValueView::Chars(c), ValueView::String(r), Operation::Remove) => StepView::Next(
            ValueView::Chars(remove_chars(c, r)),
        ),
        (
            ValueView::Chars(c),
            ValueView::List(r),
            Operation::Append | Operation::Prepend,
        ) => StepView::Next(ValueView::Chars(dedup_seq(c + concat_all(r)))),
        (ValueView::Chars(c), ValueView::List(r), Operation::Remove) => StepView::Next(
            ValueView::Chars(remove_chars(c, concat_all(r))),
        ),
        (
            ValueView::Entries(c),
            ValueView::Entries(r),
            Operation::Append | Operation::Prepend,
        ) => StepView::Next(ValueView::Entries(overlay(c, r))),
        (ValueView::Entries(c), ValueView::List(r), Operation::Remove) => StepView::Next(
            ValueView::Entries(remove_keys(c, r)),
        ),
        (ValueView::Entries(c), ValueView::String(r), Operation::Remove) => StepView::Next(
            ValueView::Entries(remove_key(c, r)),
        ),
        _ => StepView::Unsupported,
    }
}

/// One algebra step: applies `op` with the `requested` value to the
/// `current` value. Total: every combination yields an outcome, and
/// combinations no rule covers yield `Unsupported` rather than an error.
/// Well-formed inputs give a well-formed next value.
pub fn step(current: &SetValue, requested: &SetValue, op: Operation) -> (o: StepOutcome)
    requires
        current@.wf(),
        requested@.wf(),
    ensures
        o@ == step_spec(current@, requested@, op),
        o@ matches StepView::Next(v) ==> v.wf(),
{
    match (current, requested, op) {
        (SetValue::Chars(_), SetValue::List(l), Operation::Assign) => {
            let flat = flatten_chars(l);
            let mut acc: Vec<char> = Vec::new();
            extend_dedup(&mut acc, &flat);
            proof {
                assert(Seq::<char>::empty() + flat@ =~= flat@);
                lemma_dedup_props(flat@);
            }
            StepOutcome::Next(SetValue::Chars(acc))
        },
        (_, r, Operation::Assign) => StepOutcome::Next(r.dup()),
        (SetValue::Float(c), SetValue::Float(r), Operation::Append) => StepOutcome::FloatAppend(
            *c,
            *r,
        ),
        (SetValue::Float(c), SetValue::Float(r), Operation::Remove) => StepOutcome::FloatRemove(
            *c,
            *r,
        ),
        (SetValue::Integer(c), SetValue::Integer(r), Operation::Append) => StepOutcome::Next(
            SetValue::Integer(c.wrapping_add(*r)),
        ),
        (SetValue::Integer(c), SetValue::Integer(r), Operation::Remove) => StepOutcome::Next(
            SetValue::Integer(r.wrapping_sub(*c)),
        ),
        (SetValue::String(c), SetValue::String(r), Operation::Append) => StepOutcome::Next(
            SetValue::String(c.clone().concat(r.as_str())),
        ),
        (SetValue::String(c), SetValue::String(r), Operation::Prepend) => StepOutcome::Next(
            SetValue::String(r.clone().concat(c.as_str())),
        ),
        (SetValue::String(c), SetValue::String(r), Operation::Remove) => StepOutcome::Next(
            SetValue::String(remove_first_str(c.as_str(), r.as_str())),
        ),
        (SetValue::List(c), SetValue::List(r), Operation::Append) => StepOutcome::Next(
            SetValue::List(list_concat(c, r)),
        ),
        (SetValue::List(c), SetValue::List(r), Operation::Prepend) => StepOutcome::Next(
            SetValue::List(list_concat(r, c)),
        ),
        (SetValue::List(c), SetValue::List(r), Operation::Remove) => StepOutcome::Next(
            SetValue::List(list_remove_all_exec(c, r)),
        ),
        (SetValue::List(c), SetValue::String(r), Operation::Append) => {
            let mut v = dup_strings(c);
            v.push(r.clone());
            proof {
                assert(v.deep_view() =~~= c.deep_view().push(r@));
            }
            StepOutcome::Next(SetValue::List(v))
        },
        (SetValue::List(c), SetValue::String(r), Operation::Prepend) => {
            let mut v = dup_strings(c);
            v.insert(0, r.clone());
            proof {
                assert(v.deep_view() =~~= seq![r@] + c.deep_view());
            }
            StepOutcome::Next(SetValue::List(v))
        },
        (SetValue::List(c), SetValue::String(r), Operation::Remove) => StepOutcome::Next(
            SetValue::List(list_remove_one_exec(c, r.as_str())),
        ),
        (
            SetValue::Chars(c),
            SetValue::String(r),
            Operation::Append | Operation::Prepend,
        ) => {
            let extra = chars_of(r.as_str());
            let out = chars_union(c, &extra);
            proof {
                lemma_dedup_props(c@ + r@);
            }
            StepOutcome::Next(SetValue::Chars(out))
        },
        (SetValue::Chars(c), SetValue::String(r), Operation::Remove) => {
            let bad = chars_of(r.as_str());
            let out = chars_minus(c, &bad);
            proof {
                lemma_remove_chars_props(c@, r@);
            }
            StepOutcome::Next(SetValue::Chars(out))
        },
        (SetValue::Chars(c), SetValue::List(r), Operation::Append | Operation::Prepend) => {
            let extra = flatten_chars(r);
            let out = chars_union(c, &extra);
            proof {
                lemma_dedup_props(c@ + concat_all(r.deep_view()));
            }
            StepOutcome::Next(SetValue::Chars(out))
        },
        (SetValue::Chars(c), SetValue::List(r), Operation::Remove) => {
            let bad = flatten_chars(r);
            let out = chars_minus(c, &bad);
            proof {
                lemma_remove_chars_props(c@, concat_all(r.deep_view()));
            }
            StepOutcome::Next(SetValue::Chars(out))
        },
        (
            SetValue::Entries(c),
            SetValue::Entries(r),
            Operation::Append | Operation::Prepend,
        ) => {
            let out = entries_overlay_exec(c, r);
            proof {
                lemma_overlay_wf(c.deep_view(), r.deep_view());
            }
            StepOutcome::Next(SetValue::Entries(out))
        },
        (SetValue::Entries(c), SetValue::List(r), Operation::Remove) => {
            let out = entries_remove_keys_exec(c, r);
            proof {
                lemma_remove_keys_wf(c.deep_view(), r.deep_view());
            }
            StepOutcome::Next(SetValue::Entries(out))
        },
        (SetValue::Entries(c), SetValue::String(r), Operation::Remove) => {
            let out = entries_remove_key_exec(c, r.as_str());
            proof {
                lemma_remove_key_wf(c.deep_view(), r@);
            }
            StepOutcome::Next(SetValue::Entries(out))
        },
        _ => StepOutcome::Unsupported,
    }
}

/// One requested mutation from a document: the option key, the
/// operation, and the requested value.
#[derive(Debug, Clone, PartialEq)]
pub struct SetDirective(pub String, pub Operation, pub SetValue);

impl View for SetDirective {
    type V = (Seq<char>, Operation, ValueView);

    open spec fn view(&self) -> (Seq<char>, Operation, ValueView) {
        (self.0@, self.1, self.2@)
    }
}

impl DeepView for SetDirective {
    type V = (Seq<char>, Operation, ValueView);

    open spec fn deep_view(&self) -> (Seq<char>, Operation, ValueView) {
        self.view()
    }
}

/// The directive a bare flag name stands for: `name` assigns true, and a
/// name with the `no` prefix assigns false to the option after the
/// prefix.
pub open spec fn flag_directive_spec(n: Seq<char>) -> (Seq<char>, Operation, ValueView) {
    if n.len() >= 2 && n[0] == 'n' && n[1] == 'o' {
        (n.subrange(2, n.len() as int), Operation::Assign, ValueView::Bool(false))
    } else {
        (n, Operation::Assign, ValueView::Bool(true))
    }
}

impl SetDirective {
    /// The directive a bare flag name stands for, as
    /// `flag_directive_spec` says.
    pub fn from_flag(name: String) -> (r: SetDirective)
        ensures
            r@ == flag_directive_spec(name@),
    {
        let n = name.as_str().unicode_len();
        if n >= 2 && name.as_str().get_char(0) == 'n' && name.as_str().get_char(1) == 'o' {
            let stripped = name.as_str().substring_char(2, n).to_owned();
            proof {
                assert(stripped@ =~= name@.subrange(2, name@.len() as int));
            }
            SetDirective(stripped, Operation::Assign, SetValue::Bool(false))
        } else {
            SetDirective(name, Operation::Assign, SetValue::Bool(true))
        }
    }

    /// A copy of this directive, equal under the view.
    pub fn dup(&self) -> (r: SetDirective)
        ensures
            r@ == self@,
    {
        SetDirective(self.0.clone(), self.1, self.2.dup())
    }
}

} // verus!
