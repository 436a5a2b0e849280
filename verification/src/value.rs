//! The typed value model for option values: a closed tagged union over
//! booleans, strings, integers, floating-point values (carried as their
//! IEEE-754 bit pattern), comma-lists, flag-lists (character sets) and
//! string-keyed maps, together with the `read`/`write` pair that converts
//! between a host's raw option representation and this model.

use vstd::prelude::*;

use crate::text::{
    chars_of, dedup_seq, extend_dedup, first_sep, join_char, join_seq, lemma_dedup_of_distinct,
    lemma_dedup_props, lemma_first_sep, lemma_split_join, split_char, split_once_char,
    split_once_seq, split_seq, str_eq, string_of_chars,
};

verus! {

/// An option value, in the representation the host exposes for the
/// option's class: a comma-list becomes `List` (or `Map` for the few
/// map-like comma-lists), a flag-list becomes `Set` (distinct characters),
/// and everything else keeps its native kind. A floating-point value is
/// carried as its IEEE-754 bit pattern, untouched by this crate.
#[derive(Debug, Clone, PartialEq)]
pub enum SetValue {
    Bool(bool),
    String(String),
    Integer(i64),
    Float(u64),
    List(Vec<String>),
    Chars(Vec<char>),
    Entries(Vec<(String, String)>),
}

/// The mathematical shape of a `SetValue`.
pub enum ValueView {
    Bool(bool),
    String(Seq<char>),
    Integer(i64),
    Float(u64),
    List(Seq<Seq<char>>),
    Chars(Seq<char>),
    Entries(Seq<(Seq<char>, Seq<char>)>),
}

impl View for SetValue {
    type V = ValueView;

    open spec fn view(&self) -> ValueView {
        match self {
            SetValue::Bool(b) => ValueView::Bool(*b),
            SetValue::String(s) => ValueView::String(s@),
            SetValue::Integer(i) => ValueView::Integer(*i),
            SetValue::Float(bits) => ValueView::Float(*bits),
            SetValue::List(v) => ValueView::List(v.deep_view()),
            SetValue::Chars(v) => ValueView::Chars(v@),
            SetValue::Entries(v) => ValueView::Entries(v.deep_view()),
        }
    }
}

/// A map value holds each key at most once.
pub open spec fn map_keys_distinct(es: Seq<(Seq<char>, Seq<char>)>) -> bool {
    forall|i: int, j: int| 0 <= i < j < es.len() ==> (#[trigger] es[i]).0 != (#[trigger] es[j]).0
}

impl ValueView {
    /// Well-formedness: a flag-list holds each character once, a map
    /// holds each key once. The other kinds carry no invariant.
    pub open spec fn wf(self) -> bool {
        match self {
            ValueView::Chars(cs) => cs.no_duplicates(),
            ValueView::Entries(es) => map_keys_distinct(es),
            _ => true,
        }
    }
}

/// The host's raw representation of an option value, as handed to `read`
/// and produced by `write`. `Other` carries the name of a native kind this
/// model does not support, for the unsupported-type diagnostic.
#[derive(Debug, Clone, PartialEq)]
pub enum RawValue {
    Str(String),
    Bool(bool),
    Integer(i64),
    Float(u64),
    Other(String),
}

/// The mathematical shape of a `RawValue`.
pub enum RawView {
    Str(Seq<char>),
    Bool(bool),
    Integer(i64),
    Float(u64),
    Other(Seq<char>),
}

impl View for RawValue {
    type V = RawView;

    open spec fn view(&self) -> RawView {
        match self {
            RawValue::Str(s) => RawView::Str(s@),
            RawValue::Bool(b) => RawView::Bool(*b),
            RawValue::Integer(i) => RawView::Integer(*i),
            RawValue::Float(bits) => RawView::Float(*bits),
            RawValue::Other(k) => RawView::Other(k@),
        }
    }
}

/// The kind name of a raw value, as used in conversion diagnostics.
pub open spec fn kind_name_spec(raw: RawView) -> Seq<char> {
    match raw {
        RawView::Str(_) => "string"@,
        RawView::Bool(_) => "boolean"@,
        RawView::Integer(_) => "integer"@,
        RawView::Float(_) => "float"@,
        RawView::Other(k) => k,
    }
}

impl RawValue {
    /// The kind name of this raw value, as used in conversion diagnostics.
    pub fn kind_name(&self) -> (r: String)
        ensures
            r@ == kind_name_spec(self@),
    {
        match self {
            RawValue::Str(_) => "string".to_owned(),
            RawValue::Bool(_) => "boolean".to_owned(),
            RawValue::Integer(_) => "integer".to_owned(),
            RawValue::Float(_) => "float".to_owned(),
            RawValue::Other(k) => k.clone(),
        }
    }
}

/// Why a raw option value could not be read into the value model. Both
/// variants carry the offending raw kind's name.
#[derive(Debug, Clone, PartialEq)]
pub enum ConvError {
    /// A comma-list or flag-list option whose raw value is not a string.
    NotAString(String),
    /// A native option of a kind outside boolean, integer and float.
    WrongType(String),
}

/// The mathematical shape of a `ConvError`.
pub enum ConvErrorView {
    NotAString(Seq<char>),
    WrongType(Seq<char>),
}

impl View for ConvError {
    type V = ConvErrorView;

    open spec fn view(&self) -> ConvErrorView {
        match self {
            ConvError::NotAString(k) => ConvErrorView::NotAString(k@),
            ConvError::WrongType(k) => ConvErrorView::WrongType(k@),
        }
    }
}

/// The small fixed set of comma-list options whose entries are `key:value`
/// pairs, read as a map rather than a list.
pub open spec fn maplike_name(name: Seq<char>) -> bool {
    name == "fillchars"@ || name == "listchars"@ || name == "winhl"@
}

/// True when `name` names a map-like comma-list option.
pub fn is_maplike(name: &str) -> (r: bool)
    ensures
        r == maplike_name(name@),
{
    str_eq(name, "fillchars") || str_eq(name, "listchars") || str_eq(name, "winhl")
}

/// First index in `es` whose key is `k`, or `es.len()` when absent.
pub open spec fn first_key(es: Seq<(Seq<char>, Seq<char>)>, k: Seq<char>) -> int
    decreases es.len(),
{
    if es.len() == 0 {
        0
    } else if es[0].0 == k {
        0
    } else {
        1 + first_key(es.drop_first(), k)
    }
}

pub proof fn lemma_first_key(es: Seq<(Seq<char>, Seq<char>)>, k: Seq<char>)
    ensures
        0 <= first_key(es, k) <= es.len(),
        first_key(es, k) < es.len() ==> es[first_key(es, k)].0 == k,
        forall|j: int| 0 <= j < first_key(es, k) ==> (#[trigger] es[j]).0 != k,
    decreases es.len(),
{
    if es.len() == 0 {
    } else if es[0].0 == k {
    } else {
        lemma_first_key(es.drop_first(), k);
        assert forall|j: int| 0 <= j < first_key(es, k) implies (#[trigger] es[j]).0 != k by {
            if j > 0 {
                assert(es.drop_first()[j - 1] == es[j]);
            }
        }
    }
}

pub proof fn lemma_first_key_is(es: Seq<(Seq<char>, Seq<char>)>, k: Seq<char>, i: int)
    requires
        0 <= i <= es.len(),
        forall|j: int| 0 <= j < i ==> (#[trigger] es[j]).0 != k,
        i < es.len() ==> es[i].0 == k,
    ensures
        first_key(es, k) == i,
{
    lemma_first_key(es, k);
    let f = first_key(es, k);
    if f < i {
        assert(es[f].0 == k);
    } else if f > i {
        assert(es[i].0 != k);
    }
}

/// Store `k -> v` in the map entries: replace the value at `k`'s entry
/// when the key is present, append a new entry otherwise.
pub open spec fn upsert(
    es: Seq<(Seq<char>, Seq<char>)>,
    k: Seq<char>,
    v: Seq<char>,
) -> Seq<(Seq<char>, Seq<char>)> {
    let j = first_key(es, k);
    if j < es.len() {
        es.update(j, (k, v))
    } else {
        es.push((k, v))
    }
}

/// Upserting keeps keys distinct.
pub proof fn lemma_upsert_wf(es: Seq<(Seq<char>, Seq<char>)>, k: Seq<char>, v: Seq<char>)
    requires
        map_keys_distinct(es),
    ensures
        map_keys_distinct(upsert(es, k, v)),
        upsert(es, k, v).len() <= es.len() + 1,
{
    lemma_first_key(es, k);
}

/// First index in `entries` whose key is `k`, or the length when absent.
pub fn find_key(entries: &Vec<(String, String)>, k: &str) -> (r: usize)
    ensures
        r == first_key(entries.deep_view(), k@),
        r <= entries.len(),
{
    let ghost es = entries.deep_view();
    let mut j: usize = 0;
    while j < entries.len()
        invariant
            0 <= j <= entries.len(),
            es == entries.deep_view(),
            forall|jj: int| 0 <= jj < j ==> (#[trigger] es[jj]).0 != k@,
        decreases entries.len() - j,
    {
        if str_eq(entries[j].0.as_str(), k) {
            proof {
                lemma_first_key_is(es, k@, j as int);
            }
            return j;
        }
        j += 1;
    }
    proof {
        lemma_first_key_is(es, k@, es.len() as int);
    }
    j
}

/// Store `k -> v` in the map entries held by `entries`.
pub fn upsert_entries(entries: &mut Vec<(String, String)>, k: String, v: String)
    ensures
        final(entries).deep_view() == upsert(old(entries).deep_view(), k@, v@),
{
    let ghost es = entries.deep_view();
    let ghost gk = k@;
    let ghost gv = v@;
    let j = find_key(entries, k.as_str());
    if j < entries.len() {
        entries.remove(j);
        entries.insert(j, (k, v));
        proof {
            assert(entries.deep_view() =~~= upsert(es, gk, gv));
        }
    } else {
        entries.push((k, v));
        proof {
            assert(entries.deep_view() =~~= upsert(es, gk, gv));
        }
    }
}

/// Folds the comma-separated segments of a map-like option into map
/// entries, left to right: empty segments are skipped, a segment with a
/// colon becomes a `key:value` entry (splitting at the first colon, later
/// entries winning on key collision), and a segment without a colon is
/// dropped and reported as ill-formed.
pub open spec fn parse_entries(segs: Seq<Seq<char>>) -> (Seq<(Seq<char>, Seq<char>)>, Seq<
    Seq<char>,
>)
    decreases segs.len(),
{
    if segs.len() == 0 {
        (Seq::empty(), Seq::empty())
    } else {
        let rec = parse_entries(segs.drop_last());
        let e = segs.last();
        if e.len() == 0 {
            rec
        } else {
            match split_once_seq(e, ':') {
                Some(kv) => (upsert(rec.0, kv.0, kv.1), rec.1),
                None => (rec.0, rec.1.push(e)),
            }
        }
    }
}

/// The entries produced by `parse_entries` have distinct keys.
pub proof fn lemma_parse_entries_wf(segs: Seq<Seq<char>>)
    ensures
        map_keys_distinct(parse_entries(segs).0),
    decreases segs.len(),
{
    if segs.len() == 0 {
    } else {
        lemma_parse_entries_wf(segs.drop_last());
        let rec = parse_entries(segs.drop_last());
        let e = segs.last();
        if e.len() != 0 {
            match split_once_seq(e, ':') {
                Some(kv) => {
                    lemma_upsert_wf(rec.0, kv.0, kv.1);
                },
                None => {},
            }
        }
    }
}

/// An empty diagnostics list.
fn no_diags() -> (r: Vec<String>)
    ensures
        r.deep_view() == Seq::<Seq<char>>::empty(),
        r@ == Seq::<String>::empty(),
{
    let r: Vec<String> = Vec::new();
    proof {
        assert(r.deep_view() =~~= Seq::<Seq<char>>::empty());
    }
    r
}

/// What `read` produces for each option class: a comma-list splits on
/// commas into a list (or, for a map-like option, folds into map entries
/// with ill-formed segments reported alongside), a flag-list becomes the
/// set of the string's characters, and a native value must be a boolean,
/// integer or float.
pub open spec fn read_spec(commalist: bool, flaglist: bool, maplike: bool, raw: RawView) -> Result<
    (ValueView, Seq<Seq<char>>),
    ConvErrorView,
> {
    if commalist {
        match raw {
            RawView::Str(s) => if maplike {
                let rec = parse_entries(split_seq(s, ','));
                Ok((ValueView::Entries(rec.0), rec.1))
            } else {
                Ok((ValueView::List(split_seq(s, ',')), Seq::empty()))
            },
            _ => Err(ConvErrorView::NotAString(kind_name_spec(raw))),
        }
    } else if flaglist {
        match raw {
            RawView::Str(s) => Ok((ValueView::Chars(dedup_seq(s)), Seq::empty())),
            _ => Err(ConvErrorView::NotAString(kind_name_spec(raw))),
        }
    } else {
        match raw {
            RawView::Bool(b) => Ok((ValueView::Bool(b), Seq::empty())),
            RawView::Float(bits) => Ok((ValueView::Float(bits), Seq::empty())),
            RawView::Integer(i) => Ok((ValueView::Integer(i), Seq::empty())),
            _ => Err(ConvErrorView::WrongType(kind_name_spec(raw))),
        }
    }
}

impl SetValue {
    /// Reads a raw option value into the value model, reproducing the
    /// representation the host exposes for the option's class: `commalist`
    /// and `flaglist` describe the class, `name` selects the few map-like
    /// comma-lists. Returns the value together with the dropped ill-formed
    /// map segments, to be reported as diagnostics by the caller.
    pub fn from_option(commalist: bool, flaglist: bool, name: &str, raw: RawValue) -> (r: Result<
        (SetValue, Vec<String>),
        ConvError,
    >)
        ensures
            (match r {
                Ok(ok) => read_spec(commalist, flaglist, maplike_name(name@), raw@) == Ok::<
                    _,
                    ConvErrorView,
                >((ok.0@, ok.1.deep_view())),
                Err(e) => read_spec(commalist, flaglist, maplike_name(name@), raw@) == Err::<
                    (ValueView, Seq<Seq<char>>),
                    _,
                >(e@),
            }),
            r is Ok ==> r->Ok_0.0@.wf(),
    {
        let maplike = is_maplike(name);
        if commalist {
            match raw {
                RawValue::Str(s) => {
                    let segs = split_char(s.as_str(), ',');
                    if maplike {
                        let ghost sv = segs.deep_view();
                        let mut entries: Vec<(String, String)> = Vec::new();
                        let mut ill: Vec<String> = Vec::new();
                        let mut i: usize = 0;
                        while i < segs.len()
                            invariant
                                0 <= i <= segs.len(),
                                sv == segs.deep_view(),
                                entries.deep_view() == parse_entries(sv.take(i as int)).0,
                                ill.deep_view() == parse_entries(sv.take(i as int)).1,
                            decreases segs.len() - i,
                        {
                            proof {
                                assert(sv.take(i + 1).drop_last() =~~= sv.take(i as int));
                                assert(sv.take(i + 1).last() == sv[i as int]);
                            }
                            let e = &segs[i];
                            if e.unicode_len() > 0 {
                                match split_once_char(e.as_str(), ':') {
                                    Some((k, v)) => {
                                        upsert_entries(&mut entries, k, v);
                                    },
                                    None => {
                                        ill.push(e.clone());
                                        proof {
                                            assert(ill.deep_view() =~~= parse_entries(
                                                sv.take(i + 1),
                                            ).1);
                                        }
                                    },
                                }
                            }
                            i += 1;
                        }
                        proof {
                            assert(sv.take(sv.len() as int) =~~= sv);
                            lemma_parse_entries_wf(sv);
                        }
                        Ok((SetValue::Entries(entries), ill))
                    } else {
                        Ok((SetValue::List(segs), no_diags()))
                    }
                },
                other => Err(ConvError::NotAString(other.kind_name())),
            }
        } else if flaglist {
            match raw {
                RawValue::Str(s) => {
                    let cs = chars_of(s.as_str());
                    let mut acc: Vec<char> = Vec::new();
                    extend_dedup(&mut acc, &cs);
                    proof {
                        assert(Seq::<char>::empty() + s@ =~= s@);
                        lemma_dedup_props(s@);
                    }
                    Ok((SetValue::Chars(acc), no_diags()))
                },
                other => Err(ConvError::NotAString(other.kind_name())),
            }
        } else {
            match raw {
                RawValue::Bool(b) => Ok((SetValue::Bool(b), no_diags())),
                RawValue::Float(bits) => Ok((SetValue::Float(bits), no_diags())),
                RawValue::Integer(i) => Ok((SetValue::Integer(i), no_diags())),
                other => Err(ConvError::WrongType(other.kind_name())),
            }
        }
    }
}

/// The rendering `key:value` of each map entry, in order.
pub open spec fn entry_strings(es: Seq<(Seq<char>, Seq<char>)>) -> Seq<Seq<char>> {
    es.map_values(|e: (Seq<char>, Seq<char>)| e.0 + seq![':'] + e.1)
}

/// What `write` produces for each value kind: a comma-list serializes as
/// its comma-joined elements, a map as comma-joined `key:value` pairs, a
/// flag-list as the concatenation of its characters in iteration order,
/// and the native kinds pass through.
pub open spec fn write_spec(v: ValueView) -> RawView {
    match v {
        ValueView::Bool(b) => RawView::Bool(b),
        ValueView::String(s) => RawView::Str(s),
        ValueView::Integer(i) => RawView::Integer(i),
        ValueView::Float(bits) => RawView::Float(bits),
        ValueView::List(l) => RawView::Str(join_seq(l, ',')),
        ValueView::Chars(cs) => RawView::Str(cs),
        ValueView::Entries(es) => RawView::Str(join_seq(entry_strings(es), ',')),
    }
}

impl SetValue {
    /// Serializes this value back into the host's raw representation;
    /// the inverse of `from_option` on every value `from_option` produces.
    pub fn to_raw(&self) -> (r: RawValue)
        ensures
            r@ == write_spec(self@),
    {
        match self {
            SetValue::Bool(b) => RawValue::Bool(*b),
            SetValue::String(s) => RawValue::Str(s.clone()),
            SetValue::Integer(i) => RawValue::Integer(*i),
            SetValue::Float(bits) => RawValue::Float(*bits),
            SetValue::List(v) => RawValue::Str(join_char(v, ',')),
            SetValue::Chars(v) => RawValue::Str(string_of_chars(v)),
            SetValue::Entries(v) => {
                let mut parts: Vec<String> = Vec::new();
                let mut i: usize = 0;
                while i < v.len()
                    invariant
                        0 <= i <= v.len(),
                        parts.deep_view() == entry_strings(v.deep_view().take(i as int)),
                    decreases v.len() - i,
                {
                    let mut part = v[i].0.clone();
                    part.push(':');
                    part.append(v[i].1.as_str());
                    let ghost gpart = part@;
                    let ghost prev = parts.deep_view();
                    proof {
                        let es = v.deep_view();
                        assert(gpart =~= es[i as int].0 + seq![':'] + es[i as int].1);
                    }
                    parts.push(part);
                    proof {
                        let es = v.deep_view();
                        assert(parts.deep_view() =~~= prev.push(gpart));
                        assert(parts.deep_view() =~~= entry_strings(es.take(i + 1)));
                    }
                    i += 1;
                }
                proof {
                    let es = v.deep_view();
                    assert(es.take(es.len() as int) =~~= es);
                    assert(parts.deep_view() =~~= entry_strings(es));
                }
                RawValue::Str(join_char(&parts, ','))
            },
        }
    }
}

/// Shape of a list value that `read` can produce for a plain comma-list:
/// at least one segment, none containing a comma.
pub open spec fn list_producible(l: Seq<Seq<char>>) -> bool {
    l.len() >= 1 && forall|i: int| 0 <= i < l.len() ==> !(#[trigger] l[i]).contains(',')
}

/// Shape of a map value that `read` can produce for a map-like
/// comma-list: distinct keys, no colon or comma in a key, no comma in a
/// value.
pub open spec fn entries_producible(es: Seq<(Seq<char>, Seq<char>)>) -> bool {
    &&& map_keys_distinct(es)
    &&& forall|i: int|
        0 <= i < es.len() ==> {
            &&& !(#[trigger] es[i]).0.contains(':')
            &&& !es[i].0.contains(',')
            &&& !es[i].1.contains(',')
        }
}

/// The values `read` can produce for a given option class.
pub open spec fn producible(v: ValueView, commalist: bool, flaglist: bool, maplike: bool) -> bool {
    if commalist {
        if maplike {
            match v {
                ValueView::Entries(es) => entries_producible(es),
                _ => false,
            }
        } else {
            match v {
                ValueView::List(l) => list_producible(l),
                _ => false,
            }
        }
    } else if flaglist {
        match v {
            ValueView::Chars(cs) => cs.no_duplicates(),
            _ => false,
        }
    } else {
        match v {
            ValueView::Bool(_) => true,
            ValueView::Integer(_) => true,
            ValueView::Float(_) => true,
            _ => false,
        }
    }
}

/// Parsing the rendered `key:value` segments of a well-shaped map
/// recovers exactly its entries, with nothing ill-formed.
proof fn lemma_parse_entry_strings(es: Seq<(Seq<char>, Seq<char>)>)
    requires
        entries_producible(es),
    ensures
        parse_entries(entry_strings(es)).0 == es,
        parse_entries(entry_strings(es)).1 == Seq::<Seq<char>>::empty(),
    decreases es.len(),
{
    let ss = entry_strings(es);
    if es.len() == 0 {
        assert(ss =~~= Seq::<Seq<char>>::empty());
    } else {
        let head = es.drop_last();
        assert(entries_producible(head)) by {
            assert forall|i: int, j: int|
                0 <= i < j < head.len() implies (#[trigger] head[i]).0 != (#[trigger] head[j]).0 by {
                assert(head[i] == es[i] && head[j] == es[j]);
            }
            assert forall|i: int| 0 <= i < head.len() implies {
                &&& !(#[trigger] head[i]).0.contains(':')
                &&& !head[i].0.contains(',')
                &&& !head[i].1.contains(',')
            } by {
                assert(head[i] == es[i]);
            }
        }
        lemma_parse_entry_strings(head);
        assert(ss.drop_last() =~~= entry_strings(head));
        let k = es.last().0;
        let v = es.last().1;
        let e = ss.last();
        assert(e == k + seq![':'] + v) by {
            assert(es.last() == es[es.len() - 1]);
        }
        assert(e.len() == k.len() + 1 + v.len());
        assert forall|j: int| 0 <= j < k.len() implies e[j] != ':' by {
            assert(e[j] == k[j]);
            assert(!k.contains(':'));
            if k[j] == ':' {
                assert(k.contains(':'));
            }
        }
        assert(e[k.len() as int] == ':');
        crate::text::lemma_first_sep_is(e, ':', k.len() as int);
        assert(split_once_seq(e, ':') == Some((k, v))) by {
            assert(e.subrange(0, k.len() as int) =~= k);
            assert(e.subrange(k.len() as int + 1, e.len() as int) =~= v);
        }
        assert(forall|j: int|
            0 <= j < head.len() ==> (#[trigger] head[j]).0 != k) by {
            assert forall|j: int| 0 <= j < head.len() implies (#[trigger] head[j]).0 != k by {
                assert(head[j] == es[j]);
                assert(es.last() == es[es.len() - 1]);
            }
        }
        lemma_first_key_is(head, k, head.len() as int);
        assert(upsert(head, k, v) =~~= es) by {
            assert(head.push((k, v)) =~~= es) by {
                assert(es.last() == es[es.len() - 1]);
            }
        }
        assert(parse_entries(ss).0 == upsert(parse_entries(ss.drop_last()).0, k, v));
    }
}

/// Every map parsed from comma-free segments is well-shaped: distinct
/// keys, no colon or comma in a key, no comma in a value.
proof fn lemma_parse_entries_shape(segs: Seq<Seq<char>>)
    requires
        forall|i: int| 0 <= i < segs.len() ==> !(#[trigger] segs[i]).contains(','),
    ensures
        entries_producible(parse_entries(segs).0),
    decreases segs.len(),
{
    if segs.len() == 0 {
    } else {
        let head = segs.drop_last();
        assert forall|i: int| 0 <= i < head.len() implies !(#[trigger] head[i]).contains(',') by {
            assert(head[i] == segs[i]);
        }
        lemma_parse_entries_shape(head);
        let rec = parse_entries(head);
        let e = segs.last();
        assert(!e.contains(',')) by {
            assert(e == segs[segs.len() - 1]);
        }
        if e.len() == 0 {
        } else {
            match split_once_seq(e, ':') {
                Some(kv) => {
                    let i = first_sep(e, ':');
                    lemma_first_sep(e, ':');
                    let k = e.subrange(0, i);
                    let v = e.subrange(i + 1, e.len() as int);
                    assert(kv == (k, v));
                    assert(!k.contains(':')) by {
                        if k.contains(':') {
                            let j = choose|j: int| 0 <= j < k.len() && k[j] == ':';
                            assert(e[j] == ':');
                        }
                    }
                    assert(!k.contains(',')) by {
                        if k.contains(',') {
                            let j = choose|j: int| 0 <= j < k.len() && k[j] == ',';
                            assert(e[j] == ',');
                            assert(e.contains(','));
                        }
                    }
                    assert(!v.contains(',')) by {
                        if v.contains(',') {
                            let j = choose|j: int| 0 <= j < v.len() && v[j] == ',';
                            assert(e[i + 1 + j] == ',');
                            assert(e.contains(','));
                        }
                    }
                    lemma_upsert_wf(rec.0, k, v);
                    lemma_first_key(rec.0, k);
                    let up = upsert(rec.0, k, v);
                    assert forall|ii: int| 0 <= ii < up.len() implies {
                        &&& !(#[trigger] up[ii]).0.contains(':')
                        &&& !up[ii].0.contains(',')
                        &&& !up[ii].1.contains(',')
                    } by {
                        let j = first_key(rec.0, k);
                        if j < rec.0.len() {
                            if ii != j {
                                assert(up[ii] == rec.0[ii]);
                            }
                        } else {
                            if ii < rec.0.len() {
                                assert(up[ii] == rec.0[ii]);
                            }
                        }
                    }
                },
                None => {},
            }
        }
    }
}

/// Everything `read` returns is producible in its option class; together
/// with `lemma_round_trip` this closes the read/write round trip.
pub proof fn lemma_read_producible(commalist: bool, flaglist: bool, maplike: bool, raw: RawView)
    ensures
        match read_spec(commalist, flaglist, maplike, raw) {
            Ok(ok) => producible(ok.0, commalist, flaglist, maplike),
            Err(_) => true,
        },
{
    if commalist {
        match raw {
            RawView::Str(s) => {
                crate::text::lemma_split_at_least_one(s, ',');
                if maplike {
                    lemma_parse_entries_wf(split_seq(s, ','));
                    lemma_parse_entries_shape(split_seq(s, ','));
                }
            },
            _ => {},
        }
    } else if flaglist {
        match raw {
            RawView::Str(s) => {
                lemma_dedup_props(s);
            },
            _ => {},
        }
    } else {
    }
}

/// The round-trip law: reading back a written value recovers it exactly,
/// with no ill-formed segments, for every value `read` can produce for
/// the same option class.
pub proof fn lemma_round_trip(v: ValueView, commalist: bool, flaglist: bool, maplike: bool)
    requires
        producible(v, commalist, flaglist, maplike),
    ensures
        read_spec(commalist, flaglist, maplike, write_spec(v)) == Ok::<
            (ValueView, Seq<Seq<char>>),
            ConvErrorView,
        >((v, Seq::<Seq<char>>::empty())),
{
    if commalist {
        if maplike {
            let es = v->Entries_0;
            let ss = entry_strings(es);
            if es.len() == 0 {
                let joined = join_seq(ss, ',');
                assert(joined =~= Seq::<char>::empty());
                assert(first_sep(joined, ',') == 0);
                assert(split_seq(joined, ',') == seq![joined]);
                let sv = seq![joined];
                assert(sv.drop_last() =~~= Seq::<Seq<char>>::empty());
                assert(sv.last() == joined && joined.len() == 0);
                assert(parse_entries(sv) == parse_entries(sv.drop_last()));
                assert(parse_entries(sv).0 =~~= es);
                assert(parse_entries(sv).1 =~~= Seq::<Seq<char>>::empty());
            } else {
                assert forall|i: int| 0 <= i < ss.len() implies !(#[trigger] ss[i]).contains(
                    ',',
                ) by {
                    assert(ss[i] == es[i].0 + seq![':'] + es[i].1);
                    if ss[i].contains(',') {
                        let j = choose|j: int| 0 <= j < ss[i].len() && ss[i][j] == ',';
                        if j < es[i].0.len() {
                            assert(es[i].0[j] == ',');
                            assert(es[i].0.contains(','));
                        } else if j == es[i].0.len() {
                            assert(ss[i][j] == ':');
                        } else {
                            assert(es[i].1[j - es[i].0.len() - 1] == ',');
                            assert(es[i].1.contains(','));
                        }
                    }
                }
                lemma_split_join(ss, ',');
                lemma_parse_entry_strings(es);
            }
        } else {
            let l = v->List_0;
            lemma_split_join(l, ',');
        }
    } else if flaglist {
        let cs = v->Chars_0;
        lemma_dedup_of_distinct(cs);
    } else {
    }
}

} // verus!
