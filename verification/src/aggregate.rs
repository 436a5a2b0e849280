//! The aggregator: groups fragments by the condition under which they
//! apply. A fragment with no conditions merges into the single default
//! bucket; a fragment naming conditions is replicated into one bucket
//! per atomic condition value. Fragments arriving at the same bucket
//! merge in arrival order.

use vstd::prelude::*;

use crate::condition::Condition;
use crate::config::{merge_spec, Config, ConfigView};

verus! {

/// One bucket per condition key: the key is the decomposed condition's
/// value list (empty for the default bucket), the content the merged
/// fragment.
pub struct Aggregator {
    buckets: Vec<(Condition, Config)>,
}

impl View for Aggregator {
    type V = Seq<(Seq<Seq<char>>, ConfigView)>;

    closed spec fn view(&self) -> Seq<(Seq<Seq<char>>, ConfigView)> {
        self.buckets.deep_view()
    }
}

/// First index in `bs` whose key is `key`, or `bs.len()` when absent.
pub open spec fn first_bucket(bs: Seq<(Seq<Seq<char>>, ConfigView)>, key: Seq<Seq<char>>) -> int
    decreases bs.len(),
{
    if bs.len() == 0 {
        0
    } else if bs[0].0 == key {
        0
    } else {
        1 + first_bucket(bs.drop_first(), key)
    }
}

pub proof fn lemma_first_bucket(bs: Seq<(Seq<Seq<char>>, ConfigView)>, key: Seq<Seq<char>>)
    ensures
        0 <= first_bucket(bs, key) <= bs.len(),
        first_bucket(bs, key) < bs.len() ==> bs[first_bucket(bs, key)].0 == key,
        forall|j: int| 0 <= j < first_bucket(bs, key) ==> (#[trigger] bs[j]).0 != key,
    decreases bs.len(),
{
    if bs.len() == 0 {
    } else if bs[0].0 == key {
    } else {
        lemma_first_bucket(bs.drop_first(), key);
        assert forall|j: int| 0 <= j < first_bucket(bs, key) implies (#[trigger] bs[j]).0 != key by {
            if j > 0 {
                assert(bs.drop_first()[j - 1] == bs[j]);
            }
        }
    }
}

pub proof fn lemma_first_bucket_is(
    bs: Seq<(Seq<Seq<char>>, ConfigView)>,
    key: Seq<Seq<char>>,
    i: int,
)
    requires
        0 <= i <= bs.len(),
        forall|j: int| 0 <= j < i ==> (#[trigger] bs[j]).0 != key,
        i < bs.len() ==> bs[i].0 == key,
    ensures
        first_bucket(bs, key) == i,
{
    lemma_first_bucket(bs, key);
    let f = first_bucket(bs, key);
    if f < i {
        assert(bs[f].0 == key);
    } else if f > i {
        assert(bs[i].0 != key);
    }
}

/// The content of the bucket keyed `key`, if that bucket exists.
pub open spec fn contents_of(bs: Seq<(Seq<Seq<char>>, ConfigView)>, key: Seq<Seq<char>>) -> Option<
    ConfigView,
> {
    let j = first_bucket(bs, key);
    if j < bs.len() {
        Some(bs[j].1)
    } else {
        None
    }
}

/// Merging a fragment into the bucket keyed `key`: the fragment merges
/// into the existing bucket, or opens a new bucket at the end.
pub open spec fn bucket_add(
    bs: Seq<(Seq<Seq<char>>, ConfigView)>,
    key: Seq<Seq<char>>,
    frag: ConfigView,
) -> Seq<(Seq<Seq<char>>, ConfigView)> {
    let j = first_bucket(bs, key);
    if j < bs.len() {
        bs.update(j, (key, merge_spec(bs[j].1, frag)))
    } else {
        bs.push((key, frag))
    }
}

/// The atomic bucket keys a fragment's conditions decompose into: one
/// single-value key per candidate value, in order.
pub open spec fn atom_keys(conds: Seq<Seq<Seq<char>>>) -> Seq<Seq<Seq<char>>>
    decreases conds.len(),
{
    if conds.len() == 0 {
        Seq::empty()
    } else {
        atom_keys(conds.drop_last()) + conds.last().map_values(|v: Seq<char>| seq![v])
    }
}

/// Adding a fragment under each key of `keys`, in order.
pub open spec fn add_atoms(
    bs: Seq<(Seq<Seq<char>>, ConfigView)>,
    keys: Seq<Seq<Seq<char>>>,
    frag: ConfigView,
) -> Seq<(Seq<Seq<char>>, ConfigView)>
    decreases keys.len(),
{
    if keys.len() == 0 {
        bs
    } else {
        bucket_add(add_atoms(bs, keys.drop_last(), frag), keys.last(), frag)
    }
}

/// What adding one fragment does: replicated into one bucket per atomic
/// condition, or merged into the default bucket (the empty key) when it
/// has no conditions.
pub open spec fn aggregate_add(
    bs: Seq<(Seq<Seq<char>>, ConfigView)>,
    frag: ConfigView,
) -> Seq<(Seq<Seq<char>>, ConfigView)> {
    let keys = atom_keys(frag.conditions);
    if keys.len() == 0 {
        bucket_add(bs, Seq::empty(), frag)
    } else {
        add_atoms(bs, keys, frag)
    }
}

impl Aggregator {
    /// An aggregator with no buckets.
    pub fn new() -> (r: Aggregator)
        ensures
            r@ == Seq::<(Seq<Seq<char>>, ConfigView)>::empty(),
    {
        let r = Aggregator { buckets: Vec::new() };
        proof {
            assert(r@ =~~= Seq::<(Seq<Seq<char>>, ConfigView)>::empty());
        }
        r
    }

    /// First index of the bucket keyed like `key`, or the length.
    fn find_bucket(&self, key: &Condition) -> (r: usize)
        ensures
            r == first_bucket(self@, key@),
            r <= self@.len(),
    {
        let ghost bs = self@;
        let mut j: usize = 0;
        while j < self.buckets.len()
            invariant
                0 <= j <= self.buckets.len(),
                bs == self@,
                bs.len() == self.buckets@.len(),
                forall|jj: int| 0 <= jj < j ==> (#[trigger] bs[jj]).0 != key@,
            decreases self.buckets.len() - j,
        {
            if self.buckets[j].0.eq(key) {
                proof {
                    lemma_first_bucket_is(bs, key@, j as int);
                }
                return j;
            }
            j += 1;
        }
        proof {
            lemma_first_bucket_is(bs, key@, bs.len() as int);
        }
        j
    }

    /// Merges `frag` into the bucket keyed `key`, as `bucket_add` says.
    fn add_one(&mut self, key: Condition, frag: Config)
        ensures
            final(self)@ == bucket_add(old(self)@, key@, frag@),
    {
        let ghost bs = self@;
        let ghost gkey = key@;
        let ghost gfrag = frag@;
        let j = self.find_bucket(&key);
        if j < self.buckets.len() {
            let (k, mut cfg) = self.buckets.remove(j);
            cfg.merge(frag);
            let ghost gcfg = cfg@;
            self.buckets.insert(j, (key, cfg));
            proof {
                assert(self@ =~~= bs.update(j as int, (gkey, gcfg)));
                assert(self@ =~~= bucket_add(bs, gkey, gfrag));
            }
        } else {
            self.buckets.push((key, frag));
            proof {
                assert(self@ =~~= bs.push((gkey, gfrag)));
            }
        }
    }

    /// The buckets as an owned list, in the order they were opened.
    pub fn into_buckets(self) -> (r: Vec<(Condition, Config)>)
        ensures
            r.deep_view() == self@,
    {
        let Aggregator { buckets } = self;
        buckets
    }

    /// Removes and returns the default bucket's merged fragment, if any
    /// unconditional fragment arrived; the conditional buckets stay.
    pub fn drain_default(&mut self) -> (r: Option<Config>)
        ensures
            match r {
                Some(cfg) => contents_of(old(self)@, Seq::empty()) == Some(cfg@) && final(self)@
                    == old(self)@.remove(first_bucket(old(self)@, Seq::empty())),
                None => contents_of(old(self)@, Seq::empty()) is None && final(self)@ == old(
                    self,
                )@,
            },
{
        let ghost bs = self@;
        let key = Condition::empty();
        let j = self.find_bucket(&key);
        if j < self.buckets.len() {
            let (_, cfg) = self.buckets.remove(j);
            let ghost gcfg = cfg@;
            proof {
                assert(self@ =~~= bs.remove(j as int));
            }
            Some(cfg)
        } else {
            None
        }
    }
}

impl Config {
    /// Adds this fragment to the aggregator, as `aggregate_add` says:
    /// replicated into the bucket of each atomic condition it declares,
    /// or merged into the default bucket when it declares none.
    pub fn merge_into_hashmap(self, agg: &mut Aggregator)
        ensures
            final(agg)@ == aggregate_add(old(agg)@, self@),
    {
        let ghost cv = self@;
        let ghost conds = self@.conditions;
        let mut atoms: Vec<Condition> = Vec::new();
        let mut ci: usize = 0;
        while ci < self.conditions.len()
            invariant
                0 <= ci <= self.conditions.len(),
                cv == self@,
                atoms.deep_view() == atom_keys(cv.conditions.take(ci as int)),
            decreases self.conditions.len() - ci,
        {
            let mut a = self.conditions[ci].atoms();
            let ghost av = a.deep_view();
            proof {
                assert(av =~~= cv.conditions[ci as int].map_values(|v: Seq<char>| seq![v]));
                assert(cv.conditions.take(ci + 1).drop_last() =~~= cv.conditions.take(ci as int));
                assert(cv.conditions.take(ci + 1).last() == cv.conditions[ci as int]);
            }
            let ghost prev = atoms.deep_view();
            atoms.append(&mut a);
            proof {
                assert(atoms.deep_view() =~~= prev + av);
                assert(atoms.deep_view() =~~= atom_keys(cv.conditions.take(ci + 1)));
            }
            ci += 1;
        }
        proof {
            assert(cv.conditions.take(cv.conditions.len() as int) =~~= cv.conditions);
        }
        let ghost keys = atoms.deep_view();
        if atoms.len() == 0 {
            agg.add_one(Condition::empty(), self);
        } else {
            let mut i: usize = 0;
            while i < atoms.len()
                invariant
                    0 <= i <= atoms.len(),
                    keys == atoms.deep_view(),
                    keys.len() > 0,
                    keys == atom_keys(cv.conditions),
                    cv == self@,
                    agg@ == add_atoms(old(agg)@, keys.take(i as int), cv),
                decreases atoms.len() - i,
            {
                let key = atoms[i].dup();
                let frag = self.dup();
                proof {
                    assert(keys.take(i + 1).drop_last() =~~= keys.take(i as int));
                    assert(keys.take(i + 1).last() == keys[i as int]);
                }
                agg.add_one(key, frag);
                i += 1;
            }
            proof {
                assert(keys.take(keys.len() as int) =~~= keys);
            }
        }
    }
}

/// Replication: a fragment declaring conditions lands, content-identical,
/// in the bucket of each of its atomic condition values, and the default
/// bucket is untouched. Stated for distinct atomic keys; an existing
/// bucket receives the fragment merged after its content, a fresh bucket
/// holds exactly the fragment.
pub proof fn lemma_aggregation_replication(
    bs: Seq<(Seq<Seq<char>>, ConfigView)>,
    frag: ConfigView,
)
    requires
        atom_keys(frag.conditions).len() > 0,
        atom_keys(frag.conditions).no_duplicates(),
    ensures
        forall|i: int|
            0 <= i < atom_keys(frag.conditions).len() ==> contents_of(
                aggregate_add(bs, frag),
                #[trigger] atom_keys(frag.conditions)[i],
            ) == (match contents_of(bs, atom_keys(frag.conditions)[i]) {
                Some(c) => Some(merge_spec(c, frag)),
                None => Some(frag),
            }),
        contents_of(aggregate_add(bs, frag), Seq::empty()) == contents_of(bs, Seq::empty()),
{
    let keys = atom_keys(frag.conditions);
    lemma_atom_keys_nonempty(frag.conditions);
    lemma_add_atoms_props(bs, keys, frag);
}

/// Every atomic key holds exactly one value, so none is the default key.
proof fn lemma_atom_keys_nonempty(conds: Seq<Seq<Seq<char>>>)
    ensures
        forall|i: int|
            0 <= i < atom_keys(conds).len() ==> (#[trigger] atom_keys(conds)[i]).len() == 1,
    decreases conds.len(),
{
    if conds.len() == 0 {
    } else {
        lemma_atom_keys_nonempty(conds.drop_last());
        let mapped = conds.last().map_values(|v: Seq<char>| seq![v]);
        assert forall|i: int|
            0 <= i < atom_keys(conds).len() implies (#[trigger] atom_keys(conds)[i]).len() == 1 by {
            let head = atom_keys(conds.drop_last());
            if i < head.len() {
                assert(atom_keys(conds)[i] == head[i]);
            } else {
                assert(atom_keys(conds)[i] == mapped[i - head.len()]);
            }
        }
    }
}

/// Framing for one bucket update: other keys' contents are unchanged,
/// the touched key merges or opens.
proof fn lemma_bucket_add_props(
    bs: Seq<(Seq<Seq<char>>, ConfigView)>,
    key: Seq<Seq<char>>,
    frag: ConfigView,
)
    ensures
        contents_of(bucket_add(bs, key, frag), key) == (match contents_of(bs, key) {
            Some(c) => Some(merge_spec(c, frag)),
            None => Some(frag),
        }),
        forall|other: Seq<Seq<char>>|
            other != key ==> #[trigger] contents_of(bucket_add(bs, key, frag), other)
                == contents_of(bs, other),
{
    lemma_first_bucket(bs, key);
    let j = first_bucket(bs, key);
    let out = bucket_add(bs, key, frag);
    if j < bs.len() {
        assert(contents_of(out, key) == Some(merge_spec(bs[j].1, frag))) by {
            lemma_first_bucket_is(out, key, j);
        }
        assert forall|other: Seq<Seq<char>>|
            other != key implies #[trigger] contents_of(out, other) == contents_of(bs, other) by {
            lemma_first_bucket(bs, other);
            let f = first_bucket(bs, other);
            if f < bs.len() {
                assert(f != j);
                lemma_first_bucket_is(out, other, f);
            } else {
                lemma_first_bucket_is(out, other, out.len() as int);
            }
        }
    } else {
        assert(contents_of(out, key) == Some(frag)) by {
            lemma_first_bucket_is(out, key, j);
        }
        assert forall|other: Seq<Seq<char>>|
            other != key implies #[trigger] contents_of(out, other) == contents_of(bs, other) by {
            lemma_first_bucket(bs, other);
            let f = first_bucket(bs, other);
            if f < bs.len() {
                lemma_first_bucket_is(out, other, f);
            } else {
                lemma_first_bucket_is(out, other, out.len() as int);
            }
        }
    }
}

/// Adding under distinct keys: each key's bucket receives the fragment
/// once, every other key's contents are unchanged.
proof fn lemma_add_atoms_props(
    bs: Seq<(Seq<Seq<char>>, ConfigView)>,
    keys: Seq<Seq<Seq<char>>>,
    frag: ConfigView,
)
    requires
        keys.no_duplicates(),
    ensures
        forall|i: int|
            0 <= i < keys.len() ==> #[trigger] contents_of(add_atoms(bs, keys, frag), keys[i])
                == (match contents_of(bs, keys[i]) {
                Some(c) => Some(merge_spec(c, frag)),
                None => Some(frag),
            }),
        forall|other: Seq<Seq<char>>|
            !keys.contains(other) ==> #[trigger] contents_of(add_atoms(bs, keys, frag), other)
                == contents_of(bs, other),
    decreases keys.len(),
{
    if keys.len() == 0 {
    } else {
        let head = keys.drop_last();
        let last = keys.last();
        assert(head.no_duplicates());
        lemma_add_atoms_props(bs, head, frag);
        let mid = add_atoms(bs, head, frag);
        lemma_bucket_add_props(mid, last, frag);
        assert(!head.contains(last)) by {
            if head.contains(last) {
                let i = choose|i: int| 0 <= i < head.len() && head[i] == last;
                assert(keys[i] == keys[keys.len() - 1]);
            }
        }
        assert forall|i: int|
            0 <= i < keys.len() implies #[trigger] contents_of(add_atoms(bs, keys, frag), keys[i])
            == (match contents_of(bs, keys[i]) {
            Some(c) => Some(merge_spec(c, frag)),
            None => Some(frag),
        }) by {
            if i < keys.len() - 1 {
                assert(keys[i] == head[i]);
                assert(keys[i] != last);
                assert(contents_of(add_atoms(bs, keys, frag), keys[i]) == contents_of(
                    mid,
                    keys[i],
                ));
            } else {
                assert(keys[i] == last);
                assert(contents_of(mid, last) == contents_of(bs, last));
            }
        }
        assert forall|other: Seq<Seq<char>>|
            !keys.contains(other) implies #[trigger] contents_of(add_atoms(bs, keys, frag), other)
            == contents_of(bs, other) by {
            assert(!head.contains(other)) by {
                if head.contains(other) {
                    let i = choose|i: int| 0 <= i < head.len() && head[i] == other;
                    assert(keys[i] == other);
                }
            }
            assert(other != last) by {
                if other == last {
                    assert(keys[keys.len() - 1] == other);
                }
            }
        }
    }
}

/// Merge order: two unconditional fragments reaching the default bucket
/// in order leave it holding the first fragment's entries followed by
/// the second's, field by field.
pub proof fn lemma_merge_order(
    bs: Seq<(Seq<Seq<char>>, ConfigView)>,
    f1: ConfigView,
    f2: ConfigView,
)
    requires
        f1.conditions.len() == 0,
        f2.conditions.len() == 0,
        contents_of(bs, Seq::empty()) is None,
    ensures
        contents_of(aggregate_add(aggregate_add(bs, f1), f2), Seq::empty()) == Some(
            merge_spec(f1, f2),
        ),
        merge_spec(f1, f2).keys == f1.keys + f2.keys,
        merge_spec(f1, f2).set == f1.set + f2.set,
        merge_spec(f1, f2).auto_commands == f1.auto_commands + f2.auto_commands,
        merge_spec(f1, f2).lua == f1.lua + f2.lua,
{
    let mid = aggregate_add(bs, f1);
    lemma_bucket_add_props(bs, Seq::empty(), f1);
    lemma_bucket_add_props(mid, Seq::empty(), f2);
}

} // verus!
