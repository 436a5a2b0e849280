//! The trust gate: a ledger mapping each approved source path to the
//! digest of its content at approval time. A source is trusted only
//! while its current content hashes to the recorded digest; any change
//! reverts it to unknown until re-approved. Loading and persisting the
//! ledger are the caller's concern; this module owns the classification
//! and approval logic.

use vstd::prelude::*;

use sha2::Digest;

use crate::config::{Config, ConfigView};
use crate::text::str_eq;

verus! {

/// The digest sha2's SHA-512 computes for the given text: a function of
/// the text alone.
pub uninterp spec fn sha512_of(s: Seq<char>) -> Seq<u8>;

/// Relies on sha2's Sha512 (the `Digest` implementation): hashing the
/// UTF-8 bytes of the text and finalizing yields a digest determined by
/// the text alone.
#[verifier::external_body]
fn sha512(content: &str) -> (r: Vec<u8>)
    ensures
        r@ == sha512_of(content@),
{
    let mut hasher = sha2::Sha512::new();
    hasher.update(content.as_bytes());
    hasher.finalize().to_vec()
}

/// First index in `es` whose path is `p`, or `es.len()` when absent.
pub open spec fn first_path(es: Seq<(Seq<char>, Seq<u8>)>, p: Seq<char>) -> int
    decreases es.len(),
{
    if es.len() == 0 {
        0
    } else if es[0].0 == p {
        0
    } else {
        1 + first_path(es.drop_first(), p)
    }
}

pub proof fn lemma_first_path(es: Seq<(Seq<char>, Seq<u8>)>, p: Seq<char>)
    ensures
        0 <= first_path(es, p) <= es.len(),
        first_path(es, p) < es.len() ==> es[first_path(es, p)].0 == p,
        forall|j: int| 0 <= j < first_path(es, p) ==> (#[trigger] es[j]).0 != p,
    decreases es.len(),
{
    if es.len() == 0 {
    } else if es[0].0 == p {
    } else {
        lemma_first_path(es.drop_first(), p);
        assert forall|j: int| 0 <= j < first_path(es, p) implies (#[trigger] es[j]).0 != p by {
            if j > 0 {
                assert(es.drop_first()[j - 1] == es[j]);
            }
        }
    }
}

pub proof fn lemma_first_path_is(es: Seq<(Seq<char>, Seq<u8>)>, p: Seq<char>, i: int)
    requires
        0 <= i <= es.len(),
        forall|j: int| 0 <= j < i ==> (#[trigger] es[j]).0 != p,
        i < es.len() ==> es[i].0 == p,
    ensures
        first_path(es, p) == i,
{
    lemma_first_path(es, p);
    let f = first_path(es, p);
    if f < i {
        assert(es[f].0 == p);
    } else if f > i {
        assert(es[i].0 != p);
    }
}

/// The digest the ledger records for a path, if any.
pub open spec fn digest_for(es: Seq<(Seq<char>, Seq<u8>)>, p: Seq<char>) -> Option<Seq<u8>> {
    let j = first_path(es, p);
    if j < es.len() {
        Some(es[j].1)
    } else {
        None
    }
}

/// Records `d` as the digest for `p`: overwrites the existing record or
/// appends a new one.
pub open spec fn ledger_upsert(es: Seq<(Seq<char>, Seq<u8>)>, p: Seq<char>, d: Seq<u8>) -> Seq<
    (Seq<char>, Seq<u8>),
> {
    let j = first_path(es, p);
    if j < es.len() {
        es.update(j, (p, d))
    } else {
        es.push((p, d))
    }
}

/// A source is trusted when the ledger's digest for its path equals the
/// digest of its current content.
pub open spec fn trusted(es: Seq<(Seq<char>, Seq<u8>)>, path: Seq<char>, content: Seq<char>) -> bool {
    digest_for(es, path) == Some(sha512_of(content))
}

/// The trust ledger: each approved source path with the digest of its
/// content at approval time.
#[derive(Debug, Clone)]
pub struct Hashes {
    entries: Vec<(String, Vec<u8>)>,
}

impl View for Hashes {
    type V = Seq<(Seq<char>, Seq<u8>)>;

    closed spec fn view(&self) -> Seq<(Seq<char>, Seq<u8>)> {
        self.entries.deep_view()
    }
}

/// True when the two byte strings are equal.
fn bytes_eq(a: &Vec<u8>, b: &Vec<u8>) -> (r: bool)
    ensures
        r == (a@ == b@),
{
    if a.len() != b.len() {
        return false;
    }
    let mut i: usize = 0;
    while i < a.len()
        invariant
            0 <= i <= a.len(),
            a@.len() == b@.len(),
            forall|j: int| 0 <= j < i ==> a@[j] == b@[j],
        decreases a.len() - i,
    {
        if a[i] != b[i] {
            return false;
        }
        i += 1;
    }
    proof {
        assert(a@ =~= b@);
    }
    true
}

impl Hashes {
    /// An empty ledger: nothing is trusted.
    pub fn new() -> (r: Hashes)
        ensures
            r@ == Seq::<(Seq<char>, Seq<u8>)>::empty(),
    {
        let r = Hashes { entries: Vec::new() };
        proof {
            assert(r@ =~~= Seq::<(Seq<char>, Seq<u8>)>::empty());
        }
        r
    }

    /// A ledger from its recorded path/digest pairs, as loaded from
    /// storage.
    pub fn from_entries(entries: Vec<(String, Vec<u8>)>) -> (r: Hashes)
        ensures
            r@ == entries.deep_view(),
    {
        Hashes { entries }
    }

    /// The recorded path/digest pairs, for persisting.
    pub fn entries(&self) -> (r: &Vec<(String, Vec<u8>)>)
        ensures
            r.deep_view() == self@,
    {
        &self.entries
    }

    /// First index of the ledger record for `path`, or the length.
    fn find_path(&self, path: &str) -> (r: usize)
        ensures
            r == first_path(self@, path@),
            r <= self@.len(),
    {
        let ghost es = self@;
        let mut j: usize = 0;
        while j < self.entries.len()
            invariant
                0 <= j <= self.entries.len(),
                es == self@,
                es.len() == self.entries@.len(),
                forall|jj: int| 0 <= jj < j ==> (#[trigger] es[jj]).0 != path@,
            decreases self.entries.len() - j,
        {
            if str_eq(self.entries[j].0.as_str(), path) {
                proof {
                    lemma_first_path_is(es, path@, j as int);
                }
                return j;
            }
            j += 1;
        }
        proof {
            lemma_first_path_is(es, path@, es.len() as int);
        }
        j
    }

    /// True when the source at `path` with the given current content is
    /// trusted: the ledger records exactly the digest of that content.
    pub fn is_hashed(&self, path: &str, config: &str) -> (r: bool)
        ensures
            r == trusted(self@, path@, config@),
    {
        let j = self.find_path(path);
        if j < self.entries.len() {
            let digest = sha512(config);
            let r = bytes_eq(&self.entries[j].1, &digest);
            proof {
                assert(self.entries@[j as int].1@ =~= self@[j as int].1);
                assert(digest_for(self@, path@) == Some(self@[j as int].1));
            }
            r
        } else {
            false
        }
    }

    /// Approves the source at `path` with the given content: records the
    /// content's digest, overwriting any earlier record for that path.
    pub fn add_hash(&mut self, path: String, config: &str)
        ensures
            final(self)@ == ledger_upsert(old(self)@, path@, sha512_of(config@)),
    {
        let ghost es = self@;
        let ghost gp = path@;
        let ghost gd = sha512_of(config@);
        let digest = sha512(config);
        let j = self.find_path(path.as_str());
        if j < self.entries.len() {
            self.entries.remove(j);
            self.entries.insert(j, (path, digest));
            proof {
                assert(self@ =~~= es.update(j as int, (gp, gd)));
            }
        } else {
            self.entries.push((path, digest));
            proof {
                assert(self@ =~~= es.push((gp, gd)));
            }
        }
    }
}

/// The unknown partition: the paths of the sources whose current content
/// the ledger does not record, in arrival order.
pub open spec fn unknown_of(
    es: Seq<(Seq<char>, Seq<u8>)>,
    files: Seq<(Seq<char>, Seq<char>, ConfigView)>,
) -> Seq<Seq<char>>
    decreases files.len(),
{
    if files.len() == 0 {
        Seq::empty()
    } else {
        let rec = unknown_of(es, files.drop_last());
        let f = files.last();
        if trusted(es, f.0, f.1) {
            rec
        } else {
            rec.push(f.0)
        }
    }
}

/// The trusted partition: the fragments of the sources whose current
/// content the ledger records, in arrival order.
pub open spec fn known_of(
    es: Seq<(Seq<char>, Seq<u8>)>,
    files: Seq<(Seq<char>, Seq<char>, ConfigView)>,
) -> Seq<ConfigView>
    decreases files.len(),
{
    if files.len() == 0 {
        Seq::empty()
    } else {
        let rec = known_of(es, files.drop_last());
        let f = files.last();
        if trusted(es, f.0, f.1) {
            rec.push(f.2)
        } else {
            rec
        }
    }
}

impl Hashes {
    /// Partitions discovered sources by trust: the paths of unknown
    /// (unapproved or changed) sources, and the fragments of trusted
    /// ones, each in arrival order. Unknown sources are withheld from
    /// aggregation until approved.
    pub fn unhashed(&self, files: Vec<(String, String, Config)>) -> (r: (Vec<String>, Vec<Config>))
        ensures
            r.0.deep_view() == unknown_of(self@, files.deep_view()),
            r.1.deep_view() == known_of(self@, files.deep_view()),
    {
        let ghost fv = files.deep_view();
        let mut unknown: Vec<String> = Vec::new();
        let mut known: Vec<Config> = Vec::new();
        let mut rest = files;
        let ghost mut i: int = 0;
        while rest.len() > 0
            invariant
                0 <= i,
                i + rest.deep_view().len() == fv.len(),
                rest.deep_view() == fv.skip(i),
                unknown.deep_view() == unknown_of(self@, fv.take(i)),
                known.deep_view() == known_of(self@, fv.take(i)),
            decreases rest.len(),
        {
            let ghost gold = rest@;
            proof {
                crate::lemma_vec_deep_view_index(&rest);
                assert(rest.deep_view()[0] == rest@[0].deep_view());
            }
            let entry = rest.remove(0);
            proof {
                crate::lemma_vec_deep_view_index(&rest);
                assert(fv.skip(i)[0] == fv[i]);
                assert(entry.deep_view() == fv[i]);
                assert forall|k: int| 0 <= k < rest@.len() implies #[trigger] rest.deep_view()[k]
                    == fv.skip(i + 1)[k] by {
                    assert(rest@[k] == gold[k + 1]);
                    assert(gold[k + 1].deep_view() == fv.skip(i)[k + 1]);
                }
                assert(rest.deep_view() =~~= fv.skip(i + 1));
                assert(fv.take(i + 1).drop_last() =~~= fv.take(i));
                assert(fv.take(i + 1).last() == fv[i]);
            }
            let (path, content, config) = entry;
            proof {
                assert((path@, content@, config@) == fv[i]);
            }
            if self.is_hashed(path.as_str(), content.as_str()) {
                let ghost gc = config@;
                let ghost prev = known.deep_view();
                known.push(config);
                proof {
                    assert(trusted(self@, fv[i].0, fv[i].1));
                    assert(known.deep_view() =~~= prev.push(gc));
                    assert(known.deep_view() =~~= known_of(self@, fv.take(i + 1)));
                }
            } else {
                let ghost gp = path@;
                let ghost prev = unknown.deep_view();
                unknown.push(path);
                proof {
                    assert(!trusted(self@, fv[i].0, fv[i].1));
                    assert(unknown.deep_view() =~~= prev.push(gp));
                    assert(unknown.deep_view() =~~= unknown_of(self@, fv.take(i + 1)));
                }
            }
            proof {
                i = i + 1;
            }
        }
        proof {
            assert(fv.take(fv.len() as int) =~~= fv);
            assert(fv.take(i) =~~= fv);
        }
        (unknown, known)
    }
}

/// Trust idempotence: approving a source makes exactly that source
/// trusted under its approved content — classifying it again, unchanged,
/// finds it trusted — and leaves every other path's record as it was.
pub proof fn lemma_trust_idempotence(
    es: Seq<(Seq<char>, Seq<u8>)>,
    path: Seq<char>,
    content: Seq<char>,
)
    ensures
        trusted(ledger_upsert(es, path, sha512_of(content)), path, content),
        forall|other: Seq<char>|
            other != path ==> #[trigger] digest_for(ledger_upsert(es, path, sha512_of(content)), other)
                == digest_for(es, other),
{
    lemma_first_path(es, path);
    let j = first_path(es, path);
    let out = ledger_upsert(es, path, sha512_of(content));
    if j < es.len() {
        lemma_first_path_is(out, path, j);
    } else {
        lemma_first_path_is(out, path, j);
    }
    assert forall|other: Seq<char>|
        other != path implies #[trigger] digest_for(out, other) == digest_for(es, other) by {
        lemma_first_path(es, other);
        let f = first_path(es, other);
        if f < es.len() {
            assert(f != j || es[f].0 == path);
            if j < es.len() {
                lemma_first_path_is(out, other, f);
            } else {
                lemma_first_path_is(out, other, f);
            }
        } else {
            if j < es.len() {
                lemma_first_path_is(out, other, out.len() as int);
            } else {
                lemma_first_path_is(out, other, out.len() as int);
            }
        }
    }
}

} // verus!
