//! The engine's one startup pass, as a pure plan: gate discovered local
//! sources by trust, aggregate the surviving fragments by condition, and
//! split the result into the default bucket (applied immediately) and
//! the conditional buckets (registered for deferred application). The
//! host performs the plan; this module only decides it.

use vstd::prelude::*;

use crate::aggregate::{aggregate_add, contents_of, first_bucket, Aggregator};
use crate::condition::Condition;
use crate::config::{Config, ConfigView};
use crate::hashes::{known_of, ledger_upsert, sha512_of, unknown_of, Hashes};
use crate::text::{join_str, join_with};

verus! {

/// Aggregating a sequence of fragments, in arrival order.
pub open spec fn aggregate_all(
    bs: Seq<(Seq<Seq<char>>, ConfigView)>,
    frags: Seq<ConfigView>,
) -> Seq<(Seq<Seq<char>>, ConfigView)>
    decreases frags.len(),
{
    if frags.len() == 0 {
        bs
    } else {
        aggregate_add(aggregate_all(bs, frags.drop_last()), frags.last())
    }
}

/// The message surfaced when unknown local sources were found: it names
/// them and the approval action to run.
pub open spec fn notification_text(paths: Seq<Seq<char>>) -> Seq<char> {
    "Found new local config"@ + (if paths.len() > 1 {
        seq!['s']
    } else {
        Seq::<char>::empty()
    }) + ": \n  "@ + join_with(paths, "\n  "@) + "\nRun :ConfigAllow to activate"@
}

/// What one startup pass must do, decided from the discovered sources
/// and the trust ledger alone.
pub struct StartupPlan {
    /// The local sources withheld for approval, in discovery order.
    pub unknown: Vec<String>,
    /// The message to surface when any source was withheld.
    pub notification: Option<String>,
    /// The default bucket's merged fragment, to apply immediately.
    pub default_bucket: Option<Config>,
    /// The conditional buckets, each to register against its condition's
    /// trigger events for deferred application.
    pub deferred: Vec<(Condition, Config)>,
}

/// Decides one startup pass: every runtime fragment is aggregated, the
/// local sources are partitioned by trust and only the trusted ones are
/// aggregated after them, the default bucket is split off for immediate
/// application, and the unknown sources are reported for approval.
pub fn plan_startup(
    runtime_configs: Vec<Config>,
    local_files: Vec<(String, String, Config)>,
    hashes: &Hashes,
) -> (r: StartupPlan)
    ensures
        ({
            let buckets = aggregate_all(
                aggregate_all(Seq::empty(), runtime_configs.deep_view()),
                known_of(hashes@, local_files.deep_view()),
            );
            &&& r.unknown.deep_view() == unknown_of(hashes@, local_files.deep_view())
            &&& (match r.default_bucket {
                Some(cfg) => contents_of(buckets, Seq::empty()) == Some(cfg@)
                    && r.deferred.deep_view() == buckets.remove(
                    first_bucket(buckets, Seq::empty()),
                ),
                None => contents_of(buckets, Seq::empty()) is None && r.deferred.deep_view()
                    == buckets,
            })
            &&& (match r.notification {
                Some(msg) => r.unknown.deep_view().len() > 0 && msg@ == notification_text(
                    r.unknown.deep_view(),
                ),
                None => r.unknown.deep_view().len() == 0,
            })
        }),
{
    let (unknown, known) = hashes.unhashed(local_files);
    let mut agg = Aggregator::new();
    let ghost rv = runtime_configs.deep_view();
    let mut rest = runtime_configs;
    let ghost mut i: int = 0;
    while rest.len() > 0
        invariant
            0 <= i,
            i + rest.deep_view().len() == rv.len(),
            rest.deep_view() == rv.skip(i),
            agg@ == aggregate_all(Seq::empty(), rv.take(i)),
        decreases rest.len(),
    {
        let ghost gold = rest@;
        proof {
            crate::lemma_vec_deep_view_index(&rest);
            assert(rest.deep_view()[0] == rest@[0].deep_view());
        }
        let cfg = rest.remove(0);
        proof {
            crate::lemma_vec_deep_view_index(&rest);
            assert(rv.skip(i)[0] == rv[i]);
            assert(cfg.deep_view() == rv[i]);
            assert forall|k: int| 0 <= k < rest@.len() implies #[trigger] rest.deep_view()[k]
                == rv.skip(i + 1)[k] by {
                assert(rest@[k] == gold[k + 1]);
                assert(gold[k + 1].deep_view() == rv.skip(i)[k + 1]);
            }
            assert(rest.deep_view() =~~= rv.skip(i + 1));
            assert(rv.take(i + 1).drop_last() =~~= rv.take(i));
            assert(rv.take(i + 1).last() == rv[i]);
        }
        cfg.merge_into_hashmap(&mut agg);
        proof {
            i = i + 1;
        }
    }
    proof {
        assert(rv.take(i) =~~= rv);
    }
    let ghost kv = known.deep_view();
    let ghost base = agg@;
    let mut rest = known;
    let ghost mut i: int = 0;
    while rest.len() > 0
        invariant
            0 <= i,
            i + rest.deep_view().len() == kv.len(),
            rest.deep_view() == kv.skip(i),
            agg@ == aggregate_all(base, kv.take(i)),
        decreases rest.len(),
    {
        let ghost gold = rest@;
        proof {
            crate::lemma_vec_deep_view_index(&rest);
            assert(rest.deep_view()[0] == rest@[0].deep_view());
        }
        let cfg = rest.remove(0);
        proof {
            crate::lemma_vec_deep_view_index(&rest);
            assert(kv.skip(i)[0] == kv[i]);
            assert(cfg.deep_view() == kv[i]);
            assert forall|k: int| 0 <= k < rest@.len() implies #[trigger] rest.deep_view()[k]
                == kv.skip(i + 1)[k] by {
                assert(rest@[k] == gold[k + 1]);
                assert(gold[k + 1].deep_view() == kv.skip(i)[k + 1]);
            }
            assert(rest.deep_view() =~~= kv.skip(i + 1));
            assert(kv.take(i + 1).drop_last() =~~= kv.take(i));
            assert(kv.take(i + 1).last() == kv[i]);
        }
        cfg.merge_into_hashmap(&mut agg);
        proof {
            i = i + 1;
        }
    }
    proof {
        assert(kv.take(i) =~~= kv);
    }
    let default_bucket = agg.drain_default();
    let deferred = agg.into_buckets();
    let notification = if unknown.len() > 0 {
        let mut msg = "Found new local config".to_owned();
        if unknown.len() > 1 {
            msg.push('s');
        }
        msg.append(": \n  ");
        let joined = join_str(&unknown, "\n  ");
        msg.append(joined.as_str());
        msg.append("\nRun :ConfigAllow to activate");
        proof {
            assert(msg@ =~= notification_text(unknown.deep_view()));
        }
        Some(msg)
    } else {
        None
    };
    StartupPlan { unknown, notification, default_bucket, deferred }
}

/// Approves sources: records each source's content digest in the ledger,
/// in order, later approvals of the same path overwriting earlier ones.
pub open spec fn ledger_after(
    es: Seq<(Seq<char>, Seq<u8>)>,
    docs: Seq<(Seq<char>, Seq<char>)>,
) -> Seq<(Seq<char>, Seq<u8>)>
    decreases docs.len(),
{
    if docs.len() == 0 {
        es
    } else {
        let d = docs.last();
        ledger_upsert(ledger_after(es, docs.drop_last()), d.0, sha512_of(d.1))
    }
}

/// Approves each (path, content) source in order, as `ledger_after`
/// says. The caller applies the sources' fragments and persists the
/// ledger afterwards; a failed persist leaves this in-memory approval in
/// force, so the next pass re-detects and re-offers the sources.
pub fn approve(hashes: &mut Hashes, docs: Vec<(String, String)>)
    ensures
        final(hashes)@ == ledger_after(old(hashes)@, docs.deep_view()),
{
    let ghost dv = docs.deep_view();
    let mut rest = docs;
    let ghost mut i: int = 0;
    while rest.len() > 0
        invariant
            0 <= i,
            i + rest.deep_view().len() == dv.len(),
            rest.deep_view() == dv.skip(i),
            hashes@ == ledger_after(old(hashes)@, dv.take(i)),
        decreases rest.len(),
    {
        let ghost gold = rest@;
        proof {
            crate::lemma_vec_deep_view_index(&rest);
            assert(rest.deep_view()[0] == rest@[0].deep_view());
        }
        let entry = rest.remove(0);
        proof {
            crate::lemma_vec_deep_view_index(&rest);
            assert(dv.skip(i)[0] == dv[i]);
            assert(entry.deep_view() == dv[i]);
            assert forall|k: int| 0 <= k < rest@.len() implies #[trigger] rest.deep_view()[k]
                == dv.skip(i + 1)[k] by {
                assert(rest@[k] == gold[k + 1]);
                assert(gold[k + 1].deep_view() == dv.skip(i)[k + 1]);
            }
            assert(rest.deep_view() =~~= dv.skip(i + 1));
            assert(dv.take(i + 1).drop_last() =~~= dv.take(i));
            assert(dv.take(i + 1).last() == dv[i]);
        }
        let (path, content) = entry;
        proof {
            assert((path@, content@) == dv[i]);
        }
        hashes.add_hash(path, content.as_str());
        proof {
            i = i + 1;
        }
    }
    proof {
        assert(dv.take(i) =~~= dv);
    }
}

} // verus!
