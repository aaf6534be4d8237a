//! What a sweep retains: the model of forgetting what has become obsolete.

use vstd::prelude::*;
use crate::concurrency_index::{
    spec_bucket, spec_index_remove, spec_is_first_index, spec_no_empty_bucket, spec_remove_first,
    IndexView,
};
use crate::model::{
    lemma_agree_forget, lemma_first_index_exists, lemma_flatten_contains, lemma_pending_step,
    lemma_prune, spec_agree, spec_consistent, spec_forget, spec_forget_all, spec_log_keys,
    spec_logged, spec_logged_at, spec_pending, spec_sweep, PalletView,
};
use crate::retention_log::{
    lemma_lower_bound_exists, spec_flatten, spec_is_lower_bound, spec_lower_bound, LogView,
};
use crate::types::{Kind, ReportId, ReportKey, SessionIndex};

verus! {

/// The identifiers of a sequence of keys.
pub open spec fn spec_ids(keys: Seq<ReportKey>) -> Set<ReportId> {
    Set::new(|id: ReportId| exists|i: int| 0 <= i < keys.len() && (#[trigger] keys[i]).id == id)
}

/// `ids` without those of `gone`, the others in the order they had.
pub open spec fn spec_keep(ids: Seq<ReportId>, gone: Set<ReportId>) -> Seq<ReportId>
    decreases ids.len(),
{
    if ids.len() == 0 {
        ids
    } else if gone.contains(ids.last()) {
        spec_keep(ids.drop_last(), gone)
    } else {
        spec_keep(ids.drop_last(), gone).push(ids.last())
    }
}

/// A bucket of a session below `cutoff` holds a report with this identifier.
pub open spec fn spec_admitted_before(log: LogView, id: ReportId, cutoff: SessionIndex) -> bool {
    exists|b: int, j: int|
        0 <= b < log.len() && 0 <= j < log[b].reports.len() && log[b].session < cutoff
            && (#[trigger] log[b].reports[j]).id == id
}

/// The identifiers admitted under a session below `cutoff`.
pub open spec fn spec_obsolete(log: LogView, cutoff: SessionIndex) -> Set<ReportId> {
    Set::new(|id: ReportId| spec_admitted_before(log, id, cutoff))
}

/// `after` is `before` less exactly what was admitted under a session below
/// `cutoff`: those buckets have left the log, their reports the table of
/// reports and the buckets of concurrent reports; everything else is as it was
/// and in the order it had.
pub open spec fn spec_retained(before: PalletView, after: PalletView, cutoff: SessionIndex) -> bool {
    let n = spec_lower_bound(before.sessions, cutoff);
    let gone = spec_obsolete(before.sessions, cutoff);
    &&& spec_is_lower_bound(before.sessions, cutoff, n)
    &&& after.sessions == before.sessions.skip(n)
    &&& after.reports == before.reports.remove_keys(gone)
    &&& forall|kind: Kind, time_slot: Seq<u8>|
        #[trigger] spec_bucket(after.concurrent, kind, time_slot) == spec_keep(
            spec_bucket(before.concurrent, kind, time_slot),
            gone,
        )
    &&& spec_no_empty_bucket(after.concurrent)
}

/// Two sets that agree on the elements of a sequence keep the same of it.
pub proof fn lemma_keep_same(ids: Seq<ReportId>, a: Set<ReportId>, b: Set<ReportId>)
    requires
        forall|i: int| 0 <= i < ids.len() ==> a.contains(ids[i]) == b.contains(ids[i]),
    ensures
        spec_keep(ids, a) == spec_keep(ids, b),
    decreases ids.len(),
{
    if ids.len() > 0 {
        let shorter = ids.drop_last();
        assert forall|i: int| 0 <= i < shorter.len() implies a.contains(shorter[i]) == b.contains(
            shorter[i],
        ) by {
            assert(shorter[i] == ids[i]);
        }
        lemma_keep_same(shorter, a, b);
    }
}

/// A sequence none of whose elements is gone is kept whole.
pub proof fn lemma_keep_all(ids: Seq<ReportId>, gone: Set<ReportId>)
    requires
        forall|i: int| 0 <= i < ids.len() ==> !gone.contains(ids[i]),
    ensures
        spec_keep(ids, gone) == ids,
    decreases ids.len(),
{
    if ids.len() > 0 {
        let shorter = ids.drop_last();
        assert forall|i: int| 0 <= i < shorter.len() implies !gone.contains(shorter[i]) by {
            assert(shorter[i] == ids[i]);
        }
        lemma_keep_all(shorter, gone);
        assert(shorter.push(ids.last()) =~= ids);
    }
}

/// To take one element out of a sequence without repetition is to keep all
/// but that element.
pub proof fn lemma_remove_is_keep(ids: Seq<ReportId>, c: int)
    requires
        ids.no_duplicates(),
        0 <= c < ids.len(),
    ensures
        ids.remove(c) == spec_keep(ids, set![ids[c]]),
    decreases ids.len(),
{
    let gone = set![ids[c]];
    let shorter = ids.drop_last();
    let last = ids.len() - 1;
    if c == last {
        assert forall|i: int| 0 <= i < shorter.len() implies !gone.contains(shorter[i]) by {
            assert(ids[i] != ids[c]);
        }
        lemma_keep_all(shorter, gone);
        assert(ids.remove(c) =~= shorter);
    } else {
        assert(ids[last] != ids[c]);
        assert(shorter.no_duplicates());
        assert(shorter[c] == ids[c]);
        lemma_remove_is_keep(shorter, c);
        assert(ids.remove(c) =~= shorter.remove(c).push(ids.last()));
    }
}

/// To keep from what was kept is to keep what neither set holds.
pub proof fn lemma_keep_twice(ids: Seq<ReportId>, a: Set<ReportId>, b: Set<ReportId>)
    ensures
        spec_keep(spec_keep(ids, a), b) == spec_keep(ids, a.union(b)),
    decreases ids.len(),
{
    if ids.len() > 0 {
        let shorter = ids.drop_last();
        lemma_keep_twice(shorter, a, b);
        if !a.contains(ids.last()) {
            let kept = spec_keep(shorter, a);
            assert(kept.push(ids.last()).drop_last() =~= kept);
        }
    }
}

/// What the buckets hold after one identifier has left the bucket of a key.
pub proof fn lemma_index_remove_buckets(
    index: IndexView,
    kind: Kind,
    time_slot: Seq<u8>,
    id: ReportId,
)
    ensures
        forall|k: Kind, t: Seq<u8>|
            #[trigger] spec_bucket(spec_index_remove(index, kind, time_slot, id), k, t) == if k
                == kind && t == time_slot {
                spec_remove_first(spec_bucket(index, kind, time_slot), id)
            } else {
                spec_bucket(index, k, t)
            },
{
    let after = spec_index_remove(index, kind, time_slot, id);
    let bucket = spec_bucket(index, kind, time_slot);
    let rest = spec_remove_first(bucket, id);
    assert forall|k: Kind, t: Seq<u8>|
        #[trigger] spec_bucket(after, k, t) == if k == kind && t == time_slot {
            rest
        } else {
            spec_bucket(index, k, t)
        } by {
        if k == kind && t == time_slot {
            if !index.contains_key((kind, time_slot)) {
                assert(!bucket.contains(id)) by {
                    if bucket.contains(id) {
                        let i = choose|i: int| 0 <= i < bucket.len() && bucket[i] == id;
                    }
                }
            } else if rest.len() == 0 {
                assert(spec_bucket(after, k, t) =~= rest);
            }
        } else {
            assert((k, t) != (kind, time_slot));
        }
    }
}

/// What is left when the first `k` of the pruned keys have been forgotten: the
/// keyed tables agree with the log and the keys still pending, the table of
/// reports has lost the identifiers forgotten and nothing else, and each bucket
/// holds what it held less those identifiers, in the same order.
pub proof fn lemma_forget_prefix(start: PalletView, gone: Seq<ReportKey>, k: int)
    requires
        gone.no_duplicates(),
        forall|key: ReportKey| #[trigger] gone.contains(key) ==> !spec_logged(start.sessions, key),
        spec_agree(start.reports, start.concurrent, spec_pending(start.sessions, gone)),
        0 <= k <= gone.len(),
    ensures
        ({
            let after = spec_forget_all(start, gone.take(k));
            &&& after.sessions == start.sessions
            &&& spec_agree(
                after.reports,
                after.concurrent,
                spec_pending(start.sessions, gone.skip(k)),
            )
            &&& after.reports == start.reports.remove_keys(spec_ids(gone.take(k)))
            &&& forall|kind: Kind, time_slot: Seq<u8>|
                #[trigger] spec_bucket(after.concurrent, kind, time_slot) == spec_keep(
                    spec_bucket(start.concurrent, kind, time_slot),
                    spec_ids(gone.take(k)),
                )
        }),
    decreases k,
{
    let log = start.sessions;
    if k == 0 {
        assert(gone.skip(0) =~= gone);
        assert(gone.take(0) =~= Seq::<ReportKey>::empty());
        let none = spec_ids(gone.take(0));
        assert(start.reports.remove_keys(none) =~= start.reports);
        assert forall|kind: Kind, time_slot: Seq<u8>|
            #[trigger] spec_bucket(start.concurrent, kind, time_slot) == spec_keep(
                spec_bucket(start.concurrent, kind, time_slot),
                none,
            ) by {
            lemma_keep_all(spec_bucket(start.concurrent, kind, time_slot), none);
        }
    } else {
        lemma_forget_prefix(start, gone, k - 1);
        let key = gone[k - 1];
        let mid = spec_forget_all(start, gone.take(k - 1));
        let after = spec_forget_all(start, gone.take(k));
        let before_ids = spec_ids(gone.take(k - 1));
        let after_ids = spec_ids(gone.take(k));
        assert(gone.take(k).drop_last() =~= gone.take(k - 1));
        assert(gone.take(k).last() == key);
        assert(after == spec_forget(mid, key));
        let live = spec_pending(log, gone.skip(k - 1));
        lemma_pending_step(log, gone, k - 1);
        lemma_agree_forget(mid.reports, mid.concurrent, live, key);
        assert(after_ids =~= before_ids.insert(key.id)) by {
            assert forall|id: ReportId| after_ids.contains(id) <==> before_ids.insert(
                key.id,
            ).contains(id) by {
                if after_ids.contains(id) {
                    let i = choose|i: int|
                        0 <= i < gone.take(k).len() && (#[trigger] gone.take(k)[i]).id == id;
                    if i < k - 1 {
                        assert(gone.take(k - 1)[i].id == id);
                    }
                }
                if before_ids.contains(id) {
                    let i = choose|i: int|
                        0 <= i < gone.take(k - 1).len() && (#[trigger] gone.take(k - 1)[i]).id
                            == id;
                    assert(gone.take(k)[i].id == id);
                }
                if id == key.id {
                    assert(gone.take(k)[k - 1].id == id);
                }
            }
        }
        assert(after.reports =~= start.reports.remove_keys(after_ids));
        lemma_index_remove_buckets(mid.concurrent, key.kind, key.time_slot, key.id);
        assert(gone.contains(key));
        assert(spec_pending(log, gone).contains(key));
        assert forall|kind: Kind, time_slot: Seq<u8>|
            #[trigger] spec_bucket(after.concurrent, kind, time_slot) == spec_keep(
                spec_bucket(start.concurrent, kind, time_slot),
                after_ids,
            ) by {
            let first = spec_bucket(start.concurrent, kind, time_slot);
            let then = spec_bucket(mid.concurrent, kind, time_slot);
            assert(then == spec_keep(first, before_ids));
            if kind == key.kind && time_slot == key.time_slot {
                assert(live.contains(key));
                assert(then.contains(key.id));
                assert(mid.concurrent.contains_key((kind, time_slot)));
                assert(then.no_duplicates());
                let w = choose|i: int| 0 <= i < then.len() && then[i] == key.id;
                lemma_first_index_exists(then, key.id, w);
                let c = choose|i: int| spec_is_first_index(then, key.id, i);
                lemma_remove_is_keep(then, c);
                lemma_keep_twice(first, before_ids, set![key.id]);
                assert(before_ids.union(set![key.id]) =~= after_ids);
            } else {
                assert forall|i: int| 0 <= i < first.len() implies before_ids.contains(first[i])
                    == after_ids.contains(first[i]) by {
                    if first[i] == key.id {
                        let other = ReportKey { kind, time_slot, id: key.id };
                        assert(first.contains(key.id));
                        assert(spec_pending(log, gone).contains(other));
                        assert(other == key);
                    }
                }
                lemma_keep_same(first, before_ids, after_ids);
            }
        }
    }
}

/// The identifiers pruned with the buckets before a parting place are those
/// admitted under a session below the cutoff.
pub proof fn lemma_pruned_ids(log: LogView, cutoff: SessionIndex, n: int)
    requires
        spec_is_lower_bound(log, cutoff, n),
    ensures
        spec_ids(spec_flatten(log.take(n))) == spec_obsolete(log, cutoff),
{
    let stale = log.take(n);
    let gone = spec_flatten(stale);
    assert forall|id: ReportId| spec_ids(gone).contains(id) <==> spec_obsolete(
        log,
        cutoff,
    ).contains(id) by {
        if spec_ids(gone).contains(id) {
            let i = choose|i: int| 0 <= i < gone.len() && (#[trigger] gone[i]).id == id;
            let key = gone[i];
            assert(gone.contains(key));
            lemma_flatten_contains(stale, key);
            let (b, j) = choose|b: int, j: int| spec_logged_at(stale, key, b, j);
            assert(spec_logged_at(stale, key, b, j));
            assert(log[b].reports[j].id == id && log[b].session < cutoff);
        }
        if spec_admitted_before(log, id, cutoff) {
            let (b, j) = choose|b: int, j: int|
                0 <= b < log.len() && 0 <= j < log[b].reports.len() && log[b].session < cutoff
                    && (#[trigger] log[b].reports[j]).id == id;
            let key = log[b].reports[j];
            assert(b < n);
            assert(spec_logged_at(stale, key, b, j));
            lemma_flatten_contains(stale, key);
            let i = choose|i: int| 0 <= i < gone.len() && gone[i] == key;
            assert(gone[i].id == id);
        }
    }
    assert(spec_ids(spec_flatten(log.take(n))) =~= spec_obsolete(log, cutoff));
}

/// Retention law. A sweep of consistent tables after the window has elapsed
/// leaves consistent tables, less exactly what was admitted under a session
/// below the current one less the window; everything else is untouched.
pub proof fn lemma_sweep(state: PalletView, window: SessionIndex, current: SessionIndex)
    requires
        spec_consistent(state),
        current > window,
    ensures
        spec_consistent(spec_sweep(state, window, current)),
        spec_retained(
            state,
            spec_sweep(state, window, current),
            (current - window) as SessionIndex,
        ),
{
    let cutoff = (current - window) as SessionIndex;
    let log = state.sessions;
    lemma_lower_bound_exists(log, cutoff);
    let n = spec_lower_bound(log, cutoff);
    let gone = spec_flatten(log.take(n));
    let start = PalletView {
        reports: state.reports,
        concurrent: state.concurrent,
        sessions: log.skip(n),
    };
    lemma_prune(log, n);
    lemma_forget_prefix(start, gone, gone.len() as int);
    assert(gone.take(gone.len() as int) =~= gone);
    assert(spec_pending(start.sessions, gone.skip(gone.len() as int)) =~= spec_log_keys(
        start.sessions,
    ));
    lemma_pruned_ids(log, cutoff, n);
}

} // verus!
