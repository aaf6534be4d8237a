//! The mathematical model of the three tables: what it means for them to be
//! consistent, and what an admission does to them.

use vstd::prelude::*;
use crate::concurrency_index::{
    spec_bucket, spec_index_insert, spec_index_remove, spec_is_first_index, spec_no_empty_bucket,
    spec_remove_first, IndexView,
};
use crate::report_id::spec_report_id;
use crate::retention_log::{
    lemma_lower_bound_exists, lemma_record_keeps_sorted, spec_flatten, spec_lower_bound,
    spec_record, spec_sorted, LogView,
};
use crate::types::{Kind, OffenceDetailsView, ReportId, ReportKey, SessionIndex};

verus! {

/// Mathematical model of the three tables taken together.
pub struct PalletView {
    /// Report identifier to report details.
    pub reports: Map<ReportId, OffenceDetailsView>,
    /// (kind, time slot) to the identifiers admitted under that key.
    pub concurrent: IndexView,
    /// The admissions by session.
    pub sessions: LogView,
}

/// The log holds `key` in bucket `b` at place `j`.
pub open spec fn spec_logged_at(log: LogView, key: ReportKey, b: int, j: int) -> bool {
    &&& 0 <= b < log.len()
    &&& 0 <= j < log[b].reports.len()
    &&& log[b].reports[j] == key
}

/// The log holds `key` somewhere.
pub open spec fn spec_logged(log: LogView, key: ReportKey) -> bool {
    exists|b: int, j: int| spec_logged_at(log, key, b, j)
}

/// No key stands at two places of the log.
pub open spec fn spec_logged_once(log: LogView) -> bool {
    forall|key: ReportKey, b1: int, j1: int, b2: int, j2: int|
        spec_logged_at(log, key, b1, j1) && spec_logged_at(log, key, b2, j2) ==> b1 == b2 && j1
            == j2
}

/// The keys that the log holds, together with those of `pending`.
pub open spec fn spec_pending(log: LogView, pending: Seq<ReportKey>) -> Set<ReportKey> {
    Set::new(|key: ReportKey| spec_logged(log, key) || pending.contains(key))
}

/// The keys that the log holds.
pub open spec fn spec_log_keys(log: LogView) -> Set<ReportKey> {
    Set::new(|key: ReportKey| spec_logged(log, key))
}

/// The two keyed tables hold exactly the reports of `live`: no two live keys
/// share an identifier, an identifier has details exactly when it is live, and
/// it stands in the bucket of the key it was admitted under, there once, and in
/// no other.
pub open spec fn spec_agree(
    reports: Map<ReportId, OffenceDetailsView>,
    index: IndexView,
    live: Set<ReportKey>,
) -> bool {
    &&& forall|k1: ReportKey, k2: ReportKey|
        #![trigger live.contains(k1), live.contains(k2)]
        live.contains(k1) && live.contains(k2) && k1.id == k2.id ==> k1 == k2
    &&& forall|id: ReportId| #[trigger]
        reports.contains_key(id) <==> exists|key: ReportKey| #[trigger]
            live.contains(key) && key.id == id
    &&& forall|key: ReportKey| #[trigger]
        live.contains(key) <==> spec_bucket(index, key.kind, key.time_slot).contains(key.id)
    &&& forall|k: (Kind, Seq<u8>)| #[trigger] index.contains_key(k) ==> index[k].no_duplicates()
    &&& spec_no_empty_bucket(index)
}

/// The three tables are mutually consistent: the log is sorted and holds each
/// key once, and the keyed tables hold exactly what the log holds.
pub open spec fn spec_consistent(state: PalletView) -> bool {
    &&& spec_sorted(state.sessions)
    &&& spec_logged_once(state.sessions)
    &&& spec_agree(state.reports, state.concurrent, spec_log_keys(state.sessions))
}

/// The state after one offender has been looked at: unchanged where its report
/// is known, else with the report in all three tables.
pub open spec fn spec_admit(
    state: PalletView,
    kind: Kind,
    time_slot: Seq<u8>,
    session: SessionIndex,
    reporters: Seq<Seq<u8>>,
    offender: Seq<u8>,
) -> PalletView {
    let id = spec_report_id(kind, time_slot, offender);
    if state.reports.contains_key(id) {
        state
    } else {
        PalletView {
            reports: state.reports.insert(id, OffenceDetailsView { offender, reporters }),
            concurrent: spec_index_insert(state.concurrent, kind, time_slot, id),
            sessions: spec_record(state.sessions, session, ReportKey { kind, time_slot, id }),
        }
    }
}

/// The state after a batch of offenders has been looked at, first to last.
pub open spec fn spec_triage(
    state: PalletView,
    kind: Kind,
    time_slot: Seq<u8>,
    session: SessionIndex,
    reporters: Seq<Seq<u8>>,
    offenders: Seq<Seq<u8>>,
) -> PalletView
    decreases offenders.len(),
{
    if offenders.len() == 0 {
        state
    } else {
        spec_admit(
            spec_triage(state, kind, time_slot, session, reporters, offenders.drop_last()),
            kind,
            time_slot,
            session,
            reporters,
            offenders.last(),
        )
    }
}

/// Every offender of the batch has a report for this kind and time slot.
pub open spec fn spec_all_known(
    reports: Map<ReportId, OffenceDetailsView>,
    kind: Kind,
    time_slot: Seq<u8>,
    offenders: Seq<Seq<u8>>,
) -> bool {
    forall|i: int|
        0 <= i < offenders.len() ==> reports.contains_key(
            spec_report_id(kind, time_slot, #[trigger] offenders[i]),
        )
}

/// The details of all reports of a kind and time slot, in the order of their
/// admission.
pub open spec fn spec_concurrent_offenders(
    state: PalletView,
    kind: Kind,
    time_slot: Seq<u8>,
) -> Seq<OffenceDetailsView> {
    spec_bucket(state.concurrent, kind, time_slot).map_values(|id: ReportId| state.reports[id])
}

/// The state after one report has left the keyed tables.
pub open spec fn spec_forget(state: PalletView, key: ReportKey) -> PalletView {
    PalletView {
        reports: state.reports.remove(key.id),
        concurrent: spec_index_remove(state.concurrent, key.kind, key.time_slot, key.id),
        sessions: state.sessions,
    }
}

/// The state after the reports of `keys` have left the keyed tables, first to last.
pub open spec fn spec_forget_all(state: PalletView, keys: Seq<ReportKey>) -> PalletView
    decreases keys.len(),
{
    if keys.len() == 0 {
        state
    } else {
        spec_forget(spec_forget_all(state, keys.drop_last()), keys.last())
    }
}

/// The state after a sweep at session `current` with a retention window of
/// `window` sessions: unchanged until the window has elapsed; after that, the
/// buckets of sessions below `current - window` have left the log, and their
/// reports the keyed tables.
pub open spec fn spec_sweep(state: PalletView, window: SessionIndex, current: SessionIndex) -> PalletView {
    if current <= window {
        state
    } else {
        let n = spec_lower_bound(state.sessions, (current - window) as SessionIndex);
        spec_forget_all(
            PalletView {
                reports: state.reports,
                concurrent: state.concurrent,
                sessions: state.sessions.skip(n),
            },
            spec_flatten(state.sessions.take(n)),
        )
    }
}

/// What a sequence holds after one more element.
pub proof fn lemma_push_contains(s: Seq<ReportId>, x: ReportId, y: ReportId)
    ensures
        s.push(x).contains(y) <==> s.contains(y) || y == x,
{
    let t = s.push(x);
    if s.contains(y) {
        let i = choose|i: int| 0 <= i < s.len() && s[i] == y;
        assert(t[i] == y);
    }
    if y == x {
        assert(t[s.len() as int] == y);
    }
    if t.contains(y) {
        let i = choose|i: int| 0 <= i < t.len() && t[i] == y;
        if i < s.len() {
            assert(s[i] == y);
        }
    }
}

/// What a sequence without repetition holds after one element has left.
pub proof fn lemma_remove_contains(s: Seq<ReportId>, c: int, y: ReportId)
    requires
        s.no_duplicates(),
        0 <= c < s.len(),
    ensures
        s.remove(c).contains(y) <==> s.contains(y) && y != s[c],
        s.remove(c).no_duplicates(),
{
    let t = s.remove(c);
    if t.contains(y) {
        let i = choose|i: int| 0 <= i < t.len() && t[i] == y;
        if i < c {
            assert(s[i] == y);
        } else {
            assert(s[i + 1] == y);
        }
    }
    if s.contains(y) && y != s[c] {
        let i = choose|i: int| 0 <= i < s.len() && s[i] == y;
        if i < c {
            assert(t[i] == y);
        } else {
            assert(t[i - 1] == y);
        }
    }
    assert forall|i: int, j: int| 0 <= i < t.len() && 0 <= j < t.len() && i != j implies t[i]
        != t[j] by {
        let i0 = if i < c { i } else { i + 1 };
        let j0 = if j < c { j } else { j + 1 };
        assert(s[i0] != s[j0]);
    }
}

/// Admitting a report whose identifier has no details keeps the keyed tables in
/// step with the live keys.
pub proof fn lemma_agree_admit(
    reports: Map<ReportId, OffenceDetailsView>,
    index: IndexView,
    live: Set<ReportKey>,
    key: ReportKey,
    details: OffenceDetailsView,
)
    requires
        spec_agree(reports, index, live),
        !reports.contains_key(key.id),
    ensures
        spec_agree(
            reports.insert(key.id, details),
            spec_index_insert(index, key.kind, key.time_slot, key.id),
            live.insert(key),
        ),
{
    let reports2 = reports.insert(key.id, details);
    let index2 = spec_index_insert(index, key.kind, key.time_slot, key.id);
    let live2 = live.insert(key);
    let slot = (key.kind, key.time_slot);
    let bucket = spec_bucket(index, key.kind, key.time_slot);
    assert(!live.contains(key));
    assert(!bucket.contains(key.id));
    assert forall|k1: ReportKey, k2: ReportKey|
        #![trigger live2.contains(k1), live2.contains(k2)]
        live2.contains(k1) && live2.contains(k2) && k1.id == k2.id implies k1 == k2 by {
        if k1 != key {
            assert(live.contains(k1));
        }
        if k2 != key {
            assert(live.contains(k2));
        }
    }
    assert forall|id: ReportId| #[trigger]
        reports2.contains_key(id) <==> exists|k: ReportKey| #[trigger]
            live2.contains(k) && k.id == id by {
        if reports2.contains_key(id) {
            if id == key.id {
                assert(live2.contains(key) && key.id == id);
            } else {
                assert(reports.contains_key(id));
                let k = choose|k: ReportKey| #[trigger] live.contains(k) && k.id == id;
                assert(live2.contains(k) && k.id == id);
            }
        }
        if exists|k: ReportKey| #[trigger] live2.contains(k) && k.id == id {
            let k = choose|k: ReportKey| #[trigger] live2.contains(k) && k.id == id;
            if k != key {
                assert(live.contains(k) && k.id == id);
            }
        }
    }
    assert forall|k: ReportKey| #[trigger]
        live2.contains(k) <==> spec_bucket(index2, k.kind, k.time_slot).contains(k.id) by {
        if (k.kind, k.time_slot) == slot {
            assert(spec_bucket(index2, k.kind, k.time_slot) == bucket.push(key.id));
            lemma_push_contains(bucket, key.id, k.id);
            if k.id == key.id {
                assert(k.time_slot == key.time_slot);
                assert(k == key);
            } else {
                assert(live.contains(k) <==> bucket.contains(k.id));
            }
        } else {
            assert(spec_bucket(index2, k.kind, k.time_slot) == spec_bucket(
                index,
                k.kind,
                k.time_slot,
            ));
            assert(live.contains(k) <==> spec_bucket(index, k.kind, k.time_slot).contains(k.id));
        }
    }
    assert forall|k: (Kind, Seq<u8>)| #[trigger] index2.contains_key(k) implies index2[k].no_duplicates()
        && index2[k].len() > 0 by {
        if k == slot {
            let next = bucket.push(key.id);
            assert(index2[k] == next);
            if index.contains_key(slot) {
                assert(bucket.no_duplicates());
            }
            assert forall|i: int, j: int| 0 <= i < next.len() && 0 <= j < next.len() && i
                != j implies next[i] != next[j] by {
                if i < bucket.len() && j < bucket.len() {
                    assert(bucket[i] != bucket[j]);
                } else if i < bucket.len() {
                    assert(bucket.contains(bucket[i]));
                } else {
                    assert(bucket.contains(bucket[j]));
                }
            }
        } else {
            assert(index.contains_key(k));
            assert(index2[k] == index[k]);
        }
    }
}

/// Forgetting a live report keeps the keyed tables in step with the live keys
/// that are left.
pub proof fn lemma_agree_forget(
    reports: Map<ReportId, OffenceDetailsView>,
    index: IndexView,
    live: Set<ReportKey>,
    key: ReportKey,
)
    requires
        spec_agree(reports, index, live),
        live.contains(key),
    ensures
        spec_agree(
            reports.remove(key.id),
            spec_index_remove(index, key.kind, key.time_slot, key.id),
            live.remove(key),
        ),
{
    let reports2 = reports.remove(key.id);
    let index2 = spec_index_remove(index, key.kind, key.time_slot, key.id);
    let live2 = live.remove(key);
    let slot = (key.kind, key.time_slot);
    let bucket = spec_bucket(index, key.kind, key.time_slot);
    assert(bucket.contains(key.id));
    assert(index.contains_key(slot));
    assert(bucket.no_duplicates());
    let rest = spec_remove_first(bucket, key.id);
    let w = choose|i: int| 0 <= i < bucket.len() && bucket[i] == key.id;
    lemma_first_index_exists(bucket, key.id, w);
    let c = choose|i: int| spec_is_first_index(bucket, key.id, i);
    assert(rest == bucket.remove(c));
    assert(spec_bucket(index2, key.kind, key.time_slot) == rest) by {
        if rest.len() == 0 {
            assert(!index2.contains_key(slot));
            assert(spec_bucket(index2, key.kind, key.time_slot) =~= rest);
        }
    }
    assert forall|k1: ReportKey, k2: ReportKey|
        #![trigger live2.contains(k1), live2.contains(k2)]
        live2.contains(k1) && live2.contains(k2) && k1.id == k2.id implies k1 == k2 by {
        assert(live.contains(k1) && live.contains(k2));
    }
    assert forall|id: ReportId| #[trigger]
        reports2.contains_key(id) <==> exists|k: ReportKey| #[trigger]
            live2.contains(k) && k.id == id by {
        if reports2.contains_key(id) {
            assert(reports.contains_key(id));
            let k = choose|k: ReportKey| #[trigger] live.contains(k) && k.id == id;
            assert(live2.contains(k) && k.id == id);
        }
        if exists|k: ReportKey| #[trigger] live2.contains(k) && k.id == id {
            let k = choose|k: ReportKey| #[trigger] live2.contains(k) && k.id == id;
            assert(live.contains(k) && k.id == id);
            assert(live.contains(key));
            if id == key.id {
                assert(k == key);
            }
        }
    }
    assert forall|k: ReportKey| #[trigger]
        live2.contains(k) <==> spec_bucket(index2, k.kind, k.time_slot).contains(k.id) by {
        assert(live.contains(k) <==> spec_bucket(index, k.kind, k.time_slot).contains(k.id));
        if (k.kind, k.time_slot) == slot {
            lemma_remove_contains(bucket, c, k.id);
            if k.id == key.id {
                assert(k.time_slot == key.time_slot);
                assert(k == key);
            }
        } else {
            assert(spec_bucket(index2, k.kind, k.time_slot) == spec_bucket(
                index,
                k.kind,
                k.time_slot,
            ));
        }
    }
    assert forall|k: (Kind, Seq<u8>)| #[trigger] index2.contains_key(k) implies index2[k].no_duplicates()
        && index2[k].len() > 0 by {
        if k == slot {
            lemma_remove_contains(bucket, c, key.id);
        } else {
            assert(index.contains_key(k));
            assert(index2[k] == index[k]);
        }
    }
}

/// An element that occurs in a sequence occurs there first somewhere.
pub proof fn lemma_first_index_exists(s: Seq<ReportId>, x: ReportId, w: int)
    requires
        0 <= w < s.len(),
        s[w] == x,
    ensures
        exists|i: int| spec_is_first_index(s, x, i),
    decreases w,
{
    if forall|j: int| 0 <= j < w ==> s[j] != x {
        assert(spec_is_first_index(s, x, w));
    } else {
        let j = choose|j: int| 0 <= j < w && s[j] == x;
        lemma_first_index_exists(s, x, j);
    }
}

/// A log holds in its buckets exactly what its flattening holds.
pub proof fn lemma_flatten_contains(log: LogView, key: ReportKey)
    ensures
        spec_flatten(log).contains(key) <==> spec_logged(log, key),
    decreases log.len(),
{
    if log.len() == 0 {
        if spec_logged(log, key) {
            let (b, j) = choose|b: int, j: int| spec_logged_at(log, key, b, j);
            assert(spec_logged_at(log, key, b, j));
        }
    } else {
        let shorter = log.drop_last();
        let front = spec_flatten(shorter);
        let all = spec_flatten(log);
        let last = log.len() - 1;
        lemma_flatten_contains(shorter, key);
        if all.contains(key) {
            let i = choose|i: int| 0 <= i < all.len() && all[i] == key;
            if i < front.len() {
                assert(front[i] == key);
                assert(front.contains(key));
                let (b, j) = choose|b: int, j: int| spec_logged_at(shorter, key, b, j);
                assert(spec_logged_at(shorter, key, b, j));
                assert(spec_logged_at(log, key, b, j));
            } else {
                assert(spec_logged_at(log, key, last, i - front.len()));
            }
        }
        if spec_logged(log, key) {
            let (b, j) = choose|b: int, j: int| spec_logged_at(log, key, b, j);
            assert(spec_logged_at(log, key, b, j));
            if b < last {
                assert(spec_logged_at(shorter, key, b, j));
                assert(front.contains(key));
                let i = choose|i: int| 0 <= i < front.len() && front[i] == key;
                assert(all[i] == key);
            } else {
                assert(all[front.len() + j] == key);
            }
        }
    }
}

/// The flattening of a log that holds each key once holds no key twice.
pub proof fn lemma_flatten_no_duplicates(log: LogView)
    requires
        spec_logged_once(log),
    ensures
        spec_flatten(log).no_duplicates(),
    decreases log.len(),
{
    if log.len() > 0 {
        let shorter = log.drop_last();
        let front = spec_flatten(shorter);
        let all = spec_flatten(log);
        let last = log.len() - 1;
        assert(spec_logged_once(shorter)) by {
            assert forall|key: ReportKey, b1: int, j1: int, b2: int, j2: int|
                spec_logged_at(shorter, key, b1, j1) && spec_logged_at(
                    shorter,
                    key,
                    b2,
                    j2,
                ) implies b1 == b2 && j1 == j2 by {
                assert(spec_logged_at(log, key, b1, j1) && spec_logged_at(log, key, b2, j2));
            }
        }
        lemma_flatten_no_duplicates(shorter);
        assert forall|i: int, j: int| 0 <= i < all.len() && 0 <= j < all.len() && i
            != j implies all[i] != all[j] by {
            let key = all[i];
            if all[j] == key {
                if i < front.len() && j < front.len() {
                    assert(front[i] == front[j]);
                } else if i >= front.len() && j >= front.len() {
                    assert(spec_logged_at(log, key, last, i - front.len()));
                    assert(spec_logged_at(log, key, last, j - front.len()));
                } else {
                    let (lo, hi) = if i < j { (i, j) } else { (j, i) };
                    assert(front[lo] == key);
                    assert(front.contains(key));
                    lemma_flatten_contains(shorter, key);
                    let (b, k) = choose|b: int, k: int| spec_logged_at(shorter, key, b, k);
                    assert(spec_logged_at(shorter, key, b, k));
                    assert(spec_logged_at(log, key, b, k));
                    assert(spec_logged_at(log, key, last, hi - front.len()));
                }
            }
        }
    }
}

/// What parting a consistent log at bucket `n` gives: the buckets from `n` on
/// are a log of the same kind, the flattened buckets before `n` hold no key
/// twice and none that stays, and both together hold what the log held.
pub proof fn lemma_prune(log: LogView, n: int)
    requires
        0 <= n <= log.len(),
        spec_sorted(log),
        spec_logged_once(log),
    ensures
        spec_sorted(log.skip(n)),
        spec_logged_once(log.skip(n)),
        spec_flatten(log.take(n)).no_duplicates(),
        spec_pending(log.skip(n), spec_flatten(log.take(n))) == spec_log_keys(log),
        forall|key: ReportKey| #[trigger]
            spec_flatten(log.take(n)).contains(key) ==> !spec_logged(log.skip(n), key),
{
    let kept = log.skip(n);
    let stale = log.take(n);
    let gone = spec_flatten(stale);
    assert(spec_sorted(kept)) by {
        assert forall|i: int, j: int| 0 <= i < j < kept.len() implies kept[i].session
            < kept[j].session by {
            assert(log[i + n].session < log[j + n].session);
        }
    }
    assert(spec_logged_once(kept)) by {
        assert forall|key: ReportKey, b1: int, j1: int, b2: int, j2: int|
            spec_logged_at(kept, key, b1, j1) && spec_logged_at(kept, key, b2, j2) implies b1
            == b2 && j1 == j2 by {
            assert(spec_logged_at(log, key, b1 + n, j1) && spec_logged_at(log, key, b2 + n, j2));
        }
    }
    assert(spec_logged_once(stale)) by {
        assert forall|key: ReportKey, b1: int, j1: int, b2: int, j2: int|
            spec_logged_at(stale, key, b1, j1) && spec_logged_at(stale, key, b2, j2) implies b1
            == b2 && j1 == j2 by {
            assert(spec_logged_at(log, key, b1, j1) && spec_logged_at(log, key, b2, j2));
        }
    }
    lemma_flatten_no_duplicates(stale);
    assert forall|key: ReportKey|
        #![trigger gone.contains(key)]
        #![trigger spec_pending(kept, gone).contains(key)]
        (gone.contains(key) ==> !spec_logged(kept, key)) && (spec_pending(kept, gone).contains(
            key,
        ) <==> spec_log_keys(log).contains(key)) by {
        lemma_flatten_contains(stale, key);
        if spec_logged(stale, key) {
            let (b, j) = choose|b: int, j: int| spec_logged_at(stale, key, b, j);
            assert(spec_logged_at(stale, key, b, j));
            assert(spec_logged_at(log, key, b, j));
            if spec_logged(kept, key) {
                let (b2, j2) = choose|b2: int, j2: int| spec_logged_at(kept, key, b2, j2);
                assert(spec_logged_at(kept, key, b2, j2));
                assert(spec_logged_at(log, key, b2 + n, j2));
            }
        }
        if spec_logged(kept, key) {
            let (b2, j2) = choose|b2: int, j2: int| spec_logged_at(kept, key, b2, j2);
            assert(spec_logged_at(kept, key, b2, j2));
            assert(spec_logged_at(log, key, b2 + n, j2));
        }
        if spec_logged(log, key) {
            let (b, j) = choose|b: int, j: int| spec_logged_at(log, key, b, j);
            assert(spec_logged_at(log, key, b, j));
            if b < n {
                assert(spec_logged_at(stale, key, b, j));
            } else {
                assert(spec_logged_at(kept, key, b - n, j));
            }
        }
    }
    assert(spec_pending(kept, gone) =~= spec_log_keys(log));
}

/// One step of forgetting what was pruned: the key forgotten was pending, and
/// the keys behind it are what is pending then.
pub proof fn lemma_pending_step(log: LogView, gone: Seq<ReportKey>, i: int)
    requires
        gone.no_duplicates(),
        forall|key: ReportKey| #[trigger] gone.contains(key) ==> !spec_logged(log, key),
        0 <= i < gone.len(),
    ensures
        spec_pending(log, gone.skip(i)).contains(gone[i]),
        spec_pending(log, gone.skip(i)).remove(gone[i]) == spec_pending(log, gone.skip(i + 1)),
{
    let now = gone.skip(i);
    let then = gone.skip(i + 1);
    assert(now[0] == gone[i]);
    assert(now.contains(gone[i]));
    assert(gone.contains(gone[i]));
    assert forall|key: ReportKey|
        spec_pending(log, now).remove(gone[i]).contains(key) <==> spec_pending(
            log,
            then,
        ).contains(key) by {
        if now.contains(key) && key != gone[i] {
            let a = choose|a: int| 0 <= a < now.len() && now[a] == key;
            assert(then[a - 1] == key);
        }
        if then.contains(key) {
            let a = choose|a: int| 0 <= a < then.len() && then[a] == key;
            assert(now[a + 1] == key);
            assert(gone[a + 1 + i] == key);
        }
    }
    assert(spec_pending(log, now).remove(gone[i]) =~= spec_pending(log, then));
}

/// What an admission does to the places of the log: the new key stands at one
/// new place, every other key where it stood.
pub proof fn lemma_record_keys(log: LogView, session: SessionIndex, key: ReportKey)
    requires
        spec_sorted(log),
        spec_logged_once(log),
        !spec_logged(log, key),
    ensures
        spec_logged_once(spec_record(log, session, key)),
        spec_log_keys(spec_record(log, session, key)) == spec_log_keys(log).insert(key),
{
    lemma_lower_bound_exists(log, session);
    let p = spec_lower_bound(log, session);
    let after = spec_record(log, session, key);
    let joins = p < log.len() && log[p].session == session;
    assert forall|k: ReportKey, b: int, j: int| #[trigger]
        spec_logged_at(after, k, b, j) implies if joins {
        spec_logged_at(log, k, b, j) || (k == key && b == p && j == log[p].reports.len())
    } else {
        (b < p && spec_logged_at(log, k, b, j)) || (b > p && spec_logged_at(log, k, b - 1, j)) || (k
            == key && b == p && j == 0)
    } by {}
    assert forall|k: ReportKey, b1: int, j1: int, b2: int, j2: int|
        spec_logged_at(after, k, b1, j1) && spec_logged_at(after, k, b2, j2) implies b1 == b2
        && j1 == j2 by {
        if joins {
            if spec_logged_at(log, k, b1, j1) && spec_logged_at(log, k, b2, j2) {
            } else if spec_logged_at(log, k, b1, j1) {
                assert(spec_logged(log, key));
            } else if spec_logged_at(log, k, b2, j2) {
                assert(spec_logged(log, key));
            }
        } else {
            let a1 = if b1 < p { b1 } else { b1 - 1 };
            let a2 = if b2 < p { b2 } else { b2 - 1 };
            if b1 != p && b2 != p {
                assert(spec_logged_at(log, k, a1, j1) && spec_logged_at(log, k, a2, j2));
            } else if b1 != p {
                assert(spec_logged_at(log, k, a1, j1));
                assert(spec_logged(log, key));
            } else if b2 != p {
                assert(spec_logged_at(log, k, a2, j2));
                assert(spec_logged(log, key));
            }
        }
    }
    assert forall|k: ReportKey|
        spec_log_keys(after).contains(k) <==> spec_log_keys(log).insert(key).contains(k) by {
        if spec_logged(after, k) {
            let (b, j) = choose|b: int, j: int| spec_logged_at(after, k, b, j);
            assert(spec_logged_at(after, k, b, j));
            if joins {
                if spec_logged_at(log, k, b, j) {
                    assert(spec_logged(log, k));
                }
            } else {
                if b < p {
                    assert(spec_logged_at(log, k, b, j));
                } else if b > p {
                    assert(spec_logged_at(log, k, b - 1, j));
                }
            }
        }
        if spec_logged(log, k) {
            let (b, j) = choose|b: int, j: int| spec_logged_at(log, k, b, j);
            assert(spec_logged_at(log, k, b, j));
            if joins {
                assert(spec_logged_at(after, k, b, j));
            } else if b < p {
                assert(spec_logged_at(after, k, b, j));
            } else {
                assert(spec_logged_at(after, k, b + 1, j));
            }
        }
        if k == key {
            if joins {
                assert(spec_logged_at(after, k, p, log[p].reports.len() as int));
            } else {
                assert(spec_logged_at(after, k, p, 0));
            }
        }
    }
    assert(spec_log_keys(after) =~= spec_log_keys(log).insert(key));
}

/// Looking at one offender keeps the tables consistent.
pub proof fn lemma_admit_consistent(
    state: PalletView,
    kind: Kind,
    time_slot: Seq<u8>,
    session: SessionIndex,
    reporters: Seq<Seq<u8>>,
    offender: Seq<u8>,
)
    requires
        spec_consistent(state),
    ensures
        spec_consistent(spec_admit(state, kind, time_slot, session, reporters, offender)),
{
    let id = spec_report_id(kind, time_slot, offender);
    if !state.reports.contains_key(id) {
        let key = ReportKey { kind, time_slot, id };
        let live = spec_log_keys(state.sessions);
        if spec_logged(state.sessions, key) {
            assert(live.contains(key) && key.id == id);
        }
        lemma_record_keeps_sorted(state.sessions, session, key);
        lemma_record_keys(state.sessions, session, key);
        lemma_agree_admit(
            state.reports,
            state.concurrent,
            live,
            key,
            OffenceDetailsView { offender, reporters },
        );
    }
}

/// Looking at a batch of offenders keeps the tables consistent.
pub proof fn lemma_triage_consistent(
    state: PalletView,
    kind: Kind,
    time_slot: Seq<u8>,
    session: SessionIndex,
    reporters: Seq<Seq<u8>>,
    offenders: Seq<Seq<u8>>,
)
    requires
        spec_consistent(state),
    ensures
        spec_consistent(spec_triage(state, kind, time_slot, session, reporters, offenders)),
    decreases offenders.len(),
{
    if offenders.len() > 0 {
        lemma_triage_consistent(state, kind, time_slot, session, reporters, offenders.drop_last());
        lemma_admit_consistent(
            spec_triage(state, kind, time_slot, session, reporters, offenders.drop_last()),
            kind,
            time_slot,
            session,
            reporters,
            offenders.last(),
        );
    }
}

} // verus!
