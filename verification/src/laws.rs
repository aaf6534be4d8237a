//! Laws of the engine, proved of its model.

use vstd::prelude::*;
use crate::concurrency_index::spec_bucket;
use crate::model::{
    lemma_triage_consistent, spec_all_known, spec_consistent, spec_log_keys, spec_logged_at,
    spec_sweep, spec_triage, PalletView,
};
use crate::retention::lemma_sweep;
use crate::report_id::spec_report_id;
use crate::retention_log::{lemma_record_keeps_sorted, spec_record, spec_sorted, LogView};
use crate::types::{Kind, OffenceDetailsView, ReportId, ReportKey, SessionIndex};

verus! {

/// The arguments of one triage.
pub struct TriageCall {
    pub kind: Kind,
    pub time_slot: Seq<u8>,
    pub session: SessionIndex,
    pub reporters: Seq<Seq<u8>>,
    pub offenders: Seq<Seq<u8>>,
}

/// The state after one triage.
pub open spec fn spec_call(state: PalletView, call: TriageCall) -> PalletView {
    spec_triage(state, call.kind, call.time_slot, call.session, call.reporters, call.offenders)
}

/// The state after a sequence of triages, first to last.
pub open spec fn spec_calls(state: PalletView, calls: Seq<TriageCall>) -> PalletView
    decreases calls.len(),
{
    if calls.len() == 0 {
        state
    } else {
        spec_call(spec_calls(state, calls.drop_last()), calls.last())
    }
}

/// The log after a sequence of admissions, first to last.
pub open spec fn spec_record_all(log: LogView, admissions: Seq<(SessionIndex, ReportKey)>) -> LogView
    decreases admissions.len(),
{
    if admissions.len() == 0 {
        log
    } else {
        spec_record(
            spec_record_all(log, admissions.drop_last()),
            admissions.last().0,
            admissions.last().1,
        )
    }
}

/// `key` stands in the tables exactly once: in the bucket of concurrent reports
/// of its kind and time slot, at one place there and in no other bucket, and at
/// one place of the log, which holds no second entry with its identifier.
pub open spec fn spec_stands_once(state: PalletView, key: ReportKey) -> bool {
    let bucket = spec_bucket(state.concurrent, key.kind, key.time_slot);
    &&& exists|i: int|
        0 <= i < bucket.len() && #[trigger] bucket[i] == key.id && forall|i2: int|
            0 <= i2 < bucket.len() && #[trigger] bucket[i2] == key.id ==> i2 == i
    &&& forall|kind: Kind, time_slot: Seq<u8>|
        (#[trigger] spec_bucket(state.concurrent, kind, time_slot)).contains(key.id) ==> kind
            == key.kind && time_slot == key.time_slot
    &&& exists|b: int, j: int|
        #[trigger] spec_logged_at(state.sessions, key, b, j) && forall|b2: int, j2: int|
            0 <= b2 < state.sessions.len() && 0 <= j2 < state.sessions[b2].reports.len() && (
            #[trigger] state.sessions[b2].reports[j2]).id == key.id ==> b2 == b && j2 == j
}

/// A triage never changes what is recorded of a report that was known before it.
pub proof fn lemma_triage_keeps_known(state: PalletView, call: TriageCall, id: ReportId)
    requires
        state.reports.contains_key(id),
    ensures
        spec_call(state, call).reports.contains_key(id),
        spec_call(state, call).reports[id] == state.reports[id],
    decreases call.offenders.len(),
{
    if call.offenders.len() > 0 {
        let shorter = TriageCall {
            kind: call.kind,
            time_slot: call.time_slot,
            session: call.session,
            reporters: call.reporters,
            offenders: call.offenders.drop_last(),
        };
        lemma_triage_keeps_known(state, shorter, id);
    }
}

/// A report that a triage made bears the reporters of that triage.
pub proof fn lemma_triage_new_report(state: PalletView, call: TriageCall, id: ReportId)
    requires
        !state.reports.contains_key(id),
        spec_call(state, call).reports.contains_key(id),
    ensures
        spec_call(state, call).reports[id].reporters == call.reporters,
    decreases call.offenders.len(),
{
    if call.offenders.len() > 0 {
        let shorter = TriageCall {
            kind: call.kind,
            time_slot: call.time_slot,
            session: call.session,
            reporters: call.reporters,
            offenders: call.offenders.drop_last(),
        };
        let mid = spec_call(state, shorter);
        if mid.reports.contains_key(id) {
            lemma_triage_new_report(state, shorter, id);
        }
    }
}

/// After a triage every offender that it named has a report.
pub proof fn lemma_triage_names_known(state: PalletView, call: TriageCall, i: int)
    requires
        0 <= i < call.offenders.len(),
    ensures
        spec_call(state, call).reports.contains_key(
            spec_report_id(call.kind, call.time_slot, call.offenders[i]),
        ),
    decreases call.offenders.len(),
{
    let shorter = TriageCall {
        kind: call.kind,
        time_slot: call.time_slot,
        session: call.session,
        reporters: call.reporters,
        offenders: call.offenders.drop_last(),
    };
    if i < call.offenders.len() - 1 {
        assert(shorter.offenders[i] == call.offenders[i]);
        lemma_triage_names_known(state, shorter, i);
    }
}

/// No sequence of triages changes what is recorded of a report that was known
/// before it.
pub proof fn lemma_calls_keep_known(state: PalletView, calls: Seq<TriageCall>, id: ReportId)
    requires
        state.reports.contains_key(id),
    ensures
        spec_calls(state, calls).reports.contains_key(id),
        spec_calls(state, calls).reports[id] == state.reports[id],
    decreases calls.len(),
{
    if calls.len() > 0 {
        lemma_calls_keep_known(state, calls.drop_last(), id);
        lemma_triage_keeps_known(spec_calls(state, calls.drop_last()), calls.last(), id);
    }
}

/// Any sequence of triages keeps consistent tables consistent.
pub proof fn lemma_calls_consistent(state: PalletView, calls: Seq<TriageCall>)
    requires
        spec_consistent(state),
    ensures
        spec_consistent(spec_calls(state, calls)),
    decreases calls.len(),
{
    if calls.len() > 0 {
        lemma_calls_consistent(state, calls.drop_last());
        let call = calls.last();
        lemma_triage_consistent(
            spec_calls(state, calls.drop_last()),
            call.kind,
            call.time_slot,
            call.session,
            call.reporters,
            call.offenders,
        );
    }
}

/// In consistent tables a report that has details stands exactly once in the
/// concurrent reports and exactly once in the log.
pub proof fn lemma_report_stands_once(state: PalletView, id: ReportId)
    requires
        spec_consistent(state),
        state.reports.contains_key(id),
    ensures
        exists|key: ReportKey| key.id == id && #[trigger] spec_stands_once(state, key),
{
    let log = state.sessions;
    let live = spec_log_keys(log);
    let key = choose|key: ReportKey| #[trigger] live.contains(key) && key.id == id;
    assert(live.contains(key));
    let bucket = spec_bucket(state.concurrent, key.kind, key.time_slot);
    assert(bucket.contains(id));
    assert(state.concurrent.contains_key((key.kind, key.time_slot)));
    assert(bucket.no_duplicates());
    let i = choose|i: int| 0 <= i < bucket.len() && bucket[i] == id;
    assert(bucket[i] == key.id);
    assert forall|kind: Kind, time_slot: Seq<u8>|
        (#[trigger] spec_bucket(state.concurrent, kind, time_slot)).contains(key.id) implies kind
        == key.kind && time_slot == key.time_slot by {
        let other = ReportKey { kind, time_slot, id };
        assert(live.contains(other));
    }
    let (b, j) = choose|b: int, j: int| spec_logged_at(log, key, b, j);
    assert(spec_logged_at(log, key, b, j));
    assert forall|b2: int, j2: int|
        0 <= b2 < log.len() && 0 <= j2 < log[b2].reports.len() && (#[trigger] log[b2].reports[j2]).id
            == key.id implies b2 == b && j2 == j by {
        let other = log[b2].reports[j2];
        assert(spec_logged_at(log, other, b2, j2));
        assert(live.contains(other));
        assert(other == key);
    }
    assert(spec_stands_once(state, key));
}

/// Consistency law. After a sweep of consistent tables, whenever it is made,
/// every report that is left stands exactly once in the concurrent reports and
/// exactly once in the log.
pub proof fn lemma_survivor_stands_once(
    state: PalletView,
    window: SessionIndex,
    current: SessionIndex,
    id: ReportId,
)
    requires
        spec_consistent(state),
        spec_sweep(state, window, current).reports.contains_key(id),
    ensures
        exists|key: ReportKey|
            key.id == id && #[trigger] spec_stands_once(spec_sweep(state, window, current), key),
{
    if current > window {
        lemma_sweep(state, window, current);
    }
    lemma_report_stands_once(spec_sweep(state, window, current), id);
}

/// Dedup law. When a triage has named an offender, the report of that
/// offender is known from then on, and whatever triages follow, for whatever
/// kinds, time slots and reporters, its details stay those that the table held
/// after that triage. Where the triage was the one that made the report, the
/// reporters are those of that triage. In consistent tables the report stands
/// exactly once in the concurrent reports and in the log.
pub proof fn lemma_dedup(
    state: PalletView,
    first: TriageCall,
    later: Seq<TriageCall>,
    i: int,
)
    requires
        0 <= i < first.offenders.len(),
    ensures
        ({
            let id = spec_report_id(first.kind, first.time_slot, first.offenders[i]);
            let once = spec_call(state, first);
            let end = spec_calls(once, later);
            &&& once.reports.contains_key(id)
            &&& end.reports.contains_key(id)
            &&& end.reports[id] == once.reports[id]
            &&& !state.reports.contains_key(id) ==> end.reports[id].reporters == first.reporters
            &&& state.reports.contains_key(id) ==> end.reports[id] == state.reports[id]
            &&& spec_consistent(state) ==> exists|key: ReportKey|
                key.id == id && #[trigger] spec_stands_once(end, key)
        }),
{
    let id = spec_report_id(first.kind, first.time_slot, first.offenders[i]);
    let once = spec_call(state, first);
    let end = spec_calls(once, later);
    lemma_triage_names_known(state, first, i);
    lemma_calls_keep_known(once, later, id);
    if state.reports.contains_key(id) {
        lemma_triage_keeps_known(state, first, id);
    } else {
        lemma_triage_new_report(state, first, id);
    }
    if spec_consistent(state) {
        lemma_triage_consistent(
            state,
            first.kind,
            first.time_slot,
            first.session,
            first.reporters,
            first.offenders,
        );
        lemma_calls_consistent(once, later);
        lemma_report_stands_once(end, id);
    }
}

/// No-op law. A triage all of whose offenders are known leaves every table as
/// it was.
pub proof fn lemma_triage_of_known_is_noop(state: PalletView, call: TriageCall)
    requires
        spec_all_known(state.reports, call.kind, call.time_slot, call.offenders),
    ensures
        spec_call(state, call) == state,
    decreases call.offenders.len(),
{
    if call.offenders.len() > 0 {
        let shorter = TriageCall {
            kind: call.kind,
            time_slot: call.time_slot,
            session: call.session,
            reporters: call.reporters,
            offenders: call.offenders.drop_last(),
        };
        assert forall|i: int| 0 <= i < shorter.offenders.len() implies state.reports.contains_key(
            spec_report_id(call.kind, call.time_slot, #[trigger] shorter.offenders[i]),
        ) by {
            assert(shorter.offenders[i] == call.offenders[i]);
        }
        lemma_triage_of_known_is_noop(state, shorter);
        assert(call.offenders.last() == call.offenders[call.offenders.len() - 1]);
    }
}

/// Sortedness law. Whatever sessions a sequence of admissions names and in
/// whatever order, the log is sorted after each of them.
pub proof fn lemma_log_stays_sorted(log: LogView, admissions: Seq<(SessionIndex, ReportKey)>)
    requires
        spec_sorted(log),
    ensures
        forall|k: int|
            0 <= k <= admissions.len() ==> spec_sorted(
                #[trigger] spec_record_all(log, admissions.take(k)),
            ),
    decreases admissions.len(),
{
    assert forall|k: int| 0 <= k <= admissions.len() implies spec_sorted(
        #[trigger] spec_record_all(log, admissions.take(k)),
    ) by {
        if k == admissions.len() {
            assert(admissions.take(k) =~= admissions);
            if admissions.len() > 0 {
                let shorter = admissions.drop_last();
                lemma_log_stays_sorted(log, shorter);
                assert(shorter.take(shorter.len() as int) =~= shorter);
                lemma_record_keeps_sorted(
                    spec_record_all(log, shorter),
                    admissions.last().0,
                    admissions.last().1,
                );
            }
        } else {
            let shorter = admissions.drop_last();
            lemma_log_stays_sorted(log, shorter);
            assert(shorter.take(k) =~= admissions.take(k));
        }
    }
}

/// A triage leaves the log sorted.
pub proof fn lemma_triage_keeps_sorted(state: PalletView, call: TriageCall)
    requires
        spec_sorted(state.sessions),
    ensures
        spec_sorted(spec_call(state, call).sessions),
    decreases call.offenders.len(),
{
    if call.offenders.len() > 0 {
        let shorter = TriageCall {
            kind: call.kind,
            time_slot: call.time_slot,
            session: call.session,
            reporters: call.reporters,
            offenders: call.offenders.drop_last(),
        };
        lemma_triage_keeps_sorted(state, shorter);
        let mid = spec_call(state, shorter);
        let id = spec_report_id(call.kind, call.time_slot, call.offenders.last());
        lemma_record_keeps_sorted(
            mid.sessions,
            call.session,
            ReportKey { kind: call.kind, time_slot: call.time_slot, id },
        );
    }
}

/// The identifiers that a batch adds: those of its offenders that are neither
/// known nor named earlier in the batch, in the order of the batch.
pub open spec fn spec_fresh(
    reports: Map<ReportId, OffenceDetailsView>,
    kind: Kind,
    time_slot: Seq<u8>,
    offenders: Seq<Seq<u8>>,
) -> Seq<ReportId>
    decreases offenders.len(),
{
    if offenders.len() == 0 {
        Seq::empty()
    } else {
        let before = spec_fresh(reports, kind, time_slot, offenders.drop_last());
        let id = spec_report_id(kind, time_slot, offenders.last());
        if reports.contains_key(id) || before.contains(id) {
            before
        } else {
            before.push(id)
        }
    }
}

/// What a triage adds. The reports known after it are those known before and
/// the fresh ones of the batch. The concurrent reports of its kind and time
/// slot are those of before, as they stood, with the fresh ones behind them in
/// the order of the batch; no other bucket changes. Nothing is fresh exactly
/// when every offender was known.
pub proof fn lemma_triage_appends(state: PalletView, call: TriageCall)
    ensures
        ({
            let after = spec_call(state, call);
            let fresh = spec_fresh(state.reports, call.kind, call.time_slot, call.offenders);
            &&& fresh.no_duplicates()
            &&& forall|id: ReportId|
                #[trigger] after.reports.contains_key(id) <==> state.reports.contains_key(id)
                    || fresh.contains(id)
            &&& forall|kind: Kind, time_slot: Seq<u8>|
                #[trigger] spec_bucket(after.concurrent, kind, time_slot) == if kind == call.kind
                    && time_slot == call.time_slot {
                    spec_bucket(state.concurrent, kind, time_slot) + fresh
                } else {
                    spec_bucket(state.concurrent, kind, time_slot)
                }
            &&& fresh.len() == 0 <==> spec_all_known(
                state.reports,
                call.kind,
                call.time_slot,
                call.offenders,
            )
        }),
    decreases call.offenders.len(),
{
    let after = spec_call(state, call);
    let fresh = spec_fresh(state.reports, call.kind, call.time_slot, call.offenders);
    if call.offenders.len() == 0 {
        assert forall|kind: Kind, time_slot: Seq<u8>|
            #[trigger] spec_bucket(after.concurrent, kind, time_slot) == if kind == call.kind
                && time_slot == call.time_slot {
                spec_bucket(state.concurrent, kind, time_slot) + fresh
            } else {
                spec_bucket(state.concurrent, kind, time_slot)
            } by {
            assert(spec_bucket(state.concurrent, kind, time_slot) + fresh =~= spec_bucket(
                state.concurrent,
                kind,
                time_slot,
            ));
        }
    } else {
        let shorter = TriageCall {
            kind: call.kind,
            time_slot: call.time_slot,
            session: call.session,
            reporters: call.reporters,
            offenders: call.offenders.drop_last(),
        };
        lemma_triage_appends(state, shorter);
        let mid = spec_call(state, shorter);
        let before = spec_fresh(state.reports, call.kind, call.time_slot, shorter.offenders);
        let last = call.offenders.len() - 1;
        let id = spec_report_id(call.kind, call.time_slot, call.offenders.last());
        assert(mid.reports.contains_key(id) <==> state.reports.contains_key(id) || before.contains(
            id,
        ));
        if mid.reports.contains_key(id) {
            assert(after == mid);
            assert(fresh == before);
        } else {
            assert(fresh == before.push(id));
            assert forall|x: ReportId|
                #[trigger] after.reports.contains_key(x) <==> state.reports.contains_key(x)
                    || fresh.contains(x) by {
                assert(mid.reports.contains_key(x) <==> state.reports.contains_key(x)
                    || before.contains(x));
                if before.contains(x) {
                    let i = choose|i: int| 0 <= i < before.len() && before[i] == x;
                    assert(fresh[i] == x);
                }
                if x == id {
                    assert(fresh[before.len() as int] == x);
                }
                if fresh.contains(x) && x != id {
                    let i = choose|i: int| 0 <= i < fresh.len() && fresh[i] == x;
                    assert(before[i] == x);
                }
            }
            assert forall|kind: Kind, time_slot: Seq<u8>|
                #[trigger] spec_bucket(after.concurrent, kind, time_slot) == if kind == call.kind
                    && time_slot == call.time_slot {
                    spec_bucket(state.concurrent, kind, time_slot) + fresh
                } else {
                    spec_bucket(state.concurrent, kind, time_slot)
                } by {
                let first = spec_bucket(state.concurrent, kind, time_slot);
                if kind == call.kind && time_slot == call.time_slot {
                    assert(spec_bucket(mid.concurrent, kind, time_slot) == first + before);
                    assert((first + before).push(id) =~= first + fresh);
                } else {
                    assert(spec_bucket(mid.concurrent, kind, time_slot) == first);
                    assert((kind, time_slot) != (call.kind, call.time_slot));
                }
            }
            assert(fresh[before.len() as int] == id);
        }
        assert(fresh.len() == 0 <==> spec_all_known(
            state.reports,
            call.kind,
            call.time_slot,
            call.offenders,
        )) by {
            let known_before = spec_all_known(
                state.reports,
                call.kind,
                call.time_slot,
                shorter.offenders,
            );
            if spec_all_known(state.reports, call.kind, call.time_slot, call.offenders) {
                assert forall|i: int| 0 <= i < shorter.offenders.len() implies state.reports.contains_key(
                    spec_report_id(call.kind, call.time_slot, #[trigger] shorter.offenders[i]),
                ) by {
                    assert(shorter.offenders[i] == call.offenders[i]);
                }
                assert(call.offenders[last] == call.offenders.last());
                assert(state.reports.contains_key(id));
            }
            if fresh.len() == 0 {
                assert(before.len() == 0);
                assert(known_before);
                assert(state.reports.contains_key(id)) by {
                    if !state.reports.contains_key(id) {
                        assert(!before.contains(id));
                    }
                }
                assert forall|i: int| 0 <= i < call.offenders.len() implies state.reports.contains_key(
                    spec_report_id(call.kind, call.time_slot, #[trigger] call.offenders[i]),
                ) by {
                    if i < last {
                        assert(shorter.offenders[i] == call.offenders[i]);
                    }
                }
            }
        }
    }
}

} // verus!
