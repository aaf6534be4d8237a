//! The log of admissions, in buckets sorted by session.

use vstd::prelude::*;
use crate::types::{Kind, OpaqueTimeSlot, ReportId, ReportKey, SessionIndex};

verus! {

/// One admission: the key of the group a report joined, and its identifier.
#[derive(Clone, Debug, PartialEq, Eq)]
pub struct LogEntry {
    pub kind: Kind,
    pub time_slot: OpaqueTimeSlot,
    pub id: ReportId,
}

impl View for LogEntry {
    type V = ReportKey;

    open spec fn view(&self) -> ReportKey {
        ReportKey { kind: self.kind, time_slot: self.time_slot@, id: self.id }
    }
}

/// The admissions of one session, in the order in which they were made.
#[derive(Clone, Debug, PartialEq, Eq)]
struct SessionBucket {
    session: SessionIndex,
    reports: Vec<LogEntry>,
}

/// Mathematical model of one bucket of the log.
pub struct SessionBucketView {
    pub session: SessionIndex,
    pub reports: Seq<ReportKey>,
}

/// Mathematical model of a [`RetentionLog`]: its buckets, first to last.
pub type LogView = Seq<SessionBucketView>;

/// The log of admissions by session, which tells when a report becomes obsolete.
#[derive(Clone, Debug, PartialEq, Eq)]
pub struct RetentionLog {
    buckets: Vec<SessionBucket>,
}

/// Models of a sequence of entries, element by element.
pub open spec fn spec_keys(entries: Seq<LogEntry>) -> Seq<ReportKey> {
    entries.map_values(|e: LogEntry| e@)
}

/// The buckets stand in strictly ascending order of their sessions.
pub open spec fn spec_sorted(log: LogView) -> bool {
    forall|i: int, j: int| 0 <= i < j < log.len() ==> log[i].session < log[j].session
}

/// `p` parts the log: the buckets before it are of sessions below `session`,
/// those from it on are not.
pub open spec fn spec_is_lower_bound(log: LogView, session: SessionIndex, p: int) -> bool {
    &&& 0 <= p <= log.len()
    &&& forall|i: int| 0 <= i < p ==> log[i].session < session
    &&& forall|i: int| p <= i < log.len() ==> log[i].session >= session
}

/// The number of buckets of sessions below `session`, in a sorted log.
pub open spec fn spec_lower_bound(log: LogView, session: SessionIndex) -> int {
    choose|p: int| spec_is_lower_bound(log, session, p)
}

/// The log after an admission under `session`: the entry joins the bucket of
/// that session, or a new bucket takes its place in the order.
pub open spec fn spec_record(log: LogView, session: SessionIndex, key: ReportKey) -> LogView {
    let p = spec_lower_bound(log, session);
    if p < log.len() && log[p].session == session {
        log.update(p, SessionBucketView { session, reports: log[p].reports.push(key) })
    } else {
        log.insert(p, SessionBucketView { session, reports: seq![key] })
    }
}

/// The entries of all buckets, first bucket first.
pub open spec fn spec_flatten(log: LogView) -> Seq<ReportKey>
    decreases log.len(),
{
    if log.len() == 0 {
        Seq::empty()
    } else {
        spec_flatten(log.drop_last()) + log.last().reports
    }
}

/// At most one place parts a log for a session.
pub proof fn lemma_lower_bound_unique(log: LogView, session: SessionIndex, p: int)
    requires
        spec_is_lower_bound(log, session, p),
    ensures
        spec_lower_bound(log, session) == p,
{
    let q = spec_lower_bound(log, session);
    assert(spec_is_lower_bound(log, session, q));
    if q < p {
        assert(log[q].session < session);
    } else if p < q {
        assert(log[p].session < session);
    }
}

impl View for RetentionLog {
    type V = LogView;

    closed spec fn view(&self) -> LogView {
        Seq::new(
            self.buckets@.len(),
            |i: int|
                SessionBucketView {
                    session: self.buckets@[i].session,
                    reports: spec_keys(self.buckets@[i].reports@),
                },
        )
    }
}

impl RetentionLog {
    /// The buckets stand in strictly ascending order of their sessions.
    pub open spec fn wf(&self) -> bool {
        spec_sorted(self@)
    }

    /// The empty log.
    pub fn new() -> (log: RetentionLog)
        ensures
            log.wf(),
            log@ == Seq::<SessionBucketView>::empty(),
    {
        let log = RetentionLog { buckets: Vec::new() };
        assert(log@ =~= Seq::<SessionBucketView>::empty());
        log
    }

    /// The number of buckets of sessions below `session`, found by halving.
    fn lower_bound(&self, session: SessionIndex) -> (p: usize)
        requires
            self.wf(),
        ensures
            spec_is_lower_bound(self@, session, p as int),
            p as int == spec_lower_bound(self@, session),
    {
        let mut lo: usize = 0;
        let mut hi: usize = self.buckets.len();
        while lo < hi
            invariant
                self.wf(),
                lo <= hi <= self.buckets@.len(),
                self@.len() == self.buckets@.len(),
                forall|i: int| 0 <= i < lo ==> self@[i].session < session,
                forall|i: int| hi <= i < self@.len() ==> self@[i].session >= session,
            decreases hi - lo,
        {
            let mid = lo + (hi - lo) / 2;
            assert(self@[mid as int].session == self.buckets@[mid as int].session);
            if self.buckets[mid].session < session {
                lo = mid + 1;
            } else {
                hi = mid;
            }
        }
        proof {
            lemma_lower_bound_unique(self@, session, lo as int);
        }
        lo
    }

    /// The sessions that have a bucket, in the order of the log.
    pub fn sessions(&self) -> (sessions: Vec<SessionIndex>)
        ensures
            sessions@ == self@.map_values(|b: SessionBucketView| b.session),
    {
        let mut sessions: Vec<SessionIndex> = Vec::new();
        let mut i: usize = 0;
        while i < self.buckets.len()
            invariant
                i <= self.buckets@.len(),
                self@.len() == self.buckets@.len(),
                sessions@ == self@.take(i as int).map_values(|b: SessionBucketView| b.session),
            decreases self.buckets@.len() - i,
        {
            sessions.push(self.buckets[i].session);
            assert(self@.take(i + 1).map_values(|b: SessionBucketView| b.session)
                =~= self@.take(i as int).map_values(|b: SessionBucketView| b.session).push(
                self@[i as int].session,
            ));
            i += 1;
        }
        assert(self@.take(i as int) =~= self@);
        sessions
    }

    /// Records the admission of `id` under `session`. The bucket of the session
    /// is looked up in the sorted log; the entry is appended to it, or a new
    /// bucket is put in at the place that keeps the order.
    pub fn record_admission(
        &mut self,
        session: SessionIndex,
        kind: &Kind,
        time_slot: &OpaqueTimeSlot,
        id: ReportId,
    )
        requires
            old(self).wf(),
        ensures
            final(self).wf(),
            final(self)@ == spec_record(
                old(self)@,
                session,
                (ReportKey { kind: *kind, time_slot: time_slot@, id }),
            ),
    {
        let ghost before = *self;
        let ghost key = ReportKey { kind: *kind, time_slot: time_slot@, id };
        let p = self.lower_bound(session);
        let entry = LogEntry { kind: *kind, time_slot: time_slot.clone(), id };
        assert(entry@ == key);
        if p < self.buckets.len() && self.buckets[p].session == session {
            self.buckets[p].reports.push(entry);
            proof {
                assert(spec_keys(self.buckets@[p as int].reports@) =~= spec_keys(
                    before.buckets@[p as int].reports@,
                ).push(key));
                assert(self@ =~= spec_record(before@, session, key));
                lemma_record_keeps_sorted(before@, session, key);
            }
        } else {
            self.buckets.insert(p, SessionBucket { session, reports: vec![entry] });
            proof {
                assert(spec_keys(self.buckets@[p as int].reports@) =~= seq![key]);
                assert(self@ =~= spec_record(before@, session, key));
                lemma_record_keeps_sorted(before@, session, key);
            }
        }
    }

    /// Removes every bucket whose session is below `cutoff` and hands out what
    /// they held, oldest bucket first.
    pub fn prune_before(&mut self, cutoff: SessionIndex) -> (removed: Vec<LogEntry>)
        requires
            old(self).wf(),
        ensures
            final(self).wf(),
            final(self)@ == old(self)@.skip(spec_lower_bound(old(self)@, cutoff)),
            spec_keys(removed@) == spec_flatten(
                old(self)@.take(spec_lower_bound(old(self)@, cutoff)),
            ),
            spec_is_lower_bound(old(self)@, cutoff, spec_lower_bound(old(self)@, cutoff)),
    {
        let ghost before = *self;
        let p = self.lower_bound(cutoff);
        let mut head = self.buckets.split_off(p);
        core::mem::swap(&mut self.buckets, &mut head);
        assert(self@ =~= before@.skip(p as int));
        let ghost stale = before@.take(p as int);
        let mut removed: Vec<LogEntry> = Vec::new();
        let mut i: usize = 0;
        assert(spec_keys(removed@) =~= spec_flatten(stale.take(0)));
        while i < head.len()
            invariant
                i <= head@.len(),
                head@.len() == stale.len(),
                forall|j: int|
                    i <= j < head@.len() ==> spec_keys(#[trigger] head@[j].reports@)
                        == stale[j].reports,
                spec_keys(removed@) == spec_flatten(stale.take(i as int)),
            decreases head@.len() - i,
        {
            let mut reports: Vec<LogEntry> = Vec::new();
            core::mem::swap(&mut head[i].reports, &mut reports);
            proof {
                assert(stale.take(i + 1).drop_last() =~= stale.take(i as int));
                assert(spec_keys(removed@ + reports@) =~= spec_keys(removed@) + spec_keys(
                    reports@,
                ));
            }
            removed.append(&mut reports);
            i += 1;
        }
        assert(stale.take(i as int) =~= stale);
        removed
    }
}

/// A sorted log is parted for every session, at the place that
/// [`spec_lower_bound`] names.
pub proof fn lemma_lower_bound_exists(log: LogView, session: SessionIndex)
    requires
        spec_sorted(log),
    ensures
        spec_is_lower_bound(log, session, spec_lower_bound(log, session)),
    decreases log.len(),
{
    if log.len() == 0 {
        assert(spec_is_lower_bound(log, session, 0));
    } else {
        let shorter = log.drop_last();
        assert(spec_sorted(shorter)) by {
            assert forall|i: int, j: int| 0 <= i < j < shorter.len() implies shorter[i].session
                < shorter[j].session by {
                assert(log[i].session < log[j].session);
            }
        }
        lemma_lower_bound_exists(shorter, session);
        let q = spec_lower_bound(shorter, session);
        if log.last().session < session {
            assert forall|i: int| 0 <= i < log.len() implies log[i].session < session by {
                if i < log.len() - 1 {
                    assert(log[i].session < log[log.len() - 1].session);
                }
            }
            assert(spec_is_lower_bound(log, session, log.len() as int));
        } else {
            assert forall|i: int| 0 <= i < q implies log[i].session < session by {
                assert(shorter[i].session < session);
            }
            assert forall|i: int| q <= i < log.len() implies log[i].session >= session by {
                if i < log.len() - 1 {
                    assert(shorter[i].session >= session);
                }
            }
            assert(spec_is_lower_bound(log, session, q));
        }
    }
}

/// An admission leaves the log sorted, whatever the order in which sessions come.
pub proof fn lemma_record_keeps_sorted(log: LogView, session: SessionIndex, key: ReportKey)
    requires
        spec_sorted(log),
    ensures
        spec_sorted(spec_record(log, session, key)),
{
    lemma_lower_bound_exists(log, session);
    let p = spec_lower_bound(log, session);
    let after = spec_record(log, session, key);
    if p < log.len() && log[p].session == session {
        assert forall|i: int, j: int| 0 <= i < j < after.len() implies after[i].session
            < after[j].session by {
            assert(log[i].session < log[j].session);
        }
    } else {
        assert forall|i: int, j: int| 0 <= i < j < after.len() implies after[i].session
            < after[j].session by {
            if j < p {
                assert(log[i].session < log[j].session);
            } else if j == p {
                assert(log[i].session < session);
            } else if i < p {
                assert(log[j - 1].session >= session);
            } else if i == p {
                assert(log[j - 1].session >= session);
                if j - 1 == p {
                } else {
                    assert(log[p].session < log[j - 1].session);
                }
            } else {
                assert(log[i - 1].session < log[j - 1].session);
            }
        }
    }
}

} // verus!
