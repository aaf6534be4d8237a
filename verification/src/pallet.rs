//! The engine: triage of incoming reports and the sweep of obsolete ones.

use vstd::prelude::*;
use crate::concurrency_index::{spec_bucket, ConcurrencyIndex};
use crate::model::{
    lemma_admit_consistent, spec_all_known, spec_concurrent_offenders, spec_consistent,
    spec_forget_all, spec_log_keys, spec_logged, spec_logged_at, spec_sweep, spec_triage,
    PalletView,
};
use crate::retention::{lemma_sweep, spec_retained};
use crate::report_id::{blake2_256, encode_slot, spec_encoded_report, spec_report_id};
use crate::report_store::ReportStore;
use crate::retention_log::{spec_keys, RetentionLog, SessionBucketView};
use crate::types::{
    spec_details_views, Config, DisableStrategy, Event, Identity, Kind, OffenceDetails,
    OffenceDetailsView, OffenceError, OpaqueTimeSlot, ReportId, ReportKey, SessionIndex,
};
use sp_runtime::Perbill;

verus! {

/// What a triage found where anything was new.
#[derive(Clone, Debug, PartialEq, Eq)]
pub struct TriageOutcome {
    /// The details of every report of the same kind at the same time slot,
    /// those of earlier calls too, in the order of their admission.
    pub concurrent_offenders: Vec<OffenceDetails>,
}

/// What the handler of offences is to be called with.
#[derive(Clone, Debug, PartialEq, Eq)]
pub struct OnOffence {
    /// Every offender known for the kind and time slot.
    pub offenders: Vec<OffenceDetails>,
    /// The fraction to slash, once for each offender.
    pub slash_fraction: Vec<Perbill>,
    /// The session that the offence was reported for.
    pub session: SessionIndex,
    /// Whether the offenders are to be disabled.
    pub disable_strategy: DisableStrategy,
}

/// What is left to do once a report has been admitted.
#[derive(Clone, Debug, PartialEq, Eq)]
pub struct Admission {
    /// The call that the handler of offences is owed.
    pub on_offence: OnOffence,
    /// The notification to deposit.
    pub event: Event,
}

/// The three tables of reported offences and the constants they are kept by.
#[derive(Clone, Debug, PartialEq, Eq)]
pub struct Pallet {
    config: Config,
    reports: ReportStore,
    concurrent_reports_index: ConcurrencyIndex,
    session_reports: RetentionLog,
}

impl View for Pallet {
    type V = PalletView;

    closed spec fn view(&self) -> PalletView {
        PalletView {
            reports: self.reports@,
            concurrent: self.concurrent_reports_index@,
            sessions: self.session_reports@,
        }
    }
}

/// `admission` is what an admitted report of `kind` at `time_slot` calls for in
/// `state`: the handler gets every concurrent offender with one and the same
/// fraction each, the session and the strategy; the event names kind and time slot.
pub open spec fn spec_admission(
    admission: Admission,
    state: PalletView,
    kind: Kind,
    time_slot: Seq<u8>,
    session: SessionIndex,
    disable_strategy: DisableStrategy,
) -> bool {
    let call = admission.on_offence;
    &&& spec_details_views(call.offenders@) == spec_concurrent_offenders(state, kind, time_slot)
    &&& call.slash_fraction@.len() == call.offenders@.len()
    &&& forall|i: int|
        0 <= i < call.slash_fraction@.len() ==> #[trigger] call.slash_fraction@[i]
            == call.slash_fraction@[0]
    &&& call.session == session
    &&& call.disable_strategy == disable_strategy
    &&& match admission.event {
        Event::Offence { kind: event_kind, timeslot } => event_kind == kind && timeslot@
            == time_slot,
    }
}

impl Pallet {
    /// The constants that the tables are kept by.
    pub closed spec fn spec_config(&self) -> Config {
        self.config
    }

    /// The constants are valid, each table is sound in itself, and the three are
    /// mutually consistent.
    pub closed spec fn wf(&self) -> bool {
        &&& self.config.spec_valid()
        &&& self.reports.wf()
        &&& self.concurrent_reports_index.wf()
        &&& spec_consistent(self@)
    }

    /// What well-formedness says of the model.
    pub proof fn lemma_wf(&self)
        requires
            self.wf(),
        ensures
            self.spec_config().spec_valid(),
            spec_consistent(self@),
    {
    }

    /// Empty tables under the given constants.
    pub fn new(config: Config) -> (pallet: Pallet)
        requires
            config.spec_valid(),
        ensures
            pallet.wf(),
            pallet.spec_config() == config,
            pallet@.reports == Map::<ReportId, OffenceDetailsView>::empty(),
            pallet@.concurrent == Map::<(Kind, Seq<u8>), Seq<ReportId>>::empty(),
            pallet@.sessions == Seq::<SessionBucketView>::empty(),
    {
        let pallet = Pallet {
            config,
            reports: ReportStore::new(),
            concurrent_reports_index: ConcurrencyIndex::new(),
            session_reports: RetentionLog::new(),
        };
        proof {
            assert forall|key: ReportKey| !(#[trigger] spec_log_keys(pallet@.sessions).contains(
                key,
            )) by {
                if spec_logged(pallet@.sessions, key) {
                    let (b, j) = choose|b: int, j: int|
                        spec_logged_at(pallet@.sessions, key, b, j);
                    assert(spec_logged_at(pallet@.sessions, key, b, j));
                }
            }
            assert forall|kind: Kind, time_slot: Seq<u8>, id: ReportId|
                !(#[trigger] spec_bucket(pallet@.concurrent, kind, time_slot).contains(id)) by {}
        }
        pallet
    }

    /// The constants that the tables are kept by.
    pub fn config(&self) -> (config: Config)
        ensures
            config == self.spec_config(),
    {
        self.config
    }

    /// The table of reports.
    pub fn report_store(&self) -> (store: &ReportStore)
        ensures
            store@ == self@.reports,
            self.wf() ==> store.wf(),
    {
        &self.reports
    }

    /// The table of concurrent reports.
    pub fn concurrent_reports_index(&self) -> (index: &ConcurrencyIndex)
        ensures
            index@ == self@.concurrent,
            self.wf() ==> index.wf(),
    {
        &self.concurrent_reports_index
    }

    /// The log of admissions by session.
    pub fn session_reports(&self) -> (log: &RetentionLog)
        ensures
            log@ == self@.sessions,
            self.wf() ==> log.wf(),
    {
        &self.session_reports
    }

    /// The details recorded for a report, if it is known.
    pub fn reports(&self, id: &ReportId) -> (found: Option<OffenceDetails>)
        requires
            self.wf(),
        ensures
            match found {
                Some(details) => self@.reports.contains_key(*id) && details@ == self@.reports[*id],
                None => !self@.reports.contains_key(*id),
            },
    {
        match self.reports.get(id) {
            Some(details) => Some(details.duplicate()),
            None => None,
        }
    }

    /// The number of sessions that a report stays live.
    pub fn max_session_report_age(&self) -> (age: SessionIndex)
        requires
            self.wf(),
        ensures
            age == self.spec_config().spec_retention_window(),
    {
        assert(self.config.bonding_duration * self.config.sessions_per_era
            == self.config.sessions_per_era * self.config.bonding_duration) by (nonlinear_arith);
        self.config.bonding_duration * self.config.sessions_per_era
    }

    /// The identifier of the report of `offender` for `kind` at `time_slot`: the
    /// digest of the kind, the time slot behind its length, and the offender.
    pub fn report_id(kind: &Kind, time_slot: &OpaqueTimeSlot, offender: &Identity) -> (id: ReportId)
        requires
            time_slot@.len() <= u32::MAX,
        ensures
            id == spec_report_id(*kind, time_slot@, offender@),
    {
        let mut encoded = encode_slot(kind, time_slot);
        encoded.extend_from_slice(offender.as_slice());
        assert(encoded@ =~= spec_encoded_report(*kind, time_slot@, offender@));
        blake2_256(encoded.as_slice())
    }

    /// Whether every one of `offenders` has a report for `kind` at `time_slot`.
    pub fn is_known_offence(
        &self,
        offenders: &[Identity],
        kind: &Kind,
        time_slot: &OpaqueTimeSlot,
    ) -> (known: bool)
        requires
            time_slot@.len() <= u32::MAX,
        ensures
            known == spec_all_known(self@.reports, *kind, time_slot@, offenders.deep_view()),
    {
        let ghost names = offenders.deep_view();
        let mut i: usize = 0;
        while i < offenders.len()
            invariant
                i <= offenders@.len(),
                names == offenders.deep_view(),
                time_slot@.len() <= u32::MAX,
                forall|j: int|
                    0 <= j < i ==> self@.reports.contains_key(
                        spec_report_id(*kind, time_slot@, #[trigger] names[j]),
                    ),
            decreases offenders@.len() - i,
        {
            assert(names[i as int] =~= offenders@[i as int]@);
            let report_id = Self::report_id(kind, time_slot, &offenders[i]);
            if !self.reports.contains_key(&report_id) {
                return false;
            }
            i += 1;
        }
        true
    }

    /// Looks at each of `offenders` in turn. One whose report is known is passed
    /// over. For any other, the report is recorded with `reporters`, appended to
    /// the concurrent reports of `kind` at `time_slot`, and logged under
    /// `session_index`. Where none was new, nothing is touched and the outcome
    /// is `None`; else the outcome carries every report of that kind and time slot.
    pub fn triage_offence_report(
        &mut self,
        reporters: Vec<Identity>,
        kind: &Kind,
        time_slot: &OpaqueTimeSlot,
        session_index: SessionIndex,
        offenders: Vec<Identity>,
    ) -> (outcome: Option<TriageOutcome>)
        requires
            old(self).wf(),
            time_slot@.len() <= u32::MAX,
        ensures
            final(self).wf(),
            spec_consistent(final(self)@),
            final(self).spec_config() == old(self).spec_config(),
            final(self)@ == spec_triage(
                old(self)@,
                *kind,
                time_slot@,
                session_index,
                reporters.deep_view(),
                offenders.deep_view(),
            ),
            outcome is None <==> spec_all_known(
                old(self)@.reports,
                *kind,
                time_slot@,
                offenders.deep_view(),
            ),
            outcome is None ==> *final(self) == *old(self),
            outcome matches Some(found) ==> spec_details_views(found.concurrent_offenders@)
                == spec_concurrent_offenders(final(self)@, *kind, time_slot@),
    {
        let ghost names = offenders.deep_view();
        let ghost origin = self@;
        let mut any_new = false;
        let mut i: usize = 0;
        while i < offenders.len()
            invariant
                i <= offenders@.len(),
                names == offenders.deep_view(),
                time_slot@.len() <= u32::MAX,
                self.wf(),
                self.config == old(self).config,
                origin == old(self)@,
                self@ == spec_triage(
                    origin,
                    *kind,
                    time_slot@,
                    session_index,
                    reporters.deep_view(),
                    names.take(i as int),
                ),
                !any_new ==> *self == *old(self),
                any_new <==> !spec_all_known(origin.reports, *kind, time_slot@, names.take(i as int)),
                forall|id: ReportId|
                    origin.reports.contains_key(id) ==> self@.reports.contains_key(id),
            decreases offenders@.len() - i,
        {
            let ghost state = self@;
            let ghost name = names[i as int];
            proof {
                assert(name =~= offenders@[i as int]@);
                assert(names.take(i + 1).drop_last() =~= names.take(i as int));
                assert(names.take(i + 1).last() == name);
                lemma_admit_consistent(
                    state,
                    *kind,
                    time_slot@,
                    session_index,
                    reporters.deep_view(),
                    name,
                );
            }
            let report_id = Self::report_id(kind, time_slot, &offenders[i]);
            if !self.reports.contains_key(&report_id) {
                any_new = true;
                self.reports.insert(
                    report_id,
                    OffenceDetails { offender: offenders[i].clone(), reporters: reporters.clone() },
                );
                self.concurrent_reports_index.insert(kind, time_slot, report_id);
                self.session_reports.record_admission(session_index, kind, time_slot, report_id);
                proof {
                    assert(!origin.reports.contains_key(report_id));
                    assert(names.take(i + 1)[i as int] == name);
                }
            } else {
                proof {
                    if !any_new {
                        assert forall|j: int| 0 <= j < i + 1 implies origin.reports.contains_key(
                            spec_report_id(*kind, time_slot@, #[trigger] names.take(i + 1)[j]),
                        ) by {
                            if j < i {
                                assert(names.take(i as int)[j] == names.take(i + 1)[j]);
                            }
                        }
                    } else {
                        let j = choose|j: int|
                            0 <= j < i && !origin.reports.contains_key(
                                spec_report_id(*kind, time_slot@, #[trigger] names.take(i as int)[j]),
                            );
                        assert(names.take(i as int)[j] == names.take(i + 1)[j]);
                    }
                }
            }
            i += 1;
        }
        proof {
            assert(names.take(i as int) =~= names);
        }
        if any_new {
            let concurrent_offenders = self.concurrent_offenders(kind, time_slot);
            Some(TriageOutcome { concurrent_offenders })
        } else {
            None
        }
    }

    /// The details of every report of `kind` at `time_slot`, in the order of
    /// their admission.
    pub fn concurrent_offenders(&self, kind: &Kind, time_slot: &OpaqueTimeSlot) -> (details: Vec<
        OffenceDetails,
    >)
        requires
            self.wf(),
        ensures
            spec_details_views(details@) == spec_concurrent_offenders(self@, *kind, time_slot@),
    {
        let ids = self.concurrent_reports_index.get(kind, time_slot);
        let ghost goal = spec_concurrent_offenders(self@, *kind, time_slot@);
        let mut details: Vec<OffenceDetails> = Vec::new();
        let mut j: usize = 0;
        while j < ids.len()
            invariant
                j <= ids@.len(),
                self.wf(),
                ids@ == spec_bucket(self@.concurrent, *kind, time_slot@),
                goal == spec_concurrent_offenders(self@, *kind, time_slot@),
                spec_details_views(details@) == goal.take(j as int),
            decreases ids@.len() - j,
        {
            let ghost key = ReportKey { kind: *kind, time_slot: time_slot@, id: ids@[j as int] };
            proof {
                assert(spec_bucket(self@.concurrent, key.kind, key.time_slot).contains(key.id));
                assert(spec_log_keys(self@.sessions).contains(key));
                assert(self@.reports.contains_key(key.id));
            }
            match self.reports.get(&ids[j]) {
                Some(found) => {
                    let copy = found.duplicate();
                    details.push(copy);
                    proof {
                        assert(spec_details_views(details@) =~= goal.take(j as int).push(copy@));
                        assert(goal.take(j + 1) =~= goal.take(j as int).push(goal[j as int]));
                    }
                },
                None => {},
            }
            j += 1;
        }
        proof {
            assert(goal.take(j as int) =~= goal);
        }
        details
    }

    /// Admits a report as [`Pallet::triage_offence_report`] does. Where nothing
    /// was new, the report is a duplicate. Else the fraction to slash is asked of
    /// `slash_fraction` for the number of concurrent offenders, and the call
    /// owed to the handler of offences is handed back with the event to deposit.
    pub fn report_offence<F: Fn(u32) -> Perbill>(
        &mut self,
        reporters: Vec<Identity>,
        kind: &Kind,
        time_slot: &OpaqueTimeSlot,
        session_index: SessionIndex,
        offenders: Vec<Identity>,
        slash_fraction: F,
        disable_strategy: DisableStrategy,
    ) -> (result: Result<Admission, OffenceError>)
        requires
            old(self).wf(),
            time_slot@.len() <= u32::MAX,
            forall|count: u32| slash_fraction.requires((count,)),
        ensures
            final(self).wf(),
            spec_consistent(final(self)@),
            final(self).spec_config() == old(self).spec_config(),
            final(self)@ == spec_triage(
                old(self)@,
                *kind,
                time_slot@,
                session_index,
                reporters.deep_view(),
                offenders.deep_view(),
            ),
            result is Err <==> spec_all_known(
                old(self)@.reports,
                *kind,
                time_slot@,
                offenders.deep_view(),
            ),
            result is Err ==> result == Err::<Admission, OffenceError>(
                OffenceError::DuplicateReport,
            ) && *final(self) == *old(self),
            result matches Ok(admission) ==> {
                &&& spec_admission(
                    admission,
                    final(self)@,
                    *kind,
                    time_slot@,
                    session_index,
                    disable_strategy,
                )
                &&& forall|i: int|
                    0 <= i < admission.on_offence.slash_fraction@.len() ==> slash_fraction.ensures(
                        (admission.on_offence.offenders@.len() as u32,),
                        #[trigger] admission.on_offence.slash_fraction@[i],
                    )
            },
    {
        let concurrent_offenders = match self.triage_offence_report(
            reporters,
            kind,
            time_slot,
            session_index,
            offenders,
        ) {
            Some(TriageOutcome { concurrent_offenders }) => concurrent_offenders,
            None => {
                return Err(OffenceError::DuplicateReport);
            },
        };
        let offenders_count = #[verifier::truncate]
        (concurrent_offenders.len() as u32);
        let new_fraction = slash_fraction(offenders_count);
        let mut slash_perbill: Vec<Perbill> = Vec::new();
        let mut i: usize = 0;
        while i < concurrent_offenders.len()
            invariant
                i <= concurrent_offenders@.len(),
                slash_perbill@.len() == i,
                forall|j: int| 0 <= j < i ==> slash_perbill@[j] == new_fraction,
            decreases concurrent_offenders@.len() - i,
        {
            slash_perbill.push(new_fraction);
            i += 1;
        }
        Ok(
            Admission {
                on_offence: OnOffence {
                    offenders: concurrent_offenders,
                    slash_fraction: slash_perbill,
                    session: session_index,
                    disable_strategy,
                },
                event: Event::Offence { kind: *kind, timeslot: time_slot.clone() },
            },
        )
    }

    /// Drops what has become obsolete by session `current_session_index`. Until
    /// the retention window has elapsed nothing is touched. After that, every
    /// bucket of a session below `current_session_index` less the window leaves
    /// the log, and each report it held leaves the two keyed tables.
    pub fn clear_obsolete_reports(&mut self, current_session_index: SessionIndex)
        requires
            old(self).wf(),
        ensures
            final(self).wf(),
            spec_consistent(final(self)@),
            final(self).spec_config() == old(self).spec_config(),
            final(self)@ == spec_sweep(
                old(self)@,
                old(self).spec_config().spec_retention_window() as SessionIndex,
                current_session_index,
            ),
            current_session_index <= old(self).spec_config().spec_retention_window()
                ==> *final(self) == *old(self),
            current_session_index > old(self).spec_config().spec_retention_window()
                ==> spec_retained(
                old(self)@,
                final(self)@,
                (current_session_index - old(self).spec_config().spec_retention_window())
                    as SessionIndex,
            ),
    {
        let ghost origin = self@;
        let window = self.max_session_report_age();
        if current_session_index <= window {
            return;
        }
        let obsolete_session_index = current_session_index - window;
        let removed = self.session_reports.prune_before(obsolete_session_index);
        let ghost gone = spec_keys(removed@);
        let ghost start = PalletView {
            reports: origin.reports,
            concurrent: origin.concurrent,
            sessions: self.session_reports@,
        };
        let mut i: usize = 0;
        while i < removed.len()
            invariant
                i <= removed@.len(),
                gone == spec_keys(removed@),
                self.config == old(self).config,
                self.reports.wf(),
                self.concurrent_reports_index.wf(),
                self@ == spec_forget_all(start, gone.take(i as int)),
            decreases removed@.len() - i,
        {
            let entry = &removed[i];
            proof {
                assert(gone[i as int] == entry@);
                assert(gone.take(i + 1).drop_last() =~= gone.take(i as int));
                assert(gone.take(i + 1).last() == gone[i as int]);
            }
            self.concurrent_reports_index.remove(&entry.kind, &entry.time_slot, &entry.id);
            self.reports.remove(&entry.id);
            i += 1;
        }
        proof {
            assert(gone.take(i as int) =~= gone);
            lemma_sweep(origin, window, current_session_index);
        }
    }
}

} // verus!
