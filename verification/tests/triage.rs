use offences::{Config, Identity, Kind, OffenceDetails, Pallet};

const KIND: Kind = *b"babe:equivocatio";

fn name(tag: u8) -> Identity {
    vec![tag; 32]
}

fn details(offender: u8, reporters: &[u8]) -> OffenceDetails {
    OffenceDetails {
        offender: name(offender),
        reporters: reporters.iter().map(|r| name(*r)).collect(),
    }
}

fn engine() -> Pallet {
    Pallet::new(Config { sessions_per_era: 6, bonding_duration: 2 })
}

#[test]
fn second_batch_sees_all_concurrent_offenders() {
    let mut pallet = engine();
    let t1 = vec![1u8, 0, 0, 0, 0, 0, 0, 0];

    let first = pallet
        .triage_offence_report(vec![name(101)], &KIND, &t1, 5, vec![name(1), name(2)])
        .expect("both offenders are new");
    assert_eq!(first.concurrent_offenders, vec![details(1, &[101]), details(2, &[101])]);

    let second = pallet
        .triage_offence_report(vec![name(102)], &KIND, &t1, 5, vec![name(2), name(3)])
        .expect("one offender is new");
    assert_eq!(
        second.concurrent_offenders,
        vec![details(1, &[101]), details(2, &[101]), details(3, &[102])]
    );
}

#[test]
fn repeated_batch_is_all_duplicate_and_changes_nothing() {
    let mut pallet = engine();
    let t1 = vec![1u8, 0, 0, 0, 0, 0, 0, 0];
    assert!(pallet
        .triage_offence_report(vec![name(101)], &KIND, &t1, 5, vec![name(1), name(2)])
        .is_some());
    assert!(pallet
        .triage_offence_report(vec![name(102)], &KIND, &t1, 5, vec![name(2), name(3)])
        .is_some());
    let before = pallet.clone();

    let third = pallet.triage_offence_report(vec![name(101)], &KIND, &t1, 5, vec![name(1), name(2)]);

    assert!(third.is_none());
    assert_eq!(pallet, before);
}

#[test]
fn reporters_stay_those_of_the_first_admitting_call() {
    let mut pallet = engine();
    let slot = vec![9u8];
    pallet.triage_offence_report(vec![name(50)], &KIND, &slot, 3, vec![name(7)]);
    pallet.triage_offence_report(vec![name(51), name(52)], &KIND, &slot, 4, vec![name(7), name(8)]);
    pallet.triage_offence_report(vec![], &KIND, &slot, 9, vec![name(7)]);

    let id = Pallet::report_id(&KIND, &slot, &name(7));
    assert!(pallet.report_store().contains_key(&id));
    assert_eq!(pallet.report_store().get(&id), Some(&details(7, &[50])));
    assert_eq!(pallet.reports(&id), Some(details(7, &[50])));
    let other = Pallet::report_id(&KIND, &slot, &name(8));
    assert_eq!(pallet.reports(&other), Some(details(8, &[51, 52])));
    assert_eq!(pallet.concurrent_reports_index().get(&KIND, &slot), vec![id, other]);
}

#[test]
fn an_offender_named_twice_in_one_batch_is_admitted_once() {
    let mut pallet = engine();
    let slot = vec![4u8, 4];
    let outcome = pallet
        .triage_offence_report(vec![name(60)], &KIND, &slot, 2, vec![name(5), name(5), name(6), name(5)])
        .expect("new offenders");
    assert_eq!(outcome.concurrent_offenders, vec![details(5, &[60]), details(6, &[60])]);
    assert_eq!(pallet.concurrent_offenders(&KIND, &slot), outcome.concurrent_offenders);
    assert_eq!(pallet.concurrent_offenders(&KIND, &vec![4u8]), vec![]);
    assert_eq!(pallet.session_reports().sessions(), vec![2]);
}

#[test]
fn an_empty_batch_is_a_duplicate() {
    let mut pallet = engine();
    let before = pallet.clone();
    assert!(pallet.triage_offence_report(vec![name(1)], &KIND, &vec![1], 1, vec![]).is_none());
    assert_eq!(pallet, before);
}

#[test]
fn the_same_offender_under_another_slot_or_kind_is_new() {
    let mut pallet = engine();
    let other_kind: Kind = *b"im-online:offlin";
    assert!(pallet.triage_offence_report(vec![], &KIND, &vec![1], 1, vec![name(1)]).is_some());
    assert!(pallet.triage_offence_report(vec![], &KIND, &vec![1], 1, vec![name(1)]).is_none());
    let by_slot = pallet
        .triage_offence_report(vec![], &KIND, &vec![2], 1, vec![name(1)])
        .expect("another time slot");
    assert_eq!(by_slot.concurrent_offenders, vec![details(1, &[])]);
    let by_kind = pallet
        .triage_offence_report(vec![name(3)], &other_kind, &vec![1], 1, vec![name(1)])
        .expect("another kind");
    assert_eq!(by_kind.concurrent_offenders, vec![details(1, &[3])]);
}

#[test]
fn is_known_offence_asks_for_every_offender() {
    let mut pallet = engine();
    let slot = vec![1u8];
    assert!(pallet.is_known_offence(&vec![], &KIND, &slot));
    assert!(!pallet.is_known_offence(&vec![name(1)], &KIND, &slot));
    pallet.triage_offence_report(vec![], &KIND, &slot, 1, vec![name(1), name(2)]);
    assert!(pallet.is_known_offence(&vec![name(1)], &KIND, &slot));
    assert!(pallet.is_known_offence(&vec![name(2), name(1)], &KIND, &slot));
    assert!(!pallet.is_known_offence(&vec![name(2), name(3), name(1)], &KIND, &slot));
    assert!(!pallet.is_known_offence(&vec![name(1)], &KIND, &vec![2u8]));
}

#[test]
fn the_log_stays_sorted_under_any_order_of_sessions() {
    let mut pallet = engine();
    let sessions: [u32; 12] = [9, 3, 7, 3, 1, 12, 8, 1, 0, 4_000_000_000, 5, 9];
    let mut seen: Vec<u32> = Vec::new();
    for (i, session) in sessions.iter().enumerate() {
        let slot = vec![i as u8];
        assert!(pallet
            .triage_offence_report(vec![], &KIND, &slot, *session, vec![name(i as u8)])
            .is_some());
        seen.push(*session);
        let mut expected = seen.clone();
        expected.sort();
        expected.dedup();
        assert_eq!(pallet.session_reports().sessions(), expected);
    }
}
