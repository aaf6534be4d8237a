use offences::{Config, Identity, Kind, Pallet, ReportId};

const KIND: Kind = *b"babe:equivocatio";

fn name(tag: u8) -> Identity {
    vec![tag; 32]
}

#[test]
fn entry_survives_until_the_window_has_passed() {
    let mut pallet = Pallet::new(Config { sessions_per_era: 6, bonding_duration: 2 });
    assert_eq!(pallet.max_session_report_age(), 12);
    let slot = vec![1u8];
    assert!(pallet.triage_offence_report(vec![name(9)], &KIND, &slot, 5, vec![name(1)]).is_some());
    let id = Pallet::report_id(&KIND, &slot, &name(1));

    pallet.clear_obsolete_reports(16);
    assert!(pallet.reports(&id).is_some());
    assert_eq!(pallet.concurrent_reports_index().get(&KIND, &slot), vec![id]);
    assert_eq!(pallet.session_reports().sessions(), vec![5]);

    pallet.clear_obsolete_reports(18);
    assert!(pallet.reports(&id).is_none());
    assert_eq!(pallet.concurrent_reports_index().get(&KIND, &slot), Vec::<ReportId>::new());
    assert_eq!(pallet.session_reports().sessions(), Vec::<u32>::new());
    assert_eq!(pallet, Pallet::new(Config { sessions_per_era: 6, bonding_duration: 2 }));
}

#[test]
fn sweep_is_a_no_op_until_the_window_has_elapsed() {
    let mut pallet = Pallet::new(Config { sessions_per_era: 6, bonding_duration: 2 });
    pallet.triage_offence_report(vec![], &KIND, &vec![1], 0, vec![name(1)]);
    let before = pallet.clone();
    pallet.clear_obsolete_reports(0);
    assert_eq!(pallet, before);
    pallet.clear_obsolete_reports(12);
    assert_eq!(pallet, before);
    pallet.clear_obsolete_reports(13);
    assert_eq!(pallet.session_reports().sessions(), Vec::<u32>::new());
}

#[test]
fn sweep_removes_exactly_what_was_admitted_below_the_cutoff() {
    let mut pallet = Pallet::new(Config { sessions_per_era: 2, bonding_duration: 3 });
    let shared = vec![7u8];
    let mut ids: Vec<ReportId> = Vec::new();
    // One offender per session, all in the same group, and one in a group of its own.
    for session in [4u32, 9, 2, 6, 5, 3] {
        pallet.triage_offence_report(vec![name(200)], &KIND, &shared, session, vec![name(session as u8)]);
        ids.push(Pallet::report_id(&KIND, &shared, &name(session as u8)));
        let own = vec![session as u8, 1];
        pallet.triage_offence_report(vec![], &KIND, &own, session, vec![name(100)]);
    }
    assert_eq!(pallet.concurrent_reports_index().get(&KIND, &shared), ids);

    // Window 6, cutoff 5: sessions 2, 3 and 4 go, 5, 6 and 9 stay.
    pallet.clear_obsolete_reports(11);

    assert_eq!(pallet.session_reports().sessions(), vec![5, 6, 9]);
    assert_eq!(
        pallet.concurrent_reports_index().get(&KIND, &shared),
        vec![ids[1], ids[3], ids[4]]
    );
    for session in [4u32, 9, 2, 6, 5, 3] {
        let stays = session >= 5;
        let id = Pallet::report_id(&KIND, &shared, &name(session as u8));
        assert_eq!(pallet.reports(&id).is_some(), stays);
        let own = vec![session as u8, 1];
        let own_id = Pallet::report_id(&KIND, &own, &name(100));
        assert_eq!(pallet.reports(&own_id).is_some(), stays);
        let expected = if stays { vec![own_id] } else { vec![] };
        assert_eq!(pallet.concurrent_reports_index().get(&KIND, &own), expected);
    }
    let kept = pallet.reports(&ids[3]).expect("session 6 stays");
    assert_eq!(kept.offender, name(6));
    assert_eq!(kept.reporters, vec![name(200)]);
}

#[test]
fn after_a_sweep_every_surviving_report_stands_once_in_each_table() {
    let mut pallet = Pallet::new(Config { sessions_per_era: 1, bonding_duration: 4 });
    let slots: Vec<Vec<u8>> = vec![vec![1], vec![2], vec![3]];
    let mut all: Vec<(Vec<u8>, ReportId)> = Vec::new();
    for round in 0u8..9 {
        let slot = &slots[(round % 3) as usize];
        let session = ((round as u32) * 7) % 10;
        pallet.triage_offence_report(vec![], &KIND, slot, session, vec![name(round), name(round / 2)]);
        all.push((slot.clone(), Pallet::report_id(&KIND, slot, &name(round))));
        all.push((slot.clone(), Pallet::report_id(&KIND, slot, &name(round / 2))));
    }
    pallet.clear_obsolete_reports(9);

    let sessions = pallet.session_reports().sessions();
    assert!(sessions.iter().all(|s| *s >= 5));
    let mut survivors = 0;
    for (_, id) in all.iter() {
        if pallet.reports(id).is_none() {
            for slot in slots.iter() {
                assert!(!pallet.concurrent_reports_index().get(&KIND, slot).contains(id));
            }
            continue;
        }
        survivors += 1;
        let mut places = 0;
        for slot in slots.iter() {
            places += pallet
                .concurrent_reports_index()
                .get(&KIND, slot)
                .iter()
                .filter(|x| *x == id)
                .count();
        }
        assert_eq!(places, 1);
    }
    assert!(survivors > 0);
    // A second sweep at the same session finds nothing more to drop.
    let before = pallet.clone();
    pallet.clear_obsolete_reports(9);
    assert_eq!(pallet, before);
}

#[test]
fn config_is_valid_with_a_window_that_fits() {
    assert!(Config { sessions_per_era: 6, bonding_duration: 2 }.is_valid());
    assert!(Config { sessions_per_era: 65_535, bonding_duration: 65_537 }.is_valid());
    assert!(!Config { sessions_per_era: 65_536, bonding_duration: 65_536 }.is_valid());
    assert!(!Config { sessions_per_era: u32::MAX, bonding_duration: 2 }.is_valid());
    assert!(Config { sessions_per_era: u32::MAX, bonding_duration: 1 }.is_valid());
    let pallet = Pallet::new(Config { sessions_per_era: 65_535, bonding_duration: 65_537 });
    assert_eq!(pallet.max_session_report_age(), u32::MAX);
    assert_eq!(pallet.config(), Config { sessions_per_era: 65_535, bonding_duration: 65_537 });
}

#[test]
fn with_a_window_of_no_session_every_earlier_session_is_obsolete() {
    let mut pallet = Pallet::new(Config { sessions_per_era: 0, bonding_duration: 28 });
    assert_eq!(pallet.max_session_report_age(), 0);
    pallet.triage_offence_report(vec![], &KIND, &vec![1], 3, vec![name(1)]);
    pallet.triage_offence_report(vec![], &KIND, &vec![1], 4, vec![name(2)]);
    pallet.clear_obsolete_reports(0);
    assert_eq!(pallet.session_reports().sessions(), vec![3, 4]);
    pallet.clear_obsolete_reports(4);
    assert_eq!(pallet.session_reports().sessions(), vec![4]);
    pallet.clear_obsolete_reports(u32::MAX);
    assert_eq!(pallet.session_reports().sessions(), Vec::<u32>::new());
}
