use offences::{
    Config, DisableStrategy, Event, Identity, Kind, OffenceDetails, OffenceError, Pallet,
};
use sp_runtime::Perbill;
use std::cell::RefCell;

const KIND: Kind = *b"im-online:offlin";

fn name(tag: u8) -> Identity {
    vec![tag; 32]
}

fn engine() -> Pallet {
    Pallet::new(Config { sessions_per_era: 6, bonding_duration: 28 })
}

#[test]
fn an_admitted_report_calls_for_the_handler_and_an_event() {
    let mut pallet = engine();
    let slot = vec![42u8, 0, 0, 0];
    let asked: RefCell<Vec<u32>> = RefCell::new(Vec::new());
    let fraction = |count: u32| {
        asked.borrow_mut().push(count);
        Perbill::from_percent(5 * count)
    };

    let admission = pallet
        .report_offence(
            vec![name(90)],
            &KIND,
            &slot,
            7,
            vec![name(1), name(2), name(3)],
            &fraction,
            DisableStrategy::WhenSlashed,
        )
        .expect("three new offenders");

    assert_eq!(*asked.borrow(), vec![3]);
    assert_eq!(admission.on_offence.offenders.len(), 3);
    assert_eq!(
        admission.on_offence.offenders[2],
        OffenceDetails { offender: name(3), reporters: vec![name(90)] }
    );
    assert_eq!(admission.on_offence.slash_fraction, vec![Perbill::from_percent(15); 3]);
    assert_eq!(admission.on_offence.session, 7);
    assert_eq!(admission.on_offence.disable_strategy, DisableStrategy::WhenSlashed);
    assert_eq!(admission.event, Event::Offence { kind: KIND, timeslot: slot.clone() });

    // One more offender for the same slot: the fraction is asked for all four.
    let next = pallet
        .report_offence(
            vec![name(91)],
            &KIND,
            &slot,
            8,
            vec![name(2), name(4)],
            &fraction,
            DisableStrategy::Always,
        )
        .expect("one new offender");
    assert_eq!(*asked.borrow(), vec![3, 4]);
    assert_eq!(next.on_offence.offenders.len(), 4);
    assert_eq!(next.on_offence.slash_fraction, vec![Perbill::from_percent(20); 4]);
    assert_eq!(next.on_offence.session, 8);
    assert_eq!(next.on_offence.disable_strategy, DisableStrategy::Always);
}

#[test]
fn a_duplicate_report_is_an_error_and_asks_for_no_fraction() {
    let mut pallet = engine();
    let slot = vec![1u8];
    let asked: RefCell<u32> = RefCell::new(0);
    let fraction = |_count: u32| {
        *asked.borrow_mut() += 1;
        Perbill::from_percent(1)
    };
    assert!(pallet
        .report_offence(vec![], &KIND, &slot, 1, vec![name(1)], &fraction, DisableStrategy::Never)
        .is_ok());
    let before = pallet.clone();

    let again = pallet.report_offence(
        vec![name(5)],
        &KIND,
        &slot,
        2,
        vec![name(1)],
        &fraction,
        DisableStrategy::Never,
    );

    assert_eq!(again, Err(OffenceError::DuplicateReport));
    assert_eq!(*asked.borrow(), 1);
    assert_eq!(pallet, before);
}
