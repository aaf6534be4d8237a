//! The values that the tables hold and hand out.

use vstd::prelude::*;

verus! {

/// Fixed tag that identifies an offence category.
pub type Kind = [u8; 16];

/// The encoded time slot of an offence, opaque to this crate.
pub type OpaqueTimeSlot = Vec<u8>;

/// Index of a session.
pub type SessionIndex = u32;

/// Index of an era.
pub type EraIndex = u32;

/// Digest that identifies one report: one (kind, time slot, offender) triple.
pub type ReportId = [u8; 32];

/// The encoded identity of a reporter or an offender, opaque to this crate.
pub type Identity = Vec<u8>;

/// What is recorded of one report when it is first admitted.
#[derive(Clone, Debug, PartialEq, Eq)]
pub struct OffenceDetails {
    /// The offending authority.
    pub offender: Identity,
    /// Those who reported the offence first.
    pub reporters: Vec<Identity>,
}

/// Mathematical model of [`OffenceDetails`].
pub struct OffenceDetailsView {
    pub offender: Seq<u8>,
    pub reporters: Seq<Seq<u8>>,
}

impl View for OffenceDetails {
    type V = OffenceDetailsView;

    open spec fn view(&self) -> OffenceDetailsView {
        OffenceDetailsView {
            offender: self.offender@,
            reporters: self.reporters.deep_view(),
        }
    }
}

/// Models of a sequence of details, element by element.
pub open spec fn spec_details_views(details: Seq<OffenceDetails>) -> Seq<OffenceDetailsView> {
    details.map_values(|d: OffenceDetails| d@)
}

impl OffenceDetails {
    /// An independent copy with the same offender and the same reporters.
    pub fn duplicate(&self) -> (copy: OffenceDetails)
        ensures
            copy@ == self@,
    {
        OffenceDetails { offender: self.offender.clone(), reporters: self.reporters.clone() }
    }
}

/// Where a report sits: the key of its group and its identifier.
pub struct ReportKey {
    pub kind: Kind,
    pub time_slot: Seq<u8>,
    pub id: ReportId,
}

/// Whether offenders should be excluded from future duty.
#[derive(Clone, Copy, Debug, PartialEq, Eq, Structural)]
pub enum DisableStrategy {
    /// Independently of slashing, this offence will not disable the offender.
    Never,
    /// Only disable the offender if it is also slashed.
    WhenSlashed,
    /// Independently of slashing, this offence will always disable the offender.
    Always,
}

/// Why a report had no effect.
#[derive(Clone, Copy, Debug, PartialEq, Eq, Structural)]
pub enum OffenceError {
    /// Every offender named was already known for this kind and time slot.
    DuplicateReport,
}

/// Notification of an admitted report.
#[derive(Clone, Debug, PartialEq, Eq)]
pub enum Event {
    /// An offence of the given kind was reported at the given time slot.
    /// Not raised for duplicate reports.
    Offence { kind: Kind, timeslot: OpaqueTimeSlot },
}

/// The constants that fix how long a report stays live.
#[derive(Clone, Copy, Debug, PartialEq, Eq, Structural)]
pub struct Config {
    /// Number of sessions per era.
    pub sessions_per_era: SessionIndex,
    /// Number of eras that staked funds must remain bonded for.
    pub bonding_duration: EraIndex,
}

impl Config {
    /// The number of sessions that a report stays live.
    pub open spec fn spec_retention_window(&self) -> int {
        self.sessions_per_era * self.bonding_duration
    }

    /// The retention window is a session index.
    pub open spec fn spec_valid(&self) -> bool {
        self.spec_retention_window() <= SessionIndex::MAX
    }

    /// Whether the retention window is a session index.
    pub fn is_valid(&self) -> (valid: bool)
        ensures
            valid == self.spec_valid(),
    {
        self.sessions_per_era.checked_mul(self.bonding_duration).is_some()
    }
}

/// `Perbill` of `sp_runtime`: a fraction in parts per billion, as the handler of
/// offences takes it. This crate hands such values on and never looks inside.
#[verifier::external_type_specification]
#[verifier::external_body]
pub struct ExPerbill(sp_runtime::Perbill);

} // verus!
