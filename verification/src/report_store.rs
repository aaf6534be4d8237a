//! The table of reports, keyed by report identifier.

use vstd::prelude::*;
use crate::bytes::array_eq;
use crate::types::{OffenceDetails, OffenceDetailsView, ReportId};

verus! {

/// One row of the table.
#[derive(Clone, Debug, PartialEq, Eq)]
struct StoreEntry {
    id: ReportId,
    details: OffenceDetails,
}

/// The canonical table of reports: report identifier to report details.
#[derive(Clone, Debug, PartialEq, Eq)]
pub struct ReportStore {
    entries: Vec<StoreEntry>,
}

impl View for ReportStore {
    type V = Map<ReportId, OffenceDetailsView>;

    closed spec fn view(&self) -> Map<ReportId, OffenceDetailsView> {
        Map::new(
            |id: ReportId| exists|i: int| self.holds_at(id, i),
            |id: ReportId| self.entries@[choose|i: int| self.holds_at(id, i)].details@,
        )
    }
}

impl ReportStore {
    /// Row `i` exists and is the row of `id`.
    spec fn holds_at(&self, id: ReportId, i: int) -> bool {
        0 <= i < self.entries@.len() && self.entries@[i].id == id
    }

    /// No identifier has two rows.
    pub closed spec fn wf(&self) -> bool {
        forall|i: int, j: int|
            0 <= i < j < self.entries@.len() ==> self.entries@[i].id != self.entries@[j].id
    }

    /// In a well-formed table the row of an identifier is the one the view reads.
    proof fn lemma_row(&self, i: int)
        requires
            self.wf(),
            0 <= i < self.entries@.len(),
        ensures
            self@.contains_key(self.entries@[i].id),
            self@[self.entries@[i].id] == self.entries@[i].details@,
    {
        let id = self.entries@[i].id;
        assert(self.holds_at(id, i));
        let c = choose|k: int| self.holds_at(id, k);
        assert(self.holds_at(id, c));
        assert(c == i);
    }

    /// The empty table.
    pub fn new() -> (store: ReportStore)
        ensures
            store.wf(),
            store@ == Map::<ReportId, OffenceDetailsView>::empty(),
    {
        let store = ReportStore { entries: Vec::new() };
        assert(store@ =~= Map::<ReportId, OffenceDetailsView>::empty());
        store
    }

    /// The row of `id`, if it has one.
    fn position(&self, id: &ReportId) -> (found: Option<usize>)
        ensures
            match found {
                Some(i) => self.holds_at(*id, i as int),
                None => forall|i: int| !self.holds_at(*id, i),
            },
    {
        let mut i: usize = 0;
        while i < self.entries.len()
            invariant
                i <= self.entries@.len(),
                forall|j: int| 0 <= j < i ==> self.entries@[j].id != *id,
            decreases self.entries@.len() - i,
        {
            if array_eq(&self.entries[i].id, id) {
                return Some(i);
            }
            i += 1;
        }
        None
    }

    /// Whether a report with this identifier is known.
    pub fn contains_key(&self, id: &ReportId) -> (known: bool)
        ensures
            known == self@.contains_key(*id),
    {
        self.position(id).is_some()
    }

    /// The details recorded for `id`, if it is known.
    pub fn get(&self, id: &ReportId) -> (found: Option<&OffenceDetails>)
        requires
            self.wf(),
        ensures
            match found {
                Some(details) => self@.contains_key(*id) && details@ == self@[*id],
                None => !self@.contains_key(*id),
            },
    {
        match self.position(id) {
            Some(i) => {
                proof {
                    self.lemma_row(i as int);
                }
                Some(&self.entries[i].details)
            },
            None => None,
        }
    }

    /// Records `details` for `id`, in place of what was recorded before.
    pub fn insert(&mut self, id: ReportId, details: OffenceDetails)
        requires
            old(self).wf(),
        ensures
            final(self).wf(),
            final(self)@ == old(self)@.insert(id, details@),
    {
        let ghost before = *self;
        match self.position(&id) {
            Some(i) => {
                self.entries[i] = StoreEntry { id, details };
                proof {
                    let after = *self;
                    assert(after.wf());
                    assert forall|k: ReportId| #[trigger]
                        after@.contains_key(k) == before@.insert(id, details@).contains_key(
                            k,
                        ) by {
                        if exists|j: int| after.holds_at(k, j) {
                            let j = choose|j: int| after.holds_at(k, j);
                            assert(before.holds_at(k, j));
                        }
                        if exists|j: int| before.holds_at(k, j) {
                            let j = choose|j: int| before.holds_at(k, j);
                            assert(after.holds_at(k, j));
                        }
                        if k == id {
                            assert(after.holds_at(k, i as int));
                        }
                    }
                    assert forall|k: ReportId| #[trigger] after@.contains_key(k) implies after@[k]
                        == before@.insert(id, details@)[k] by {
                        let j = choose|j: int| after.holds_at(k, j);
                        after.lemma_row(j);
                        if k != id {
                            before.lemma_row(j);
                        }
                    }
                    assert(after@ =~= before@.insert(id, details@));
                }
            },
            None => {
                self.entries.push(StoreEntry { id, details });
                proof {
                    let after = *self;
                    let last = before.entries@.len() as int;
                    assert(after.wf()) by {
                        assert forall|a: int, b: int| 0 <= a < b < after.entries@.len() implies
                            after.entries@[a].id != after.entries@[b].id by {
                            if b == last {
                                assert(!before.holds_at(id, a));
                            }
                        }
                    }
                    assert forall|k: ReportId| #[trigger]
                        after@.contains_key(k) == before@.insert(id, details@).contains_key(
                            k,
                        ) by {
                        if exists|j: int| after.holds_at(k, j) {
                            let j = choose|j: int| after.holds_at(k, j);
                            if j != last {
                                assert(before.holds_at(k, j));
                            }
                        }
                        if exists|j: int| before.holds_at(k, j) {
                            let j = choose|j: int| before.holds_at(k, j);
                            assert(after.holds_at(k, j));
                        }
                        if k == id {
                            assert(after.holds_at(k, last));
                        }
                    }
                    assert forall|k: ReportId| #[trigger] after@.contains_key(k) implies after@[k]
                        == before@.insert(id, details@)[k] by {
                        let j = choose|j: int| after.holds_at(k, j);
                        after.lemma_row(j);
                        if j != last {
                            before.lemma_row(j);
                        }
                    }
                    assert(after@ =~= before@.insert(id, details@));
                }
            },
        }
    }

    /// Forgets the report with this identifier, if it is known.
    pub fn remove(&mut self, id: &ReportId)
        requires
            old(self).wf(),
        ensures
            final(self).wf(),
            final(self)@ == old(self)@.remove(*id),
    {
        let ghost before = *self;
        match self.position(id) {
            Some(i) => {
                self.entries.remove(i);
                proof {
                    let after = *self;
                    assert(after.wf());
                    assert forall|k: ReportId| #[trigger]
                        after@.contains_key(k) == before@.remove(*id).contains_key(k) by {
                        if exists|j: int| after.holds_at(k, j) {
                            let j = choose|j: int| after.holds_at(k, j);
                            if j < i {
                                assert(before.holds_at(k, j));
                            } else {
                                assert(before.holds_at(k, j + 1));
                            }
                        }
                        if k != *id && exists|j: int| before.holds_at(k, j) {
                            let j = choose|j: int| before.holds_at(k, j);
                            if j < i {
                                assert(after.holds_at(k, j));
                            } else {
                                assert(after.holds_at(k, j - 1));
                            }
                        }
                    }
                    assert forall|k: ReportId| #[trigger] after@.contains_key(k) implies after@[k]
                        == before@.remove(*id)[k] by {
                        let j = choose|j: int| after.holds_at(k, j);
                        after.lemma_row(j);
                        if j < i {
                            before.lemma_row(j);
                        } else {
                            before.lemma_row(j + 1);
                        }
                    }
                    assert(after@ =~= before@.remove(*id));
                }
            },
            None => {
                assert(self@ =~= before@.remove(*id));
            },
        }
    }
}

} // verus!
