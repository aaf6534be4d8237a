//! The table of concurrent reports, keyed by kind and time slot.

use vstd::prelude::*;
use crate::bytes::{array_eq, bytes_eq};
use crate::types::{Kind, OpaqueTimeSlot, ReportId};

verus! {

/// The reports of one kind at one time slot, in the order of their admission.
#[derive(Clone, Debug, PartialEq, Eq)]
struct IndexBucket {
    kind: Kind,
    time_slot: OpaqueTimeSlot,
    ids: Vec<ReportId>,
}

/// The table of concurrent reports: (kind, time slot) to the identifiers
/// admitted under that key.
#[derive(Clone, Debug, PartialEq, Eq)]
pub struct ConcurrencyIndex {
    buckets: Vec<IndexBucket>,
}

/// Mathematical model of a [`ConcurrencyIndex`].
pub type IndexView = Map<(Kind, Seq<u8>), Seq<ReportId>>;

/// What the table holds for a key: nothing where the key has no bucket.
pub open spec fn spec_bucket(index: IndexView, kind: Kind, time_slot: Seq<u8>) -> Seq<ReportId> {
    if index.contains_key((kind, time_slot)) {
        index[(kind, time_slot)]
    } else {
        Seq::empty()
    }
}

/// `i` is the place where `id` occurs first in `ids`.
pub open spec fn spec_is_first_index(ids: Seq<ReportId>, id: ReportId, i: int) -> bool {
    &&& 0 <= i < ids.len()
    &&& ids[i] == id
    &&& forall|j: int| 0 <= j < i ==> ids[j] != id
}

/// `ids` without the first occurrence of `id`.
pub open spec fn spec_remove_first(ids: Seq<ReportId>, id: ReportId) -> Seq<ReportId> {
    if ids.contains(id) {
        ids.remove(choose|i: int| spec_is_first_index(ids, id, i))
    } else {
        ids
    }
}

/// The table after `id` has been appended under a key.
pub open spec fn spec_index_insert(
    index: IndexView,
    kind: Kind,
    time_slot: Seq<u8>,
    id: ReportId,
) -> IndexView {
    index.insert((kind, time_slot), spec_bucket(index, kind, time_slot).push(id))
}

/// The table after one occurrence of `id` has left the bucket of a key. A bucket
/// that this empties leaves the table.
pub open spec fn spec_index_remove(
    index: IndexView,
    kind: Kind,
    time_slot: Seq<u8>,
    id: ReportId,
) -> IndexView {
    let rest = spec_remove_first(spec_bucket(index, kind, time_slot), id);
    if !index.contains_key((kind, time_slot)) {
        index
    } else if rest.len() == 0 {
        index.remove((kind, time_slot))
    } else {
        index.insert((kind, time_slot), rest)
    }
}

/// No key of the table has an empty bucket.
pub open spec fn spec_no_empty_bucket(index: IndexView) -> bool {
    forall|key: (Kind, Seq<u8>)| #[trigger] index.contains_key(key) ==> index[key].len() > 0
}

impl View for ConcurrencyIndex {
    type V = IndexView;

    closed spec fn view(&self) -> IndexView {
        Map::new(
            |key: (Kind, Seq<u8>)| exists|i: int| self.holds_at(key, i),
            |key: (Kind, Seq<u8>)| self.buckets@[choose|i: int| self.holds_at(key, i)].ids@,
        )
    }
}

impl ConcurrencyIndex {
    /// Bucket `i` exists and is the bucket of `key`.
    spec fn holds_at(&self, key: (Kind, Seq<u8>), i: int) -> bool {
        &&& 0 <= i < self.buckets@.len()
        &&& self.buckets@[i].kind == key.0
        &&& self.buckets@[i].time_slot@ == key.1
    }

    /// The key of bucket `i`.
    spec fn key_at(&self, i: int) -> (Kind, Seq<u8>) {
        (self.buckets@[i].kind, self.buckets@[i].time_slot@)
    }

    /// No key has two buckets, and no bucket is empty.
    pub closed spec fn wf(&self) -> bool {
        &&& forall|i: int, j: int|
            0 <= i < j < self.buckets@.len() ==> self.key_at(i) != self.key_at(j)
        &&& forall|i: int| 0 <= i < self.buckets@.len() ==> self.buckets@[i].ids@.len() > 0
    }

    /// In a well-formed table the bucket of a key is the one the view reads.
    proof fn lemma_row(&self, i: int)
        requires
            self.wf(),
            0 <= i < self.buckets@.len(),
        ensures
            self@.contains_key(self.key_at(i)),
            self@[self.key_at(i)] == self.buckets@[i].ids@,
    {
        let key = self.key_at(i);
        assert(self.holds_at(key, i));
        let c = choose|k: int| self.holds_at(key, k);
        assert(self.holds_at(key, c));
        if c < i {
            assert(self.key_at(c) != self.key_at(i));
        } else if i < c {
            assert(self.key_at(i) != self.key_at(c));
        }
    }

    /// A well-formed table holds no empty bucket.
    pub proof fn lemma_no_empty_bucket(&self)
        requires
            self.wf(),
        ensures
            spec_no_empty_bucket(self@),
    {
        assert forall|key: (Kind, Seq<u8>)| #[trigger] self@.contains_key(key) implies self@[key].len()
            > 0 by {
            let i = choose|i: int| self.holds_at(key, i);
            assert(self.holds_at(key, i));
        }
    }

    /// The empty table.
    pub fn new() -> (index: ConcurrencyIndex)
        ensures
            index.wf(),
            index@ == Map::<(Kind, Seq<u8>), Seq<ReportId>>::empty(),
    {
        let index = ConcurrencyIndex { buckets: Vec::new() };
        assert(index@ =~= Map::<(Kind, Seq<u8>), Seq<ReportId>>::empty());
        index
    }

    /// The bucket of a key, if it has one.
    fn position(&self, kind: &Kind, time_slot: &OpaqueTimeSlot) -> (found: Option<usize>)
        ensures
            match found {
                Some(i) => self.holds_at((*kind, time_slot@), i as int),
                None => forall|i: int| !self.holds_at((*kind, time_slot@), i),
            },
    {
        let mut i: usize = 0;
        while i < self.buckets.len()
            invariant
                i <= self.buckets@.len(),
                forall|j: int| 0 <= j < i ==> !self.holds_at((*kind, time_slot@), j),
            decreases self.buckets@.len() - i,
        {
            if array_eq(&self.buckets[i].kind, kind) && bytes_eq(
                self.buckets[i].time_slot.as_slice(),
                time_slot.as_slice(),
            ) {
                return Some(i);
            }
            i += 1;
        }
        None
    }

    /// The identifiers admitted for a kind and time slot, oldest first; none
    /// where the key is unknown.
    pub fn get(&self, kind: &Kind, time_slot: &OpaqueTimeSlot) -> (ids: Vec<ReportId>)
        requires
            self.wf(),
        ensures
            ids@ == spec_bucket(self@, *kind, time_slot@),
    {
        match self.position(kind, time_slot) {
            Some(i) => {
                proof {
                    self.lemma_row(i as int);
                }
                let bucket = &self.buckets[i].ids;
                let mut ids: Vec<ReportId> = Vec::new();
                let mut j: usize = 0;
                while j < bucket.len()
                    invariant
                        j <= bucket@.len(),
                        ids@ == bucket@.take(j as int),
                    decreases bucket@.len() - j,
                {
                    ids.push(bucket[j]);
                    assert(bucket@.take(j + 1) =~= bucket@.take(j as int).push(bucket@[j as int]));
                    j += 1;
                }
                assert(bucket@.take(j as int) =~= bucket@);
                ids
            },
            None => Vec::new(),
        }
    }

    /// Appends `id` to the bucket of a kind and time slot; the bucket is made
    /// where the key had none.
    pub fn insert(&mut self, kind: &Kind, time_slot: &OpaqueTimeSlot, id: ReportId)
        requires
            old(self).wf(),
        ensures
            final(self).wf(),
            final(self)@ == spec_index_insert(old(self)@, *kind, time_slot@, id),
    {
        let ghost before = *self;
        let ghost key = (*kind, time_slot@);
        match self.position(kind, time_slot) {
            Some(i) => {
                proof {
                    before.lemma_row(i as int);
                }
                self.buckets[i].ids.push(id);
                proof {
                    let after = *self;
                    assert forall|j: int| 0 <= j < after.buckets@.len() implies after.key_at(j)
                        == before.key_at(j) by {}
                    assert(after.wf());
                    after.lemma_same_keys_update(before, i as int, key, before@[key].push(id));
                }
            },
            None => {
                self.buckets.push(
                    IndexBucket { kind: *kind, time_slot: time_slot.clone(), ids: vec![id] },
                );
                proof {
                    let after = *self;
                    let last = before.buckets@.len() as int;
                    assert(after.buckets@[last].ids@ =~= Seq::<ReportId>::empty().push(id));
                    assert(after.wf()) by {
                        assert forall|a: int, b: int| 0 <= a < b < after.buckets@.len() implies
                            after.key_at(a) != after.key_at(b) by {
                            if b == last {
                                assert(!before.holds_at(key, a));
                            } else {
                                assert(before.key_at(a) != before.key_at(b));
                            }
                        }
                    }
                    let goal = spec_index_insert(before@, *kind, time_slot@, id);
                    assert forall|k: (Kind, Seq<u8>)| #[trigger]
                        after@.contains_key(k) == goal.contains_key(k) by {
                        if exists|j: int| after.holds_at(k, j) {
                            let j = choose|j: int| after.holds_at(k, j);
                            if j != last {
                                assert(before.holds_at(k, j));
                            }
                        }
                        if exists|j: int| before.holds_at(k, j) {
                            let j = choose|j: int| before.holds_at(k, j);
                            assert(after.holds_at(k, j));
                        }
                        if k == key {
                            assert(after.holds_at(k, last));
                        }
                    }
                    assert forall|k: (Kind, Seq<u8>)| #[trigger] after@.contains_key(k) implies after@[k]
                        == goal[k] by {
                        let j = choose|j: int| after.holds_at(k, j);
                        after.lemma_row(j);
                        if j != last {
                            before.lemma_row(j);
                        }
                    }
                    assert(after@ =~= goal);
                }
            },
        }
    }

    /// The view after the bucket at `i`, which is the bucket of `key`, got new
    /// contents and every key stayed where it was.
    proof fn lemma_same_keys_update(
        &self,
        before: ConcurrencyIndex,
        i: int,
        key: (Kind, Seq<u8>),
        ids: Seq<ReportId>,
    )
        requires
            before.wf(),
            self.wf(),
            self.buckets@.len() == before.buckets@.len(),
            before.holds_at(key, i),
            forall|j: int| 0 <= j < self.buckets@.len() ==> self.key_at(j) == before.key_at(j),
            forall|j: int|
                0 <= j < self.buckets@.len() && j != i ==> self.buckets@[j].ids@
                    == before.buckets@[j].ids@,
            self.buckets@[i].ids@ == ids,
        ensures
            self@ == before@.insert(key, ids),
    {
        let goal = before@.insert(key, ids);
        assert forall|k: (Kind, Seq<u8>)| #[trigger] self@.contains_key(k) == goal.contains_key(
            k,
        ) by {
            if exists|j: int| self.holds_at(k, j) {
                let j = choose|j: int| self.holds_at(k, j);
                assert(self.key_at(j) == before.key_at(j));
                assert(before.holds_at(k, j));
            }
            if exists|j: int| before.holds_at(k, j) {
                let j = choose|j: int| before.holds_at(k, j);
                assert(self.key_at(j) == before.key_at(j));
                assert(self.holds_at(k, j));
            }
            if k == key {
                assert(self.key_at(i) == before.key_at(i));
                assert(self.holds_at(k, i));
            }
        }
        assert forall|k: (Kind, Seq<u8>)| #[trigger] self@.contains_key(k) implies self@[k]
            == goal[k] by {
            let j = choose|j: int| self.holds_at(k, j);
            assert(self.key_at(j) == before.key_at(j));
            self.lemma_row(j);
            before.lemma_row(j);
            if j == i {
                assert(k == key);
            } else {
                assert(before.key_at(j) != before.key_at(i));
            }
        }
        assert(self@ =~= goal);
    }

    /// The place where `id` occurs first in `ids`, if it occurs.
    fn first_index(ids: &Vec<ReportId>, id: &ReportId) -> (found: Option<usize>)
        ensures
            match found {
                Some(i) => spec_is_first_index(ids@, *id, i as int),
                None => !ids@.contains(*id),
            },
    {
        let mut i: usize = 0;
        while i < ids.len()
            invariant
                i <= ids@.len(),
                forall|j: int| 0 <= j < i ==> ids@[j] != *id,
            decreases ids@.len() - i,
        {
            if array_eq(&ids[i], id) {
                return Some(i);
            }
            i += 1;
        }
        None
    }

    /// Deletes one occurrence of `id`, the first, from the bucket of a kind and
    /// time slot. A bucket that this empties is dropped from the table.
    pub fn remove(&mut self, kind: &Kind, time_slot: &OpaqueTimeSlot, id: &ReportId)
        requires
            old(self).wf(),
        ensures
            final(self).wf(),
            final(self)@ == spec_index_remove(old(self)@, *kind, time_slot@, *id),
    {
        let ghost before = *self;
        let ghost key = (*kind, time_slot@);
        let i = match self.position(kind, time_slot) {
            Some(i) => i,
            None => {
                return;
            },
        };
        proof {
            before.lemma_row(i as int);
        }
        let j = match Self::first_index(&self.buckets[i].ids, id) {
            Some(j) => j,
            None => {
                proof {
                    before.lemma_no_empty_bucket();
                    assert(self@ =~= before@.insert(key, before@[key]));
                }
                return;
            },
        };
        proof {
            let ids = before@[key];
            assert(ids.contains(*id));
            let c = choose|c: int| spec_is_first_index(ids, *id, c);
            assert(spec_is_first_index(ids, *id, c));
            assert(c == j);
        }
        if self.buckets[i].ids.len() == 1 {
            self.buckets.remove(i);
            proof {
                let after = *self;
                assert(before@[key].remove(j as int).len() == 0);
                assert forall|a: int| 0 <= a < after.buckets@.len() implies after.key_at(a) == (if a
                    < i {
                    before.key_at(a)
                } else {
                    before.key_at(a + 1)
                }) by {}
                assert(after.wf()) by {
                    assert forall|a: int, b: int| 0 <= a < b < after.buckets@.len() implies
                        after.key_at(a) != after.key_at(b) by {
                        let a0 = if a < i { a } else { a + 1 };
                        let b0 = if b < i { b } else { b + 1 };
                        assert(before.key_at(a0) != before.key_at(b0));
                    }
                }
                let goal = before@.remove(key);
                assert forall|k: (Kind, Seq<u8>)| #[trigger]
                    after@.contains_key(k) == goal.contains_key(k) by {
                    if exists|a: int| after.holds_at(k, a) {
                        let a = choose|a: int| after.holds_at(k, a);
                        let a0 = if a < i { a } else { a + 1 };
                        assert(after.key_at(a) == before.key_at(a0));
                        assert(before.holds_at(k, a0));
                        if a0 < i {
                            assert(before.key_at(a0) != before.key_at(i as int));
                        } else {
                            assert(before.key_at(i as int) != before.key_at(a0));
                        }
                    }
                    if k != key && exists|a: int| before.holds_at(k, a) {
                        let a = choose|a: int| before.holds_at(k, a);
                        let a1 = if a < i { a } else { a - 1 };
                        assert(after.key_at(a1) == before.key_at(a));
                        assert(after.holds_at(k, a1));
                    }
                }
                assert forall|k: (Kind, Seq<u8>)| #[trigger] after@.contains_key(k) implies after@[k]
                    == goal[k] by {
                    let a = choose|a: int| after.holds_at(k, a);
                    let a0 = if a < i { a } else { a + 1 };
                    assert(after.key_at(a) == before.key_at(a0));
                    after.lemma_row(a);
                    before.lemma_row(a0);
                }
                assert(after@ =~= goal);
            }
        } else {
            self.buckets[i].ids.remove(j);
            proof {
                let after = *self;
                assert forall|a: int| 0 <= a < after.buckets@.len() implies after.key_at(a)
                    == before.key_at(a) by {}
                assert(after.wf());
                after.lemma_same_keys_update(before, i as int, key, before@[key].remove(j as int));
            }
        }
    }
}

} // verus!
