//! The accumulated set of cycle records.
//!
//! A record is the sorted list of the identifiers of a cycle's nodes. The set
//! keeps its records in the order in which they were first recorded and holds
//! none of them twice.

use crate::order::{names_of, Name};
use vstd::prelude::*;

verus! {

/// A cycle record: a list of node identifiers.
pub type Record = Seq<Name>;

/// The records after `r` was offered: it joins the end unless it is there.
pub open spec fn record(found: Seq<Record>, r: Record) -> Seq<Record> {
    if found.contains(r) {
        found
    } else {
        found.push(r)
    }
}

/// The records after each of `finds` was offered in turn.
pub open spec fn absorb(found: Seq<Record>, finds: Seq<Record>) -> Seq<Record>
    decreases finds.len(),
{
    if finds.len() == 0 {
        found
    } else {
        absorb(record(found, finds.first()), finds.drop_first())
    }
}

/// Offering two runs of finds one after the other is offering them joined.
pub proof fn lemma_absorb_concat(found: Seq<Record>, a: Seq<Record>, b: Seq<Record>)
    ensures
        absorb(found, a + b) == absorb(absorb(found, a), b),
    decreases a.len(),
{
    if a.len() == 0 {
        assert(a + b =~= b);
    } else {
        assert((a + b).first() == a.first());
        assert((a + b).drop_first() =~= a.drop_first() + b);
        lemma_absorb_concat(record(found, a.first()), a.drop_first(), b);
    }
}

/// Accumulation only appends: the records held before stay, in place, and the
/// number of records does not fall.
pub proof fn lemma_absorb_extends(found: Seq<Record>, finds: Seq<Record>)
    ensures
        found.is_prefix_of(absorb(found, finds)),
        found.len() <= absorb(found, finds).len(),
    decreases finds.len(),
{
    if finds.len() > 0 {
        lemma_absorb_extends(record(found, finds.first()), finds.drop_first());
    }
}

/// The records after accumulation are those held before and those offered.
pub proof fn lemma_absorb_members(found: Seq<Record>, finds: Seq<Record>, r: Record)
    ensures
        absorb(found, finds).contains(r) <==> found.contains(r) || finds.contains(r),
    decreases finds.len(),
{
    if finds.len() > 0 {
        let first = finds.first();
        let next = record(found, first);
        lemma_absorb_members(next, finds.drop_first(), r);
        if finds.contains(r) {
            let k = finds.index_of(r);
            if k > 0 {
                assert(finds.drop_first()[k - 1] == r);
            }
        }
        if finds.drop_first().contains(r) {
            let k = finds.drop_first().index_of(r);
            assert(finds[k + 1] == r);
        }
        if !found.contains(first) {
            assert(next[found.len() as int] == first);
            if found.contains(r) {
                let k = found.index_of(r);
                assert(next[k] == r);
            }
        }
    }
}

/// Accumulation never stores a record twice.
pub proof fn lemma_absorb_distinct(found: Seq<Record>, finds: Seq<Record>)
    requires
        found.no_duplicates(),
    ensures
        absorb(found, finds).no_duplicates(),
    decreases finds.len(),
{
    if finds.len() > 0 {
        lemma_absorb_distinct(record(found, finds.first()), finds.drop_first());
    }
}

/// Offering records that are all held already changes nothing.
pub proof fn lemma_absorb_known(found: Seq<Record>, finds: Seq<Record>)
    requires
        forall|k: int| 0 <= k < finds.len() ==> found.contains(#[trigger] finds[k]),
    ensures
        absorb(found, finds) == found,
    decreases finds.len(),
{
    if finds.len() > 0 {
        assert(found.contains(finds[0]));
        assert forall|k: int| 0 <= k < finds.drop_first().len() implies found.contains(
            #[trigger] finds.drop_first()[k],
        ) by {
            assert(finds.drop_first()[k] == finds[k + 1]);
        }
        lemma_absorb_known(found, finds.drop_first());
    }
}

/// Offering the same finds a second time changes nothing.
pub proof fn lemma_absorb_twice(found: Seq<Record>, finds: Seq<Record>)
    ensures
        absorb(absorb(found, finds), finds) == absorb(found, finds),
{
    let once = absorb(found, finds);
    assert forall|k: int| 0 <= k < finds.len() implies once.contains(#[trigger] finds[k]) by {
        lemma_absorb_members(found, finds, finds[k]);
    }
    lemma_absorb_known(once, finds);
}

/// The set of cycle records that the enumerator fills.
#[derive(Debug, Clone, PartialEq, Eq)]
pub struct CycleSet {
    records: Vec<Vec<String>>,
}

impl View for CycleSet {
    type V = Seq<Record>;

    closed spec fn view(&self) -> Seq<Record> {
        Seq::new(self.records@.len(), |i: int| names_of(self.records@[i]@))
    }
}

/// Whether two lists hold the same identifiers in the same order.
fn same_names(a: &Vec<String>, b: &Vec<String>) -> (same: bool)
    ensures
        same == (names_of(a@) == names_of(b@)),
{
    if a.len() != b.len() {
        return false;
    }
    let mut k: usize = 0;
    while k < a.len()
        invariant
            a.len() == b.len(),
            k <= a.len(),
            forall|i: int| 0 <= i < k ==> a[i]@ == b[i]@,
        decreases a.len() - k,
    {
        if a[k] != b[k] {
            assert(names_of(a@)[k as int] != names_of(b@)[k as int]);
            return false;
        }
        k += 1;
    }
    assert(names_of(a@) =~= names_of(b@));
    true
}

impl CycleSet {
    /// No record is held twice.
    pub open spec fn wf(&self) -> bool {
        self@.no_duplicates()
    }

    /// The empty set.
    pub fn new() -> (set: CycleSet)
        ensures
            set@ == Seq::<Record>::empty(),
            set.wf(),
    {
        let set = CycleSet { records: Vec::new() };
        assert(set@ =~= Seq::<Record>::empty());
        set
    }

    /// The number of records.
    pub fn len(&self) -> (n: usize)
        ensures
            n == self@.len(),
    {
        self.records.len()
    }

    /// The `i`-th record, in the order of recording.
    pub fn get(&self, i: usize) -> (r: &Vec<String>)
        requires
            i < self@.len(),
        ensures
            names_of(r@) == self@[i as int],
    {
        &self.records[i]
    }

    /// Whether `r` is one of the records.
    pub fn contains(&self, r: &Vec<String>) -> (held: bool)
        ensures
            held == self@.contains(names_of(r@)),
    {
        let mut i: usize = 0;
        while i < self.records.len()
            invariant
                i <= self.records.len(),
                forall|k: int| 0 <= k < i ==> self@[k] != names_of(r@),
            decreases self.records.len() - i,
        {
            if same_names(&self.records[i], r) {
                assert(self@[i as int] == names_of(r@));
                return true;
            }
            i += 1;
        }
        false
    }

    /// Offers `r` to the set, which stores it unless it holds it already.
    /// Says whether it was stored.
    pub fn insert(&mut self, r: Vec<String>) -> (added: bool)
        ensures
            final(self)@ == record(old(self)@, names_of(r@)),
            added == !old(self)@.contains(names_of(r@)),
            old(self).wf() ==> final(self).wf(),
    {
        if self.contains(&r) {
            false
        } else {
            let ghost before = self@;
            self.records.push(r);
            assert(self@ =~= before.push(names_of(r@)));
            true
        }
    }
}

} // verus!
