//! The record model: one operator's test outcome row.

use vstd::arithmetic::div_mod::lemma_div_is_ordered;
use vstd::prelude::*;

use crate::status::OperatorStatus;

verus! {

/// Mathematical image of one record.
pub ghost struct RecordV {
    pub id: Seq<u8>,
    pub ntests: u64,
    pub generation: u64,
    pub simulation: u64,
    pub percentage: u64,
    pub status: OperatorStatus,
    pub changed_last: Seq<u8>,
    pub status_last: OperatorStatus,
}

/// The simulation success share in whole percents, rounded to the nearest
/// (halves up); zero when there are no tests.
pub open spec fn rounded_percent(sim: u64, nt: u64) -> int {
    if nt == 0 {
        0
    } else {
        (200 * sim + nt) / (2 * nt)
    }
}

pub proof fn lemma_rounded_percent_range(sim: u64, nt: u64)
    requires
        sim <= nt,
    ensures
        0 <= rounded_percent(sim, nt) <= 100,
{
    if nt > 0 {
        assert(200 * sim + nt <= 201 * nt);
        assert(201 * nt / (2 * nt) == 100) by (nonlinear_arith)
            requires
                nt >= 1,
        ;
        lemma_div_is_ordered(200 * sim + nt, 201 * nt, 2 * nt);
        assert(rounded_percent(sim, nt) >= 0) by (nonlinear_arith)
            requires
                nt >= 1,
        ;
    }
}

impl RecordV {
    /// A record is well formed when no success count exceeds the number of
    /// tests and the persisted percentage is the one its own counts give.
    pub open spec fn wf(self) -> bool {
        &&& self.generation <= self.ntests
        &&& self.simulation <= self.ntests
        &&& self.percentage == rounded_percent(self.simulation, self.ntests)
    }

    /// Count-only equality: the comparison that decides whether an
    /// operator's outcome changed between runs.
    pub open spec fn same_counts(self, other: RecordV) -> bool {
        &&& self.ntests == other.ntests
        &&& self.generation == other.generation
        &&& self.simulation == other.simulation
    }
}

/// The `"n/a"` sentinel: provenance of a record never observed to change.
pub open spec fn na_bytes() -> Seq<u8> {
    seq![('n' as u8), ('/' as u8), ('a' as u8)]
}

/// Writes the `"n/a"` sentinel.
pub fn na_vec() -> (r: Vec<u8>)
    ensures
        r@ == na_bytes(),
{
    let mut v: Vec<u8> = Vec::new();
    v.push('n' as u8);
    v.push('/' as u8);
    v.push('a' as u8);
    proof {
        assert(v@ =~= na_bytes());
    }
    v
}

/// One operator's test outcome row.
#[derive(Debug, Clone, PartialEq)]
pub struct Record {
    /// Operator name, the key that matches records across runs.
    pub id: Vec<u8>,
    /// How many test cases were generated for this operator.
    pub ntests: u64,
    /// How many of them generated code successfully.
    pub generation: u64,
    /// How many of them simulated successfully.
    pub simulation: u64,
    /// Persisted simulation share in whole percents; derived from the counts.
    pub percentage: u64,
    /// Derived status relative to the previous run.
    pub status: OperatorStatus,
    /// Identifier of the run in which the outcome last changed, or `"n/a"`.
    pub changed_last: Vec<u8>,
    /// The status recorded as of the previous change.
    pub status_last: OperatorStatus,
}

impl DeepView for Record {
    type V = RecordV;

    open spec fn deep_view(&self) -> RecordV {
        self.view()
    }
}

impl View for Record {
    type V = RecordV;

    open spec fn view(&self) -> RecordV {
        RecordV {
            id: self.id@,
            ntests: self.ntests,
            generation: self.generation,
            simulation: self.simulation,
            percentage: self.percentage,
            status: self.status,
            changed_last: self.changed_last@,
            status_last: self.status_last,
        }
    }
}

/// Computes the rounded whole-percent simulation share.
pub fn percent_of(sim: u64, nt: u64) -> (r: u64)
    requires
        sim <= nt,
    ensures
        r == rounded_percent(sim, nt),
{
    proof {
        lemma_rounded_percent_range(sim, nt);
    }
    if nt == 0 {
        0
    } else {
        (((200 as u128) * (sim as u128) + (nt as u128)) / (2 * (nt as u128))) as u64
    }
}

impl Record {
    /// Whether this record's outcome equals another's, comparing only the
    /// three count fields.
    pub fn same_counts(&self, other: &Record) -> (r: bool)
        ensures
            r == self@.same_counts(other@),
    {
        self.ntests == other.ntests && self.generation == other.generation && self.simulation
            == other.simulation
    }

    /// Adds another record's counts into this one; the derived and
    /// provenance fields are left for the caller to recompute.
    pub fn add_assign(&mut self, other: &Record)
        requires
            old(self).ntests + other.ntests <= u64::MAX,
            old(self).generation + other.generation <= u64::MAX,
            old(self).simulation + other.simulation <= u64::MAX,
        ensures
            final(self)@ == (RecordV {
                ntests: (old(self).ntests + other.ntests) as u64,
                generation: (old(self).generation + other.generation) as u64,
                simulation: (old(self).simulation + other.simulation) as u64,
                ..old(self)@
            }),
    {
        self.ntests = self.ntests + other.ntests;
        self.generation = self.generation + other.generation;
        self.simulation = self.simulation + other.simulation;
    }

    /// A fresh record with the same contents.
    pub fn duplicate(&self) -> (r: Record)
        ensures
            r@ == self@,
    {
        let mut id: Vec<u8> = Vec::new();
        crate::text::push_bytes(&mut id, &self.id);
        let mut changed_last: Vec<u8> = Vec::new();
        crate::text::push_bytes(&mut changed_last, &self.changed_last);
        proof {
            assert(id@ =~= self.id@);
            assert(changed_last@ =~= self.changed_last@);
        }
        Record {
            id,
            ntests: self.ntests,
            generation: self.generation,
            simulation: self.simulation,
            percentage: self.percentage,
            status: self.status,
            changed_last,
            status_last: self.status_last,
        }
    }

    /// Whether the report should link this record's provenance to a commit:
    /// true unless it still holds the `"n/a"` sentinel.
    pub fn has_change_link(&self) -> (r: bool)
        ensures
            r == (self@.changed_last != na_bytes()),
    {
        let na = na_vec();
        !crate::text::bytes_eq(&self.changed_last, &na)
    }
}

} // verus!
