//! The status engine: compares each record of the new run with the previous
//! run's record for the same operator, derives the new status and keeps the
//! "last changed" provenance.

use vstd::arithmetic::mul::lemma_mul_upper_bound;
use vstd::prelude::*;

use crate::record::{na_bytes, Record, RecordV};
use crate::status::OperatorStatus;

verus! {

/// Numerator of a record's exact success ratio; a record without tests
/// counts as zero.
pub open spec fn ratio_num(r: RecordV) -> int {
    if r.ntests == 0 {
        0
    } else {
        r.simulation as int
    }
}

/// Denominator of a record's exact success ratio.
pub open spec fn ratio_den(r: RecordV) -> int {
    if r.ntests == 0 {
        1
    } else {
        r.ntests as int
    }
}

/// Whether the record's percentage is exactly one hundred.
pub open spec fn is_full(r: RecordV) -> bool {
    r.ntests > 0 && r.simulation == r.ntests
}

/// Whether `a`'s exact percentage is greater than `b`'s.
pub open spec fn ratio_gt(a: RecordV, b: RecordV) -> bool {
    ratio_num(a) * ratio_den(b) > ratio_num(b) * ratio_den(a)
}

/// The status of a new record against the previous run's record, decided on
/// the two exact percentages. Crossing the full-pass boundary outranks the
/// plain magnitude comparison, whatever the size of the step.
pub open spec fn spec_derived_status(new: RecordV, prev: RecordV) -> OperatorStatus {
    if is_full(prev) && !is_full(new) {
        OperatorStatus::Break
    } else if !is_full(prev) && is_full(new) {
        OperatorStatus::Pass
    } else if ratio_gt(new, prev) {
        OperatorStatus::Up
    } else if ratio_gt(prev, new) {
        OperatorStatus::Down
    } else {
        OperatorStatus::Stable
    }
}

proof fn lemma_cross_gt_transfer(
    a1: int,
    b1: int,
    a2: int,
    b2: int,
    c1: int,
    d1: int,
    c2: int,
    d2: int,
)
    requires
        b1 >= 1,
        b2 >= 1,
        d1 >= 1,
        d2 >= 1,
        a1 * b2 == a2 * b1,
        c1 * d2 == c2 * d1,
        a1 * d1 > c1 * b1,
    ensures
        a2 * d2 > c2 * b2,
{
    assert((a1 * d1) * (b2 * d2) > (c1 * b1) * (b2 * d2)) by (nonlinear_arith)
        requires
            a1 * d1 > c1 * b1,
            b2 >= 1,
            d2 >= 1,
    ;
    assert((a1 * d1) * (b2 * d2) == (a1 * b2) * (d1 * d2)) by (nonlinear_arith);
    assert((c1 * b1) * (b2 * d2) == (c1 * d2) * (b1 * b2)) by (nonlinear_arith);
    assert((a2 * b1) * (d1 * d2) > (c2 * d1) * (b1 * b2));
    assert((a2 * b1) * (d1 * d2) == (a2 * d2) * (b1 * d1)) by (nonlinear_arith);
    assert((c2 * d1) * (b1 * b2) == (c2 * b2) * (b1 * d1)) by (nonlinear_arith);
    assert((a2 * d2) * (b1 * d1) > (c2 * b2) * (b1 * d1));
    assert(a2 * d2 > c2 * b2) by (nonlinear_arith)
        requires
            (a2 * d2) * (b1 * d1) > (c2 * b2) * (b1 * d1),
            b1 >= 1,
            d1 >= 1,
    ;
}

proof fn lemma_full_transfer(r1: RecordV, r2: RecordV)
    requires
        ratio_num(r1) * ratio_den(r2) == ratio_num(r2) * ratio_den(r1),
    ensures
        is_full(r1) == is_full(r2),
{
    assert(is_full(r1) <==> ratio_num(r1) == ratio_den(r1));
    assert(is_full(r2) <==> ratio_num(r2) == ratio_den(r2));
    if ratio_num(r1) == ratio_den(r1) {
        assert(ratio_num(r2) == ratio_den(r2)) by (nonlinear_arith)
            requires
                ratio_num(r1) == ratio_den(r1),
                ratio_num(r1) * ratio_den(r2) == ratio_num(r2) * ratio_den(r1),
                ratio_den(r1) >= 1,
        ;
    }
    if ratio_num(r2) == ratio_den(r2) {
        assert(ratio_num(r1) == ratio_den(r1)) by (nonlinear_arith)
            requires
                ratio_num(r2) == ratio_den(r2),
                ratio_num(r1) * ratio_den(r2) == ratio_num(r2) * ratio_den(r1),
                ratio_den(r2) >= 1,
        ;
    }
}

/// The derived status is a pure function of the two exact percentages: two
/// pairs of records whose percentages agree pairwise derive the same status.
pub proof fn lemma_derived_status_pure(
    new1: RecordV,
    prev1: RecordV,
    new2: RecordV,
    prev2: RecordV,
)
    requires
        ratio_num(new1) * ratio_den(new2) == ratio_num(new2) * ratio_den(new1),
        ratio_num(prev1) * ratio_den(prev2) == ratio_num(prev2) * ratio_den(prev1),
    ensures
        spec_derived_status(new1, prev1) == spec_derived_status(new2, prev2),
{
    lemma_full_transfer(new1, new2);
    lemma_full_transfer(prev1, prev2);
    if ratio_gt(new1, prev1) {
        lemma_cross_gt_transfer(
            ratio_num(new1),
            ratio_den(new1),
            ratio_num(new2),
            ratio_den(new2),
            ratio_num(prev1),
            ratio_den(prev1),
            ratio_num(prev2),
            ratio_den(prev2),
        );
    }
    if ratio_gt(new2, prev2) {
        lemma_cross_gt_transfer(
            ratio_num(new2),
            ratio_den(new2),
            ratio_num(new1),
            ratio_den(new1),
            ratio_num(prev2),
            ratio_den(prev2),
            ratio_num(prev1),
            ratio_den(prev1),
        );
    }
    if ratio_gt(prev1, new1) {
        lemma_cross_gt_transfer(
            ratio_num(prev1),
            ratio_den(prev1),
            ratio_num(prev2),
            ratio_den(prev2),
            ratio_num(new1),
            ratio_den(new1),
            ratio_num(new2),
            ratio_den(new2),
        );
    }
    if ratio_gt(prev2, new2) {
        lemma_cross_gt_transfer(
            ratio_num(prev2),
            ratio_den(prev2),
            ratio_num(prev1),
            ratio_den(prev1),
            ratio_num(new2),
            ratio_den(new2),
            ratio_num(new1),
            ratio_den(new1),
        );
    }
}

/// The record as the engine leaves it: status derived against the previous
/// record when there is one, and provenance updated exactly when the count
/// fields changed.
pub open spec fn spec_updated(new: RecordV, prev: Option<RecordV>, run_id: Seq<u8>) -> RecordV {
    match prev {
        None => (RecordV {
            status: OperatorStatus::Undefined,
            changed_last: na_bytes(),
            status_last: OperatorStatus::Undefined,
            ..new
        }),
        Some(p) => {
            let st = spec_derived_status(new, p);
            if !new.same_counts(p) {
                (RecordV { status: st, changed_last: run_id, status_last: p.status, ..new })
            } else {
                (RecordV {
                    status: st,
                    changed_last: p.changed_last,
                    status_last: p.status_last,
                    ..new
                })
            }
        },
    }
}

/// The views of an optional borrowed record.
pub open spec fn view_opt(prev: Option<&Record>) -> Option<RecordV> {
    match prev {
        None => None,
        Some(p) => Some(p@),
    }
}

fn ratio_parts(r: &Record) -> (np: (u128, u128))
    ensures
        np.0 == ratio_num(r@),
        np.1 == ratio_den(r@),
{
    if r.ntests == 0 {
        (0, 1)
    } else {
        (r.simulation as u128, r.ntests as u128)
    }
}

/// Decides the status of `new` against the previous run's `prev`, on the two
/// exact percentages.
pub fn derived_status(new: &Record, prev: &Record) -> (st: OperatorStatus)
    ensures
        st == spec_derived_status(new@, prev@),
{
    let new_full = new.ntests > 0 && new.simulation == new.ntests;
    let prev_full = prev.ntests > 0 && prev.simulation == prev.ntests;
    if prev_full && !new_full {
        OperatorStatus::Break
    } else if !prev_full && new_full {
        OperatorStatus::Pass
    } else {
        let (nn, nd) = ratio_parts(new);
        let (pn, pd) = ratio_parts(prev);
        proof {
            lemma_mul_upper_bound(nn as int, u64::MAX as int, pd as int, u64::MAX as int);
            lemma_mul_upper_bound(pn as int, u64::MAX as int, nd as int, u64::MAX as int);
        }
        if nn * pd > pn * nd {
            OperatorStatus::Up
        } else if pn * nd > nn * pd {
            OperatorStatus::Down
        } else {
            OperatorStatus::Stable
        }
    }
}

impl Record {
    /// Derives this record's status and provenance from the previous run's
    /// record for the same operator, or marks it first-seen when there is
    /// none; `run_id` identifies the current run.
    pub fn update(&mut self, prev: Option<&Record>, run_id: &Vec<u8>)
        ensures
            final(self)@ == spec_updated(old(self)@, view_opt(prev), run_id@),
    {
        match prev {
            None => {
                self.status = OperatorStatus::Undefined;
                self.changed_last = crate::record::na_vec();
                self.status_last = OperatorStatus::Undefined;
            },
            Some(p) => {
                self.status = derived_status(self, p);
                if !self.same_counts(p) {
                    let mut rid: Vec<u8> = Vec::new();
                    crate::text::push_bytes(&mut rid, run_id);
                    proof {
                        assert(rid@ =~= run_id@);
                    }
                    self.changed_last = rid;
                    self.status_last = p.status;
                } else {
                    let mut cl: Vec<u8> = Vec::new();
                    crate::text::push_bytes(&mut cl, &p.changed_last);
                    proof {
                        assert(cl@ =~= p.changed_last@);
                    }
                    self.changed_last = cl;
                    self.status_last = p.status_last;
                }
            },
        }
    }
}

/// The first record with the given operator name, if any.
pub open spec fn spec_find(rs: Seq<RecordV>, id: Seq<u8>) -> Option<RecordV>
    decreases rs.len(),
{
    if rs.len() == 0 {
        None
    } else if rs[0].id == id {
        Some(rs[0])
    } else {
        spec_find(rs.drop_first(), id)
    }
}

proof fn lemma_spec_find_skip(rs: Seq<RecordV>, id: Seq<u8>, i: int)
    requires
        0 <= i <= rs.len(),
        forall|j: int| 0 <= j < i ==> (#[trigger] rs[j]).id != id,
    ensures
        spec_find(rs, id) == spec_find(rs.skip(i), id),
    decreases i,
{
    if i == 0 {
        assert(rs.skip(0) =~= rs);
    } else {
        lemma_spec_find_skip(rs, id, i - 1);
        let t = rs.skip(i - 1);
        assert(rs[i - 1].id != id);
        assert(t[0] == rs[i - 1]);
        assert(t.drop_first() =~= rs.skip(i));
        assert(spec_find(t, id) == spec_find(rs.skip(i), id));
    }
}

/// Looks up the previous run's record for an operator name.
pub fn find_by_id<'a>(records: &'a Vec<Record>, id: &Vec<u8>) -> (r: Option<&'a Record>)
    ensures
        view_opt(r) == spec_find(records.deep_view(), id@),
{
    let n = records.len();
    let mut i: usize = 0;
    while i < n
        invariant
            0 <= i <= n == records@.len(),
            forall|j: int| 0 <= j < i ==> (#[trigger] records.deep_view()[j]).id != id@,
        decreases n - i,
    {
        if crate::text::bytes_eq(&records[i].id, id) {
            proof {
                lemma_spec_find_skip(records.deep_view(), id@, i as int);
                assert(records.deep_view().skip(i as int)[0] == records.deep_view()[i as int]);
            }
            return Some(&records[i]);
        }
        i += 1;
    }
    proof {
        lemma_spec_find_skip(records.deep_view(), id@, n as int);
        assert(records.deep_view().skip(n as int) =~= Seq::<RecordV>::empty());
    }
    None
}

/// Updates every record of the new run against the previous run's records,
/// matching by operator name.
pub fn update_all(summary: &mut Vec<Record>, previous: &Vec<Record>, run_id: &Vec<u8>)
    ensures
        final(summary)@.len() == old(summary)@.len(),
        forall|i: int|
            0 <= i < old(summary)@.len() ==> #[trigger] final(summary).deep_view()[i]
                == spec_updated(
                old(summary).deep_view()[i],
                spec_find(previous.deep_view(), old(summary).deep_view()[i].id),
                run_id@,
            ),
{
    let n = summary.len();
    let mut i: usize = 0;
    while i < n
        invariant
            0 <= i <= n == summary@.len(),
            summary@.len() == old(summary)@.len(),
            forall|j: int|
                i <= j < n ==> #[trigger] summary.deep_view()[j] == old(summary).deep_view()[j],
            forall|j: int|
                0 <= j < i ==> #[trigger] summary.deep_view()[j] == spec_updated(
                    old(summary).deep_view()[j],
                    spec_find(previous.deep_view(), old(summary).deep_view()[j].id),
                    run_id@,
                ),
        decreases n - i,
    {
        let ghost pre_dv = summary.deep_view();
        let mut r = summary[i].duplicate();
        proof {
            assert(r@ == pre_dv[i as int]);
            assert(pre_dv[i as int] == old(summary).deep_view()[i as int]);
        }
        let prev = find_by_id(previous, &r.id);
        r.update(prev, run_id);
        summary.set(i, r);
        proof {
            assert(summary.deep_view() =~~= pre_dv.update(i as int, r.deep_view()));
        }
        i += 1;
    }
}

} // verus!
