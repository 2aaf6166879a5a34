//! The aggregator: one synthetic totals row summing every real record.

use vstd::prelude::*;

use crate::record::{na_bytes, percent_of, rounded_percent, Record, RecordV};
use crate::status::OperatorStatus;

verus! {

/// The reserved operator name of the synthetic totals row; it must not
/// collide with a real operator's name.
pub open spec fn total_id_bytes() -> Seq<u8> {
    seq![('T' as u8), ('o' as u8), ('t' as u8), ('a' as u8), ('l' as u8)]
}

/// Writes the reserved totals row name.
pub fn total_id_vec() -> (r: Vec<u8>)
    ensures
        r@ == total_id_bytes(),
{
    let mut v: Vec<u8> = Vec::new();
    v.push('T' as u8);
    v.push('o' as u8);
    v.push('t' as u8);
    v.push('a' as u8);
    v.push('l' as u8);
    proof {
        assert(v@ =~= total_id_bytes());
    }
    v
}

/// Whether the record is a real operator row rather than the totals row.
pub open spec fn is_real(r: RecordV) -> bool {
    r.id != total_id_bytes()
}

/// Sum of `ntests` over the real records; totals rows are left out so a
/// persisted total is never summed into its own replacement.
pub open spec fn sum_ntests(rs: Seq<RecordV>) -> int
    decreases rs.len(),
{
    if rs.len() == 0 {
        0
    } else {
        sum_ntests(rs.drop_last()) + if is_real(rs.last()) {
            rs.last().ntests as int
        } else {
            0
        }
    }
}

/// Sum of `generation` over the real records.
pub open spec fn sum_generation(rs: Seq<RecordV>) -> int
    decreases rs.len(),
{
    if rs.len() == 0 {
        0
    } else {
        sum_generation(rs.drop_last()) + if is_real(rs.last()) {
            rs.last().generation as int
        } else {
            0
        }
    }
}

/// Sum of `simulation` over the real records.
pub open spec fn sum_simulation(rs: Seq<RecordV>) -> int
    decreases rs.len(),
{
    if rs.len() == 0 {
        0
    } else {
        sum_simulation(rs.drop_last()) + if is_real(rs.last()) {
            rs.last().simulation as int
        } else {
            0
        }
    }
}

proof fn lemma_sum_ntests_take_le(rs: Seq<RecordV>, i: int)
    requires
        0 <= i <= rs.len(),
    ensures
        sum_ntests(rs.take(i)) <= sum_ntests(rs),
    decreases rs.len() - i,
{
    if i == rs.len() {
        assert(rs.take(i) =~= rs);
    } else {
        lemma_sum_ntests_take_le(rs, i + 1);
        let t = rs.take(i + 1);
        assert(t.drop_last() =~= rs.take(i));
        assert(t.last() == rs[i]);
    }
}

/// The synthetic totals row: the three counts summed over every real
/// record, the percentage recomputed from the summed counts, and the
/// derived fields left unresolved for the status engine. `None` exactly
/// when the summed test count does not fit the machine range.
pub fn total(records: &Vec<Record>) -> (r: Option<Record>)
    requires
        forall|i: int| 0 <= i < records@.len() ==> (#[trigger] records.deep_view()[i]).wf(),
    ensures
        match r {
            Some(t) => {
                &&& t@.id == total_id_bytes()
                &&& t@.ntests == sum_ntests(records.deep_view())
                &&& t@.generation == sum_generation(records.deep_view())
                &&& t@.simulation == sum_simulation(records.deep_view())
                &&& t@.percentage == rounded_percent(t@.simulation, t@.ntests)
                &&& t@.status == OperatorStatus::Undefined
                &&& t@.changed_last == na_bytes()
                &&& t@.status_last == OperatorStatus::Undefined
                &&& t@.wf()
            },
            None => sum_ntests(records.deep_view()) > u64::MAX,
        },
{
    let ghost rv = records.deep_view();
    let total_name = total_id_vec();
    let mut nt: u64 = 0;
    let mut gen: u64 = 0;
    let mut sim: u64 = 0;
    let n = records.len();
    let mut i: usize = 0;
    proof {
        assert(rv.take(0) =~= Seq::<RecordV>::empty());
    }
    while i < n
        invariant
            0 <= i <= n == records@.len(),
            rv == records.deep_view(),
            total_name@ == total_id_bytes(),
            forall|j: int| 0 <= j < rv.len() ==> (#[trigger] rv[j]).wf(),
            nt == sum_ntests(rv.take(i as int)),
            gen == sum_generation(rv.take(i as int)),
            sim == sum_simulation(rv.take(i as int)),
            gen <= nt,
            sim <= nt,
        decreases n - i,
    {
        let ghost post = rv.take(i + 1 as int);
        proof {
            assert(post.drop_last() =~= rv.take(i as int));
            assert(post.last() == rv[i as int]);
            assert(rv[i as int].wf());
        }
        let rec = &records[i];
        proof {
            assert(rec@ == rv[i as int]);
        }
        if !crate::text::bytes_eq(&rec.id, &total_name) {
            proof {
                assert(is_real(rv[i as int]));
            }
            if nt > u64::MAX - rec.ntests {
                proof {
                    assert(sum_ntests(post) > u64::MAX);
                    lemma_sum_ntests_take_le(rv, i + 1);
                }
                return None;
            }
            nt = nt + rec.ntests;
            gen = gen + rec.generation;
            sim = sim + rec.simulation;
        } else {
            proof {
                assert(!is_real(rv[i as int]));
            }
        }
        i += 1;
    }
    proof {
        assert(rv.take(n as int) =~= rv);
    }
    let pct = percent_of(sim, nt);
    Some(
        Record {
            id: total_name,
            ntests: nt,
            generation: gen,
            simulation: sim,
            percentage: pct,
            status: OperatorStatus::Undefined,
            changed_last: crate::record::na_vec(),
            status_last: OperatorStatus::Undefined,
        },
    )
}

} // verus!
