use autotests_html::aggregate::total;
use autotests_html::engine::{derived_status, find_by_id, update_all};
use autotests_html::record::{percent_of, Record};
use autotests_html::status::OperatorStatus;

fn counts(id: &str, ntests: u64, generation: u64, simulation: u64) -> Record {
    Record {
        id: id.as_bytes().to_vec(),
        ntests,
        generation,
        simulation,
        percentage: percent_of(simulation, ntests),
        status: OperatorStatus::Undefined,
        changed_last: b"n/a".to_vec(),
        status_last: OperatorStatus::Undefined,
    }
}

#[test]
fn status_break_on_regression_from_full_pass() {
    // previous 100%, new 80%
    let new = counts("A", 10, 10, 8);
    let prev = counts("A", 10, 10, 10);
    assert_eq!(derived_status(&new, &prev), OperatorStatus::Break);
}

#[test]
fn status_pass_on_reaching_full_pass() {
    // previous 80%, new 100%
    let new = counts("A", 10, 10, 10);
    let prev = counts("A", 10, 10, 8);
    assert_eq!(derived_status(&new, &prev), OperatorStatus::Pass);
}

#[test]
fn status_up_on_improvement() {
    // previous 50%, new 75%
    let new = counts("A", 4, 4, 3);
    let prev = counts("A", 4, 4, 2);
    assert_eq!(derived_status(&new, &prev), OperatorStatus::Up);
}

#[test]
fn status_down_on_regression() {
    // previous 75%, new 50%
    let new = counts("A", 4, 4, 2);
    let prev = counts("A", 4, 4, 3);
    assert_eq!(derived_status(&new, &prev), OperatorStatus::Down);
}

#[test]
fn status_stable_on_equal_percentage() {
    // both 60%, even with different absolute counts
    let new = counts("A", 5, 5, 3);
    let prev = counts("A", 10, 10, 6);
    assert_eq!(derived_status(&new, &prev), OperatorStatus::Stable);
}

#[test]
fn status_break_outranks_magnitude() {
    // a one-test step off 100% is a break, not merely down
    let new = counts("A", 100, 100, 99);
    let prev = counts("A", 100, 100, 100);
    assert_eq!(derived_status(&new, &prev), OperatorStatus::Break);
}

#[test]
fn status_stable_when_both_runs_have_no_tests() {
    let new = counts("A", 0, 0, 0);
    let prev = counts("A", 0, 0, 0);
    assert_eq!(derived_status(&new, &prev), OperatorStatus::Stable);
}

#[test]
fn update_without_previous_marks_first_seen() {
    let mut r = counts("Adder", 5, 5, 5);
    r.status = OperatorStatus::Pass;
    r.changed_last = b"stale".to_vec();
    r.update(None, &b"run1".to_vec());
    assert_eq!(r.status, OperatorStatus::Undefined);
    assert_eq!(r.changed_last, b"n/a".to_vec());
    assert_eq!(r.status_last, OperatorStatus::Undefined);
}

#[test]
fn update_records_provenance_when_counts_change() {
    let mut new = counts("Adder", 5, 5, 3);
    let mut prev = counts("Adder", 5, 5, 5);
    prev.status = OperatorStatus::Pass;
    prev.changed_last = b"oldhash".to_vec();
    prev.status_last = OperatorStatus::Up;
    new.update(Some(&prev), &b"newhash".to_vec());
    assert_eq!(new.status, OperatorStatus::Break);
    assert_eq!(new.changed_last, b"newhash".to_vec());
    assert_eq!(new.status_last, OperatorStatus::Pass);
}

#[test]
fn update_carries_provenance_when_counts_unchanged() {
    let mut new = counts("Adder", 5, 5, 5);
    let mut prev = counts("Adder", 5, 5, 5);
    prev.status = OperatorStatus::Pass;
    prev.changed_last = b"oldhash".to_vec();
    prev.status_last = OperatorStatus::Up;
    new.update(Some(&prev), &b"newhash".to_vec());
    assert_eq!(new.status, OperatorStatus::Stable);
    assert_eq!(new.changed_last, b"oldhash".to_vec());
    assert_eq!(new.status_last, OperatorStatus::Up);
}

#[test]
fn update_all_matches_records_by_operator_name() {
    let mut summary = vec![counts("Adder", 2, 2, 2), counts("Shifter", 2, 2, 1)];
    let previous = vec![counts("Shifter", 2, 2, 2), counts("Adder", 2, 2, 1)];
    update_all(&mut summary, &previous, &b"run2".to_vec());
    // Adder rose from 50% to 100%
    assert_eq!(summary[0].status, OperatorStatus::Pass);
    assert_eq!(summary[0].changed_last, b"run2".to_vec());
    // Shifter fell off 100%
    assert_eq!(summary[1].status, OperatorStatus::Break);
    assert_eq!(summary[1].changed_last, b"run2".to_vec());
}

#[test]
fn update_all_leaves_unknown_operators_first_seen() {
    let mut summary = vec![counts("New", 1, 1, 1)];
    let previous = vec![counts("Other", 1, 1, 1)];
    update_all(&mut summary, &previous, &b"run2".to_vec());
    assert_eq!(summary[0].status, OperatorStatus::Undefined);
    assert_eq!(summary[0].changed_last, b"n/a".to_vec());
}

#[test]
fn find_by_id_returns_first_match() {
    let records = vec![counts("A", 1, 1, 1), counts("B", 2, 2, 2)];
    let found = find_by_id(&records, &b"B".to_vec()).expect("present");
    assert_eq!(found.ntests, 2);
    assert!(find_by_id(&records, &b"C".to_vec()).is_none());
}

#[test]
fn total_sums_the_three_count_fields() {
    let records = vec![counts("A", 10, 9, 8), counts("B", 5, 4, 3)];
    let t = total(&records).expect("fits");
    assert_eq!(t.id, b"Total".to_vec());
    assert_eq!(t.ntests, 15);
    assert_eq!(t.generation, 13);
    assert_eq!(t.simulation, 11);
    // 11 of 15: 73.33 rounds to 73
    assert_eq!(t.percentage, 73);
    assert_eq!(t.status, OperatorStatus::Undefined);
    assert_eq!(t.changed_last, b"n/a".to_vec());
}

#[test]
fn total_of_no_records_is_all_zero() {
    let t = total(&Vec::new()).expect("fits");
    assert_eq!(t.ntests, 0);
    assert_eq!(t.generation, 0);
    assert_eq!(t.simulation, 0);
    assert_eq!(t.percentage, 0);
}

#[test]
fn total_leaves_out_a_previous_totals_row() {
    let records = vec![counts("A", 10, 10, 10), counts("Total", 10, 10, 10)];
    let t = total(&records).expect("fits");
    assert_eq!(t.ntests, 10);
}

#[test]
fn total_reports_a_sum_out_of_range() {
    let records = vec![counts("A", u64::MAX, 0, 0), counts("B", 1, 0, 0)];
    assert!(total(&records).is_none());
}

#[test]
fn add_assign_sums_counts_only() {
    let mut a = counts("Total", 10, 9, 8);
    let b = counts("B", 5, 4, 3);
    a.add_assign(&b);
    assert_eq!(a.ntests, 15);
    assert_eq!(a.generation, 13);
    assert_eq!(a.simulation, 11);
    assert_eq!(a.id, b"Total".to_vec());
}

#[test]
fn same_counts_ignores_derived_fields() {
    let mut a = counts("A", 5, 5, 5);
    let mut b = counts("A", 5, 5, 5);
    a.status = OperatorStatus::Pass;
    b.status = OperatorStatus::Break;
    b.changed_last = b"other".to_vec();
    assert!(a.same_counts(&b));
    b.simulation = 4;
    assert!(!a.same_counts(&b));
}
