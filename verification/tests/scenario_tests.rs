//! Whole runs, end to end: decode, compare, aggregate, persist, render —
//! as the surrounding program drives the library.

use autotests_html::aggregate::total;
use autotests_html::codec::{decode, encode};
use autotests_html::engine::update_all;
use autotests_html::record::Record;
use autotests_html::render::render_report;
use autotests_html::status::OperatorStatus;

/// One run of the whole pipeline: the new summary text, the previous
/// comparison text, and the current run's identifier in; the merged records,
/// the new comparison text, and the report out.
fn run(summary_text: &[u8], previous_text: &[u8], run_id: &[u8]) -> (Vec<Record>, Vec<u8>, String) {
    let mut summary = decode(&summary_text.to_vec()).expect("summary decodes");
    let previous = decode(&previous_text.to_vec()).expect("previous state decodes");
    let totals = total(&summary).expect("counts fit");
    summary.push(totals);
    update_all(&mut summary, &previous, &run_id.to_vec());
    let state = encode(&summary);
    let dates: Vec<Vec<u8>> = summary
        .iter()
        .map(|r| if r.has_change_link() { b"2024-06-01".to_vec() } else { Vec::new() })
        .collect();
    let html = render_report(&summary, &dates, &b"master".to_vec());
    (summary, state, html)
}

#[test]
fn first_run_marks_operator_first_seen_and_renders_green() {
    let summary = b"Operator,Tests,Generation,Simulation\nAdder,5,5,5\n";
    let (records, state, html) = run(summary, b"", b"run1");
    // the operator and the totals row
    assert_eq!(records.len(), 2);
    let adder = &records[0];
    assert_eq!(adder.id, b"Adder".to_vec());
    assert_eq!(adder.status, OperatorStatus::Undefined);
    assert_eq!(adder.changed_last, b"n/a".to_vec());
    // the persisted comparison file now holds the record
    let persisted = decode(&state).expect("own state decodes");
    assert_eq!(persisted[0].id, b"Adder".to_vec());
    assert_eq!(persisted[0].ntests, 5);
    assert_eq!(persisted[0].simulation, 5);
    // a fully passing row renders green
    assert!(html.contains("color:green"));
    assert!(!html.contains("color:red"));
}

#[test]
fn second_run_breaks_off_full_pass_and_renders_red() {
    let summary1 = b"Operator,Tests,Generation,Simulation\nAdder,5,5,5\n";
    let (_, state1, _) = run(summary1, b"", b"run1");
    // run 2: simulation fell from 5 to 3 while the previous run was at 100%
    let summary2 = b"Operator,Tests,Generation,Simulation\nAdder,5,5,3\n";
    let (records, _, html) = run(summary2, &state1, b"run2");
    let adder = &records[0];
    assert_eq!(adder.status, OperatorStatus::Break);
    assert_eq!(adder.changed_last, b"run2".to_vec());
    assert_eq!(adder.status_last, OperatorStatus::Undefined);
    // simulation and percentage cells go red; the report shows the break
    assert!(html.contains("color:red"));
    assert!(html.contains("BREAK!"));
    assert!(html.contains("https://gitlab.com/flopoco/flopoco/-/commit/run2"));
}

#[test]
fn totals_row_is_aggregated_and_compared_like_any_other() {
    let summary1 = b"Operator,Tests,Generation,Simulation\nAdder,4,4,4\nShifter,4,4,2\n";
    let (records1, state1, _) = run(summary1, b"", b"run1");
    let total1 = &records1[2];
    assert_eq!(total1.id, b"Total".to_vec());
    assert_eq!(total1.ntests, 8);
    assert_eq!(total1.generation, 8);
    assert_eq!(total1.simulation, 6);
    assert_eq!(total1.percentage, 75);
    assert_eq!(total1.status, OperatorStatus::Undefined);
    // run 2: Shifter improves; the totals row compares against the
    // persisted totals row and moves up with the overall share
    let summary2 = b"Operator,Tests,Generation,Simulation\nAdder,4,4,4\nShifter,4,4,3\n";
    let (records2, _, _) = run(summary2, &state1, b"run2");
    let total2 = &records2[2];
    assert_eq!(total2.simulation, 7);
    assert_eq!(total2.status, OperatorStatus::Up);
    assert_eq!(total2.changed_last, b"run2".to_vec());
    // the previous totals row was left out of the new sum
    assert_eq!(total2.ntests, 8);
}

#[test]
fn unchanged_counts_keep_their_provenance_across_runs() {
    let summary = b"Operator,Tests,Generation,Simulation\nAdder,5,5,4\n";
    let (_, state1, _) = run(summary, b"", b"run1");
    let (records2, state2, _) = run(summary, &state1, b"run2");
    assert_eq!(records2[0].status, OperatorStatus::Stable);
    assert_eq!(records2[0].changed_last, b"n/a".to_vec());
    // and a third identical run still carries the sentinel forward
    let (records3, _, _) = run(summary, &state2, b"run3");
    assert_eq!(records3[0].status, OperatorStatus::Stable);
    assert_eq!(records3[0].changed_last, b"n/a".to_vec());
}
