use autotests_html::codec::{decode, encode, DecodeError};
use autotests_html::record::Record;
use autotests_html::status::OperatorStatus;

fn record(
    id: &str,
    ntests: u64,
    generation: u64,
    simulation: u64,
    percentage: u64,
    status: OperatorStatus,
    changed_last: &str,
    status_last: OperatorStatus,
) -> Record {
    Record {
        id: id.as_bytes().to_vec(),
        ntests,
        generation,
        simulation,
        percentage,
        status,
        changed_last: changed_last.as_bytes().to_vec(),
        status_last,
    }
}

#[test]
fn decode_full_table() {
    let text = b"Operator,Tests,Generation,Simulation,%,Status,Changed Last,Status Last\n\
                 Adder,5,5,5,100,Undefined,n/a,Undefined\n"
        .to_vec();
    let records = decode(&text).expect("well-formed table");
    assert_eq!(records.len(), 1);
    let r = &records[0];
    assert_eq!(r.id, b"Adder".to_vec());
    assert_eq!(r.ntests, 5);
    assert_eq!(r.generation, 5);
    assert_eq!(r.simulation, 5);
    assert_eq!(r.percentage, 100);
    assert_eq!(r.status, OperatorStatus::Undefined);
    assert_eq!(r.changed_last, b"n/a".to_vec());
    assert_eq!(r.status_last, OperatorStatus::Undefined);
}

#[test]
fn decode_trims_and_matches_headers_case_insensitively() {
    // incidental whitespace around header names and cells, and odd casing,
    // must not matter
    let text = b" operator , TESTS ,  generation , Simulation\n  Shifter , 4 , 3 , 2 \n".to_vec();
    let records = decode(&text).expect("tolerant header matching");
    assert_eq!(records.len(), 1);
    let r = &records[0];
    assert_eq!(r.id, b"Shifter".to_vec());
    assert_eq!(r.ntests, 4);
    assert_eq!(r.generation, 3);
    assert_eq!(r.simulation, 2);
    // 2 of 4 tests pass: 50%
    assert_eq!(r.percentage, 50);
    // columns the file does not carry get their defaults
    assert_eq!(r.status, OperatorStatus::Undefined);
    assert_eq!(r.changed_last, b"n/a".to_vec());
}

#[test]
fn decode_recomputes_stale_percentage() {
    // the persisted percentage is never trusted: 3 of 4 is 75, not 99
    let text = b"Operator,Tests,Generation,Simulation,%\nDiv,4,4,3,99\n".to_vec();
    let records = decode(&text).unwrap();
    assert_eq!(records[0].percentage, 75);
}

#[test]
fn decode_rounds_percentage_to_nearest() {
    let text = b"Operator,Tests,Generation,Simulation\nA,3,3,2\nB,8,8,1\n".to_vec();
    let records = decode(&text).unwrap();
    // 2/3 = 66.67 rounds to 67
    assert_eq!(records[0].percentage, 67);
    // 1/8 = 12.5 rounds half up to 13
    assert_eq!(records[1].percentage, 13);
}

#[test]
fn decode_empty_file_yields_no_records() {
    assert_eq!(decode(&Vec::new()).unwrap().len(), 0);
}

#[test]
fn decode_header_only_file_yields_no_records() {
    let text = b"Operator,Tests,Generation,Simulation\n".to_vec();
    assert_eq!(decode(&text).unwrap().len(), 0);
}

#[test]
fn decode_skips_blank_lines() {
    let text = b"\n\nOperator,Tests,Generation,Simulation\n\nAdder,1,1,1\n\n  \n".to_vec();
    let records = decode(&text).unwrap();
    assert_eq!(records.len(), 1);
    assert_eq!(records[0].id, b"Adder".to_vec());
}

#[test]
fn decode_rejects_missing_required_column() {
    let text = b"Operator,Tests,Generation\nAdder,1,1\n".to_vec();
    assert_eq!(decode(&text).unwrap_err(), DecodeError::Header);
}

#[test]
fn decode_rejects_generation_above_ntests() {
    let text = b"Operator,Tests,Generation,Simulation\nAdder,5,6,5\n".to_vec();
    assert_eq!(decode(&text).unwrap_err(), DecodeError::CountsExceedTests { row: 1 });
}

#[test]
fn decode_rejects_simulation_above_ntests() {
    let text = b"Operator,Tests,Generation,Simulation\nAdder,5,5,6\n".to_vec();
    assert_eq!(decode(&text).unwrap_err(), DecodeError::CountsExceedTests { row: 1 });
}

#[test]
fn decode_rejects_unreadable_number() {
    let text = b"Operator,Tests,Generation,Simulation\nAdder,five,5,5\n".to_vec();
    assert_eq!(decode(&text).unwrap_err(), DecodeError::Number { row: 1, col: 1 });
}

#[test]
fn decode_rejects_wrong_cell_count() {
    let text = b"Operator,Tests,Generation,Simulation\nAdder,5,5\n".to_vec();
    assert_eq!(decode(&text).unwrap_err(), DecodeError::CellCount { row: 1 });
}

#[test]
fn decode_rejects_unknown_status() {
    let text = b"Operator,Tests,Generation,Simulation,Status\nAdder,5,5,5,Sideways\n".to_vec();
    assert_eq!(decode(&text).unwrap_err(), DecodeError::UnknownStatus { row: 1, col: 4 });
}

#[test]
fn decode_rejects_malformed_percentage_cell() {
    let text = b"Operator,Tests,Generation,Simulation,%\nAdder,5,5,5,1.2.3\n".to_vec();
    assert_eq!(decode(&text).unwrap_err(), DecodeError::Number { row: 1, col: 4 });
}

#[test]
fn decode_accepts_fractional_percentage_cell() {
    let text = b"Operator,Tests,Generation,Simulation,%\nAdder,5,5,5,100.0\n".to_vec();
    let records = decode(&text).unwrap();
    assert_eq!(records[0].percentage, 100);
}

#[test]
fn encode_writes_fixed_column_order() {
    let r = record("Adder", 5, 5, 5, 100, OperatorStatus::Undefined, "n/a", OperatorStatus::Undefined);
    let bytes = encode(&vec![r]);
    let text = String::from_utf8(bytes).unwrap();
    assert_eq!(
        text,
        "Operator,Tests,Generation,Simulation,%,Status,Changed Last,Status Last\n\
         Adder,5,5,5,100,Undefined,n/a,Undefined\n"
    );
}

#[test]
fn encode_then_decode_round_trips_records() {
    let a = record("Adder", 5, 5, 3, 60, OperatorStatus::Break, "abc123", OperatorStatus::Pass);
    let b = record("Shifter", 0, 0, 0, 0, OperatorStatus::Stable, "n/a", OperatorStatus::Up);
    let bytes = encode(&vec![a.clone(), b.clone()]);
    let back = decode(&bytes).expect("own output must decode");
    assert_eq!(back.len(), 2);
    assert_eq!(back[0], a);
    assert_eq!(back[1], b);
}

#[test]
fn round_trip_preserves_count_fields_exactly() {
    let r = record(
        "Big",
        u64::MAX,
        u64::MAX,
        u64::MAX,
        100,
        OperatorStatus::Up,
        "deadbeef",
        OperatorStatus::Down,
    );
    let back = decode(&encode(&vec![r])).unwrap();
    assert_eq!(back[0].id, b"Big".to_vec());
    assert_eq!(back[0].ntests, u64::MAX);
    assert_eq!(back[0].generation, u64::MAX);
    assert_eq!(back[0].simulation, u64::MAX);
}
