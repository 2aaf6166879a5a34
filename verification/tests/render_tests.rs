use autotests_html::record::{percent_of, Record};
use autotests_html::render::{render_report, row_plan, CellColor, ChangedCell};
use autotests_html::status::OperatorStatus;

fn counts(id: &str, ntests: u64, generation: u64, simulation: u64) -> Record {
    Record {
        id: id.as_bytes().to_vec(),
        ntests,
        generation,
        simulation,
        percentage: percent_of(simulation, ntests),
        status: OperatorStatus::Undefined,
        changed_last: b"n/a".to_vec(),
        status_last: OperatorStatus::Undefined,
    }
}

#[test]
fn status_symbols_are_fixed() {
    assert_eq!(OperatorStatus::Up.to_string(), "&#8593");
    assert_eq!(OperatorStatus::Down.to_string(), "&#8595");
    assert_eq!(OperatorStatus::Pass.to_string(), "PASS!");
    assert_eq!(OperatorStatus::Break.to_string(), "BREAK!");
    assert_eq!(OperatorStatus::Stable.to_string(), "=");
    assert_eq!(OperatorStatus::Undefined.to_string(), "n/a");
}

#[test]
fn status_colors_are_fixed() {
    assert_eq!(OperatorStatus::Up.color(), "green");
    assert_eq!(OperatorStatus::Down.color(), "red");
    assert_eq!(OperatorStatus::Pass.color(), "green");
    assert_eq!(OperatorStatus::Break.color(), "red");
    assert_eq!(OperatorStatus::Stable.color(), "blue");
    assert_eq!(OperatorStatus::Undefined.color(), "black");
}

#[test]
fn fully_passing_row_is_all_green() {
    let r = counts("Adder", 10, 10, 10);
    let plan = row_plan(&r, &Vec::new());
    assert_eq!(plan.operator.color, Some(CellColor::Green));
    assert_eq!(plan.generation.color, Some(CellColor::Green));
    assert_eq!(plan.simulation.color, Some(CellColor::Green));
    assert_eq!(plan.percentage.color, Some(CellColor::Green));
    assert_eq!(plan.percentage.text, b"100%".to_vec());
}

#[test]
fn failing_simulation_turns_row_red_but_generation_green() {
    let r = counts("Adder", 10, 10, 7);
    let plan = row_plan(&r, &Vec::new());
    assert_eq!(plan.generation.color, Some(CellColor::Green));
    assert_eq!(plan.simulation.color, Some(CellColor::Red));
    assert_eq!(plan.percentage.color, Some(CellColor::Red));
    assert_eq!(plan.operator.color, Some(CellColor::Red));
    assert_eq!(plan.percentage.text, b"70%".to_vec());
}

#[test]
fn failing_generation_alone_turns_operator_red() {
    let r = counts("Adder", 10, 9, 10);
    let plan = row_plan(&r, &Vec::new());
    assert_eq!(plan.generation.color, Some(CellColor::Red));
    assert_eq!(plan.simulation.color, Some(CellColor::Green));
    assert_eq!(plan.operator.color, Some(CellColor::Red));
}

#[test]
fn row_without_tests_has_no_pass_fail_coloring() {
    let r = counts("Adder", 0, 0, 0);
    let plan = row_plan(&r, &Vec::new());
    assert_eq!(plan.operator.color, None);
    assert_eq!(plan.generation.color, None);
    assert_eq!(plan.simulation.color, None);
    assert_eq!(plan.percentage.color, None);
    assert_eq!(plan.generation.text, b"0".to_vec());
    assert_eq!(plan.simulation.text, b"0".to_vec());
    assert_eq!(plan.percentage.text, b"0%".to_vec());
}

#[test]
fn tests_cell_is_never_colored() {
    let plan = row_plan(&counts("Adder", 10, 10, 10), &Vec::new());
    assert_eq!(plan.tests.color, None);
    assert_eq!(plan.tests.text, b"10".to_vec());
}

#[test]
fn unchanged_provenance_renders_the_sentinel_plainly() {
    let r = counts("Adder", 1, 1, 1);
    let plan = row_plan(&r, &b"2024-01-01".to_vec());
    match plan.changed {
        ChangedCell::Plain { text } => assert_eq!(text, b"n/a".to_vec()),
        ChangedCell::Link { .. } => panic!("the sentinel must not become a link"),
    }
}

#[test]
fn changed_provenance_links_commit_and_date() {
    let mut r = counts("Adder", 1, 1, 1);
    r.changed_last = b"abc123".to_vec();
    let plan = row_plan(&r, &b"2024-01-01".to_vec());
    match plan.changed {
        ChangedCell::Link { commit, date } => {
            assert_eq!(commit, b"abc123".to_vec());
            assert_eq!(date, b"2024-01-01".to_vec());
        }
        ChangedCell::Plain { .. } => panic!("a changed record must link to its commit"),
    }
}

#[test]
fn report_holds_title_branch_and_colored_cells() {
    let mut passing = counts("Adder", 10, 10, 10);
    passing.status = OperatorStatus::Pass;
    let mut failing = counts("Shifter", 10, 10, 7);
    failing.status = OperatorStatus::Break;
    failing.changed_last = b"abc123".to_vec();
    let records = vec![passing, failing];
    let dates = vec![Vec::new(), b"2024-01-01".to_vec()];
    let html = render_report(&records, &dates, &b"master".to_vec());
    assert!(html.contains("FloPoCo autotest results"));
    assert!(html.contains("branch: master"));
    assert!(html.contains("Changed Last"));
    assert!(html.contains("color:green"));
    assert!(html.contains("color:red"));
    assert!(html.contains("PASS!"));
    assert!(html.contains("BREAK!"));
    assert!(html.contains("https://gitlab.com/flopoco/flopoco/-/commit/abc123"));
    assert!(html.contains("#commit (2024-01-01)"));
    assert!(html.contains("Adder"));
    assert!(html.contains("Shifter"));
}

#[test]
fn markup_in_names_is_escaped_in_the_report() {
    let mut r = counts("a<b>\"c", 4, 4, 4);
    r.changed_last = b"x\">y".to_vec();
    let dates = vec![b"2024\"".to_vec()];
    let html = render_report(&vec![r], &dates, &b"dev\"<branch>".to_vec());
    // the operator name reaches the document only in entity form
    assert!(html.contains("a&lt;b&gt;&quot;c"));
    assert!(!html.contains("a<b>"));
    // the branch heading and the commit link are escaped the same way
    assert!(html.contains("branch: dev&quot;&lt;branch&gt;"));
    assert!(html.contains("/-/commit/x&quot;&gt;y"));
    assert!(html.contains("#commit (2024&quot;)"));
}
