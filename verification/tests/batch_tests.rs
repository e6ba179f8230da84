use course_manager::courses::{resolve, Course, CourseStatus};
use course_manager::error::Error;
use course_manager::{approve_courses, reject_courses};

fn course(code: &str, reqs: &[&str]) -> Course {
    Course {
        code: code.to_string(),
        name: format!("course {}", code),
        credits: 4,
        requirements: reqs.iter().map(|r| r.to_string()).collect(),
        year: 1,
        semester: 1,
        is_bachelor: true,
        status: None,
    }
}

fn ledger(codes: &[&str]) -> Vec<String> {
    codes.iter().map(|c| c.to_string()).collect()
}

#[test]
fn approve_available_course_adds_it() {
    let catalog = vec![course("A", &[])];
    let r = approve_courses(&catalog, &ledger(&[]), &ledger(&["A"]), false, false);
    assert_eq!(r, Ok(ledger(&["A"])));
}

#[test]
fn approve_unknown_course_fails() {
    let catalog = vec![course("A", &[])];
    let r = approve_courses(&catalog, &ledger(&[]), &ledger(&["ZZZ"]), false, false);
    assert_eq!(r, Err(Error::UnknownCourse("ZZZ".to_string())));
}

#[test]
fn force_never_suppresses_unknown_course() {
    let catalog = vec![course("A", &[])];
    let r = approve_courses(&catalog, &ledger(&[]), &ledger(&["ZZZ"]), false, true);
    assert_eq!(r, Err(Error::UnknownCourse("ZZZ".to_string())));
}

#[test]
fn approve_already_approved_fails_without_force() {
    let catalog = vec![course("A", &[])];
    let r = approve_courses(&catalog, &ledger(&["A"]), &ledger(&["A"]), false, false);
    assert_eq!(r, Err(Error::AlreadyApproved("A".to_string())));
}

#[test]
fn approve_already_approved_with_force_keeps_ledger() {
    let catalog = vec![course("A", &[])];
    let r = approve_courses(&catalog, &ledger(&["A"]), &ledger(&["A"]), false, true);
    assert_eq!(r, Ok(ledger(&["A"])));
}

#[test]
fn approve_blocked_course_fails_without_force() {
    let catalog = vec![course("A", &[]), course("B", &["A"])];
    let r = approve_courses(&catalog, &ledger(&[]), &ledger(&["B"]), false, false);
    assert_eq!(r, Err(Error::RequirementsNotMet("B".to_string())));
}

#[test]
fn approve_blocked_course_with_force_adds_it() {
    let catalog = vec![course("A", &[]), course("B", &["A"])];
    let r = approve_courses(&catalog, &ledger(&[]), &ledger(&["B"]), false, true);
    assert_eq!(r, Ok(ledger(&["B"])));
}

#[test]
fn batch_is_validated_against_the_snapshot() {
    // the batch ["B", "A"] fails on B even though A is staged in the same
    // call: validation reads the snapshot, never codes staged earlier
    let catalog = vec![course("A", &[]), course("B", &["A"])];
    let r = approve_courses(&catalog, &ledger(&[]), &ledger(&["B", "A"]), false, false);
    assert_eq!(r, Err(Error::RequirementsNotMet("B".to_string())));
}

#[test]
fn snapshot_rule_holds_in_either_input_order() {
    let catalog = vec![course("A", &[]), course("B", &["A"])];
    let r = approve_courses(&catalog, &ledger(&[]), &ledger(&["A", "B"]), false, false);
    assert_eq!(r, Err(Error::RequirementsNotMet("B".to_string())));
}

#[test]
fn failed_batch_writes_nothing() {
    let catalog = vec![course("A", &[]), course("B", &["A"])];
    let before = ledger(&["A"]);
    let r = approve_courses(&catalog, &before, &ledger(&["ZZZ", "B"]), false, false);
    assert!(r.is_err());
    // the caller's ledger is untouched; only an Ok result carries a new one
    assert_eq!(before, ledger(&["A"]));
}

#[test]
fn first_violation_in_input_order_wins() {
    let catalog = vec![course("A", &[]), course("B", &["A"])];
    let r = approve_courses(
        &catalog,
        &ledger(&["A"]),
        &ledger(&["A", "ZZZ"]),
        false,
        false,
    );
    assert_eq!(r, Err(Error::AlreadyApproved("A".to_string())));
}

#[test]
fn approve_twice_with_force_is_idempotent() {
    let catalog = vec![course("A", &[])];
    let once = approve_courses(&catalog, &ledger(&[]), &ledger(&["A"]), false, true).unwrap();
    let twice = approve_courses(&catalog, &once, &ledger(&["A"]), false, true).unwrap();
    assert_eq!(once, twice);
}

#[test]
fn duplicate_codes_in_one_batch_are_staged_once() {
    let catalog = vec![course("A", &[])];
    let r = approve_courses(&catalog, &ledger(&[]), &ledger(&["A", "A"]), false, false);
    assert_eq!(r, Ok(ledger(&["A"])));
}

#[test]
fn approve_empty_batch_keeps_ledger() {
    let catalog = vec![course("A", &[])];
    let r = approve_courses(&catalog, &ledger(&["A"]), &ledger(&[]), false, false);
    assert_eq!(r, Ok(ledger(&["A"])));
}

#[test]
fn approve_keeps_ledger_order_and_appends() {
    let catalog = vec![course("A", &[]), course("B", &[]), course("C", &[])];
    let r = approve_courses(&catalog, &ledger(&["B"]), &ledger(&["C", "A"]), false, false);
    assert_eq!(r, Ok(ledger(&["B", "C", "A"])));
}

#[test]
fn reject_approved_course_removes_it() {
    let catalog = vec![course("A", &[])];
    let r = reject_courses(&catalog, &ledger(&["A"]), &ledger(&["A"]), false, false);
    assert_eq!(r, Ok(ledger(&[])));
}

#[test]
fn reject_not_approved_fails_without_force() {
    let catalog = vec![course("A", &[])];
    let r = reject_courses(&catalog, &ledger(&[]), &ledger(&["A"]), false, false);
    assert_eq!(r, Err(Error::NotApproved("A".to_string())));
}

#[test]
fn reject_not_approved_with_force_keeps_ledger() {
    let catalog = vec![course("A", &[])];
    let r = reject_courses(&catalog, &ledger(&[]), &ledger(&["A"]), false, true);
    assert_eq!(r, Ok(ledger(&[])));
}

#[test]
fn reject_removes_only_requested_codes() {
    let catalog = vec![course("A", &[]), course("B", &[]), course("C", &[])];
    let r = reject_courses(
        &catalog,
        &ledger(&["A", "B", "C"]),
        &ledger(&["B"]),
        false,
        false,
    );
    assert_eq!(r, Ok(ledger(&["A", "C"])));
}

#[test]
fn reject_reports_first_not_approved_in_input_order() {
    let catalog = vec![course("A", &[]), course("B", &[])];
    let r = reject_courses(
        &catalog,
        &ledger(&["A"]),
        &ledger(&["A", "X", "Y"]),
        false,
        false,
    );
    assert_eq!(r, Err(Error::NotApproved("X".to_string())));
}

#[test]
fn rejected_course_resolves_from_remaining_ledger() {
    // after rejecting B, course C recomputes to Blocked and B to Available
    let catalog = vec![course("A", &[]), course("B", &["A"]), course("C", &["B"])];
    let led = ledger(&["A", "B"]);
    let after = reject_courses(&catalog, &led, &ledger(&["B"]), false, false).unwrap();
    assert_eq!(after, ledger(&["A"]));
    assert_eq!(resolve(&catalog[1], &after), CourseStatus::Available);
    assert_eq!(resolve(&catalog[2], &after), CourseStatus::Blocked);
}
