use course_manager::cascade::{get_cascade_courses, get_required_courses};
use course_manager::courses::Course;
use course_manager::error::Error;
use course_manager::{approve_courses, reject_courses};

fn course(code: &str, reqs: &[&str]) -> Course {
    Course {
        code: code.to_string(),
        name: format!("course {}", code),
        credits: 4,
        requirements: reqs.iter().map(|r| r.to_string()).collect(),
        year: 1,
        semester: 1,
        is_bachelor: true,
        status: None,
    }
}

fn ledger(codes: &[&str]) -> Vec<String> {
    codes.iter().map(|c| c.to_string()).collect()
}

fn sorted(mut v: Vec<String>) -> Vec<String> {
    v.sort();
    v
}

fn chain_catalog() -> Vec<Course> {
    vec![course("A", &[]), course("B", &["A"]), course("C", &["B"])]
}

#[test]
fn required_courses_walks_the_whole_chain() {
    let catalog = chain_catalog();
    let anc = get_required_courses(&catalog[2], &catalog);
    assert_eq!(sorted(anc), ledger(&["A", "B"]));
}

#[test]
fn required_courses_of_a_leaf_are_empty() {
    let catalog = chain_catalog();
    let anc = get_required_courses(&catalog[0], &catalog);
    assert!(anc.is_empty());
}

#[test]
fn required_courses_skip_codes_missing_from_catalog() {
    let catalog = vec![course("A", &["GHOST"]), course("B", &["A"])];
    let anc = get_required_courses(&catalog[1], &catalog);
    assert_eq!(sorted(anc), ledger(&["A"]));
}

#[test]
fn cascade_courses_walk_dependents() {
    let catalog = chain_catalog();
    let desc = get_cascade_courses(&"A".to_string(), &catalog);
    assert_eq!(sorted(desc), ledger(&["B", "C"]));
}

#[test]
fn cascade_courses_of_a_top_course_are_empty() {
    let catalog = chain_catalog();
    let desc = get_cascade_courses(&"C".to_string(), &catalog);
    assert!(desc.is_empty());
}

#[test]
fn cascade_approve_pulls_in_every_requirement() {
    let catalog = chain_catalog();
    let r = approve_courses(&catalog, &ledger(&[]), &ledger(&["C"]), true, false);
    assert_eq!(sorted(r.unwrap()), ledger(&["A", "B", "C"]));
}

#[test]
fn cascade_approve_keeps_the_ledger_prefix() {
    let catalog = chain_catalog();
    let r = approve_courses(&catalog, &ledger(&["A"]), &ledger(&["C"]), true, false);
    let new_ledger = r.unwrap();
    assert_eq!(new_ledger[0], "A");
    assert_eq!(sorted(new_ledger), ledger(&["A", "B", "C"]));
}

#[test]
fn cascade_approve_refuses_an_unknown_code() {
    let catalog = chain_catalog();
    let r = approve_courses(&catalog, &ledger(&[]), &ledger(&["ZZZ"]), true, true);
    assert_eq!(r, Err(Error::UnknownCourse("ZZZ".to_string())));
}

#[test]
fn cascade_approve_succeeds_where_plain_approve_is_blocked() {
    let catalog = chain_catalog();
    let plain = approve_courses(&catalog, &ledger(&[]), &ledger(&["C"]), false, false);
    assert_eq!(plain, Err(Error::RequirementsNotMet("C".to_string())));
    let cascaded = approve_courses(&catalog, &ledger(&[]), &ledger(&["C"]), true, false);
    assert!(cascaded.is_ok());
}

#[test]
fn cascade_reject_pulls_in_every_approved_dependent() {
    let catalog = chain_catalog();
    let r = reject_courses(&catalog, &ledger(&["A", "B", "C"]), &ledger(&["A"]), true, false);
    assert_eq!(r, Ok(ledger(&[])));
}

#[test]
fn cascade_reject_leaves_unrelated_courses_alone() {
    let mut catalog = chain_catalog();
    catalog.push(course("D", &[]));
    let r = reject_courses(
        &catalog,
        &ledger(&["A", "B", "D"]),
        &ledger(&["A"]),
        true,
        false,
    );
    assert_eq!(r, Ok(ledger(&["D"])));
}

#[test]
fn cascade_reject_skips_dependents_not_approved() {
    // C depends on A transitively but was never approved, so only A and B go
    let catalog = chain_catalog();
    let r = reject_courses(&catalog, &ledger(&["A", "B"]), &ledger(&["A"]), true, false);
    assert_eq!(r, Ok(ledger(&[])));
}

#[test]
fn cascade_reject_refuses_a_request_not_approved() {
    let catalog = chain_catalog();
    let r = reject_courses(&catalog, &ledger(&["A"]), &ledger(&["B"]), true, false);
    assert_eq!(r, Err(Error::NotApproved("B".to_string())));
}

#[test]
fn cascade_reject_with_force_tolerates_a_request_not_approved() {
    let catalog = chain_catalog();
    let r = reject_courses(&catalog, &ledger(&["A", "B"]), &ledger(&["C"]), true, true);
    assert_eq!(r, Ok(ledger(&["A", "B"])));
}

#[test]
fn cascade_approve_terminates_on_a_cyclic_catalog() {
    let catalog = vec![course("A", &["B"]), course("B", &["A"])];
    let r = approve_courses(&catalog, &ledger(&[]), &ledger(&["A"]), true, false);
    assert_eq!(sorted(r.unwrap()), ledger(&["A", "B"]));
}

#[test]
fn cascade_reject_terminates_on_a_cyclic_catalog() {
    let catalog = vec![course("A", &["B"]), course("B", &["A"])];
    let r = reject_courses(&catalog, &ledger(&["A", "B"]), &ledger(&["A"]), true, false);
    assert_eq!(r, Ok(ledger(&[])));
}

#[test]
fn required_courses_on_a_cycle_include_the_start() {
    let catalog = vec![course("A", &["B"]), course("B", &["A"])];
    let anc = get_required_courses(&catalog[0], &catalog);
    assert_eq!(sorted(anc), ledger(&["A", "B"]));
}

#[test]
fn shared_requirement_is_collected_once() {
    let catalog = vec![
        course("A", &[]),
        course("B", &["A"]),
        course("C", &["A", "B"]),
    ];
    let anc = get_required_courses(&catalog[2], &catalog);
    assert_eq!(sorted(anc), ledger(&["A", "B"]));
}
