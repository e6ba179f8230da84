use course_manager::courses::{
    contains_code, contains_status, find_course, requirements_met, resolve, to_str, Course,
    CourseStatus,
};
use course_manager::get_courses;
use course_manager::table::CourseTable;

fn course(code: &str, reqs: &[&str]) -> Course {
    Course {
        code: code.to_string(),
        name: format!("course {}", code),
        credits: 4,
        requirements: reqs.iter().map(|r| r.to_string()).collect(),
        year: 1,
        semester: 1,
        is_bachelor: true,
        status: None,
    }
}

fn ledger(codes: &[&str]) -> Vec<String> {
    codes.iter().map(|c| c.to_string()).collect()
}

#[test]
fn no_requirements_not_in_ledger_is_available() {
    let c = course("A", &[]);
    assert_eq!(resolve(&c, &ledger(&[])), CourseStatus::Available);
}

#[test]
fn no_requirements_in_ledger_is_approved() {
    let c = course("A", &[]);
    assert_eq!(resolve(&c, &ledger(&["A"])), CourseStatus::Approved);
}

#[test]
fn requirements_missing_is_blocked() {
    let c = course("B", &["A"]);
    assert_eq!(resolve(&c, &ledger(&[])), CourseStatus::Blocked);
}

#[test]
fn requirements_met_is_available() {
    let c = course("C", &["A", "B"]);
    assert_eq!(resolve(&c, &ledger(&["A", "B"])), CourseStatus::Available);
}

#[test]
fn requirements_partially_met_is_blocked() {
    let c = course("C", &["A", "B"]);
    assert_eq!(resolve(&c, &ledger(&["A"])), CourseStatus::Blocked);
}

#[test]
fn approved_course_with_missing_requirements_is_approved() {
    let c = course("C", &["A", "B"]);
    assert_eq!(resolve(&c, &ledger(&["C"])), CourseStatus::Approved);
}

#[test]
fn to_str_names_every_status() {
    assert_eq!(to_str(CourseStatus::Blocked), "Blocked");
    assert_eq!(to_str(CourseStatus::Approved), "Approved");
    assert_eq!(to_str(CourseStatus::Available), "Available");
}

#[test]
fn contains_status_finds_member() {
    let wanted = vec![CourseStatus::Blocked, CourseStatus::Available];
    assert!(contains_status(&wanted, CourseStatus::Available));
    assert!(!contains_status(&wanted, CourseStatus::Approved));
}

#[test]
fn list_without_filter_annotates_every_course() {
    let catalog = vec![course("A", &[]), course("B", &["A"]), course("C", &["B"])];
    let led = ledger(&["A"]);
    let listed = get_courses(&catalog, &led, &None);
    assert_eq!(listed.len(), 3);
    assert_eq!(listed[0].code, "A");
    assert_eq!(listed[0].status, Some(CourseStatus::Approved));
    assert_eq!(listed[1].code, "B");
    assert_eq!(listed[1].status, Some(CourseStatus::Available));
    assert_eq!(listed[2].code, "C");
    assert_eq!(listed[2].status, Some(CourseStatus::Blocked));
}

#[test]
fn list_with_filter_keeps_only_requested_statuses() {
    let catalog = vec![course("A", &[]), course("B", &["A"]), course("C", &["B"])];
    let led = ledger(&["A"]);
    let listed = get_courses(&catalog, &led, &Some(vec![CourseStatus::Available]));
    assert_eq!(listed.len(), 1);
    assert_eq!(listed[0].code, "B");
    assert_eq!(listed[0].status, Some(CourseStatus::Available));
}

#[test]
fn list_with_two_statuses_keeps_catalog_order() {
    let catalog = vec![course("A", &[]), course("B", &["A"]), course("C", &["B"])];
    let led = ledger(&["A"]);
    let listed = get_courses(
        &catalog,
        &led,
        &Some(vec![CourseStatus::Approved, CourseStatus::Blocked]),
    );
    assert_eq!(listed.len(), 2);
    assert_eq!(listed[0].code, "A");
    assert_eq!(listed[1].code, "C");
}

#[test]
fn list_with_empty_filter_returns_nothing() {
    let catalog = vec![course("A", &[])];
    let listed = get_courses(&catalog, &ledger(&[]), &Some(vec![]));
    assert!(listed.is_empty());
}

#[test]
fn list_preserves_course_fields() {
    let catalog = vec![course("A", &[])];
    let listed = get_courses(&catalog, &ledger(&[]), &None);
    assert_eq!(listed[0].name, "course A");
    assert_eq!(listed[0].credits, 4);
    assert_eq!(listed[0].year, 1);
    assert_eq!(listed[0].semester, 1);
    assert!(listed[0].is_bachelor);
    assert_eq!(listed[0].requirements, Vec::<String>::new());
}

#[test]
fn add_sums_counters() {
    assert_eq!(course_manager::add(2, 3), 5);
    assert_eq!(course_manager::add(0, 0), 0);
}

#[test]
fn requirements_met_checks_every_requirement() {
    let c = course("C", &["A", "B"]);
    assert!(requirements_met(&c, &ledger(&["B", "A"])));
    assert!(!requirements_met(&c, &ledger(&["B"])));
    assert!(requirements_met(&course("A", &[]), &ledger(&[])));
}

#[test]
fn contains_code_compares_by_contents() {
    let led = ledger(&["A", "B"]);
    assert!(contains_code(&led, &"B".to_string()));
    assert!(!contains_code(&led, &"C".to_string()));
}

#[test]
fn find_course_returns_the_first_match() {
    let catalog = vec![course("A", &[]), course("B", &["A"])];
    assert_eq!(find_course(&catalog, &"B".to_string()), Some(1));
    assert_eq!(find_course(&catalog, &"Z".to_string()), None);
}

#[test]
fn course_table_row_carries_listing_fields() {
    let row = CourseTable {
        code: "A",
        name: "course A",
        status: to_str(CourseStatus::Available),
    };
    assert_eq!(row.code, "A");
    assert_eq!(row.name, "course A");
    assert_eq!(row.status, "Available");
}
