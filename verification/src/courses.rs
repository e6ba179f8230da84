use vstd::prelude::*;

verus! {

/// One catalog entry: a course together with the codes of the courses it
/// requires. The `status` field is left `None` in the stored catalog and is
/// filled in by the status resolver when a listing is produced.
#[derive(Debug, Clone)]
pub struct Course {
    pub code: String,
    pub name: String,
    pub credits: u8,
    pub requirements: Vec<String>,
    pub year: u8,
    pub semester: u8,
    pub is_bachelor: bool,
    pub status: Option<CourseStatus>,
}

/// The eligibility of a course, derived afresh from the catalog and the
/// approval ledger on every query; never persisted.
#[derive(Copy, Clone, Debug, PartialEq, Eq, Structural)]
pub enum CourseStatus {
    Blocked,
    Approved,
    Available,
}

impl DeepView for CourseStatus {
    type V = CourseStatus;

    open spec fn deep_view(&self) -> CourseStatus {
        *self
    }
}

/// The mathematical model of a course: each string is replaced by its
/// sequence of characters.
pub struct CourseView {
    pub code: Seq<char>,
    pub name: Seq<char>,
    pub credits: u8,
    pub requirements: Seq<Seq<char>>,
    pub year: u8,
    pub semester: u8,
    pub is_bachelor: bool,
    pub status: Option<CourseStatus>,
}

impl DeepView for Course {
    type V = CourseView;

    open spec fn deep_view(&self) -> CourseView {
        CourseView {
            code: self.code@,
            name: self.name@,
            credits: self.credits,
            requirements: self.requirements.deep_view(),
            year: self.year,
            semester: self.semester,
            is_bachelor: self.is_bachelor,
            status: self.status,
        }
    }
}

/// Does some catalog entry carry this code?
pub open spec fn catalog_has(catalog: Seq<CourseView>, code: Seq<char>) -> bool {
    exists|i: int| 0 <= i < catalog.len() && catalog[i].code == code
}

/// Course codes are unique keys within a catalog.
pub open spec fn catalog_wf(catalog: Seq<CourseView>) -> bool {
    forall|i: int, j: int| 0 <= i < j < catalog.len() ==> catalog[i].code != catalog[j].code
}

/// The catalog entry carrying the given code (unique when the catalog is
/// well formed).
pub open spec fn course_at(catalog: Seq<CourseView>, code: Seq<char>) -> CourseView {
    catalog[choose|i: int| 0 <= i < catalog.len() && catalog[i].code == code]
}

/// Under unique codes, looking a code up yields the entry that carries it.
pub proof fn lemma_course_at_unique(catalog: Seq<CourseView>, idx: int, code: Seq<char>)
    requires
        catalog_wf(catalog),
        0 <= idx < catalog.len(),
        catalog[idx].code == code,
    ensures
        course_at(catalog, code) == catalog[idx],
{
    assert(catalog_has(catalog, code));
    let i = choose|i: int| 0 <= i < catalog.len() && catalog[i].code == code;
    if i != idx {
        if i < idx {
            assert(catalog[i].code != catalog[idx].code);
        } else {
            assert(catalog[idx].code != catalog[i].code);
        }
    }
}

/// Every requirement is present in the approved set; vacuously true for a
/// course without requirements.
pub open spec fn spec_requirements_met(
    requirements: Seq<Seq<char>>,
    approved: Seq<Seq<char>>,
) -> bool {
    forall|i: int|
        0 <= i < requirements.len() ==> approved.contains(#[trigger] requirements[i])
}

/// Status resolution: a course in the ledger is `Approved`; otherwise it is
/// `Available` exactly when all of its requirements are in the ledger, and
/// `Blocked` when some requirement is missing.
pub open spec fn spec_status(course: CourseView, approved: Seq<Seq<char>>) -> CourseStatus {
    if approved.contains(course.code) {
        CourseStatus::Approved
    } else if spec_requirements_met(course.requirements, approved) {
        CourseStatus::Available
    } else {
        CourseStatus::Blocked
    }
}

impl Course {
    /// Copies this course with its derived status filled in; every other
    /// field keeps its contents.
    pub fn with_status(&self, status: CourseStatus) -> (r: Course)
        ensures
            r.deep_view() == (CourseView { status: Some(status), ..self.deep_view() }),
    {
        Course {
            code: self.code.clone(),
            name: self.name.clone(),
            credits: self.credits,
            requirements: self.requirements.clone(),
            year: self.year,
            semester: self.semester,
            is_bachelor: self.is_bachelor,
            status: Some(status),
        }
    }
}

/// Should a course with this resolved status appear in a listing?
pub open spec fn status_selected(filter: Option<Seq<CourseStatus>>, status: CourseStatus) -> bool {
    match filter {
        None => true,
        Some(wanted) => wanted.contains(status),
    }
}

/// A catalog entry annotated with its resolved status.
pub open spec fn annotate(course: CourseView, approved: Seq<Seq<char>>) -> CourseView {
    CourseView { status: Some(spec_status(course, approved)), ..course }
}

/// The course listing: catalog order is kept, every entry is annotated with
/// its resolved status, and only entries whose status is requested remain.
pub open spec fn spec_list(
    catalog: Seq<CourseView>,
    approved: Seq<Seq<char>>,
    filter: Option<Seq<CourseStatus>>,
) -> Seq<CourseView>
    decreases catalog.len(),
{
    if catalog.len() == 0 {
        Seq::empty()
    } else {
        let prev = spec_list(catalog.drop_last(), approved, filter);
        let c = catalog.last();
        if status_selected(filter, spec_status(c, approved)) {
            prev.push(annotate(c, approved))
        } else {
            prev
        }
    }
}

/// Membership test of a status in a list of statuses.
pub fn contains_status(statuses: &Vec<CourseStatus>, status: CourseStatus) -> (r: bool)
    ensures
        r == statuses@.contains(status),
{
    let mut j: usize = 0;
    while j < statuses.len()
        invariant
            j <= statuses.len(),
            forall|k: int| 0 <= k < j ==> statuses@[k] != status,
        decreases statuses.len() - j,
    {
        if statuses[j] == status {
            return true;
        }
        j += 1;
    }
    false
}

/// The display name of a status.
pub open spec fn spec_status_name(status: CourseStatus) -> Seq<char> {
    match status {
        CourseStatus::Blocked => "Blocked"@,
        CourseStatus::Approved => "Approved"@,
        CourseStatus::Available => "Available"@,
    }
}

/// Renders a status as its display name.
pub fn to_str(status: CourseStatus) -> (r: &'static str)
    ensures
        r@ == spec_status_name(status),
{
    match status {
        CourseStatus::Blocked => "Blocked",
        CourseStatus::Approved => "Approved",
        CourseStatus::Available => "Available",
    }
}

/// Membership test of a code in a list of codes, compared by contents.
pub fn contains_code(codes: &Vec<String>, code: &String) -> (r: bool)
    ensures
        r == codes.deep_view().contains(code@),
{
    let mut j: usize = 0;
    while j < codes.len()
        invariant
            j <= codes.len(),
            forall|k: int| 0 <= k < j ==> codes.deep_view()[k] != code@,
        decreases codes.len() - j,
    {
        if codes[j].eq(code) {
            assert(codes.deep_view()[j as int] == code@);
            return true;
        }
        j += 1;
    }
    false
}

/// Finds the position of the first catalog entry carrying the given code.
pub fn find_course(catalog: &Vec<Course>, code: &String) -> (r: Option<usize>)
    ensures
        match r {
            Some(i) => i < catalog.len() && catalog.deep_view()[i as int].code == code@,
            None => !catalog_has(catalog.deep_view(), code@),
        },
{
    let mut j: usize = 0;
    while j < catalog.len()
        invariant
            j <= catalog.len(),
            forall|k: int| 0 <= k < j ==> catalog.deep_view()[k].code != code@,
        decreases catalog.len() - j,
    {
        if catalog[j].code.eq(code) {
            assert(catalog.deep_view()[j as int].code == code@);
            return Some(j);
        }
        j += 1;
    }
    None
}

/// Checks whether every requirement of a course is in the approved set.
pub fn requirements_met(course: &Course, approved: &Vec<String>) -> (r: bool)
    ensures
        r == spec_requirements_met(course.requirements.deep_view(), approved.deep_view()),
{
    let mut i: usize = 0;
    while i < course.requirements.len()
        invariant
            i <= course.requirements.len(),
            forall|k: int|
                0 <= k < i ==> approved.deep_view().contains(
                    #[trigger] course.requirements.deep_view()[k],
                ),
        decreases course.requirements.len() - i,
    {
        if !contains_code(approved, &course.requirements[i]) {
            assert(!approved.deep_view().contains(course.requirements.deep_view()[i as int]));
            return false;
        }
        i += 1;
    }
    true
}

/// Derives the status of one course from the approved set.
pub fn resolve(course: &Course, approved: &Vec<String>) -> (r: CourseStatus)
    ensures
        r == spec_status(course.deep_view(), approved.deep_view()),
{
    if contains_code(approved, &course.code) {
        CourseStatus::Approved
    } else if requirements_met(course, approved) {
        CourseStatus::Available
    } else {
        CourseStatus::Blocked
    }
}

/// A course with no requirements is `Approved` when its code is in the
/// ledger and `Available` otherwise.
pub proof fn lemma_no_requirements_status(course: CourseView, approved: Seq<Seq<char>>)
    requires
        course.requirements.len() == 0,
    ensures
        spec_status(course, approved) == (if approved.contains(course.code) {
            CourseStatus::Approved
        } else {
            CourseStatus::Available
        }),
{
}

/// A course with a non-empty requirement set is `Blocked` exactly when it is
/// not itself approved and some requirement is missing from the ledger.
pub proof fn lemma_requirements_gate_status(course: CourseView, approved: Seq<Seq<char>>)
    requires
        course.requirements.len() > 0,
    ensures
        (spec_status(course, approved) == CourseStatus::Blocked) <==> (!approved.contains(
            course.code,
        ) && !spec_requirements_met(course.requirements, approved)),
{
}

} // verus!
