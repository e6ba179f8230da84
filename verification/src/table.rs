use vstd::prelude::*;

verus! {

/// One row of a rendered course listing: the course code, its name, and the
/// display name of its resolved status.
pub struct CourseTable<'a> {
    pub code: &'a str,
    pub name: &'a str,
    pub status: &'a str,
}

} // verus!
