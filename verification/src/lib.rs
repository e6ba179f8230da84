//! Tracks a student's progress through a catalog of courses linked by
//! prerequisites. The library derives each course's eligibility from the
//! catalog and a persisted set of approved codes (the ledger), expands
//! batch requests along the prerequisite graph when asked to cascade, and
//! validates and applies approve/reject batches against a ledger snapshot,
//! all-or-nothing. Loading and storing the catalog and the ledger, and all
//! rendering, belong to the surrounding application.

use vstd::prelude::*;

pub mod cascade;
pub mod courses;
pub mod error;
pub mod table;

verus! {

use crate::cascade::{
    get_cascade_courses, get_required_courses, lemma_push_distinct, trans_requires,
};
use crate::courses::{
    annotate, catalog_has, catalog_wf, contains_code, contains_status, course_at, find_course,
    lemma_course_at_unique, resolve, spec_list, spec_status, status_selected, Course,
    CourseStatus, CourseView,
};
use crate::error::Error;

broadcast use vstd::seq_lib::lemma_seq_contains_after_push;

/// Adds two counters; the caller guarantees the sum fits in a machine word.
pub fn add(left: usize, right: usize) -> (r: usize)
    requires
        left + right <= usize::MAX,
    ensures
        r == left + right,
{
    left + right
}

/// Lists courses with their derived statuses. With a filter, only courses
/// whose resolved status is among the requested ones are returned; every
/// returned course carries its resolved status. The statuses are computed
/// afresh from the catalog and the ledger on every call.
pub fn get_courses(
    catalog: &Vec<Course>,
    approved: &Vec<String>,
    filter: &Option<Vec<CourseStatus>>,
) -> (r: Vec<Course>)
    ensures
        r.deep_view() == spec_list(
            catalog.deep_view(),
            approved.deep_view(),
            filter.deep_view(),
        ),
{
    let ghost cat = catalog.deep_view();
    let ghost led = approved.deep_view();
    let ghost fl = filter.deep_view();
    let mut out: Vec<Course> = Vec::new();
    proof {
        assert(cat.take(0) =~= Seq::<CourseView>::empty());
        assert(out.deep_view() =~= spec_list(cat.take(0), led, fl));
    }
    let mut i: usize = 0;
    while i < catalog.len()
        invariant
            cat == catalog.deep_view(),
            led == approved.deep_view(),
            fl == filter.deep_view(),
            i <= catalog.len(),
            out.deep_view() == spec_list(cat.take(i as int), led, fl),
        decreases catalog.len() - i,
    {
        let ghost next = cat.take(i as int + 1);
        proof {
            assert(next.drop_last() =~= cat.take(i as int));
            assert(next.last() == cat[i as int]);
            assert(cat[i as int] == catalog@[i as int].deep_view());
        }
        let st = resolve(&catalog[i], approved);
        let selected: bool;
        match filter {
            None => {
                selected = true;
            },
            Some(wanted) => {
                selected = contains_status(wanted, st);
                proof {
                    assert(wanted.deep_view() =~= wanted@);
                    assert(fl == Some(wanted.deep_view()));
                }
            },
        }
        proof {
            assert(selected == status_selected(fl, spec_status(cat[i as int], led)));
        }
        let ghost pre_out = out.deep_view();
        if selected {
            let annotated = catalog[i].with_status(st);
            out.push(annotated);
            proof {
                assert(out.deep_view() =~= pre_out.push(annotate(cat[i as int], led)));
            }
        }
        proof {
            assert(spec_list(next, led, fl) == (if status_selected(
                fl,
                spec_status(cat[i as int], led),
            ) {
                spec_list(cat.take(i as int), led, fl).push(annotate(cat[i as int], led))
            } else {
                spec_list(cat.take(i as int), led, fl)
            }));
        }
        i += 1;
    }
    proof {
        assert(cat.take(cat.len() as int) =~= cat);
    }
    out
}

/// The reason, if any, to refuse approving `code` against the ledger
/// snapshot: an unknown code is always refused; without `force`, a code
/// already approved or one whose status still resolves to `Blocked` is
/// refused too.
pub open spec fn approve_code_error(
    catalog: Seq<CourseView>,
    approved: Seq<Seq<char>>,
    code: String,
    force: bool,
) -> Option<Error> {
    if !catalog_has(catalog, code@) {
        Some(Error::UnknownCourse(code))
    } else if !force && approved.contains(code@) {
        Some(Error::AlreadyApproved(code))
    } else if !force && spec_status(course_at(catalog, code@), approved)
        == CourseStatus::Blocked {
        Some(Error::RequirementsNotMet(code))
    } else {
        None
    }
}

/// The error for the first offending code of an approve batch, in input
/// order, validated against one fixed snapshot.
pub open spec fn first_approve_error(
    catalog: Seq<CourseView>,
    approved: Seq<Seq<char>>,
    codes: Seq<String>,
    force: bool,
) -> Option<Error>
    decreases codes.len(),
{
    if codes.len() == 0 {
        None
    } else {
        match approve_code_error(catalog, approved, codes[0], force) {
            Some(e) => Some(e),
            None => first_approve_error(catalog, approved, codes.drop_first(), force),
        }
    }
}

/// The ledger after staging a batch: every code not yet present is appended
/// once, in batch order; the existing ledger order is kept.
pub open spec fn spec_union(approved: Seq<Seq<char>>, codes: Seq<Seq<char>>) -> Seq<Seq<char>>
    decreases codes.len(),
{
    if codes.len() == 0 {
        approved
    } else {
        let prev = spec_union(approved, codes.drop_last());
        if prev.contains(codes.last()) {
            prev
        } else {
            prev.push(codes.last())
        }
    }
}

/// What a non-cascading approve returns: the first violation in input
/// order, or the snapshot united with the whole batch.
pub open spec fn spec_approve(
    catalog: Seq<CourseView>,
    approved: Seq<Seq<char>>,
    codes: Seq<String>,
    force: bool,
) -> Result<Seq<Seq<char>>, Error> {
    match first_approve_error(catalog, approved, codes, force) {
        Some(e) => Err(e),
        None => Ok(spec_union(approved, codes.map_values(|c: String| c@))),
    }
}

/// The reason, if any, to refuse rejecting `code`: without `force`, only a
/// presently approved code may be rejected.
pub open spec fn reject_code_error(
    approved: Seq<Seq<char>>,
    code: String,
    force: bool,
) -> Option<Error> {
    if !force && !approved.contains(code@) {
        Some(Error::NotApproved(code))
    } else {
        None
    }
}

/// The error for the first offending code of a reject batch, in input order.
pub open spec fn first_reject_error(
    approved: Seq<Seq<char>>,
    codes: Seq<String>,
    force: bool,
) -> Option<Error>
    decreases codes.len(),
{
    if codes.len() == 0 {
        None
    } else {
        match reject_code_error(approved, codes[0], force) {
            Some(e) => Some(e),
            None => first_reject_error(approved, codes.drop_first(), force),
        }
    }
}

/// The ledger after removing a set of codes, keeping the remaining order.
pub open spec fn spec_remove(approved: Seq<Seq<char>>, codes: Seq<Seq<char>>) -> Seq<Seq<char>> {
    approved.filter(|s: Seq<char>| !codes.contains(s))
}

/// What a non-cascading reject returns: the first violation in input order,
/// or the snapshot with all batch codes removed.
pub open spec fn spec_reject(
    approved: Seq<Seq<char>>,
    codes: Seq<String>,
    force: bool,
) -> Result<Seq<Seq<char>>, Error> {
    match first_reject_error(approved, codes, force) {
        Some(e) => Err(e),
        None => Ok(spec_remove(approved, codes.map_values(|c: String| c@))),
    }
}

/// A code is in the united ledger exactly when it was approved or staged.
pub proof fn lemma_union_membership(approved: Seq<Seq<char>>, codes: Seq<Seq<char>>)
    ensures
        forall|s: Seq<char>| #[trigger]
            spec_union(approved, codes).contains(s) <==> approved.contains(s) || codes.contains(
                s,
            ),
    decreases codes.len(),
{
    if codes.len() == 0 {
    } else {
        lemma_union_membership(approved, codes.drop_last());
        assert(codes =~= codes.drop_last().push(codes.last()));
        assert forall|s: Seq<char>| #[trigger]
            spec_union(approved, codes).contains(s) <==> approved.contains(s) || codes.contains(
                s,
            ) by {
            let prev = spec_union(approved, codes.drop_last());
            assert(codes.drop_last().push(codes.last()).contains(s) == codes.contains(s));
            if !prev.contains(codes.last()) {
                assert(prev.push(codes.last()).contains(s) <==> codes.last() == s
                    || prev.contains(s));
            }
        }
    }
}

/// The united ledger starts with the old ledger unchanged.
pub proof fn lemma_union_prefix(approved: Seq<Seq<char>>, codes: Seq<Seq<char>>)
    ensures
        approved.is_prefix_of(spec_union(approved, codes)),
    decreases codes.len(),
{
    if codes.len() == 0 {
        assert(approved =~= spec_union(approved, codes).subrange(0, approved.len() as int));
    } else {
        lemma_union_prefix(approved, codes.drop_last());
        let prev = spec_union(approved, codes.drop_last());
        if !prev.contains(codes.last()) {
            assert(approved =~= prev.push(codes.last()).subrange(0, approved.len() as int));
        }
    }
}

/// Uniting keeps a duplicate-free ledger duplicate-free.
pub proof fn lemma_union_distinct(approved: Seq<Seq<char>>, codes: Seq<Seq<char>>)
    requires
        approved.no_duplicates(),
    ensures
        spec_union(approved, codes).no_duplicates(),
    decreases codes.len(),
{
    if codes.len() > 0 {
        lemma_union_distinct(approved, codes.drop_last());
        let prev = spec_union(approved, codes.drop_last());
        if !prev.contains(codes.last()) {
            lemma_push_distinct(prev, codes.last());
        }
    }
}

/// With `force`, an approve batch whose codes all name catalog entries
/// validates as a whole.
pub proof fn lemma_known_codes_approve(
    catalog: Seq<CourseView>,
    approved: Seq<Seq<char>>,
    codes: Seq<String>,
)
    requires
        forall|k: int| 0 <= k < codes.len() ==> catalog_has(catalog, #[trigger] codes[k]@),
    ensures
        first_approve_error(catalog, approved, codes, true) is None,
    decreases codes.len(),
{
    if codes.len() > 0 {
        assert(approve_code_error(catalog, approved, codes[0], true) is None);
        assert(forall|k: int|
            0 <= k < codes.drop_first().len() ==> catalog_has(
                catalog,
                #[trigger] codes.drop_first()[k]@,
            ));
        lemma_known_codes_approve(catalog, approved, codes.drop_first());
    }
}

/// A reject batch validates as a whole when `force` is set or every batch
/// code is presently approved.
pub proof fn lemma_approved_codes_reject(
    approved: Seq<Seq<char>>,
    codes: Seq<String>,
    force: bool,
)
    requires
        forall|k: int| 0 <= k < codes.len() ==> force || approved.contains(#[trigger] codes[k]@),
    ensures
        first_reject_error(approved, codes, force) is None,
    decreases codes.len(),
{
    if codes.len() > 0 {
        assert(reject_code_error(approved, codes[0], force) is None);
        assert(forall|k: int|
            0 <= k < codes.drop_first().len() ==> force || approved.contains(
                #[trigger] codes.drop_first()[k]@,
            ));
        lemma_approved_codes_reject(approved, codes.drop_first(), force);
    }
}

/// `force` suppresses policy errors but never `UnknownCourse`: a batch
/// holding an unknown code always fails, and with `force` the failure names
/// the first unknown code of the batch.
pub proof fn lemma_force_cannot_mask_unknown(
    catalog: Seq<CourseView>,
    approved: Seq<Seq<char>>,
    codes: Seq<String>,
    force: bool,
    k: int,
)
    requires
        0 <= k < codes.len(),
        !catalog_has(catalog, codes[k]@),
        forall|j: int| 0 <= j < k ==> catalog_has(catalog, #[trigger] codes[j]@),
    ensures
        spec_approve(catalog, approved, codes, force) is Err,
        force ==> spec_approve(catalog, approved, codes, force) == Err::<Seq<Seq<char>>, Error>(
            Error::UnknownCourse(codes[k]),
        ),
    decreases k,
{
    if k == 0 {
        assert(approve_code_error(catalog, approved, codes[0], force) == Some(
            Error::UnknownCourse(codes[0]),
        ));
    } else {
        match approve_code_error(catalog, approved, codes[0], force) {
            Some(e) => {},
            None => {
                assert(codes.drop_first()[k - 1] == codes[k]);
                assert(forall|j: int|
                    0 <= j < k - 1 ==> catalog_has(catalog, #[trigger] codes.drop_first()[j]@));
                lemma_force_cannot_mask_unknown(
                    catalog,
                    approved,
                    codes.drop_first(),
                    force,
                    k - 1,
                );
            },
        }
    }
}

/// Approving one course with `force` is idempotent: a second identical call
/// leaves the ledger exactly as the first call left it.
pub proof fn lemma_approve_idempotent(
    catalog: Seq<CourseView>,
    approved: Seq<Seq<char>>,
    code: String,
)
    ensures
        spec_approve(catalog, approved, seq![code], true) matches Ok(nl) ==> spec_approve(
            catalog,
            nl,
            seq![code],
            true,
        ) == Ok::<Seq<Seq<char>>, Error>(nl),
{
    let codes = seq![code];
    if catalog_has(catalog, code@) {
        let cv = codes.map_values(|c: String| c@);
        assert(cv =~= seq![code@]);
        assert(cv.drop_last() =~= Seq::<Seq<char>>::empty());
        assert(spec_union(approved, cv.drop_last()) == approved);
        let nl = spec_union(approved, cv);
        if approved.contains(code@) {
            assert(nl == approved);
            assert(nl.contains(code@));
        } else {
            assert(nl == approved.push(code@));
            assert(nl.contains(code@));
        }
        assert(spec_union(nl, cv.drop_last()) == nl);
        assert(spec_union(nl, cv) == nl);
        assert(approve_code_error(catalog, nl, codes[0], true) is None);
        assert(codes.drop_first().len() == 0);
        assert(first_approve_error(catalog, nl, codes.drop_first(), true) is None);
        assert(first_approve_error(catalog, nl, codes, true) is None);
    }
}

/// A code belongs to the cascade-approve expansion of the first `i` batch
/// codes: it is one of them, or a catalog course that one of them
/// transitively requires and that is not yet approved.
pub open spec fn approve_expansion_covers(
    catalog: Seq<CourseView>,
    approved: Seq<Seq<char>>,
    codes: Seq<String>,
    i: int,
    x: Seq<char>,
) -> bool {
    (exists|k: int| 0 <= k < i && codes[k]@ == x) || (exists|k: int|
        0 <= k < i && catalog_has(catalog, x) && !approved.contains(x) && trans_requires(
            catalog,
            codes[k]@,
            x,
        ))
}

/// A code belongs to the cascade-reject expansion of the first `i` batch
/// codes: it is one of them, or an approved course that transitively
/// requires one of them.
pub open spec fn reject_expansion_covers(
    catalog: Seq<CourseView>,
    approved: Seq<Seq<char>>,
    codes: Seq<String>,
    i: int,
    x: Seq<char>,
) -> bool {
    (exists|k: int| 0 <= k < i && codes[k]@ == x) || (exists|k: int|
        0 <= k < i && approved.contains(x) && trans_requires(catalog, x, codes[k]@))
}

/// The part of a code list that survives a cascade reject: every element
/// that is neither requested nor an approved descendant of a request.
pub open spec fn spec_cascade_survivors(
    catalog: Seq<CourseView>,
    approved: Seq<Seq<char>>,
    codes: Seq<String>,
    s: Seq<Seq<char>>,
) -> Seq<Seq<char>> {
    s.filter(
        |x: Seq<char>| !reject_expansion_covers(catalog, approved, codes, codes.len() as int, x),
    )
}

/// The ledger a cascade reject leaves behind.
pub open spec fn spec_cascade_reject(
    catalog: Seq<CourseView>,
    approved: Seq<Seq<char>>,
    codes: Seq<String>,
) -> Seq<Seq<char>> {
    spec_cascade_survivors(catalog, approved, codes, approved)
}

/// Removing a code list from a ledger coincides with keeping the cascade
/// survivors whenever the list selects exactly the covered ledger codes.
proof fn lemma_remove_matches_cascade(
    catalog: Seq<CourseView>,
    approved: Seq<Seq<char>>,
    codes: Seq<String>,
    exp: Seq<Seq<char>>,
    s: Seq<Seq<char>>,
)
    requires
        forall|x: Seq<char>| #[trigger]
            s.contains(x) ==> (exp.contains(x) <==> reject_expansion_covers(
                catalog,
                approved,
                codes,
                codes.len() as int,
                x,
            )),
    ensures
        spec_remove(s, exp) == spec_cascade_survivors(catalog, approved, codes, s),
    decreases s.len(),
{
    reveal(Seq::filter);
    if s.len() > 0 {
        assert forall|x: Seq<char>| #[trigger] s.drop_last().contains(x) implies s.contains(
            x,
        ) by {
            let ii = choose|ii: int| 0 <= ii < s.drop_last().len() && s.drop_last()[ii] == x;
            assert(s[ii] == x);
        }
        lemma_remove_matches_cascade(catalog, approved, codes, exp, s.drop_last());
        assert(s.contains(s.last()));
    }
}

/// Validates an approve batch against the ledger snapshot, in input order,
/// and on success unites the staged codes into the ledger.
fn approve_batch(
    catalog: &Vec<Course>,
    approved: &Vec<String>,
    codes: &Vec<String>,
    force: bool,
) -> (r: Result<Vec<String>, Error>)
    requires
        catalog_wf(catalog.deep_view()),
    ensures
        match r {
            Ok(nl) => spec_approve(catalog.deep_view(), approved.deep_view(), codes@, force)
                == Ok::<Seq<Seq<char>>, Error>(nl.deep_view()),
            Err(e) => spec_approve(catalog.deep_view(), approved.deep_view(), codes@, force)
                == Err::<Seq<Seq<char>>, Error>(e),
        },
{
    let ghost cat = catalog.deep_view();
    let ghost led = approved.deep_view();
    proof {
        assert(codes@.skip(0) =~= codes@);
    }
    let mut i: usize = 0;
    while i < codes.len()
        invariant
            cat == catalog.deep_view(),
            led == approved.deep_view(),
            catalog_wf(cat),
            i <= codes.len(),
            first_approve_error(cat, led, codes@, force) == first_approve_error(
                cat,
                led,
                codes@.skip(i as int),
                force,
            ),
        decreases codes.len() - i,
    {
        let ghost pre = codes@.skip(i as int);
        proof {
            assert(pre.len() > 0);
            assert(pre[0] == codes@[i as int]);
            assert(pre.drop_first() =~= codes@.skip(i as int + 1));
        }
        match find_course(catalog, &codes[i]) {
            None => {
                proof {
                    assert(approve_code_error(cat, led, codes@[i as int], force) == Some(
                        Error::UnknownCourse(codes@[i as int]),
                    ));
                }
                return Err(Error::UnknownCourse(codes[i].clone()));
            },
            Some(idx) => {
                proof {
                    assert(cat[idx as int].code == codes@[i as int]@);
                    assert(catalog_has(cat, codes@[i as int]@));
                }
                if !force {
                    if contains_code(approved, &codes[i]) {
                        proof {
                            assert(approve_code_error(cat, led, codes@[i as int], force) == Some(
                                Error::AlreadyApproved(codes@[i as int]),
                            ));
                        }
                        return Err(Error::AlreadyApproved(codes[i].clone()));
                    }
                    let st = resolve(&catalog[idx], approved);
                    proof {
                        lemma_course_at_unique(cat, idx as int, codes@[i as int]@);
                        assert(cat[idx as int] == catalog@[idx as int].deep_view());
                        assert(st == spec_status(course_at(cat, codes@[i as int]@), led));
                    }
                    if st == CourseStatus::Blocked {
                        proof {
                            assert(approve_code_error(cat, led, codes@[i as int], force) == Some(
                                Error::RequirementsNotMet(codes@[i as int]),
                            ));
                        }
                        return Err(Error::RequirementsNotMet(codes[i].clone()));
                    }
                }
            },
        }
        proof {
            assert(approve_code_error(cat, led, codes@[i as int], force) is None);
            assert(first_approve_error(cat, led, pre, force) == first_approve_error(
                cat,
                led,
                pre.drop_first(),
                force,
            ));
        }
        i += 1;
    }
    proof {
        assert(codes@.skip(codes@.len() as int).len() == 0);
        assert(first_approve_error(cat, led, codes@, force) is None);
    }
    let mut out: Vec<String> = approved.clone();
    proof {
        assert(out.deep_view() == led);
        assert(codes.deep_view().take(0) =~= Seq::<Seq<char>>::empty());
        assert(spec_union(led, codes.deep_view().take(0)) == led);
    }
    let mut t: usize = 0;
    while t < codes.len()
        invariant
            led == approved.deep_view(),
            t <= codes.len(),
            codes.deep_view().len() == codes@.len(),
            out.deep_view() == spec_union(led, codes.deep_view().take(t as int)),
        decreases codes.len() - t,
    {
        let ghost next = codes.deep_view().take(t as int + 1);
        proof {
            assert(next.drop_last() =~= codes.deep_view().take(t as int));
            assert(next.last() == codes.deep_view()[t as int]);
            assert(codes.deep_view()[t as int] == codes@[t as int]@);
        }
        let ghost pre_out = out.deep_view();
        if !contains_code(&out, &codes[t]) {
            out.push(codes[t].clone());
            proof {
                assert(out.deep_view() =~= pre_out.push(codes.deep_view()[t as int]));
            }
        }
        t += 1;
    }
    proof {
        assert(codes.deep_view().take(codes.deep_view().len() as int) =~= codes.deep_view());
        assert(codes.deep_view() =~= codes@.map_values(|c: String| c@));
    }
    Ok(out)
}

/// Validates a reject batch against the ledger snapshot, in input order, and
/// on success removes all batch codes from the ledger.
fn reject_batch(approved: &Vec<String>, codes: &Vec<String>, force: bool) -> (r: Result<
    Vec<String>,
    Error,
>)
    ensures
        match r {
            Ok(nl) => spec_reject(approved.deep_view(), codes@, force) == Ok::<
                Seq<Seq<char>>,
                Error,
            >(nl.deep_view()),
            Err(e) => spec_reject(approved.deep_view(), codes@, force) == Err::<
                Seq<Seq<char>>,
                Error,
            >(e),
        },
{
    let ghost led = approved.deep_view();
    proof {
        assert(codes@.skip(0) =~= codes@);
    }
    let mut i: usize = 0;
    while i < codes.len()
        invariant
            led == approved.deep_view(),
            i <= codes.len(),
            first_reject_error(led, codes@, force) == first_reject_error(
                led,
                codes@.skip(i as int),
                force,
            ),
        decreases codes.len() - i,
    {
        let ghost pre = codes@.skip(i as int);
        proof {
            assert(pre.len() > 0);
            assert(pre[0] == codes@[i as int]);
            assert(pre.drop_first() =~= codes@.skip(i as int + 1));
        }
        if !force {
            if !contains_code(approved, &codes[i]) {
                proof {
                    assert(reject_code_error(led, codes@[i as int], force) == Some(
                        Error::NotApproved(codes@[i as int]),
                    ));
                }
                return Err(Error::NotApproved(codes[i].clone()));
            }
        }
        proof {
            assert(reject_code_error(led, codes@[i as int], force) is None);
            assert(first_reject_error(led, pre, force) == first_reject_error(
                led,
                pre.drop_first(),
                force,
            ));
        }
        i += 1;
    }
    proof {
        assert(codes@.skip(codes@.len() as int).len() == 0);
        assert(first_reject_error(led, codes@, force) is None);
    }
    let mut out: Vec<String> = Vec::new();
    proof {
        assert(led.take(0) =~= Seq::<Seq<char>>::empty());
        assert(spec_remove(led.take(0), codes.deep_view()) == led.take(0));
        assert(out.deep_view() =~= led.take(0));
    }
    let mut t: usize = 0;
    while t < approved.len()
        invariant
            led == approved.deep_view(),
            t <= approved.len(),
            led.len() == approved@.len(),
            out.deep_view() == spec_remove(led.take(t as int), codes.deep_view()),
        decreases approved.len() - t,
    {
        let ghost next = led.take(t as int + 1);
        proof {
            assert(next.drop_last() =~= led.take(t as int));
            assert(next.last() == led[t as int]);
            assert(led[t as int] == approved@[t as int]@);
        }
        let ghost pre_out = out.deep_view();
        if !contains_code(codes, &approved[t]) {
            out.push(approved[t].clone());
            proof {
                assert(out.deep_view() =~= pre_out.push(led[t as int]));
            }
        }
        proof {
            reveal(Seq::filter);
            assert(spec_remove(next, codes.deep_view()) == (if !codes.deep_view().contains(
                next.last(),
            ) {
                spec_remove(led.take(t as int), codes.deep_view()).push(next.last())
            } else {
                spec_remove(led.take(t as int), codes.deep_view())
            }));
        }
        t += 1;
    }
    proof {
        assert(led.take(led.len() as int) =~= led);
        assert(codes.deep_view() =~= codes@.map_values(|c: String| c@));
    }
    Ok(out)
}

/// Approves a batch of course codes against a ledger snapshot and returns
/// the new ledger. Without `cascade`, each code is validated against the
/// snapshot in input order and the first violation aborts the batch. With
/// `cascade`, the batch is first enlarged with every catalog course a
/// requested course transitively requires, and the enlarged batch is applied
/// as a forced non-cascading approve; an unknown requested code still aborts
/// the whole batch.
pub fn approve_courses(
    catalog: &Vec<Course>,
    approved: &Vec<String>,
    codes: &Vec<String>,
    cascade: bool,
    force: bool,
) -> (r: Result<Vec<String>, Error>)
    requires
        catalog_wf(catalog.deep_view()),
    ensures
        !cascade ==> match r {
            Ok(nl) => spec_approve(catalog.deep_view(), approved.deep_view(), codes@, force)
                == Ok::<Seq<Seq<char>>, Error>(nl.deep_view()),
            Err(e) => spec_approve(catalog.deep_view(), approved.deep_view(), codes@, force)
                == Err::<Seq<Seq<char>>, Error>(e),
        },
        cascade ==> match r {
            Ok(nl) => {
                &&& forall|k: int|
                    0 <= k < codes@.len() ==> catalog_has(
                        catalog.deep_view(),
                        #[trigger] codes@[k]@,
                    )
                &&& approved.deep_view().is_prefix_of(nl.deep_view())
                &&& (approved.deep_view().no_duplicates() ==> nl.deep_view().no_duplicates())
                &&& forall|s: Seq<char>|
                    #[trigger] nl.deep_view().contains(s) <==> approved.deep_view().contains(s)
                        || approve_expansion_covers(
                        catalog.deep_view(),
                        approved.deep_view(),
                        codes@,
                        codes@.len() as int,
                        s,
                    )
            },
            Err(e) => exists|k: int|
                0 <= k < codes@.len() && !catalog_has(catalog.deep_view(), #[trigger] codes@[k]@)
                    && e == Error::UnknownCourse(codes@[k]) && (forall|j: int|
                    0 <= j < k ==> catalog_has(catalog.deep_view(), #[trigger] codes@[j]@)),
        },
{
    if cascade {
        let ghost cat = catalog.deep_view();
        let ghost led = approved.deep_view();
        let mut expanded: Vec<String> = Vec::new();
        let mut i: usize = 0;
        while i < codes.len()
            invariant
                cascade,
                cat == catalog.deep_view(),
                led == approved.deep_view(),
                catalog_wf(cat),
                i <= codes.len(),
                forall|k: int| 0 <= k < i ==> catalog_has(cat, #[trigger] codes@[k]@),
                forall|x: Seq<char>| #[trigger]
                    expanded.deep_view().contains(x) <==> approve_expansion_covers(
                        cat,
                        led,
                        codes@,
                        i as int,
                        x,
                    ),
                forall|x: Seq<char>| #[trigger]
                    expanded.deep_view().contains(x) ==> catalog_has(cat, x),
            decreases codes.len() - i,
        {
            match find_course(catalog, &codes[i]) {
                None => {
                    proof {
                        assert(!catalog_has(cat, codes@[i as int]@));
                    }
                    return Err(Error::UnknownCourse(codes[i].clone()));
                },
                Some(idx) => {
                    proof {
                        assert(cat[idx as int].code == codes@[i as int]@);
                        assert(catalog_has(cat, codes@[i as int]@));
                        assert(cat[idx as int] == catalog@[idx as int].deep_view());
                    }
                    let ghost pre = expanded.deep_view();
                    if !contains_code(&expanded, &codes[i]) {
                        expanded.push(codes[i].clone());
                        proof {
                            assert(expanded.deep_view() =~= pre.push(codes@[i as int]@));
                        }
                    }
                    proof {
                        assert(expanded.deep_view().contains(codes@[i as int]@));
                        assert forall|x: Seq<char>| #[trigger]
                            expanded.deep_view().contains(x) implies approve_expansion_covers(
                            cat,
                            led,
                            codes@,
                            i as int + 1,
                            x,
                        ) && catalog_has(cat, x) by {
                            if pre.contains(x) {
                            } else {
                                assert(x == codes@[i as int]@);
                            }
                        }
                    }
                    let anc = get_required_courses(&catalog[idx], catalog);
                    let mut t: usize = 0;
                    while t < anc.len()
                        invariant
                            cat == catalog.deep_view(),
                            led == approved.deep_view(),
                            catalog_wf(cat),
                            i < codes.len(),
                            t <= anc.len(),
                            forall|b: Seq<char>| #[trigger]
                                anc.deep_view().contains(b) ==> catalog_has(cat, b)
                                    && trans_requires(cat, codes@[i as int]@, b),
                            forall|b: Seq<char>|
                                catalog_has(cat, b) && #[trigger] trans_requires(
                                    cat,
                                    codes@[i as int]@,
                                    b,
                                ) ==> anc.deep_view().contains(b),
                            forall|x: Seq<char>| #[trigger]
                                expanded.deep_view().contains(x) ==> approve_expansion_covers(
                                    cat,
                                    led,
                                    codes@,
                                    i as int + 1,
                                    x,
                                ),
                            forall|x: Seq<char>|
                                approve_expansion_covers(cat, led, codes@, i as int, x)
                                    ==> expanded.deep_view().contains(x),
                            expanded.deep_view().contains(codes@[i as int]@),
                            forall|tt: int|
                                0 <= tt < t && !led.contains(anc.deep_view()[tt])
                                    ==> expanded.deep_view().contains(
                                    #[trigger] anc.deep_view()[tt],
                                ),
                            forall|x: Seq<char>| #[trigger]
                                expanded.deep_view().contains(x) ==> catalog_has(cat, x),
                        decreases anc.len() - t,
                    {
                        let ghost pre2 = expanded.deep_view();
                        if !contains_code(approved, &anc[t]) {
                            if !contains_code(&expanded, &anc[t]) {
                                expanded.push(anc[t].clone());
                                proof {
                                    assert(expanded.deep_view() =~= pre2.push(
                                        anc.deep_view()[t as int],
                                    ));
                                    assert(anc.deep_view().contains(anc.deep_view()[t as int]));
                                }
                            }
                        }
                        proof {
                            assert(anc.deep_view().contains(anc.deep_view()[t as int]));
                        }
                        t += 1;
                    }
                    proof {
                        assert forall|x: Seq<char>|
                            approve_expansion_covers(
                                cat,
                                led,
                                codes@,
                                i as int + 1,
                                x,
                            ) implies expanded.deep_view().contains(x) by {
                            if approve_expansion_covers(cat, led, codes@, i as int, x) {
                            } else if x == codes@[i as int]@ {
                            } else {
                                assert(catalog_has(cat, x) && !led.contains(x) && trans_requires(
                                    cat,
                                    codes@[i as int]@,
                                    x,
                                ));
                                assert(anc.deep_view().contains(x));
                                let tt = choose|tt: int|
                                    0 <= tt < anc.deep_view().len() && anc.deep_view()[tt] == x;
                                assert(expanded.deep_view().contains(anc.deep_view()[tt]));
                            }
                        }
                    }
                },
            }
            i += 1;
        }
        proof {
            assert forall|k: int| 0 <= k < expanded@.len() implies catalog_has(
                cat,
                #[trigger] expanded@[k]@,
            ) by {
                assert(expanded.deep_view()[k] == expanded@[k]@);
                assert(expanded.deep_view().contains(expanded.deep_view()[k]));
            }
            lemma_known_codes_approve(cat, led, expanded@);
            lemma_union_membership(led, expanded.deep_view());
            lemma_union_prefix(led, expanded.deep_view());
            if led.no_duplicates() {
                lemma_union_distinct(led, expanded.deep_view());
            }
            assert(expanded.deep_view() =~= expanded@.map_values(|c: String| c@));
        }
        approve_batch(catalog, approved, &expanded, true)
    } else {
        approve_batch(catalog, approved, codes, force)
    }
}

/// Rejects a batch of course codes against a ledger snapshot and returns
/// the new ledger. Without `force`, the first requested code not presently
/// approved aborts the batch. With `cascade`, every approved course that
/// transitively requires a requested course is removed together with it.
pub fn reject_courses(
    catalog: &Vec<Course>,
    approved: &Vec<String>,
    codes: &Vec<String>,
    cascade: bool,
    force: bool,
) -> (r: Result<Vec<String>, Error>)
    requires
        catalog_wf(catalog.deep_view()),
    ensures
        !cascade ==> match r {
            Ok(nl) => spec_reject(approved.deep_view(), codes@, force) == Ok::<
                Seq<Seq<char>>,
                Error,
            >(nl.deep_view()),
            Err(e) => spec_reject(approved.deep_view(), codes@, force) == Err::<
                Seq<Seq<char>>,
                Error,
            >(e),
        },
        cascade ==> match r {
            Ok(nl) => {
                &&& (force || forall|k: int|
                    0 <= k < codes@.len() ==> approved.deep_view().contains(
                        #[trigger] codes@[k]@,
                    ))
                &&& nl.deep_view() == spec_cascade_reject(
                    catalog.deep_view(),
                    approved.deep_view(),
                    codes@,
                )
            },
            Err(e) => {
                &&& !force
                &&& exists|k: int|
                    0 <= k < codes@.len() && !approved.deep_view().contains(
                        #[trigger] codes@[k]@,
                    ) && e == Error::NotApproved(codes@[k]) && (forall|j: int|
                        0 <= j < k ==> approved.deep_view().contains(#[trigger] codes@[j]@))
            },
        },
{
    if cascade {
        let ghost cat = catalog.deep_view();
        let ghost led = approved.deep_view();
        if !force {
            let mut v: usize = 0;
            while v < codes.len()
                invariant
                    cascade,
                    !force,
                    led == approved.deep_view(),
                    v <= codes.len(),
                    forall|k: int| 0 <= k < v ==> led.contains(#[trigger] codes@[k]@),
                decreases codes.len() - v,
            {
                if !contains_code(approved, &codes[v]) {
                    proof {
                        assert(!led.contains(codes@[v as int]@));
                    }
                    return Err(Error::NotApproved(codes[v].clone()));
                }
                v += 1;
            }
        }
        let mut expanded: Vec<String> = Vec::new();
        let mut i: usize = 0;
        while i < codes.len()
            invariant
                cat == catalog.deep_view(),
                led == approved.deep_view(),
                catalog_wf(cat),
                i <= codes.len(),
                force || forall|k: int|
                    0 <= k < codes@.len() ==> led.contains(#[trigger] codes@[k]@),
                forall|x: Seq<char>| #[trigger]
                    expanded.deep_view().contains(x) <==> reject_expansion_covers(
                        cat,
                        led,
                        codes@,
                        i as int,
                        x,
                    ),
                forall|x: Seq<char>| #[trigger]
                    expanded.deep_view().contains(x) ==> force || led.contains(x),
            decreases codes.len() - i,
        {
            let ghost pre = expanded.deep_view();
            if !contains_code(&expanded, &codes[i]) {
                expanded.push(codes[i].clone());
                proof {
                    assert(expanded.deep_view() =~= pre.push(codes@[i as int]@));
                }
            }
            proof {
                assert(expanded.deep_view().contains(codes@[i as int]@));
                assert forall|x: Seq<char>| #[trigger]
                    expanded.deep_view().contains(x) implies reject_expansion_covers(
                    cat,
                    led,
                    codes@,
                    i as int + 1,
                    x,
                ) && (force || led.contains(x)) by {
                    if pre.contains(x) {
                    } else {
                        assert(x == codes@[i as int]@);
                    }
                }
            }
            let desc = get_cascade_courses(&codes[i], catalog);
            let mut t: usize = 0;
            while t < desc.len()
                invariant
                    cat == catalog.deep_view(),
                    led == approved.deep_view(),
                    catalog_wf(cat),
                    i < codes.len(),
                    t <= desc.len(),
                    force || forall|k: int|
                        0 <= k < codes@.len() ==> led.contains(#[trigger] codes@[k]@),
                    forall|b: Seq<char>| #[trigger]
                        desc.deep_view().contains(b) ==> trans_requires(cat, b, codes@[i as int]@),
                    forall|b: Seq<char>| #[trigger]
                        trans_requires(cat, b, codes@[i as int]@) ==> desc.deep_view().contains(b),
                    forall|x: Seq<char>| #[trigger]
                        expanded.deep_view().contains(x) ==> reject_expansion_covers(
                            cat,
                            led,
                            codes@,
                            i as int + 1,
                            x,
                        ),
                    forall|x: Seq<char>|
                        reject_expansion_covers(cat, led, codes@, i as int, x)
                            ==> expanded.deep_view().contains(x),
                    expanded.deep_view().contains(codes@[i as int]@),
                    forall|tt: int|
                        0 <= tt < t && led.contains(desc.deep_view()[tt])
                            ==> expanded.deep_view().contains(#[trigger] desc.deep_view()[tt]),
                    forall|x: Seq<char>| #[trigger]
                        expanded.deep_view().contains(x) ==> force || led.contains(x),
                decreases desc.len() - t,
            {
                let ghost pre2 = expanded.deep_view();
                if contains_code(approved, &desc[t]) {
                    if !contains_code(&expanded, &desc[t]) {
                        expanded.push(desc[t].clone());
                        proof {
                            assert(expanded.deep_view() =~= pre2.push(desc.deep_view()[t as int]));
                            assert(desc.deep_view().contains(desc.deep_view()[t as int]));
                        }
                    }
                }
                proof {
                    assert(desc.deep_view().contains(desc.deep_view()[t as int]));
                }
                t += 1;
            }
            proof {
                assert forall|x: Seq<char>|
                    reject_expansion_covers(
                        cat,
                        led,
                        codes@,
                        i as int + 1,
                        x,
                    ) implies expanded.deep_view().contains(x) by {
                    if reject_expansion_covers(cat, led, codes@, i as int, x) {
                    } else if x == codes@[i as int]@ {
                    } else {
                        assert(led.contains(x) && trans_requires(cat, x, codes@[i as int]@));
                        assert(desc.deep_view().contains(x));
                        let tt = choose|tt: int|
                            0 <= tt < desc.deep_view().len() && desc.deep_view()[tt] == x;
                        assert(expanded.deep_view().contains(desc.deep_view()[tt]));
                    }
                }
            }
            i += 1;
        }
        proof {
            assert forall|k: int| 0 <= k < expanded@.len() implies force || led.contains(
                #[trigger] expanded@[k]@,
            ) by {
                assert(expanded.deep_view()[k] == expanded@[k]@);
                assert(expanded.deep_view().contains(expanded.deep_view()[k]));
            }
            lemma_approved_codes_reject(led, expanded@, force);
            assert(expanded.deep_view() =~= expanded@.map_values(|c: String| c@));
            lemma_remove_matches_cascade(cat, led, codes@, expanded.deep_view(), led);
        }
        reject_batch(approved, &expanded, force)
    } else {
        reject_batch(approved, codes, force)
    }
}

} // verus!
