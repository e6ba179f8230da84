use vstd::prelude::*;

use crate::courses::{catalog_has, catalog_wf, contains_code, find_course, Course, CourseView};

verus! {

/// The catalog entry carrying code `d` lists `r` among its direct
/// requirements.
pub open spec fn depends_on(catalog: Seq<CourseView>, d: Seq<char>, r: Seq<char>) -> bool {
    exists|i: int|
        0 <= i < catalog.len() && catalog[i].code == d && catalog[i].requirements.contains(r)
}

/// A chain of `n + 1` requirement edges leads from `a` down to `b`.
pub open spec fn requires_path(
    catalog: Seq<CourseView>,
    a: Seq<char>,
    b: Seq<char>,
    n: nat,
) -> bool
    decreases n,
{
    if n == 0 {
        depends_on(catalog, a, b)
    } else {
        exists|m: Seq<char>|
            depends_on(catalog, a, m) && requires_path(catalog, m, b, (n - 1) as nat)
    }
}

/// `a` transitively requires `b`: some chain of requirement edges leads from
/// `a` to `b`. Read the other way round, `a` is then a descendant of `b`.
pub open spec fn trans_requires(catalog: Seq<CourseView>, a: Seq<char>, b: Seq<char>) -> bool {
    exists|n: nat| requires_path(catalog, a, b, n)
}

/// The first course of a requirement chain is a catalog entry.
proof fn lemma_path_head_in_catalog(catalog: Seq<CourseView>, a: Seq<char>, b: Seq<char>, n: nat)
    requires
        requires_path(catalog, a, b, n),
    ensures
        catalog_has(catalog, a),
{
    if n == 0 {
        let i = choose|i: int|
            0 <= i < catalog.len() && catalog[i].code == a && catalog[i].requirements.contains(b);
        assert(0 <= i < catalog.len() && catalog[i].code == a);
    } else {
        let m = choose|m: Seq<char>|
            depends_on(catalog, a, m) && requires_path(catalog, m, b, (n - 1) as nat);
        let i = choose|i: int|
            0 <= i < catalog.len() && catalog[i].code == a && catalog[i].requirements.contains(m);
        assert(0 <= i < catalog.len() && catalog[i].code == a);
    }
}

/// Appending one requirement edge to the end of a chain keeps it a chain.
proof fn lemma_path_extend(
    catalog: Seq<CourseView>,
    a: Seq<char>,
    m: Seq<char>,
    b: Seq<char>,
    n: nat,
)
    requires
        requires_path(catalog, a, m, n),
        depends_on(catalog, m, b),
    ensures
        requires_path(catalog, a, b, (n + 1) as nat),
    decreases n,
{
    if n == 0 {
        assert(requires_path(catalog, m, b, 0));
        assert(depends_on(catalog, a, m) && requires_path(catalog, m, b, 0));
    } else {
        let m1 = choose|m1: Seq<char>|
            depends_on(catalog, a, m1) && requires_path(catalog, m1, m, (n - 1) as nat);
        lemma_path_extend(catalog, m1, m, b, (n - 1) as nat);
        assert(depends_on(catalog, a, m1) && requires_path(catalog, m1, b, n));
    }
}

/// A course reached transitively still transitively reaches each of its own
/// direct requirements.
proof fn lemma_trans_extend(catalog: Seq<CourseView>, a: Seq<char>, m: Seq<char>, b: Seq<char>)
    requires
        trans_requires(catalog, a, m),
        depends_on(catalog, m, b),
    ensures
        trans_requires(catalog, a, b),
{
    let n = choose|n: nat| requires_path(catalog, a, m, n);
    lemma_path_extend(catalog, a, m, b, n);
}

/// A duplicate-free list of codes, all of them catalog keys, is no longer
/// than the catalog itself.
proof fn lemma_distinct_codes_bound(codes: Seq<Seq<char>>, catalog: Seq<CourseView>)
    requires
        codes.no_duplicates(),
        forall|i: int| 0 <= i < codes.len() ==> catalog_has(catalog, #[trigger] codes[i]),
    ensures
        codes.len() <= catalog.len(),
{
    broadcast use vstd::seq_lib::seq_to_set_is_finite;

    let cat_codes = catalog.map_values(|c: CourseView| c.code);
    codes.unique_seq_to_set();
    cat_codes.lemma_cardinality_of_set();
    assert forall|x: Seq<char>| codes.to_set().contains(x) implies cat_codes.to_set().contains(
        x,
    ) by {
        let j = choose|j: int| 0 <= j < catalog.len() && catalog[j].code == x;
        assert(cat_codes[j] == x);
        assert(cat_codes.contains(x));
    }
    assert(codes.to_set().subset_of(cat_codes.to_set()));
    vstd::set_lib::lemma_len_subset(codes.to_set(), cat_codes.to_set());
}

/// Pushing a fresh element onto a duplicate-free sequence keeps it
/// duplicate-free.
pub(crate) proof fn lemma_push_distinct(s: Seq<Seq<char>>, x: Seq<char>)
    requires
        s.no_duplicates(),
        !s.contains(x),
    ensures
        s.push(x).no_duplicates(),
{
    let t = s.push(x);
    assert forall|i: int, j: int| 0 <= i < j < t.len() implies t[i] != t[j] by {
        if j < s.len() {
        } else {
            assert(t[j] == x);
            if t[i] == x {
                assert(s[i] == x);
                assert(s.contains(x));
            }
        }
    }
}

/// Any catalog course reachable from a collected course (or from the start)
/// already lies in a set that is closed under requirement edges.
proof fn lemma_ancestors_complete(
    catalog: Seq<CourseView>,
    start: Seq<char>,
    res: Seq<Seq<char>>,
    a: Seq<char>,
    b: Seq<char>,
    n: nat,
)
    requires
        forall|j: int, k: int|
            0 <= j < catalog.len() && (catalog[j].code == start || res.contains(catalog[j].code))
                && 0 <= k < catalog[j].requirements.len() ==> res.contains(
                #[trigger] catalog[j].requirements[k],
            ) || !catalog_has(catalog, catalog[j].requirements[k]),
        a == start || res.contains(a),
        requires_path(catalog, a, b, n),
        catalog_has(catalog, b),
    ensures
        res.contains(b),
    decreases n,
{
    if n == 0 {
        let i = choose|i: int|
            0 <= i < catalog.len() && catalog[i].code == a && catalog[i].requirements.contains(b);
        let k = choose|k: int|
            0 <= k < catalog[i].requirements.len() && catalog[i].requirements[k] == b;
        assert(res.contains(catalog[i].requirements[k]) || !catalog_has(
            catalog,
            catalog[i].requirements[k],
        ));
    } else {
        let m = choose|m: Seq<char>|
            depends_on(catalog, a, m) && requires_path(catalog, m, b, (n - 1) as nat);
        lemma_path_head_in_catalog(catalog, m, b, (n - 1) as nat);
        let i = choose|i: int|
            0 <= i < catalog.len() && catalog[i].code == a && catalog[i].requirements.contains(m);
        let k = choose|k: int|
            0 <= k < catalog[i].requirements.len() && catalog[i].requirements[k] == m;
        assert(res.contains(catalog[i].requirements[k]) || !catalog_has(
            catalog,
            catalog[i].requirements[k],
        ));
        lemma_ancestors_complete(catalog, start, res, m, b, (n - 1) as nat);
    }
}

/// Any course that transitively requires the target (or a collected course)
/// already lies in a set that is closed under dependents.
proof fn lemma_descendants_complete(
    catalog: Seq<CourseView>,
    target: Seq<char>,
    res: Seq<Seq<char>>,
    b: Seq<char>,
    a: Seq<char>,
    n: nat,
)
    requires
        forall|j: int, x: Seq<char>|
            0 <= j < catalog.len() && #[trigger] catalog[j].requirements.contains(x) && (x == target
                || res.contains(x)) ==> res.contains(catalog[j].code),
        a == target || res.contains(a),
        requires_path(catalog, b, a, n),
    ensures
        res.contains(b),
    decreases n,
{
    if n == 0 {
        let i = choose|i: int|
            0 <= i < catalog.len() && catalog[i].code == b && catalog[i].requirements.contains(a);
        assert(res.contains(catalog[i].code));
    } else {
        let m = choose|m: Seq<char>|
            depends_on(catalog, b, m) && requires_path(catalog, m, a, (n - 1) as nat);
        lemma_descendants_complete(catalog, target, res, m, a, (n - 1) as nat);
        let i = choose|i: int|
            0 <= i < catalog.len() && catalog[i].code == b && catalog[i].requirements.contains(m);
        assert(res.contains(catalog[i].code));
    }
}

/// Collects every catalog course that the given course transitively
/// requires: the ancestor direction of the cascade expander. A visited check
/// keeps the walk sound and terminating even on a cyclic catalog.
pub fn get_required_courses(course: &Course, courses: &Vec<Course>) -> (r: Vec<String>)
    requires
        catalog_wf(courses.deep_view()),
        exists|i: int|
            0 <= i < courses.deep_view().len() && courses.deep_view()[i] == course.deep_view(),
    ensures
        r.deep_view().no_duplicates(),
        forall|b: Seq<char>| #[trigger]
            r.deep_view().contains(b) ==> catalog_has(courses.deep_view(), b) && trans_requires(
                courses.deep_view(),
                course.code@,
                b,
            ),
        forall|b: Seq<char>|
            catalog_has(courses.deep_view(), b) && #[trigger] trans_requires(
                courses.deep_view(),
                course.code@,
                b,
            ) ==> r.deep_view().contains(b),
{
    let ghost cat = courses.deep_view();
    let ghost start = course.code@;
    let mut result: Vec<String> = Vec::new();
    let mut work: Vec<String> = Vec::new();
    proof {
        assert(work.deep_view() =~= course.requirements.deep_view().take(0));
    }
    let mut i: usize = 0;
    while i < course.requirements.len()
        invariant
            i <= course.requirements.len(),
            work.deep_view() == course.requirements.deep_view().take(i as int),
        decreases course.requirements.len() - i,
    {
        let ghost pre = work.deep_view();
        work.push(course.requirements[i].clone());
        proof {
            assert(work.deep_view() =~= pre.push(course.requirements.deep_view()[i as int]));
            assert(work.deep_view() =~= course.requirements.deep_view().take(i as int + 1));
        }
        i += 1;
    }
    proof {
        assert(work.deep_view() =~= course.requirements.deep_view());
        let i0 = choose|i0: int| 0 <= i0 < cat.len() && cat[i0] == course.deep_view();
        assert(cat[i0].requirements == course.requirements.deep_view());
        assert forall|k: int| 0 <= k < work.deep_view().len() implies trans_requires(
            cat,
            start,
            #[trigger] work.deep_view()[k],
        ) by {
            assert(cat[i0].requirements[k] == work.deep_view()[k]);
            assert(cat[i0].requirements.contains(work.deep_view()[k]));
            assert(depends_on(cat, start, work.deep_view()[k]));
            assert(requires_path(cat, start, work.deep_view()[k], 0));
        }
        assert forall|j: int, k: int|
            0 <= j < cat.len() && (cat[j].code == start || result.deep_view().contains(
                cat[j].code,
            )) && 0 <= k < cat[j].requirements.len() implies result.deep_view().contains(
            #[trigger] cat[j].requirements[k],
        ) || work.deep_view().contains(cat[j].requirements[k]) || !catalog_has(
            cat,
            cat[j].requirements[k],
        ) by {
            assert(result.deep_view().len() == 0);
            assert(cat[j].code == start);
            if j != i0 {
                if j < i0 {
                    assert(cat[j].code != cat[i0].code);
                } else {
                    assert(cat[i0].code != cat[j].code);
                }
            }
            assert(j == i0);
            assert(work.deep_view()[k] == cat[j].requirements[k]);
            assert(work.deep_view().contains(cat[j].requirements[k]));
        }
    }
    while work.len() > 0
        invariant
            catalog_wf(cat),
            cat == courses.deep_view(),
            start == course.code@,
            result.deep_view().no_duplicates(),
            result.deep_view().len() <= cat.len(),
            forall|k: int|
                0 <= k < result.deep_view().len() ==> catalog_has(
                    cat,
                    #[trigger] result.deep_view()[k],
                ) && trans_requires(cat, start, result.deep_view()[k]),
            forall|k: int|
                0 <= k < work.deep_view().len() ==> trans_requires(
                    cat,
                    start,
                    #[trigger] work.deep_view()[k],
                ),
            forall|j: int, k: int|
                0 <= j < cat.len() && (cat[j].code == start || result.deep_view().contains(
                    cat[j].code,
                )) && 0 <= k < cat[j].requirements.len() ==> result.deep_view().contains(
                    #[trigger] cat[j].requirements[k],
                ) || work.deep_view().contains(cat[j].requirements[k]) || !catalog_has(
                    cat,
                    cat[j].requirements[k],
                ),
        decreases cat.len() - result.deep_view().len(), work.len(),
    {
        let ghost pre_work = work.deep_view();
        let code = work.pop().unwrap();
        let ghost code_v = code@;
        proof {
            assert(work.deep_view() =~= pre_work.drop_last());
            assert(code_v == pre_work.last());
            assert(trans_requires(cat, start, code_v));
            assert forall|x: Seq<char>| #[trigger]
                pre_work.contains(x) implies work.deep_view().contains(x) || x == code_v by {
                let ii = choose|ii: int| 0 <= ii < pre_work.len() && pre_work[ii] == x;
                if ii < pre_work.len() - 1 {
                    assert(work.deep_view()[ii] == x);
                }
            }
        }
        if !contains_code(&result, &code) {
            match find_course(courses, &code) {
                None => {
                    proof {
                        assert(!catalog_has(cat, code_v));
                    }
                },
                Some(idx) => {
                    let ghost pre_res = result.deep_view();
                    let ghost pre_inner = work.deep_view();
                    proof {
                        assert(cat[idx as int].code == code_v);
                        assert(catalog_has(cat, code_v));
                        assert(courses[idx as int].requirements.deep_view() == cat[
                            idx as int
                        ].requirements);
                    }
                    let mut t: usize = 0;
                    while t < courses[idx].requirements.len()
                        invariant
                            catalog_wf(cat),
                            cat == courses.deep_view(),
                            start == course.code@,
                            idx < courses.len(),
                            t <= cat[idx as int].requirements.len(),
                            cat[idx as int].code == code_v,
                            result.deep_view() == pre_res,
                            !pre_res.contains(code_v),
                            trans_requires(cat, start, code_v),
                            forall|k: int|
                                0 <= k < work.deep_view().len() ==> trans_requires(
                                    cat,
                                    start,
                                    #[trigger] work.deep_view()[k],
                                ),
                            forall|x: Seq<char>| #[trigger]
                                pre_inner.contains(x) ==> work.deep_view().contains(x),
                            forall|k: int|
                                0 <= k < t ==> work.deep_view().contains(
                                    #[trigger] cat[idx as int].requirements[k],
                                ),
                        decreases cat[idx as int].requirements.len() - t,
                    {
                        let ghost pre = work.deep_view();
                        let ghost req_v = courses@[idx as int].requirements@[t as int]@;
                        work.push(courses[idx].requirements[t].clone());
                        proof {
                            assert(work.deep_view() =~= pre.push(req_v));
                            assert(req_v == cat[idx as int].requirements[t as int]);
                            assert(cat[idx as int].requirements.contains(req_v));
                            assert(work.deep_view()[pre.len() as int] == req_v);
                            assert(work.deep_view().contains(req_v));
                            assert(depends_on(cat, code_v, req_v));
                            lemma_trans_extend(cat, start, code_v, req_v);
                            assert forall|x: Seq<char>| #[trigger]
                                pre.contains(x) implies work.deep_view().contains(x) by {
                                let ii = choose|ii: int| 0 <= ii < pre.len() && pre[ii] == x;
                                assert(work.deep_view()[ii] == x);
                            }
                        }
                        t += 1;
                    }
                    let ghost pre_push = result.deep_view();
                    result.push(code);
                    proof {
                        assert(result.deep_view() =~= pre_push.push(code_v));
                        lemma_push_distinct(pre_push, code_v);
                        assert forall|x: Seq<char>| #[trigger]
                            pre_push.contains(x) implies result.deep_view().contains(x) by {
                            let ii = choose|ii: int| 0 <= ii < pre_push.len() && pre_push[ii] == x;
                            assert(result.deep_view()[ii] == x);
                        }
                        assert(result.deep_view()[pre_push.len() as int] == code_v);
                        assert(result.deep_view().contains(code_v));
                        assert forall|k: int|
                            0 <= k < result.deep_view().len() implies catalog_has(
                            cat,
                            #[trigger] result.deep_view()[k],
                        ) && trans_requires(cat, start, result.deep_view()[k]) by {
                            if k < pre_push.len() {
                                assert(result.deep_view()[k] == pre_push[k]);
                            }
                        }
                        lemma_distinct_codes_bound(result.deep_view(), cat);
                        assert forall|j: int, k: int|
                            0 <= j < cat.len() && (cat[j].code == start
                                || result.deep_view().contains(cat[j].code)) && 0 <= k < cat[
                            j
                        ].requirements.len() implies result.deep_view().contains(
                            #[trigger] cat[j].requirements[k],
                        ) || work.deep_view().contains(cat[j].requirements[k]) || !catalog_has(
                            cat,
                            cat[j].requirements[k],
                        ) by {
                            let x = cat[j].requirements[k];
                            if cat[j].code == code_v {
                                if j != idx as int {
                                    if j < idx as int {
                                        assert(cat[j].code != cat[idx as int].code);
                                    } else {
                                        assert(cat[idx as int].code != cat[j].code);
                                    }
                                }
                                assert(j == idx as int);
                                assert(work.deep_view().contains(x));
                            } else {
                                assert(cat[j].code == start || pre_push.contains(cat[j].code));
                                assert(pre_res.contains(x) || pre_work.contains(x)
                                    || !catalog_has(cat, x));
                                if pre_work.contains(x) {
                                    assert(pre_inner.contains(x) || x == code_v);
                                }
                            }
                        }
                    }
                },
            }
        }
    }
    proof {
        assert(work.deep_view().len() == 0);
        assert forall|b: Seq<char>|
            catalog_has(cat, b) && #[trigger] trans_requires(cat, start, b) implies
            result.deep_view().contains(b) by {
            let n = choose|n: nat| requires_path(cat, start, b, n);
            assert forall|j: int, k: int|
                0 <= j < cat.len() && (cat[j].code == start || result.deep_view().contains(
                    cat[j].code,
                )) && 0 <= k < cat[j].requirements.len() implies result.deep_view().contains(
                #[trigger] cat[j].requirements[k],
            ) || !catalog_has(cat, cat[j].requirements[k]) by {
                assert(!work.deep_view().contains(cat[j].requirements[k]));
            }
            lemma_ancestors_complete(cat, start, result.deep_view(), start, b, n);
        }
    }
    result
}

/// Collects every catalog course that transitively requires the given code:
/// the descendant direction of the cascade expander. A visited check keeps
/// the walk sound and terminating even on a cyclic catalog.
pub fn get_cascade_courses(course: &String, courses: &Vec<Course>) -> (r: Vec<String>)
    requires
        catalog_wf(courses.deep_view()),
    ensures
        r.deep_view().no_duplicates(),
        forall|b: Seq<char>| #[trigger]
            r.deep_view().contains(b) ==> trans_requires(courses.deep_view(), b, course@),
        forall|b: Seq<char>| #[trigger]
            trans_requires(courses.deep_view(), b, course@) ==> r.deep_view().contains(b),
{
    let ghost cat = courses.deep_view();
    let ghost target = course@;
    let mut result: Vec<String> = Vec::new();
    let mut work: Vec<String> = Vec::new();
    work.push(course.clone());
    proof {
        assert(work.deep_view() =~= Seq::<Seq<char>>::empty().push(target));
        assert(work.deep_view()[0] == target);
    }
    while work.len() > 0
        invariant
            catalog_wf(cat),
            cat == courses.deep_view(),
            target == course@,
            result.deep_view().no_duplicates(),
            result.deep_view().len() <= cat.len(),
            forall|k: int|
                0 <= k < result.deep_view().len() ==> catalog_has(
                    cat,
                    #[trigger] result.deep_view()[k],
                ) && trans_requires(cat, result.deep_view()[k], target),
            forall|k: int|
                0 <= k < work.deep_view().len() ==> #[trigger] work.deep_view()[k] == target
                    || trans_requires(cat, work.deep_view()[k], target),
            forall|j: int, x: Seq<char>|
                0 <= j < cat.len() && #[trigger] cat[j].requirements.contains(x) && (x == target
                    || result.deep_view().contains(x)) && !work.deep_view().contains(x)
                    ==> result.deep_view().contains(cat[j].code),
        decreases cat.len() - result.deep_view().len(), work.len(),
    {
        let ghost pre_work = work.deep_view();
        let ghost pre_res_outer = result.deep_view();
        let code = work.pop().unwrap();
        let ghost code_v = code@;
        proof {
            assert(work.deep_view() =~= pre_work.drop_last());
            assert(code_v == pre_work.last());
            assert(code_v == target || trans_requires(cat, code_v, target));
            assert forall|x: Seq<char>| #[trigger]
                pre_work.contains(x) implies work.deep_view().contains(x) || x == code_v by {
                let ii = choose|ii: int| 0 <= ii < pre_work.len() && pre_work[ii] == x;
                if ii < pre_work.len() - 1 {
                    assert(work.deep_view()[ii] == x);
                }
            }
        }
        let mut j: usize = 0;
        while j < courses.len()
            invariant
                catalog_wf(cat),
                cat == courses.deep_view(),
                target == course@,
                j <= courses.len(),
                code_v == code@,
                pre_res_outer.len() <= result.deep_view().len(),
                result.deep_view().len() == pre_res_outer.len() ==> work.deep_view().len()
                    == pre_work.len() - 1,
                code_v == target || trans_requires(cat, code_v, target),
                result.deep_view().no_duplicates(),
                result.deep_view().len() <= cat.len(),
                forall|k: int|
                    0 <= k < result.deep_view().len() ==> catalog_has(
                        cat,
                        #[trigger] result.deep_view()[k],
                    ) && trans_requires(cat, result.deep_view()[k], target),
                forall|k: int|
                    0 <= k < work.deep_view().len() ==> #[trigger] work.deep_view()[k] == target
                        || trans_requires(cat, work.deep_view()[k], target),
                forall|jj: int, x: Seq<char>|
                    0 <= jj < cat.len() && #[trigger] cat[jj].requirements.contains(x) && (x
                        == target || result.deep_view().contains(x))
                        && !work.deep_view().contains(x) && (x != code_v || jj < j)
                        ==> result.deep_view().contains(cat[jj].code),
            decreases courses.len() - j,
        {
            proof {
                assert(courses@[j as int].requirements.deep_view() == cat[j as int].requirements);
                assert(courses@[j as int].code@ == cat[j as int].code);
            }
            if contains_code(&courses[j].requirements, &code) {
                if !contains_code(&result, &courses[j].code) {
                    let ghost d_v = cat[j as int].code;
                    let ghost pre_res = result.deep_view();
                    let ghost pre_w = work.deep_view();
                    result.push(courses[j].code.clone());
                    work.push(courses[j].code.clone());
                    proof {
                        assert(result.deep_view() =~= pre_res.push(d_v));
                        assert(work.deep_view() =~= pre_w.push(d_v));
                        assert(depends_on(cat, d_v, code_v));
                        if code_v == target {
                            assert(requires_path(cat, d_v, target, 0));
                            assert(trans_requires(cat, d_v, target));
                        } else {
                            let n = choose|n: nat| requires_path(cat, code_v, target, n);
                            assert(depends_on(cat, d_v, code_v) && requires_path(
                                cat,
                                code_v,
                                target,
                                n,
                            ));
                            assert(requires_path(cat, d_v, target, (n + 1) as nat));
                            assert(trans_requires(cat, d_v, target));
                        }
                        lemma_push_distinct(pre_res, d_v);
                        assert forall|x: Seq<char>| #[trigger]
                            pre_res.contains(x) implies result.deep_view().contains(x) by {
                            let ii = choose|ii: int| 0 <= ii < pre_res.len() && pre_res[ii] == x;
                            assert(result.deep_view()[ii] == x);
                        }
                        assert forall|x: Seq<char>| #[trigger]
                            pre_w.contains(x) implies work.deep_view().contains(x) by {
                            let ii = choose|ii: int| 0 <= ii < pre_w.len() && pre_w[ii] == x;
                            assert(work.deep_view()[ii] == x);
                        }
                        assert(result.deep_view()[pre_res.len() as int] == d_v);
                        assert(result.deep_view().contains(d_v));
                        assert(work.deep_view()[pre_w.len() as int] == d_v);
                        assert(work.deep_view().contains(d_v));
                        assert(catalog_has(cat, d_v));
                        lemma_distinct_codes_bound(result.deep_view(), cat);
                        assert forall|jj: int, x: Seq<char>|
                            0 <= jj < cat.len() && #[trigger] cat[jj].requirements.contains(x) && (
                            x == target || result.deep_view().contains(x))
                                && !work.deep_view().contains(x) && (x != code_v || jj < j + 1)
                                implies result.deep_view().contains(cat[jj].code) by {
                            if x == code_v && jj == j {
                                assert(result.deep_view().contains(cat[jj].code));
                            } else {
                                if result.deep_view().contains(x) && x != d_v {
                                    let ii = choose|ii: int|
                                        0 <= ii < result.deep_view().len()
                                            && result.deep_view()[ii] == x;
                                    if ii < pre_res.len() {
                                        assert(pre_res[ii] == x);
                                        assert(pre_res.contains(x));
                                    }
                                }
                            }
                        }
                    }
                } else {
                    proof {
                        assert(result.deep_view().contains(cat[j as int].code));
                    }
                }
            }
            j += 1;
        }
    }
    proof {
        assert(work.deep_view().len() == 0);
        assert forall|b: Seq<char>| #[trigger]
            trans_requires(cat, b, target) implies result.deep_view().contains(b) by {
            let n = choose|n: nat| requires_path(cat, b, target, n);
            lemma_descendants_complete(cat, target, result.deep_view(), b, target, n);
        }
    }
    result
}

} // verus!
