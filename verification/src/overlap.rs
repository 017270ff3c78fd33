//! The overlap engine: pure comparisons between two users' resolved
//! schedules. A course is shared when the issuer holds the same code;
//! a session is shared when it recurs, field for field, anywhere in
//! the issuer's whole session set — also under a different code.

use vstd::prelude::*;
use crate::catalog::{CourseCatalog, CourseSession, CourseView, SessionView};

verus! {

/// The resolved schedule of a code list: the catalog record of each
/// code, in list order, codes without a record dropped.
pub open spec fn resolved_courses(cat: Map<i64, CourseView>, codes: Seq<i64>) -> Seq<CourseView>
    decreases codes.len(),
{
    if codes.len() == 0 {
        Seq::empty()
    } else {
        let rest = resolved_courses(cat, codes.drop_last());
        if cat.contains_key(codes.last()) {
            rest.push(cat[codes.last()])
        } else {
            rest
        }
    }
}

/// The whole session set of a code list: every session of every
/// resolved course, in order.
pub open spec fn schedule_sessions(cat: Map<i64, CourseView>, codes: Seq<i64>) -> Seq<SessionView>
    decreases codes.len(),
{
    if codes.len() == 0 {
        Seq::empty()
    } else {
        let rest = schedule_sessions(cat, codes.drop_last());
        if cat.contains_key(codes.last()) {
            rest + cat[codes.last()].sessions
        } else {
            rest
        }
    }
}

/// Two sessions are the same exactly when all four fields agree; an
/// absent day or room only matches an absent one. A difference in any
/// one field — one minute on the end time — makes them distinct, and
/// the relation is reflexive.
pub proof fn lemma_session_equality_exact(a: SessionView, b: SessionView)
    ensures
        a == a,
        (a == b) <==> (a.day == b.day && a.start == b.start && a.end == b.end && a.location
            == b.location),
        a.end != b.end ==> a != b,
{
}

fn option_string_eq(a: &Option<String>, b: &Option<String>) -> (eq: bool)
    ensures
        eq == (a.deep_view() == b.deep_view()),
{
    match (a, b) {
        (Some(x), Some(y)) => x.eq(y),
        (None, None) => true,
        _ => false,
    }
}

/// Exact-field equality of two sessions, as the overlap rules define
/// it.
pub fn sessions_equal(a: &CourseSession, b: &CourseSession) -> (eq: bool)
    ensures
        eq == (a@ == b@),
{
    option_string_eq(&a.day, &b.day) && a.start == b.start && a.end == b.end && option_string_eq(
        &a.location,
        &b.location,
    )
}

/// Copy one session record.
pub fn clone_session(session: &CourseSession) -> (copy: CourseSession)
    ensures
        copy@ == session@,
{
    CourseSession {
        day: match &session.day {
            Some(d) => Some(d.clone()),
            None => None,
        },
        start: session.start,
        end: session.end,
        location: match &session.location {
            Some(l) => Some(l.clone()),
            None => None,
        },
    }
}

/// Whether a session set holds an exact-field match for `target`.
pub fn sessions_contain(sessions: &Vec<CourseSession>, target: &CourseSession) -> (found: bool)
    ensures
        found == sessions.deep_view().contains(target@),
{
    let n = sessions.len();
    let mut i: usize = 0;
    while i < n
        invariant
            i <= n,
            n == sessions@.len(),
            forall|j: int| 0 <= j < i ==> #[trigger] sessions.deep_view()[j] != target@,
        decreases n - i,
    {
        if sessions_equal(&sessions[i], target) {
            assert(sessions.deep_view()[i as int] == target@);
            return true;
        }
        i = i + 1;
    }
    assert(!sessions.deep_view().contains(target@)) by {
        assert(forall|j: int|
            0 <= j < sessions.deep_view().len() ==> #[trigger] sessions.deep_view()[j]
                != target@);
    }
    false
}

/// Whether a code list holds `code`.
pub fn codes_contain(codes: &Vec<i64>, code: i64) -> (found: bool)
    ensures
        found == codes@.contains(code),
{
    let n = codes.len();
    let mut i: usize = 0;
    while i < n
        invariant
            i <= n,
            n == codes@.len(),
            forall|j: int| 0 <= j < i ==> #[trigger] codes@[j] != code,
        decreases n - i,
    {
        if codes[i] == code {
            return true;
        }
        i = i + 1;
    }
    assert(!codes@.contains(code)) by {
        assert(forall|j: int| 0 <= j < codes@.len() ==> #[trigger] codes@[j] != code);
    }
    false
}

/// The whole session set of a user's code list, resolved against the
/// catalog.
pub fn sessions_of_codes(catalog: &CourseCatalog, codes: &Vec<i64>) -> (sessions: Vec<
    CourseSession,
>)
    ensures
        sessions.deep_view() == schedule_sessions(catalog@, codes@),
{
    let mut out: Vec<CourseSession> = Vec::new();
    let n = codes.len();
    let mut i: usize = 0;
    while i < n
        invariant
            i <= n,
            n == codes@.len(),
            out.deep_view() == schedule_sessions(catalog@, codes@.take(i as int)),
        decreases n - i,
    {
        proof {
            assert(codes@.take(i + 1).drop_last() =~= codes@.take(i as int));
            assert(codes@.take(i + 1).last() == codes@[i as int]);
        }
        match catalog.get(codes[i]) {
            Some(course) => {
                let ghost course_view = course@;
                let m = course.sessions.len();
                let mut j: usize = 0;
                while j < m
                    invariant
                        j <= m,
                        m == course.sessions@.len(),
                        course@ == course_view,
                        out.deep_view() == schedule_sessions(catalog@, codes@.take(i as int))
                            + course_view.sessions.take(j as int),
                    decreases m - j,
                {
                    let copy = clone_session(&course.sessions[j]);
                    let ghost before = out.deep_view();
                    out.push(copy);
                    proof {
                        assert(out.deep_view() =~= before.push(course_view.sessions[j as int]));
                        assert(course_view.sessions.take(j + 1) =~= course_view.sessions.take(
                            j as int,
                        ).push(course_view.sessions[j as int]));
                        assert(out.deep_view() =~= schedule_sessions(catalog@, codes@.take(i as int))
                            + course_view.sessions.take(j + 1));
                    }
                    j = j + 1;
                }
                proof {
                    assert(course_view.sessions.take(m as int) =~= course_view.sessions);
                    assert(out.deep_view() =~= schedule_sessions(catalog@, codes@.take(i + 1)));
                }
            },
            None => {
                proof {
                    assert(out.deep_view() =~= schedule_sessions(catalog@, codes@.take(i + 1)));
                }
            },
        }
        i = i + 1;
    }
    proof {
        assert(codes@.take(n as int) =~= codes@);
    }
    out
}

/// The overlap marks of one target course against an issuer: the code
/// mark, and one mark per session. Self-comparison never marks.
pub struct CourseMarks {
    pub code: i64,
    pub code_shared: bool,
    pub session_shared: Vec<bool>,
}

/// Mathematical image of a [`CourseMarks`].
pub ghost struct MarksView {
    pub code: i64,
    pub code_shared: bool,
    pub session_shared: Seq<bool>,
}

impl View for CourseMarks {
    type V = MarksView;

    open spec fn view(&self) -> MarksView {
        MarksView {
            code: self.code,
            code_shared: self.code_shared,
            session_shared: self.session_shared@,
        }
    }
}

impl DeepView for CourseMarks {
    type V = MarksView;

    open spec fn deep_view(&self) -> MarksView {
        self.view()
    }
}

/// The marks of one resolved target course: the code is shared when
/// the issuer's list holds it; a session is shared when the issuer's
/// whole session set holds it exactly and the code itself is not
/// shared (a full-code match takes precedence over its sessions).
/// Self-comparison marks nothing.
pub open spec fn spec_course_marks(
    cat: Map<i64, CourseView>,
    issuer: Seq<i64>,
    same_user: bool,
    course: CourseView,
) -> MarksView {
    MarksView {
        code: course.code,
        code_shared: !same_user && issuer.contains(course.code),
        session_shared: Seq::new(
            course.sessions.len(),
            |j: int|
                !same_user && !issuer.contains(course.code) && schedule_sessions(
                    cat,
                    issuer,
                ).contains(course.sessions[j]),
        ),
    }
}

/// The full comparison of a target's schedule against an issuer's:
/// one marks record per resolved target course, in schedule order.
pub open spec fn spec_compare(
    cat: Map<i64, CourseView>,
    issuer: Seq<i64>,
    target: Seq<i64>,
    same_user: bool,
) -> Seq<MarksView> {
    resolved_courses(cat, target).map_values(
        |course: CourseView| spec_course_marks(cat, issuer, same_user, course),
    )
}

/// Compare a target user's schedule against the issuer's, as
/// [`spec_compare`] describes it.
pub fn compare_schedules(
    catalog: &CourseCatalog,
    issuer_codes: &Vec<i64>,
    target_codes: &Vec<i64>,
    same_user: bool,
) -> (marks: Vec<CourseMarks>)
    ensures
        marks.deep_view() == spec_compare(catalog@, issuer_codes@, target_codes@, same_user),
{
    let issuer_sessions = sessions_of_codes(catalog, issuer_codes);
    let mut marks: Vec<CourseMarks> = Vec::new();
    let n = target_codes.len();
    let mut i: usize = 0;
    while i < n
        invariant
            i <= n,
            n == target_codes@.len(),
            issuer_sessions.deep_view() == schedule_sessions(catalog@, issuer_codes@),
            marks.deep_view() == spec_compare(
                catalog@,
                issuer_codes@,
                target_codes@.take(i as int),
                same_user,
            ),
        decreases n - i,
    {
        proof {
            assert(target_codes@.take(i + 1).drop_last() =~= target_codes@.take(i as int));
            assert(target_codes@.take(i + 1).last() == target_codes@[i as int]);
        }
        match catalog.get(target_codes[i]) {
            Some(course) => {
                let ghost course_view = course@;
                let code_matches = codes_contain(issuer_codes, course.code);
                let m = course.sessions.len();
                let mut shared: Vec<bool> = Vec::new();
                let ghost shared_spec = spec_course_marks(
                    catalog@,
                    issuer_codes@,
                    same_user,
                    course_view,
                ).session_shared;
                let mut j: usize = 0;
                while j < m
                    invariant
                        j <= m,
                        m == course.sessions@.len(),
                        course@ == course_view,
                        shared_spec == spec_course_marks(
                            catalog@,
                            issuer_codes@,
                            same_user,
                            course_view,
                        ).session_shared,
                        issuer_sessions.deep_view() == schedule_sessions(catalog@, issuer_codes@),
                        code_matches == issuer_codes@.contains(course_view.code),
                        shared@.len() == j,
                        forall|l: int| 0 <= l < j ==> shared@[l] == shared_spec[l],
                    decreases m - j,
                {
                    let s = !same_user && !code_matches && sessions_contain(
                        &issuer_sessions,
                        &course.sessions[j],
                    );
                    proof {
                        assert(course.sessions@[j as int]@ == course_view.sessions[j as int]);
                    }
                    shared.push(s);
                    j = j + 1;
                }
                let record = CourseMarks {
                    code: course.code,
                    code_shared: !same_user && code_matches,
                    session_shared: shared,
                };
                proof {
                    assert(record@.session_shared =~= shared_spec);
                    assert(record@ == spec_course_marks(
                        catalog@,
                        issuer_codes@,
                        same_user,
                        course_view,
                    ));
                }
                let ghost before = marks.deep_view();
                marks.push(record);
                proof {
                    assert(marks.deep_view() =~= before.push(record@));
                    assert(resolved_courses(catalog@, target_codes@.take(i + 1))
                        =~= resolved_courses(catalog@, target_codes@.take(i as int)).push(
                        course_view,
                    ));
                    assert(marks.deep_view() =~= spec_compare(
                        catalog@,
                        issuer_codes@,
                        target_codes@.take(i + 1),
                        same_user,
                    ));
                }
            },
            None => {
                proof {
                    assert(resolved_courses(catalog@, target_codes@.take(i + 1))
                        =~= resolved_courses(catalog@, target_codes@.take(i as int)));
                    assert(marks.deep_view() =~= spec_compare(
                        catalog@,
                        issuer_codes@,
                        target_codes@.take(i + 1),
                        same_user,
                    ));
                }
            },
        }
        i = i + 1;
    }
    proof {
        assert(target_codes@.take(n as int) =~= target_codes@);
    }
    marks
}

/// Comparing a user against themself marks nothing: no course and no
/// session is reported shared, whatever the underlying data.
pub proof fn lemma_self_comparison_unmarked(
    cat: Map<i64, CourseView>,
    issuer: Seq<i64>,
    target: Seq<i64>,
)
    ensures
        forall|i: int|
            0 <= i < spec_compare(cat, issuer, target, true).len() ==> !(#[trigger] spec_compare(
                cat,
                issuer,
                target,
                true,
            )[i]).code_shared,
        forall|i: int, j: int|
            0 <= i < spec_compare(cat, issuer, target, true).len() && 0 <= j < spec_compare(
                cat,
                issuer,
                target,
                true,
            )[i].session_shared.len() ==> !(#[trigger] spec_compare(
                cat,
                issuer,
                target,
                true,
            )[i].session_shared[j]),
{
    let marks = spec_compare(cat, issuer, target, true);
    assert forall|i: int| 0 <= i < marks.len() implies !(#[trigger] marks[i]).code_shared by {
        assert(marks[i] == spec_course_marks(cat, issuer, true, resolved_courses(cat, target)[i]));
    }
    assert forall|i: int, j: int|
        0 <= i < marks.len() && 0 <= j < marks[i].session_shared.len() implies !(
    #[trigger] marks[i].session_shared[j]) by {
        assert(marks[i] == spec_course_marks(cat, issuer, true, resolved_courses(cat, target)[i]));
    }
}

} // verus!
