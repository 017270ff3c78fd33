//! The course catalog: course records with their sessions, indexed by
//! course code with last-write-wins on duplicate codes.

use vstd::prelude::*;

verus! {

/// One recurring meeting of a course: a weekday name, a start and end
/// instant (timestamps), and a room. Day and room may be absent; an
/// absent field is a sentinel of its own, not a wildcard.
pub struct CourseSession {
    pub day: Option<String>,
    pub start: i64,
    pub end: i64,
    pub location: Option<String>,
}

/// Mathematical image of a [`CourseSession`].
pub ghost struct SessionView {
    pub day: Option<Seq<char>>,
    pub start: int,
    pub end: int,
    pub location: Option<Seq<char>>,
}

impl View for CourseSession {
    type V = SessionView;

    open spec fn view(&self) -> SessionView {
        SessionView {
            day: self.day.deep_view(),
            start: self.start as int,
            end: self.end as int,
            location: self.location.deep_view(),
        }
    }
}

impl DeepView for CourseSession {
    type V = SessionView;

    open spec fn deep_view(&self) -> SessionView {
        self.view()
    }
}

/// One course record of the catalog, immutable once loaded.
pub struct Course {
    pub code: i64,
    pub name: Option<String>,
    pub sessions: Vec<CourseSession>,
    pub instructor: Option<String>,
    pub status: Option<String>,
    pub instruction_mode: Option<String>,
    pub flags: Vec<String>,
}

/// Mathematical image of a [`Course`].
pub ghost struct CourseView {
    pub code: i64,
    pub name: Option<Seq<char>>,
    pub sessions: Seq<SessionView>,
    pub instructor: Option<Seq<char>>,
    pub status: Option<Seq<char>>,
    pub instruction_mode: Option<Seq<char>>,
    pub flags: Seq<Seq<char>>,
}

impl View for Course {
    type V = CourseView;

    open spec fn view(&self) -> CourseView {
        CourseView {
            code: self.code,
            name: self.name.deep_view(),
            sessions: self.sessions.deep_view(),
            instructor: self.instructor.deep_view(),
            status: self.status.deep_view(),
            instruction_mode: self.instruction_mode.deep_view(),
            flags: self.flags.deep_view(),
        }
    }
}

impl DeepView for Course {
    type V = CourseView;

    open spec fn deep_view(&self) -> CourseView {
        self.view()
    }
}

/// The mapping a sequence of course records denotes: each record is
/// entered under its code, a later record overwriting an earlier one
/// with the same code.
pub open spec fn catalog_map(courses: Seq<CourseView>) -> Map<i64, CourseView>
    decreases courses.len(),
{
    if courses.len() == 0 {
        Map::empty()
    } else {
        catalog_map(courses.drop_last()).insert(courses.last().code, courses.last())
    }
}

/// The immutable, process-lifetime course catalog. Built once from the
/// loaded dataset; lookups are by course code, and of two records with
/// the same code the later one wins.
pub struct CourseCatalog {
    courses: Vec<Course>,
}

impl View for CourseCatalog {
    type V = Map<i64, CourseView>;

    closed spec fn view(&self) -> Map<i64, CourseView> {
        catalog_map(self.courses.deep_view())
    }
}

impl CourseCatalog {
    /// Index a loaded sequence of course records.
    pub fn new(courses: Vec<Course>) -> (catalog: CourseCatalog)
        ensures
            catalog@ == catalog_map(courses.deep_view()),
    {
        CourseCatalog { courses }
    }

    /// Look up a course by code; absent codes yield `None`.
    pub fn get(&self, code: i64) -> (found: Option<&Course>)
        ensures
            match found {
                Some(course) => self@.contains_key(code) && course@ == self@[code],
                None => !self@.contains_key(code),
            },
    {
        let n = self.courses.len();
        let mut i = n;
        while i > 0
            invariant
                i <= n,
                n == self.courses.len(),
                forall|j: int| i <= j < n ==> #[trigger] self.courses.deep_view()[j].code != code,
            decreases i,
        {
            i = i - 1;
            if self.courses[i].code == code {
                proof {
                    lemma_catalog_map_last_match(self.courses.deep_view(), i as int, code);
                }
                return Some(&self.courses[i]);
            }
        }
        proof {
            lemma_catalog_map_no_match(self.courses.deep_view(), code);
        }
        None
    }
}

/// If no record at or after position `i` carries `code`, then the map of
/// the whole sequence agrees at `code` with the map of the first `i`
/// records.
proof fn lemma_catalog_map_prefix(courses: Seq<CourseView>, i: int, code: i64)
    requires
        0 <= i <= courses.len(),
        forall|j: int| i <= j < courses.len() ==> #[trigger] courses[j].code != code,
    ensures
        catalog_map(courses).contains_key(code) == catalog_map(courses.take(i)).contains_key(code),
        catalog_map(courses.take(i)).contains_key(code) ==> catalog_map(courses)[code]
            == catalog_map(courses.take(i))[code],
    decreases courses.len() - i,
{
    if i < courses.len() {
        lemma_catalog_map_prefix(courses, i + 1, code);
        assert(courses.take(i + 1).drop_last() =~= courses.take(i));
        assert(courses.take(i + 1).last() == courses[i]);
    } else {
        assert(courses.take(i) =~= courses);
    }
}

/// A record at position `i` whose code no later record repeats is the
/// record the catalog maps `code` to.
proof fn lemma_catalog_map_last_match(courses: Seq<CourseView>, i: int, code: i64)
    requires
        0 <= i < courses.len(),
        courses[i].code == code,
        forall|j: int| i < j < courses.len() ==> #[trigger] courses[j].code != code,
    ensures
        catalog_map(courses).contains_key(code),
        catalog_map(courses)[code] == courses[i],
{
    lemma_catalog_map_prefix(courses, i + 1, code);
    assert(courses.take(i + 1).drop_last() =~= courses.take(i));
    assert(courses.take(i + 1).last() == courses[i]);
}

/// A code no record carries is absent from the catalog.
proof fn lemma_catalog_map_no_match(courses: Seq<CourseView>, code: i64)
    requires
        forall|j: int| 0 <= j < courses.len() ==> #[trigger] courses[j].code != code,
    ensures
        !catalog_map(courses).contains_key(code),
{
    lemma_catalog_map_prefix(courses, 0, code);
    assert(courses.take(0) =~= Seq::<CourseView>::empty());
}

} // verus!
