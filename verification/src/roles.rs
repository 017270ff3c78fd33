//! The role reconciler: from a user's resolved schedule, a guild's
//! course-name-to-role mapping, and the user's currently held roles,
//! compute the disjoint sets of roles to grant and to revoke. Roles
//! outside the mapping's vocabulary are never touched.

use vstd::prelude::*;
use crate::catalog::{CourseCatalog, CourseView};
use crate::overlap::resolved_courses;

verus! {

broadcast use vstd::seq_lib::lemma_seq_contains_after_push;

/// One mapping entry: a course name and the external role it grants.
pub struct RoleEntry {
    pub course_name: String,
    pub role_id: u64,
}

/// Mathematical image of a [`RoleEntry`].
pub ghost struct EntryView {
    pub name: Seq<char>,
    pub role: u64,
}

impl View for RoleEntry {
    type V = EntryView;

    open spec fn view(&self) -> EntryView {
        EntryView { name: self.course_name@, role: self.role_id }
    }
}

impl DeepView for RoleEntry {
    type V = EntryView;

    open spec fn deep_view(&self) -> EntryView {
        self.view()
    }
}

/// The mapping a sequence of entries denotes: each entry under its
/// course name, a later entry overwriting an earlier one with the
/// same name.
pub open spec fn role_map(entries: Seq<EntryView>) -> Map<Seq<char>, u64>
    decreases entries.len(),
{
    if entries.len() == 0 {
        Map::empty()
    } else {
        role_map(entries.drop_last()).insert(entries.last().name, entries.last().role)
    }
}

pub open spec fn unique_names(entries: Seq<EntryView>) -> bool {
    forall|i: int, j: int|
        0 <= i < j < entries.len() ==> (#[trigger] entries[i]).name != (#[trigger] entries[j]).name
}

/// Replacing the one entry that carries a name rewrites that name's
/// binding and nothing else.
proof fn lemma_role_map_update(entries: Seq<EntryView>, j: int, entry: EntryView)
    requires
        unique_names(entries),
        0 <= j < entries.len(),
        entries[j].name == entry.name,
    ensures
        role_map(entries.update(j, entry)) == role_map(entries).insert(entry.name, entry.role),
    decreases entries.len(),
{
    let updated = entries.update(j, entry);
    if j == entries.len() - 1 {
        assert(updated.drop_last() =~= entries.drop_last());
        assert(updated.last() == entry);
        assert(role_map(entries.drop_last()).insert(entries.last().name, entries.last().role).insert(
            entry.name,
            entry.role,
        ) =~= role_map(entries.drop_last()).insert(entry.name, entry.role));
    } else {
        assert(updated.drop_last() =~= entries.drop_last().update(j, entry));
        assert(updated.last() == entries.last());
        assert(unique_names(entries.drop_last())) by {
            assert(forall|a: int|
                0 <= a < entries.len() - 1 ==> entries.drop_last()[a] == entries[a]);
        }
        lemma_role_map_update(entries.drop_last(), j, entry);
        assert(entries[j].name != entries.last().name);
        assert(role_map(entries.drop_last()).insert(entry.name, entry.role).insert(
            entries.last().name,
            entries.last().role,
        ) =~= role_map(entries.drop_last()).insert(entries.last().name, entries.last().role).insert(
            entry.name,
            entry.role,
        ));
    }
}

/// With unique names, the entries and the mapping's pairs coincide.
proof fn lemma_role_map_entries(entries: Seq<EntryView>)
    requires
        unique_names(entries),
    ensures
        forall|i: int|
            0 <= i < entries.len() ==> role_map(entries).contains_pair(
                (#[trigger] entries[i]).name,
                entries[i].role,
            ),
        forall|n: Seq<char>|
            #[trigger] role_map(entries).contains_key(n) ==> exists|i: int|
                0 <= i < entries.len() && (#[trigger] entries[i]).name == n && entries[i].role
                    == role_map(entries)[n],
    decreases entries.len(),
{
    if entries.len() > 0 {
        let rest = entries.drop_last();
        assert(unique_names(rest)) by {
            assert(forall|a: int| 0 <= a < entries.len() - 1 ==> rest[a] == entries[a]);
        }
        lemma_role_map_entries(rest);
        assert(forall|i: int|
            0 <= i < entries.len() - 1 ==> (#[trigger] entries[i]).name != entries.last().name);
        assert(forall|i: int| 0 <= i < entries.len() - 1 ==> rest[i] == entries[i]);
        assert(entries[entries.len() - 1] == entries.last());
        assert forall|n: Seq<char>| #[trigger] role_map(entries).contains_key(n) implies exists|i: int|
            0 <= i < entries.len() && (#[trigger] entries[i]).name == n && entries[i].role
                == role_map(entries)[n] by {
            if n == entries.last().name {
                assert(entries[entries.len() - 1].name == n);
            } else {
                assert(role_map(rest).contains_key(n));
                let i = choose|i: int|
                    0 <= i < rest.len() && (#[trigger] rest[i]).name == n && rest[i].role
                        == role_map(rest)[n];
                assert(entries[i].name == n && entries[i].role == role_map(entries)[n]);
            }
        }
    }
}

/// One guild's immutable mapping from course name to external role
/// identifier, loaded once; of two entries with the same name the
/// later one wins.
pub struct RoleMapping {
    entries: Vec<RoleEntry>,
}

impl View for RoleMapping {
    type V = Map<Seq<char>, u64>;

    closed spec fn view(&self) -> Map<Seq<char>, u64> {
        role_map(self.entries.deep_view())
    }
}

impl RoleMapping {
    #[verifier::type_invariant]
    spec fn wf(self) -> bool {
        unique_names(self.entries.deep_view())
    }

    /// Index a loaded sequence of mapping entries.
    pub fn new(entries: Vec<RoleEntry>) -> (mapping: RoleMapping)
        ensures
            mapping@ == role_map(entries.deep_view()),
    {
        let mut kept: Vec<RoleEntry> = Vec::new();
        let n = entries.len();
        let mut i: usize = 0;
        while i < n
            invariant
                i <= n,
                n == entries@.len(),
                unique_names(kept.deep_view()),
                role_map(kept.deep_view()) == role_map(entries.deep_view().take(i as int)),
            decreases n - i,
        {
            proof {
                assert(entries.deep_view().take(i + 1).drop_last() =~= entries.deep_view().take(
                    i as int,
                ));
                assert(entries.deep_view().take(i + 1).last() == entries.deep_view()[i as int]);
            }
            let entry = RoleEntry {
                course_name: entries[i].course_name.clone(),
                role_id: entries[i].role_id,
            };
            let m = kept.len();
            let mut j: usize = 0;
            let mut replaced = false;
            while j < m
                invariant
                    j <= m,
                    m == kept@.len(),
                    entry@ == entries.deep_view()[i as int],
                    !replaced ==> forall|l: int|
                        0 <= l < j ==> (#[trigger] kept.deep_view()[l]).name != entry@.name,
                    replaced ==> unique_names(kept.deep_view()) && role_map(kept.deep_view())
                        == role_map(entries.deep_view().take(i as int)).insert(
                        entry@.name,
                        entry@.role,
                    ),
                    !replaced ==> unique_names(kept.deep_view()) && role_map(kept.deep_view())
                        == role_map(entries.deep_view().take(i as int)),
                    m == kept@.len(),
                decreases m - j,
            {
                if !replaced && kept[j].course_name.eq(&entry.course_name) {
                    let ghost before = kept.deep_view();
                    proof {
                        lemma_role_map_update(before, j as int, entry@);
                    }
                    kept.set(j, RoleEntry {
                        course_name: entry.course_name.clone(),
                        role_id: entry.role_id,
                    });
                    replaced = true;
                    proof {
                        assert(kept.deep_view() =~= before.update(j as int, entry@));
                        assert(unique_names(kept.deep_view())) by {
                            assert(forall|a: int|
                                0 <= a < before.len() && a != j
                                    ==> (#[trigger] kept.deep_view()[a]) == before[a]);
                            assert(kept.deep_view()[j as int].name == before[j as int].name);
                        }
                    }
                }
                j = j + 1;
            }
            if !replaced {
                let ghost before = kept.deep_view();
                kept.push(entry);
                proof {
                    assert(kept.deep_view() =~= before.push(entries.deep_view()[i as int]));
                    assert(kept.deep_view().drop_last() =~= before);
                    assert(unique_names(kept.deep_view())) by {
                        assert(forall|a: int|
                            0 <= a < before.len() ==> (#[trigger] kept.deep_view()[a])
                                == before[a]);
                    }
                }
            }
            i = i + 1;
        }
        proof {
            assert(entries.deep_view().take(n as int) =~= entries.deep_view());
        }
        RoleMapping { entries: kept }
    }

    /// The role a course name grants, if the mapping holds the name.
    pub fn lookup(&self, name: &String) -> (role: Option<u64>)
        ensures
            match role {
                Some(r) => self@.contains_pair(name@, r),
                None => !self@.contains_key(name@),
            },
    {
        proof {
            use_type_invariant(self);
            lemma_role_map_entries(self.entries.deep_view());
        }
        let n = self.entries.len();
        let mut i: usize = 0;
        while i < n
            invariant
                i <= n,
                n == self.entries@.len(),
                forall|l: int|
                    0 <= l < i ==> (#[trigger] self.entries.deep_view()[l]).name != name@,
            decreases n - i,
        {
            if self.entries[i].course_name.eq(name) {
                proof {
                    use_type_invariant(self);
                    lemma_role_map_entries(self.entries.deep_view());
                    assert(self.entries.deep_view()[i as int] == self.entries@[i as int]@);
                    assert(self.entries.deep_view()[i as int].name == name@);
                    assert(self@.contains_pair(
                        self.entries.deep_view()[i as int].name,
                        self.entries.deep_view()[i as int].role,
                    ));
                }
                return Some(self.entries[i].role_id);
            }
            i = i + 1;
        }
        proof {
            if self@.contains_key(name@) {
                let l = choose|l: int|
                    0 <= l < self.entries.deep_view().len()
                        && (#[trigger] self.entries.deep_view()[l]).name == name@
                        && self.entries.deep_view()[l].role == self@[name@];
            }
        }
        None
    }

    /// Whether a role identifier belongs to this mapping's vocabulary:
    /// the set of roles the mapping can grant.
    pub fn contains_role(&self, role: u64) -> (found: bool)
        ensures
            found == self@.contains_value(role),
    {
        proof {
            use_type_invariant(self);
            lemma_role_map_entries(self.entries.deep_view());
        }
        let n = self.entries.len();
        let mut i: usize = 0;
        while i < n
            invariant
                i <= n,
                n == self.entries@.len(),
                forall|l: int|
                    0 <= l < i ==> (#[trigger] self.entries.deep_view()[l]).role != role,
            decreases n - i,
        {
            if self.entries[i].role_id == role {
                proof {
                    use_type_invariant(self);
                    lemma_role_map_entries(self.entries.deep_view());
                    assert(self.entries.deep_view()[i as int] == self.entries@[i as int]@);
                    assert(self@.contains_pair(
                        self.entries.deep_view()[i as int].name,
                        self.entries.deep_view()[i as int].role,
                    ));
                    assert(self@.dom().contains(self.entries.deep_view()[i as int].name));
                }
                return true;
            }
            i = i + 1;
        }
        proof {
            if self@.contains_value(role) {
                let k = choose|k: Seq<char>| #[trigger] self@.dom().contains(k) && self@[k] == role;
                let l = choose|l: int|
                    0 <= l < self.entries.deep_view().len()
                        && (#[trigger] self.entries.deep_view()[l]).name == k
                        && self.entries.deep_view()[l].role == self@[k];
            }
        }
        false
    }
}

/// The roles a resolved schedule earns under a mapping: the role of
/// each course whose name the mapping holds; duplicate names collapse
/// to one role.
pub open spec fn roles_of_courses(courses: Seq<CourseView>, m: Map<Seq<char>, u64>) -> Set<u64>
    decreases courses.len(),
{
    if courses.len() == 0 {
        Set::empty()
    } else {
        let rest = roles_of_courses(courses.drop_last(), m);
        match courses.last().name {
            Some(n) => if m.contains_key(n) {
                rest.insert(m[n])
            } else {
                rest
            },
            None => rest,
        }
    }
}

/// The roles a user's enrollment entitles them to.
pub open spec fn spec_intended_roles(
    cat: Map<i64, CourseView>,
    codes: Seq<i64>,
    m: Map<Seq<char>, u64>,
) -> Set<u64> {
    roles_of_courses(resolved_courses(cat, codes), m)
}

/// The user's currently held roles, restricted to the mapping's
/// vocabulary: roles outside it are never touched.
pub open spec fn spec_existing_roles(current: Seq<u64>, m: Map<Seq<char>, u64>) -> Set<u64> {
    current.to_set().intersect(m.values())
}

/// Every earned role lies in the mapping's vocabulary.
pub proof fn lemma_intended_in_vocabulary(courses: Seq<CourseView>, m: Map<Seq<char>, u64>)
    ensures
        forall|r: u64| roles_of_courses(courses, m).contains(r) ==> #[trigger] m.values().contains(
            r,
        ),
    decreases courses.len(),
{
    if courses.len() > 0 {
        lemma_intended_in_vocabulary(courses.drop_last(), m);
        match courses.last().name {
            Some(n) => {
                if m.contains_key(n) {
                    assert(m.contains_value(m[n])) by {
                        assert(m.dom().contains(n) && m[n] == m[n]);
                    }
                }
            },
            None => {},
        }
    }
}

/// The reconciler's answer: the roles to grant and the roles to
/// revoke, each without duplicates and mutually disjoint. Revokes are
/// applied before grants.
pub struct RoleChanges {
    pub to_add: Vec<u64>,
    pub to_revoke: Vec<u64>,
}

/// Whether a role list holds `role`.
fn ids_contain(roles: &Vec<u64>, role: u64) -> (found: bool)
    ensures
        found == roles@.contains(role),
{
    let n = roles.len();
    let mut i: usize = 0;
    while i < n
        invariant
            i <= n,
            n == roles@.len(),
            forall|j: int| 0 <= j < i ==> #[trigger] roles@[j] != role,
        decreases n - i,
    {
        if roles[i] == role {
            return true;
        }
        i = i + 1;
    }
    assert(!roles@.contains(role)) by {
        assert(forall|j: int| 0 <= j < roles@.len() ==> #[trigger] roles@[j] != role);
    }
    false
}

/// Pushing a fresh element keeps a list duplicate-free.
proof fn lemma_push_keeps_distinct(s: Seq<u64>, x: u64)
    requires
        s.no_duplicates(),
        !s.contains(x),
    ensures
        s.push(x).no_duplicates(),
        s.push(x).to_set() == s.to_set().insert(x),
{
    let pushed = s.push(x);
    assert forall|a: int, b: int| 0 <= a < b < pushed.len() implies pushed[a] != pushed[b] by {
        if b == s.len() {
            assert(pushed[a] == s[a]);
            assert(!s.contains(x));
            assert(s[a] != x);
        } else {
            assert(pushed[a] == s[a] && pushed[b] == s[b]);
        }
    }
    s.lemma_push_to_set_commute(x);
}

/// Compute the role changes a user's enrollment calls for: grant the
/// earned roles not yet held, revoke the held in-vocabulary roles no
/// longer earned. The two answers carry no duplicates and are
/// disjoint; roles outside the mapping's vocabulary appear in
/// neither.
pub fn reconcile_roles(
    catalog: &CourseCatalog,
    codes: &Vec<i64>,
    mapping: &RoleMapping,
    current_roles: &Vec<u64>,
) -> (changes: RoleChanges)
    ensures
        changes.to_add@.no_duplicates(),
        changes.to_revoke@.no_duplicates(),
        changes.to_add@.to_set() == spec_intended_roles(catalog@, codes@, mapping@).difference(
            spec_existing_roles(current_roles@, mapping@),
        ),
        changes.to_revoke@.to_set() == spec_existing_roles(current_roles@, mapping@).difference(
            spec_intended_roles(catalog@, codes@, mapping@),
        ),
        forall|r: u64| !(changes.to_add@.contains(r) && changes.to_revoke@.contains(r)),
{
    let mut intended: Vec<u64> = Vec::new();
    let n = codes.len();
    let mut i: usize = 0;
    while i < n
        invariant
            i <= n,
            n == codes@.len(),
            intended@.no_duplicates(),
            intended@.to_set() == spec_intended_roles(catalog@, codes@.take(i as int), mapping@),
        decreases n - i,
    {
        proof {
            assert(codes@.take(i + 1).drop_last() =~= codes@.take(i as int));
            assert(codes@.take(i + 1).last() == codes@[i as int]);
        }
        let ghost before_set = intended@.to_set();
        let ghost resolved_before = resolved_courses(catalog@, codes@.take(i as int));
        match catalog.get(codes[i]) {
            Some(course) => {
                let ghost course_view = course@;
                proof {
                    assert(resolved_courses(catalog@, codes@.take(i + 1)) =~= resolved_before.push(
                        course_view,
                    ));
                    assert(resolved_before.push(course_view).drop_last() =~= resolved_before);
                }
                match &course.name {
                    Some(name) => {
                        match mapping.lookup(name) {
                            Some(role) => {
                                if !ids_contain(&intended, role) {
                                    proof {
                                        lemma_push_keeps_distinct(intended@, role);
                                    }
                                    intended.push(role);
                                    proof {
                                        assert(intended@.to_set() =~= before_set.insert(role));
                                    }
                                } else {
                                    proof {
                                        assert(before_set.contains(role));
                                        assert(before_set.insert(role) =~= before_set);
                                    }
                                }
                            },
                            None => {},
                        }
                    },
                    None => {},
                }
            },
            None => {
                proof {
                    assert(resolved_courses(catalog@, codes@.take(i + 1)) =~= resolved_before);
                }
            },
        }
        i = i + 1;
    }
    proof {
        assert(codes@.take(n as int) =~= codes@);
    }
    let mut existing: Vec<u64> = Vec::new();
    let c = current_roles.len();
    let mut i: usize = 0;
    while i < c
        invariant
            i <= c,
            c == current_roles@.len(),
            existing@.no_duplicates(),
            existing@.to_set() == spec_existing_roles(current_roles@.take(i as int), mapping@),
        decreases c - i,
    {
        let ghost before_set = existing@.to_set();
        let ghost prior = current_roles@.take(i as int);
        proof {
            assert(current_roles@.take(i + 1) =~= prior.push(current_roles@[i as int]));
            prior.lemma_push_to_set_commute(current_roles@[i as int]);
        }
        let role = current_roles[i];
        if mapping.contains_role(role) {
            if !ids_contain(&existing, role) {
                proof {
                    lemma_push_keeps_distinct(existing@, role);
                }
                existing.push(role);
                proof {
                    assert(existing@.to_set() =~= prior.to_set().insert(role).intersect(
                        mapping@.values(),
                    ));
                }
            } else {
                proof {
                    assert(before_set =~= prior.to_set().insert(role).intersect(mapping@.values()));
                }
            }
        } else {
            proof {
                assert(before_set =~= prior.to_set().insert(role).intersect(mapping@.values()));
            }
        }
        i = i + 1;
    }
    proof {
        assert(current_roles@.take(c as int) =~= current_roles@);
    }
    let ghost intended_set = spec_intended_roles(catalog@, codes@, mapping@);
    let ghost existing_set = spec_existing_roles(current_roles@, mapping@);
    let mut to_add: Vec<u64> = Vec::new();
    let a = intended.len();
    let mut k: usize = 0;
    while k < a
        invariant
            k <= a,
            a == intended@.len(),
            intended@.no_duplicates(),
            existing@.to_set() == existing_set,
            to_add@.no_duplicates(),
            forall|x: u64|
                #[trigger] to_add@.contains(x) <==> (intended@.take(k as int).contains(x)
                    && !existing@.contains(x)),
        decreases a - k,
    {
        proof {
            assert(intended@.take(k + 1) =~= intended@.take(k as int).push(intended@[k as int]));
        }
        let role = intended[k];
        if !ids_contain(&existing, role) {
            proof {
                assert(!intended@.take(k as int).contains(role)) by {
                    assert(forall|l: int|
                        0 <= l < k ==> #[trigger] intended@.take(k as int)[l] != intended@[k as int]);
                }
                assert(!to_add@.contains(role));
                lemma_push_keeps_distinct(to_add@, role);
            }
            to_add.push(role);
        }
        k = k + 1;
    }
    proof {
        assert(intended@.take(a as int) =~= intended@);
    }
    let mut to_revoke: Vec<u64> = Vec::new();
    let e = existing.len();
    let mut k: usize = 0;
    while k < e
        invariant
            k <= e,
            e == existing@.len(),
            existing@.no_duplicates(),
            intended@.to_set() == intended_set,
            to_revoke@.no_duplicates(),
            forall|x: u64|
                #[trigger] to_revoke@.contains(x) <==> (existing@.take(k as int).contains(x)
                    && !intended@.contains(x)),
        decreases e - k,
    {
        proof {
            assert(existing@.take(k + 1) =~= existing@.take(k as int).push(existing@[k as int]));
        }
        let role = existing[k];
        if !ids_contain(&intended, role) {
            proof {
                assert(!existing@.take(k as int).contains(role)) by {
                    assert(forall|l: int|
                        0 <= l < k ==> #[trigger] existing@.take(k as int)[l] != existing@[k as int]);
                }
                assert(!to_revoke@.contains(role));
                lemma_push_keeps_distinct(to_revoke@, role);
            }
            to_revoke.push(role);
        }
        k = k + 1;
    }
    proof {
        assert(existing@.take(e as int) =~= existing@);
        assert(to_add@.to_set() =~= intended_set.difference(existing_set));
        assert(to_revoke@.to_set() =~= existing_set.difference(intended_set));
        assert forall|r: u64| !(to_add@.contains(r) && to_revoke@.contains(r)) by {
            if to_add@.contains(r) && to_revoke@.contains(r) {
                assert(existing_set.contains(r) && !existing_set.contains(r));
            }
        }
    }
    RoleChanges { to_add, to_revoke }
}

/// Reconciliation is idempotent: apply the computed changes to the
/// held roles — revoke what the answer revokes, grant what it grants
/// — and, with no enrollment change in between, a second
/// reconciliation computes two empty sets.
pub proof fn lemma_reconcile_idempotent(
    cat: Map<i64, CourseView>,
    codes: Seq<i64>,
    m: Map<Seq<char>, u64>,
    held: Set<u64>,
)
    ensures
        ({
            let intended = spec_intended_roles(cat, codes, m);
            let existing = held.intersect(m.values());
            let applied = held.difference(existing.difference(intended)).union(
                intended.difference(existing),
            );
            let existing_after = applied.intersect(m.values());
            intended.difference(existing_after) == Set::<u64>::empty()
                && existing_after.difference(intended) == Set::<u64>::empty()
        }),
{
    lemma_intended_in_vocabulary(resolved_courses(cat, codes), m);
    let intended = spec_intended_roles(cat, codes, m);
    let existing = held.intersect(m.values());
    let applied = held.difference(existing.difference(intended)).union(
        intended.difference(existing),
    );
    let existing_after = applied.intersect(m.values());
    assert forall|x: u64| existing_after.contains(x) <==> intended.contains(x) by {
        if intended.contains(x) {
            assert(m.values().contains(x));
        }
    }
    assert(existing_after =~= intended);
    assert(intended.difference(existing_after) =~= Set::<u64>::empty());
    assert(existing_after.difference(intended) =~= Set::<u64>::empty());
}

} // verus!
