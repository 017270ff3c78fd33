//! The presence index: a full scan over the stored enrollments that
//! lists every non-private user whose resolved schedule holds an exact
//! match for a given session.

use vstd::prelude::*;
use crate::catalog::{CourseCatalog, CourseSession, CourseView, SessionView};
use crate::overlap::{schedule_sessions, sessions_contain, sessions_of_codes};

verus! {

/// One scanned store record: a user, their stored codes, and their
/// privacy flag.
pub struct UserRecord {
    pub user_id: u64,
    pub codes: Vec<i64>,
    pub hidden: bool,
}

/// Mathematical image of a [`UserRecord`].
pub ghost struct RecordView {
    pub user_id: u64,
    pub codes: Seq<i64>,
    pub hidden: bool,
}

impl View for UserRecord {
    type V = RecordView;

    open spec fn view(&self) -> RecordView {
        RecordView { user_id: self.user_id, codes: self.codes@, hidden: self.hidden }
    }
}

impl DeepView for UserRecord {
    type V = RecordView;

    open spec fn deep_view(&self) -> RecordView {
        self.view()
    }
}

/// Whether a record belongs in the answer: the user is not private
/// and their whole session set holds the session exactly.
pub open spec fn spec_record_matches(
    cat: Map<i64, CourseView>,
    record: RecordView,
    session: SessionView,
) -> bool {
    !record.hidden && schedule_sessions(cat, record.codes).contains(session)
}

/// The users a scan of `records` lists for `session`, in scan order.
pub open spec fn spec_users_in_session(
    cat: Map<i64, CourseView>,
    records: Seq<RecordView>,
    session: SessionView,
) -> Seq<u64>
    decreases records.len(),
{
    if records.len() == 0 {
        Seq::empty()
    } else {
        let rest = spec_users_in_session(cat, records.drop_last(), session);
        if spec_record_matches(cat, records.last(), session) {
            rest.push(records.last().user_id)
        } else {
            rest
        }
    }
}

/// List every user of `records` that is not private and whose
/// resolved schedule holds an exact match for `session`, as
/// [`spec_users_in_session`] describes it.
pub fn users_in_session(
    catalog: &CourseCatalog,
    records: &Vec<UserRecord>,
    session: &CourseSession,
) -> (users: Vec<u64>)
    ensures
        users@ == spec_users_in_session(catalog@, records.deep_view(), session@),
{
    let mut users: Vec<u64> = Vec::new();
    let n = records.len();
    let mut i: usize = 0;
    while i < n
        invariant
            i <= n,
            n == records@.len(),
            users@ == spec_users_in_session(
                catalog@,
                records.deep_view().take(i as int),
                session@,
            ),
        decreases n - i,
    {
        proof {
            assert(records.deep_view().take(i + 1).drop_last() =~= records.deep_view().take(
                i as int,
            ));
            assert(records.deep_view().take(i + 1).last() == records.deep_view()[i as int]);
        }
        let record = &records[i];
        if !record.hidden {
            let sessions = sessions_of_codes(catalog, &record.codes);
            if sessions_contain(&sessions, session) {
                users.push(record.user_id);
            }
        }
        i = i + 1;
    }
    proof {
        assert(records.deep_view().take(n as int) =~= records.deep_view());
    }
    users
}

/// Whether some scanned record explains listing user `u`: the record
/// is the user's, its privacy flag is off, and its session set holds
/// the session.
pub open spec fn spec_listed_user_ok(
    cat: Map<i64, CourseView>,
    records: Seq<RecordView>,
    session: SessionView,
    u: u64,
) -> bool {
    exists|i: int|
        0 <= i < records.len() && (#[trigger] records[i]).user_id == u && !records[i].hidden
            && schedule_sessions(cat, records[i].codes).contains(session)
}

/// The presence answer never lists a private user: every listed user
/// comes from a scanned record whose privacy flag is off and whose
/// session set holds the session.
pub proof fn lemma_presence_respects_privacy(
    cat: Map<i64, CourseView>,
    records: Seq<RecordView>,
    session: SessionView,
)
    ensures
        forall|j: int|
            0 <= j < spec_users_in_session(cat, records, session).len()
                ==> spec_listed_user_ok(
                cat,
                records,
                session,
                #[trigger] spec_users_in_session(cat, records, session)[j],
            ),
    decreases records.len(),
{
    if records.len() > 0 {
        lemma_presence_respects_privacy(cat, records.drop_last(), session);
        let users = spec_users_in_session(cat, records, session);
        let rest = spec_users_in_session(cat, records.drop_last(), session);
        assert forall|j: int| 0 <= j < users.len() implies spec_listed_user_ok(
            cat,
            records,
            session,
            #[trigger] users[j],
        ) by {
            if j < rest.len() {
                assert(users[j] == rest[j]);
                assert(spec_listed_user_ok(cat, records.drop_last(), session, rest[j]));
                let i = choose|i: int|
                    0 <= i < records.drop_last().len() && (#[trigger] records.drop_last()[i]).user_id
                        == rest[j] && !records.drop_last()[i].hidden && schedule_sessions(
                        cat,
                        records.drop_last()[i].codes,
                    ).contains(session);
                assert(records[i] == records.drop_last()[i]);
            } else {
                assert(spec_record_matches(cat, records.last(), session));
                assert(records[records.len() - 1] == records.last());
                assert(users[j] == records.last().user_id);
            }
        }
    }
}

} // verus!
