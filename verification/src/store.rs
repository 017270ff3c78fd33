//! The enrollment and privacy stores: two durable key-value trees,
//! each keyed by the user's eight-byte big-endian identifier, holding
//! the engine-owned value formats. Reads never fail the caller:
//! absent, malformed or unreadable records degrade to an empty
//! enrollment or a public flag.

use vstd::prelude::*;
use crate::catalog::{CourseCatalog, CourseSession};
use crate::codec::{
    decode_enrollment, decode_privacy, encode_enrollment, encode_privacy, spec_codes_or_empty,
    spec_decode_privacy, spec_enrollment_bytes, spec_privacy_bytes, spec_uid_of_key, spec_user_key,
    uid_of_key, user_key,
};
use crate::overlap::schedule_sessions;
use crate::presence::{users_in_session, UserRecord};

verus! {

#[verifier::external_type_specification]
#[verifier::external_body]
pub struct ExDb(sled::Db);

/// The byte contents of one durable tree: the value each present key
/// holds.
pub uninterp spec fn db_contents(db: sled::Db) -> Map<Seq<u8>, Seq<u8>>;

/// A write to the durable medium failed. The operation is surfaced to
/// the caller as failed and is never retried automatically.
#[derive(Clone, Copy, Debug, PartialEq, Eq, Structural)]
pub struct StorageFailure;

/// Relies on sled::Tree::get: `Ok(Some(v))` is the value the tree
/// holds at the key, `Ok(None)` says the key is absent.
#[verifier::external_body]
fn db_get(db: &sled::Db, key: &Vec<u8>) -> (r: Result<Option<Vec<u8>>, StorageFailure>)
    ensures
        match r {
            Ok(Some(v)) => db_contents(*db).contains_key(key@) && v@ == db_contents(*db)[key@],
            Ok(None) => !db_contents(*db).contains_key(key@),
            Err(_) => true,
        },
{
    match db.get(key) {
        Ok(Some(ivec)) => Ok(Some(ivec.to_vec())),
        Ok(None) => Ok(None),
        Err(_) => Err(StorageFailure),
    }
}

/// Relies on sled::Tree::insert: on `Ok` the tree holds the value at
/// the key and every other key is unchanged.
#[verifier::external_body]
fn db_insert(db: &mut sled::Db, key: Vec<u8>, value: Vec<u8>) -> (r: Result<(), StorageFailure>)
    ensures
        r is Ok ==> db_contents(*final(db)) == db_contents(*old(db)).insert(key@, value@),
{
    match db.insert(key, value) {
        Ok(_) => Ok(()),
        Err(_) => Err(StorageFailure),
    }
}

/// Relies on sled::Tree::remove: on `Ok` the key is absent, every
/// other key is unchanged, and the returned value is what the key
/// held, if anything.
#[verifier::external_body]
fn db_remove(db: &mut sled::Db, key: &Vec<u8>) -> (r: Result<Option<Vec<u8>>, StorageFailure>)
    ensures
        match r {
            Ok(prev) => db_contents(*final(db)) == db_contents(*old(db)).remove(key@) && match prev {
                Some(v) => db_contents(*old(db)).contains_key(key@) && v@ == db_contents(*old(db))[key@],
                None => !db_contents(*old(db)).contains_key(key@),
            },
            Err(_) => true,
        },
{
    match db.remove(key) {
        Ok(Some(ivec)) => Ok(Some(ivec.to_vec())),
        Ok(None) => Ok(None),
        Err(_) => Err(StorageFailure),
    }
}

/// Relies on sled::Tree::iter: every yielded pair is a pair of the
/// tree and no key comes twice. A pair whose read fails is skipped,
/// as the scan treats it.
#[verifier::external_body]
fn db_entries(db: &sled::Db) -> (entries: Vec<(Vec<u8>, Vec<u8>)>)
    ensures
        forall|i: int|
            0 <= i < entries@.len() ==> db_contents(*db).contains_pair(
                (#[trigger] entries@[i]).0@,
                entries@[i].1@,
            ),
        forall|i: int, j: int|
            0 <= i < j < entries@.len() ==> (#[trigger] entries@[i]).0@ != (
            #[trigger] entries@[j]).0@,
{
    let mut out: Vec<(Vec<u8>, Vec<u8>)> = Vec::new();
    for pair in db.iter() {
        if let Ok((key, value)) = pair {
            out.push((key.to_vec(), value.to_vec()));
        }
    }
    out
}

/// Enrollments longer than this are truncated when stored.
pub const ENROLLMENT_CAP: usize = 10;

/// What the write path keeps of a code list: the first ten codes, in
/// their original order.
pub open spec fn spec_capped_codes(codes: Seq<i64>) -> Seq<i64> {
    if codes.len() <= 10 {
        codes
    } else {
        codes.take(10)
    }
}

/// The two durable stores — enrollment and privacy — behind one
/// interface.
pub struct Store {
    users: sled::Db,
    privacy: sled::Db,
}

impl Store {
    /// The enrollment tree's byte contents.
    pub closed spec fn enrollment(self) -> Map<Seq<u8>, Seq<u8>> {
        db_contents(self.users)
    }

    /// The privacy tree's byte contents.
    pub closed spec fn privacy_flags(self) -> Map<Seq<u8>, Seq<u8>> {
        db_contents(self.privacy)
    }

    /// The code list stored for a user; a missing or malformed record
    /// reads as empty.
    pub open spec fn spec_enrollment_of(self, user_id: u64) -> Seq<i64> {
        if self.enrollment().contains_key(spec_user_key(user_id)) {
            spec_codes_or_empty(self.enrollment()[spec_user_key(user_id)])
        } else {
            Seq::empty()
        }
    }

    /// Whether a user is marked private: a stored `true`; an absent
    /// or malformed record reads as public.
    pub open spec fn spec_private(self, user_id: u64) -> bool {
        self.privacy_flags().contains_key(spec_user_key(user_id)) && spec_decode_privacy(
            self.privacy_flags()[spec_user_key(user_id)],
        ) == Some(true)
    }

    /// Wrap two opened trees, the enrollment one and the privacy one.
    pub fn new(user_db: sled::Db, privacy_db: sled::Db) -> (store: Store)
        ensures
            store.enrollment() == db_contents(user_db),
            store.privacy_flags() == db_contents(privacy_db),
    {
        Store { users: user_db, privacy: privacy_db }
    }

    /// Replace a user's enrollment with the first ten of the given
    /// codes, in order: the cap is write-path policy. On `Ok` the
    /// stored record reads back as exactly those codes; on a failed
    /// write the operation had no promised effect.
    pub fn set_enrollment(&mut self, user_id: u64, codes: &Vec<i64>) -> (r: Result<
        (),
        StorageFailure,
    >)
        ensures
            r is Ok ==> final(self).enrollment() == old(self).enrollment().insert(
                spec_user_key(user_id),
                spec_enrollment_bytes(spec_capped_codes(codes@)),
            ),
            r is Ok ==> final(self).spec_enrollment_of(user_id) == spec_capped_codes(codes@),
            final(self).privacy_flags() == old(self).privacy_flags(),
    {
        let limit = if codes.len() < ENROLLMENT_CAP {
            codes.len()
        } else {
            ENROLLMENT_CAP
        };
        let mut kept: Vec<i64> = Vec::new();
        let mut i: usize = 0;
        while i < limit
            invariant
                i <= limit,
                limit <= codes@.len(),
                kept@ == codes@.take(i as int),
            decreases limit - i,
        {
            kept.push(codes[i]);
            proof {
                assert(codes@.take(i + 1) =~= codes@.take(i as int).push(codes@[i as int]));
            }
            i = i + 1;
        }
        proof {
            assert(kept@ =~= spec_capped_codes(codes@));
        }
        let value = encode_enrollment(&kept);
        let key = user_key(user_id);
        let r = db_insert(&mut self.users, key, value);
        proof {
            if r is Ok {
                crate::codec::lemma_enrollment_round_trip(spec_capped_codes(codes@));
            }
        }
        r
    }

    /// Read a user's enrollment record, if one is stored: `None` is
    /// an absent record (or one the medium would not hand back); a
    /// present but malformed record degrades to `Some` of the empty
    /// list rather than failing the caller.
    pub fn enrollment_record(&self, user_id: u64) -> (record: Option<Vec<i64>>)
        ensures
            !self.enrollment().contains_key(spec_user_key(user_id)) ==> record is None,
            match record {
                Some(codes) => self.enrollment().contains_key(spec_user_key(user_id)) && (codes@
                    == self.spec_enrollment_of(user_id) || codes@ == Seq::<i64>::empty()),
                None => true,
            },
    {
        let key = user_key(user_id);
        match db_get(&self.users, &key) {
            Ok(Some(bytes)) => match decode_enrollment(&bytes) {
                Some(codes) => Some(codes),
                None => Some(Vec::new()),
            },
            _ => None,
        }
    }

    /// Read a user's enrollment. An absent key reads as empty; a
    /// malformed record, or a read the medium fails, degrades to
    /// empty rather than failing the caller.
    pub fn get_enrollment(&self, user_id: u64) -> (codes: Vec<i64>)
        ensures
            codes@ == self.spec_enrollment_of(user_id) || codes@ == Seq::<i64>::empty(),
            !self.enrollment().contains_key(spec_user_key(user_id)) ==> codes@ == Seq::<
                i64,
            >::empty(),
    {
        match self.enrollment_record(user_id) {
            Some(codes) => codes,
            None => Vec::new(),
        }
    }

    /// Delete a user's enrollment; true exactly when a record existed
    /// and was removed.
    pub fn delete_enrollment(&mut self, user_id: u64) -> (removed: bool)
        ensures
            removed ==> old(self).enrollment().contains_key(spec_user_key(user_id))
                && final(self).enrollment() == old(self).enrollment().remove(
                spec_user_key(user_id),
            ),
            !old(self).enrollment().contains_key(spec_user_key(user_id)) ==> !removed,
            final(self).privacy_flags() == old(self).privacy_flags(),
    {
        let key = user_key(user_id);
        match db_remove(&mut self.users, &key) {
            Ok(Some(_)) => true,
            _ => false,
        }
    }

    /// Whether a user hides their schedule. Only a stored `true`
    /// answers true; an absent record, a malformed one, or a read the
    /// medium fails all read as public.
    pub fn is_private(&self, user_id: u64) -> (private: bool)
        ensures
            private ==> self.spec_private(user_id),
            !self.privacy_flags().contains_key(spec_user_key(user_id)) ==> !private,
    {
        let key = user_key(user_id);
        match db_get(&self.privacy, &key) {
            Ok(Some(bytes)) => match decode_privacy(&bytes) {
                Some(private) => private,
                None => false,
            },
            _ => false,
        }
    }

    /// Set a user's privacy flag. On `Ok` the flag reads back as set.
    pub fn set_privacy(&mut self, user_id: u64, private: bool) -> (r: Result<(), StorageFailure>)
        ensures
            r is Ok ==> final(self).privacy_flags() == old(self).privacy_flags().insert(
                spec_user_key(user_id),
                spec_privacy_bytes(private),
            ),
            r is Ok ==> final(self).spec_private(user_id) == private,
            final(self).enrollment() == old(self).enrollment(),
    {
        let value = encode_privacy(private);
        let key = user_key(user_id);
        db_insert(&mut self.privacy, key, value)
    }

    /// Scan every stored enrollment and list the users whose resolved
    /// schedule holds an exact match for `session` and whose privacy
    /// flag read as off. Every listed user comes from a stored record
    /// whose decoded codes reach the session through the catalog.
    pub fn find_users(&self, catalog: &CourseCatalog, session: &CourseSession) -> (users: Vec<u64>)
        ensures
            forall|j: int|
                0 <= j < users@.len() ==> exists|k: Seq<u8>|
                    #[trigger] self.enrollment().contains_key(k) && spec_uid_of_key(k) == (
                    #[trigger] users@[j]) && schedule_sessions(
                        catalog@,
                        spec_codes_or_empty(self.enrollment()[k]),
                    ).contains(session@),
    {
        let entries = db_entries(&self.users);
        let mut records: Vec<UserRecord> = Vec::new();
        let n = entries.len();
        let mut i: usize = 0;
        while i < n
            invariant
                i <= n,
                n == entries@.len(),
                records.deep_view().len() == i,
                forall|l: int|
                    0 <= l < entries@.len() ==> self.enrollment().contains_pair(
                        (#[trigger] entries@[l]).0@,
                        entries@[l].1@,
                    ),
                forall|l: int|
                    0 <= l < i ==> (#[trigger] records.deep_view()[l]).user_id == spec_uid_of_key(
                        entries@[l].0@,
                    ) && records.deep_view()[l].codes == spec_codes_or_empty(entries@[l].1@),
            decreases n - i,
        {
            let user_id = uid_of_key(&entries[i].0);
            let hidden = self.is_private(user_id);
            let codes = match decode_enrollment(&entries[i].1) {
                Some(codes) => codes,
                None => Vec::new(),
            };
            let ghost before = records.deep_view();
            records.push(UserRecord { user_id, codes, hidden });
            proof {
                assert(records.deep_view() =~= before.push(
                    UserRecord { user_id, codes, hidden }@,
                ));
            }
            i = i + 1;
        }
        let users = users_in_session(catalog, &records, session);
        proof {
            crate::presence::lemma_presence_respects_privacy(
                catalog@,
                records.deep_view(),
                session@,
            );
            assert forall|j: int| 0 <= j < users@.len() implies exists|k: Seq<u8>|
                #[trigger] self.enrollment().contains_key(k) && spec_uid_of_key(k) == (
                #[trigger] users@[j]) && schedule_sessions(
                    catalog@,
                    spec_codes_or_empty(self.enrollment()[k]),
                ).contains(session@) by {
                let l = choose|l: int|
                    0 <= l < records.deep_view().len() && (#[trigger] records.deep_view()[l]).user_id
                        == users@[j] && !records.deep_view()[l].hidden && schedule_sessions(
                        catalog@,
                        records.deep_view()[l].codes,
                    ).contains(session@);
                assert(self.enrollment().contains_pair(entries@[l].0@, entries@[l].1@));
                assert(self.enrollment().contains_key(entries@[l].0@));
            }
        }
        users
    }
}

} // verus!
