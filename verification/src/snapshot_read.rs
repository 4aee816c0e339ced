//! Reads at a snapshot: each goes to the column family at the sequence that
//! the handle pins, and at no other.

use vstd::prelude::*;

use crate::db::DB;
use crate::encoding::append_slice;
use crate::error::OndaError;
use crate::snapshot::SnapshotHandle;

verus! {

/// Where a range of keys begins or ends.
#[derive(Debug, Clone, Copy)]
pub enum KeyBound<'a> {
    Included(&'a [u8]),
    Excluded(&'a [u8]),
    Unbounded,
}

/// A column family, as reads see it.
pub trait ReadAt: Sized {
    /// A walk over the keys.
    type Iter;

    /// The value of a key as of a sequence.
    fn get(&self, key: &[u8], seq: u64) -> Result<Vec<u8>, OndaError>;

    /// The values of some keys as of a sequence.
    fn multi_get(&self, keys: &[&[u8]], seq: u64) -> Vec<Result<Vec<u8>, OndaError>>;

    /// A walk as of a sequence.
    fn iter(&self, seq: u64, lower: KeyBound<'_>, upper: KeyBound<'_>) -> Self::Iter;

    /// A walk that stands nowhere from the start, for a reason.
    fn failed(&self, error: OndaError) -> Self::Iter;
}

/// What appending a value to a buffer comes to, by how the read of it ended.
pub open spec fn appended(read: Result<Vec<u8>, OndaError>, before: Seq<u8>, after: Seq<u8>, r: Result<usize, OndaError>) -> bool {
    match read {
        Ok(v) => r is Ok && r->Ok_0 == v@.len() && after == before + v@,
        Err(e) => r is Err && r->Err_0 == e && after == before,
    }
}

impl SnapshotHandle {
    /// The value of a key as of the snapshot.
    pub fn get<R: ReadAt>(&self, cf: &R, key: &[u8]) -> (r: Result<Vec<u8>, OndaError>)
        ensures
            is_read_of(cf, key, *self, r),
    {
        cf.get(key, self.seq())
    }

    /// Append the value of a key as of the snapshot to a buffer; how long it is.
    /// A read that fails leaves the buffer as it was.
    pub fn get_into<R: ReadAt>(&self, cf: &R, key: &[u8], buf: &mut Vec<u8>) -> (r: Result<usize, OndaError>)
        ensures
            exists|read: Result<Vec<u8>, OndaError>| #[trigger]
                call_ensures(R::get, (cf, key, self.at()), read) && appended(read, old(buf)@, final(buf)@, r),
    {
        let read = cf.get(key, self.seq());
        let ghost given = read;
        match read {
            Ok(v) => {
                append_slice(buf, v.as_slice());
                let n = v.len();
                assert(appended(given, old(buf)@, buf@, Ok(n)));
                Ok(n)
            },
            Err(e) => Err(e),
        }
    }

    /// The values of some keys as of the snapshot.
    pub fn multi_get<R: ReadAt>(&self, cf: &R, keys: &[&[u8]]) -> (r: Vec<Result<Vec<u8>, OndaError>>)
        ensures
            call_ensures(R::multi_get, (cf, keys, self.at()), r),
    {
        cf.multi_get(keys, self.seq())
    }

    /// A walk over the keys between two bounds as of the snapshot.
    pub fn new_iterator_bounded<'a, R: ReadAt>(&self, cf: &R, lower: KeyBound<'a>, upper: KeyBound<'a>) -> (r: R::Iter)
        ensures
            call_ensures(R::iter, (cf, self.at(), lower, upper), r),
    {
        cf.iter(self.seq(), lower, upper)
    }

    /// A walk over all keys as of the snapshot.
    pub fn new_iterator<R: ReadAt>(&self, cf: &R) -> (r: R::Iter)
        ensures
            call_ensures(R::iter, (cf, self.at(), KeyBound::Unbounded, KeyBound::Unbounded), r),
    {
        self.new_iterator_bounded(cf, KeyBound::Unbounded, KeyBound::Unbounded)
    }
}

/// Whether a column family has one answer alone to the question for a key as
/// of a sequence.
pub open spec fn has_one_answer<R: ReadAt>(cf: &R, key: &[u8], seq: u64) -> bool {
    forall|a: Result<Vec<u8>, OndaError>, b: Result<Vec<u8>, OndaError>| #[trigger]
        call_ensures(R::get, (cf, key, seq), a) && #[trigger] call_ensures(R::get, (cf, key, seq), b) ==> a == b
}

/// What a read through the database gives at a snapshot.
pub open spec fn is_read_at<R: ReadAt>(db: DB, cf: &R, key: &[u8], snapshot: SnapshotHandle, r: Result<Vec<u8>, OndaError>) -> bool {
    if snapshot.owner() == db.id {
        is_read_of(cf, key, snapshot, r)
    } else {
        r is Err && r->Err_0 is InvalidArgs
    }
}

/// What a read through a snapshot gives.
pub open spec fn is_read_of<R: ReadAt>(cf: &R, key: &[u8], snapshot: SnapshotHandle, r: Result<Vec<u8>, OndaError>) -> bool {
    call_ensures(R::get, (cf, key, snapshot.at()), r)
}

/// A read through the database at a snapshot of its own may give what the read
/// through the snapshot may give, and nothing else: where the column family has
/// one answer, the two are equal. A snapshot of another database is refused for
/// every family and key.
pub proof fn lemma_reads_agree<R: ReadAt>(db: DB, cf: &R, key: &[u8], snapshot: SnapshotHandle)
    ensures
        snapshot.owner() == db.id ==> forall|r: Result<Vec<u8>, OndaError>| #[trigger]
            is_read_at(db, cf, key, snapshot, r) <==> is_read_of(cf, key, snapshot, r),
        snapshot.owner() == db.id && has_one_answer(cf, key, snapshot.at()) ==> forall|a: Result<Vec<u8>, OndaError>, b: Result<Vec<u8>, OndaError>| #[trigger]
            is_read_at(db, cf, key, snapshot, a) && #[trigger] is_read_of(cf, key, snapshot, b) ==> a == b,
        snapshot.owner() != db.id ==> forall|r: Result<Vec<u8>, OndaError>| #[trigger]
            is_read_at(db, cf, key, snapshot, r) ==> r is Err && r->Err_0 is InvalidArgs,
{
}

impl DB {
    /// The value of a key as of a snapshot of this database; one of another
    /// database is refused.
    pub fn get_at<R: ReadAt>(&self, cf: &R, key: &[u8], snapshot: &SnapshotHandle) -> (r: Result<Vec<u8>, OndaError>)
        ensures
            is_read_at(*self, cf, key, *snapshot, r),
    {
        snapshot.check_owner(self)?;
        snapshot.get(cf, key)
    }

    /// A walk as of a snapshot of this database. One of another database gives
    /// a walk that fails from the start.
    pub fn new_iterator_at<'a, R: ReadAt>(&self, cf: &R, snapshot: &SnapshotHandle, lower: KeyBound<'a>, upper: KeyBound<'a>) -> (r: R::Iter)
        ensures
            snapshot.owner() == self.id ==> call_ensures(R::iter, (cf, snapshot.at(), lower, upper), r),
            snapshot.owner() != self.id ==> exists|e: OndaError| e is InvalidArgs && #[trigger] call_ensures(R::failed, (cf, e), r),
    {
        match snapshot.check_owner(self) {
            Ok(()) => snapshot.new_iterator_bounded(cf, lower, upper),
            Err(e) => cf.failed(e),
        }
    }
}

/// A read into a buffer adds the value behind what is there and tells how long
/// it is; one that fails leaves the buffer alone and tells why.
pub proof fn lemma_read_adds_to_the_buffer(read: Result<Vec<u8>, OndaError>, before: Seq<u8>, after: Seq<u8>, r: Result<usize, OndaError>)
    requires
        appended(read, before, after, r),
    ensures
        before.is_prefix_of(after),
        read matches Ok(v) ==> (r matches Ok(n) && n == v@.len() && after.len() == before.len() + n && after.skip(before.len() as int) == v@),
        read matches Err(e) ==> r == Err::<usize, OndaError>(e) && after == before,
{
    assert(before =~= after.subrange(0, before.len() as int));
    if let Ok(v) = read {
        assert(after.skip(before.len() as int) =~= v@);
    }
}

} // verus!
