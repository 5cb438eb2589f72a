use vstd::prelude::*;
use crate::errors::StorageError;

verus! {

/// The durable metadata index: an embedded key-value store backed by a
/// `sled::Db`, keyed by content identity (metadata records) and by
/// `session:<id>` (snapshot path lists).
#[verifier::external_body]
pub struct MetaDb {
    db: sled::Db,
}

/// The key-value pairs the store currently holds.
pub uninterp spec fn db_view(m: MetaDb) -> Map<Seq<u8>, Seq<u8>>;

impl MetaDb {
    /// Relies on `sled::open`: opens (creating if missing) the database at
    /// the given path.  What an existing database holds is unknown here;
    /// the caller scans it.
    #[verifier::external_body]
    pub(crate) fn open(path: &str) -> (r: Result<MetaDb, StorageError>)
        ensures
            r matches Ok(m) ==> db_view(m).dom().finite(),
            r matches Err(e) ==> e == StorageError::IndexError,
    {
        match sled::open(path) {
            Ok(db) => Ok(MetaDb { db }),
            Err(_) => Err(StorageError::IndexError),
        }
    }

    /// Relies on sled's `Tree::contains_key`.
    #[verifier::external_body]
    pub(crate) fn contains(&self, key: &[u8]) -> (r: Result<bool, StorageError>)
        ensures
            r matches Ok(b) ==> b == db_view(*self).contains_key(key@),
            r matches Err(e) ==> e == StorageError::IndexError,
    {
        self.db.contains_key(key).map_err(|_| StorageError::IndexError)
    }

    /// Relies on sled's `Tree::get`: the value mapped to the key, if any.
    #[verifier::external_body]
    pub(crate) fn get(&self, key: &[u8]) -> (r: Result<Option<Vec<u8>>, StorageError>)
        ensures
            r matches Ok(Some(v)) ==> db_view(*self).contains_key(key@) && v@ == db_view(
                *self,
            )[key@],
            r matches Ok(None) ==> !db_view(*self).contains_key(key@),
            r matches Err(e) ==> e == StorageError::IndexError,
    {
        match self.db.get(key) {
            Ok(v) => Ok(v.map(|iv| iv.to_vec())),
            Err(_) => Err(StorageError::IndexError),
        }
    }

    /// Relies on sled's `Tree::insert`: maps the key to the new value.  On an
    /// I/O error the tree is left as it was.
    #[verifier::external_body]
    pub(crate) fn insert(&mut self, key: &[u8], value: &[u8]) -> (r: Result<(), StorageError>)
        ensures
            r matches Ok(u) ==> db_view(*final(self)) == db_view(*old(self)).insert(key@, value@),
            r matches Err(e) ==> e == StorageError::IndexError && db_view(*final(self)) == db_view(
                *old(self),
            ),
    {
        match self.db.insert(key, value) {
            Ok(_) => Ok(()),
            Err(_) => Err(StorageError::IndexError),
        }
    }

    /// Relies on sled's `Tree::iter`: yields every key-value pair exactly
    /// once, with no key repeated.
    #[verifier::external_body]
    pub(crate) fn scan(&self) -> (r: Result<Vec<(Vec<u8>, Vec<u8>)>, StorageError>)
        ensures
            r matches Ok(entries) ==> {
                &&& forall|i: int|
                    0 <= i < entries@.len() ==> db_view(*self).contains_pair(
                        #[trigger] entries@[i].0@,
                        entries@[i].1@,
                    )
                &&& forall|k: Seq<u8>|
                    db_view(*self).dom().contains(k) ==> exists|i: int|
                        0 <= i < entries@.len() && #[trigger] entries@[i].0@ == k
                &&& forall|i: int, j: int|
                    0 <= i < entries@.len() && 0 <= j < entries@.len() && i != j
                        ==> #[trigger] entries@[i].0@ != #[trigger] entries@[j].0@
            },
            r matches Err(e) ==> e == StorageError::IndexError,
    {
        let all: Result<Vec<_>, _> = self.db.iter().collect();
        match all {
            Ok(pairs) => Ok(
                pairs.into_iter().map(|(k, v): (sled::IVec, sled::IVec)| (k.to_vec(), v.to_vec())).collect(),
            ),
            Err(_) => Err(StorageError::IndexError),
        }
    }
}

} // verus!
