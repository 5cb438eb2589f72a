use vstd::prelude::*;

verus! {

/// Bounded in-memory map from content identity to raw (decompressed) bytes,
/// backed by a `dashmap::DashMap` so concurrent callers on unrelated keys do
/// not serialize on one global lock.
#[verifier::external_body]
pub struct HotCache {
    inner: dashmap::DashMap<String, Vec<u8>>,
}

/// What the cache currently holds: identity to raw payload bytes.
pub uninterp spec fn cache_view(c: HotCache) -> Map<Seq<char>, Seq<u8>>;

impl HotCache {
    /// Relies on dashmap's `DashMap::new`: a fresh map holds nothing.
    #[verifier::external_body]
    pub(crate) fn new() -> (r: HotCache)
        ensures
            cache_view(r) =~= Map::empty(),
    {
        HotCache { inner: dashmap::DashMap::new() }
    }

    /// Relies on dashmap's `DashMap::insert`: maps the key to the new value.
    #[verifier::external_body]
    pub(crate) fn insert(&mut self, key: &str, value: Vec<u8>)
        ensures
            cache_view(*final(self)) == cache_view(*old(self)).insert(key@, value@),
    {
        self.inner.insert(key.to_owned(), value);
    }

    /// Relies on dashmap's `DashMap::get`: returns the value mapped to the
    /// key, if any, copied out of the map.
    #[verifier::external_body]
    pub(crate) fn get(&self, key: &str) -> (r: Option<Vec<u8>>)
        ensures
            match r {
                Some(v) => cache_view(*self).contains_key(key@) && v@ == cache_view(*self)[key@],
                None => !cache_view(*self).contains_key(key@),
            },
    {
        self.inner.get(key).map(|v| v.clone())
    }

    /// Relies on dashmap's `DashMap::len`: the number of entries held.
    #[verifier::external_body]
    pub(crate) fn len(&self) -> (r: usize)
        requires
            cache_view(*self).dom().finite(),
        ensures
            r == cache_view(*self).dom().len(),
    {
        self.inner.len()
    }

    /// Relies on dashmap's `DashMap::iter` and `DashMap::remove`: removes one
    /// arbitrary entry; which entry leaves is unspecified.
    #[verifier::external_body]
    pub(crate) fn evict_one(&mut self)
        ensures
            cache_view(*old(self)).dom().is_empty() ==> cache_view(*final(self)) == cache_view(
                *old(self),
            ),
            !cache_view(*old(self)).dom().is_empty() ==> exists|k: Seq<char>|
                cache_view(*old(self)).contains_key(k) && cache_view(*final(self)) == cache_view(
                    *old(self),
                ).remove(k),
    {
        let victim = self.inner.iter().next().map(|e| e.key().clone());
        if let Some(k) = victim {
            self.inner.remove(&k);
        }
    }
}

} // verus!
