use vstd::prelude::*;
use vstd::string::StringSliceAdditionalSpecFns;
use crate::errors::StorageError;

verus! {

/// In-memory probabilistic set of known content identities, backed by
/// bloomfilter's `Bloom<str>`.  It answers "definitely absent" or "maybe
/// present" without touching the durable index.
#[verifier::external_body]
pub struct BloomFilter {
    inner: bloomfilter::Bloom<str>,
}

/// The identities that have actually been marked in the filter.
pub uninterp spec fn bloom_marked(b: BloomFilter) -> Set<Seq<u8>>;

impl BloomFilter {
    /// Relies on bloomfilter's `Bloom::new`: a fresh filter of the given
    /// bitmap size (bytes) holds nothing.  `new` panics on a zero size,
    /// which the requires leaves out, and fails only when no random seed
    /// can be drawn from the machine.
    #[verifier::external_body]
    pub(crate) fn new(bitmap_bytes: usize, items: usize) -> (r: Result<BloomFilter, StorageError>)
        requires
            bitmap_bytes > 0,
            items > 0,
        ensures
            r matches Ok(f) ==> bloom_marked(f) =~= Set::empty(),
            r matches Err(e) ==> e == StorageError::IoError,
    {
        match bloomfilter::Bloom::new(bitmap_bytes, items) {
            Ok(inner) => Ok(BloomFilter { inner }),
            Err(_) => Err(StorageError::IoError),
        }
    }

    /// Relies on bloomfilter's `Bloom::set`: records the presence of an item.
    #[verifier::external_body]
    pub(crate) fn mark(&mut self, item: &str)
        ensures
            bloom_marked(*final(self)) == bloom_marked(*old(self)).insert(item.spec_bytes()),
    {
        self.inner.set(item);
    }

    /// Relies on bloomfilter's `Bloom::check`: false negatives never occur
    /// for items the filter has marked; a positive may be spurious.
    #[verifier::external_body]
    pub(crate) fn maybe_contains(&self, item: &str) -> (r: bool)
        ensures
            bloom_marked(*self).contains(item.spec_bytes()) ==> r,
    {
        self.inner.check(item)
    }
}

} // verus!
