use vstd::prelude::*;
use crate::hashing::{spec_identity, spec_identity_key};
use crate::storage::{StoreModel, new_store_post, dup_store_post, retrieve_value, bump_rc,
    size_sum, csize_sum, lemma_sums_insert, lemma_sums_update};
use crate::compress::{zstd_encoding, zstd_decoding};
use crate::redact::{spec_replace, spec_strip};

verus! {

/// Content-identity determinism: the identity is a function of the exact
/// bytes, so equal payloads always receive equal identities.  (That distinct
/// payloads receive distinct identities is the collision-freedom of SHA-256,
/// assumed, not proved; the laws below that need it take it as a hypothesis.)
pub proof fn lemma_identity_deterministic(b1: Seq<u8>, b2: Seq<u8>)
    requires
        b1 == b2,
    ensures
        spec_identity(b1) == spec_identity(b2),
{
}

/// Round-trip: a payload committed for the first time is exactly what
/// retrieval reproduces under its identity, and its compressed blob
/// decompresses back to it.
pub proof fn lemma_store_then_retrieve(m: StoreModel, m2: StoreModel, b: Seq<u8>, t: i64)
    requires
        new_store_post(m, m2, b, t),
        zstd_decoding(zstd_encoding(crate::compress::COMPRESSION_LEVEL as int, b)) == Some(b),
    ensures
        retrieve_value(m2, spec_identity_key(b)) == Some(b),
{
}

/// Round-trip through the dedup fast path: a repeated store leaves every
/// stored payload as it was, so what retrieval reproduces is unchanged.
/// When the bytes already stored under the identity are `b` itself (true
/// unless SHA-256 collided), retrieval still reproduces `b`.
pub proof fn lemma_dup_store_then_retrieve(m: StoreModel, m2: StoreModel, b: Seq<u8>)
    requires
        dup_store_post(m, m2, spec_identity_key(b)),
        m.contents.contains_key(spec_identity_key(b)),
        m.contents[spec_identity_key(b)] == b,
    ensures
        retrieve_value(m2, spec_identity_key(b)) == Some(b),
{
}

/// Dedup idempotence: a repeated store of the same payload creates no new
/// record and no new blob; it bumps that payload's reference count by
/// exactly one (saturating at the counter's width) and touches nothing else.
pub proof fn lemma_dedup_idempotent(m: StoreModel, m2: StoreModel, key: Seq<u8>)
    requires
        dup_store_post(m, m2, key),
    ensures
        m2.recs.dom() == m.recs.dom(),
        m2.contents == m.contents,
        m.recs[key].rc < u32::MAX ==> m2.recs[key].rc == m.recs[key].rc + 1,
        forall|k: Seq<u8>| k != key && m.recs.contains_key(k) ==> m2.recs[k] == m.recs[k],
{
    assert(m2.recs.dom() =~= m.recs.dom());
}

/// Bloom false-positive safety: which transition a store takes is decided
/// by the metadata index alone.  The filter never appears in either
/// transition, so a false positive can cost an index lookup, never
/// correctness.
pub proof fn lemma_store_outcome_by_index(m: StoreModel, m2: StoreModel, b: Seq<u8>, t: i64)
    requires
        new_store_post(m, m2, b, t) || dup_store_post(m, m2, spec_identity_key(b)),
    ensures
        new_store_post(m, m2, b, t) <==> !m.recs.contains_key(spec_identity_key(b)),
        dup_store_post(m, m2, spec_identity_key(b)) <==> m.recs.contains_key(
            spec_identity_key(b),
        ),
{
}

/// Stats consistency: a first-time store grows the record count by one and
/// the size totals by exactly the payload's raw and compressed sizes, and a
/// repeated store changes none of them.
pub proof fn lemma_stats_track_stores(m: StoreModel, m2: StoreModel, b: Seq<u8>, t: i64)
    requires
        m.recs.dom().finite(),
        new_store_post(m, m2, b, t),
    ensures
        m2.recs.dom().len() == m.recs.dom().len() + 1,
        size_sum(m2.recs) == size_sum(m.recs) + b.len() as u64,
        csize_sum(m2.recs) == csize_sum(m.recs) + zstd_encoding(
            crate::compress::COMPRESSION_LEVEL as int,
            b,
        ).len() as u64,
{
    lemma_sums_insert(m.recs, spec_identity_key(b), m2.recs[spec_identity_key(b)]);
}

/// Stats consistency, dedup side: a repeated store leaves the record count
/// and both size totals unchanged.
pub proof fn lemma_stats_unchanged_by_dup(m: StoreModel, m2: StoreModel, key: Seq<u8>)
    requires
        m.recs.dom().finite(),
        dup_store_post(m, m2, key),
    ensures
        m2.recs.dom().len() == m.recs.dom().len(),
        size_sum(m2.recs) == size_sum(m.recs),
        csize_sum(m2.recs) == csize_sum(m.recs),
{
    lemma_sums_update(m.recs, key, bump_rc(m.recs[key]));
}

/// Redaction is the identity on text that contains no secret: replacing a
/// pattern that does not occur leaves the text unchanged.
pub proof fn lemma_replace_absent(s: Seq<char>, pat: Seq<char>, rep: Seq<char>)
    requires
        forall|i: int|
            0 <= i <= s.len() - pat.len() ==> #[trigger] s.subrange(i, i + pat.len()) != pat,
    ensures
        spec_replace(s, pat, rep) == s,
    decreases s.len(),
{
    if pat.len() == 0 || s.len() < pat.len() {
    } else {
        assert(s.take(pat.len() as int) =~= s.subrange(0, pat.len() as int));
        assert(s.subrange(0, 0 + pat.len() as int) != pat);
        let d = s.drop_first();
        assert forall|i: int|
            0 <= i <= d.len() - pat.len() implies #[trigger] d.subrange(i, i + pat.len())
            != pat by {
            assert(d.subrange(i, i + pat.len()) =~= s.subrange(i + 1, i + 1 + pat.len()));
        }
        lemma_replace_absent(d, pat, rep);
        assert(seq![s[0]] + d =~= s);
    }
}

} // verus!
