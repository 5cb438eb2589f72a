use vstd::prelude::*;
use vstd::string::{StringExecFns, StringSliceAdditionalSpecFns};
use vstd::set::fold::{is_fun_commutative, lemma_fold_insert, lemma_fold_empty};
use vstd::utf8::encode_utf8;
use crate::errors::StorageError;
use crate::records::{ContentMetadata, MetaView, StorageStats, PageFetchIndex};
use crate::hashing::{spec_identity, spec_identity_key, identity_string, lemma_identity_shape};
use crate::compress::{zstd_encoding, zstd_decoding, zstd_compress, zstd_decompress,
    COMPRESSION_LEVEL};
use crate::bloom::{BloomFilter, bloom_marked};
use crate::cache::{HotCache, cache_view};
use crate::meta::{MetaDb, db_view};
use crate::codec::{enc_meta, enc_paths, encode_meta, decode_meta, encode_paths, decode_paths,
    lemma_enc_meta_inj, lemma_enc_paths_inj, bytes_eq, utf8_string_range, meta_fits,
    paths_fit};
use crate::text::{spec_i64_chars, i64_string, lemma_encode_prefix_ascii,
    lemma_ascii_bytes_one_per_char, lemma_ascii_chars_bytes};
use crate::clock::now_millis;

verus! {

/// Entry-count bound of the hot cache.
pub const CACHE_CAPACITY: usize = 1000;

/// Payloads at or above this size bypass the hot cache.
pub const CACHE_SIZE_CEILING: usize = 1000000;

/// The number of distinct identities the bloom filter is sized for.
pub const BLOOM_ITEMS: usize = 1000000;

/// Bitmap bytes giving roughly a one-percent false-positive rate at
/// `BLOOM_ITEMS` entries.
pub const BLOOM_BITMAP_BYTES: usize = 1198133;

/// Latest timestamp (milliseconds) the date formatter is asked about:
/// the last moment of year 9999.
pub const MAX_DATE_MILLIS: i64 = 253402300799999;

/// What chrono renders, in UTC, as the `YYYY-MM-DD` date of a timestamp in
/// milliseconds; a function of the timestamp alone.
pub uninterp spec fn utc_date_chars(millis: i64) -> Seq<char>;

/// Relies on chrono's `DateTime::from_timestamp_millis` and `format` with
/// `%Y-%m-%d`: the UTC calendar date, ten characters within the requested
/// range.
#[verifier::external_body]
fn utc_date_string(millis: i64) -> (r: String)
    requires
        0 <= millis <= MAX_DATE_MILLIS,
    ensures
        r@ == utc_date_chars(millis),
        r@.len() == 10,
{
    let dt = chrono::DateTime::<chrono::Utc>::from_timestamp_millis(millis).unwrap();
    dt.format("%Y-%m-%d").to_string()
}

/// Whether a metadata-index key is a content key: the ASCII bytes of
/// `sha256:`.
pub open spec fn has_id_prefix(k: Seq<u8>) -> bool {
    k.len() >= 7 && k[0] == 115u8 && k[1] == 104u8 && k[2] == 97u8 && k[3] == 50u8 && k[4]
        == 53u8 && k[5] == 54u8 && k[6] == 58u8
}

/// Whether a metadata-index key is a session key: the ASCII bytes of
/// `session:`.
pub open spec fn has_session_prefix(k: Seq<u8>) -> bool {
    k.len() >= 8 && k[0] == 115u8 && k[1] == 101u8 && k[2] == 115u8 && k[3] == 115u8 && k[4]
        == 105u8 && k[5] == 111u8 && k[6] == 110u8 && k[7] == 58u8
}

/// The metadata-index key under which a session's path list is filed.
pub open spec fn spec_session_key(sid: Seq<char>) -> Seq<u8> {
    encode_utf8("session:"@ + sid)
}

/// A content key is well formed when it could name a blob: content prefix,
/// room for the shard characters, ASCII throughout.
pub open spec fn wf_id_key(k: Seq<u8>) -> bool {
    &&& has_id_prefix(k)
    &&& k.len() >= 11
    &&& forall|i: int| 0 <= i < k.len() ==> #[trigger] k[i] < 0x80
}

/// Bound that lets a record's optional content type round-trip through the
/// length-prefixed framing.
pub open spec fn wf_meta(r: MetaView) -> bool {
    meta_fits(r)
}

/// Bound that lets a path list round-trip through the framing.
pub open spec fn wf_paths(l: Seq<Seq<char>>) -> bool {
    paths_fit(l)
}

/// Mathematical state of the storage engine: metadata records and payload
/// bytes by content key, and snapshot path lists by session key.
pub struct StoreModel {
    pub recs: Map<Seq<u8>, MetaView>,
    pub contents: Map<Seq<u8>, Seq<u8>>,
    pub sessions: Map<Seq<u8>, Seq<Seq<char>>>,
}

pub open spec fn size_step() -> spec_fn(int, (Seq<u8>, MetaView)) -> int {
    |acc: int, p: (Seq<u8>, MetaView)| acc + p.1.size
}

pub open spec fn csize_step() -> spec_fn(int, (Seq<u8>, MetaView)) -> int {
    |acc: int, p: (Seq<u8>, MetaView)| acc + p.1.csize
}

/// Sum of the uncompressed sizes over all records.
pub open spec fn size_sum(m: Map<Seq<u8>, MetaView>) -> int {
    m.kv_pairs().fold(0, size_step())
}

/// Sum of the compressed sizes over all records.
pub open spec fn csize_sum(m: Map<Seq<u8>, MetaView>) -> int {
    m.kv_pairs().fold(0, csize_step())
}

/// Clamp to what a 64-bit counter can hold.
pub open spec fn sat_u64(x: int) -> int {
    if x > u64::MAX as int {
        u64::MAX as int
    } else {
        x
    }
}

/// Clamp to what a pointer-sized counter can hold.
pub open spec fn sat_usize(x: int) -> int {
    if x > usize::MAX as int {
        usize::MAX as int
    } else {
        x
    }
}

proof fn lemma_kv_pairs_finite(m: Map<Seq<u8>, MetaView>)
    requires
        m.dom().finite(),
    ensures
        m.kv_pairs().finite(),
{
    assert(m.kv_pairs() =~= m.dom().map(|k: Seq<u8>| (k, m[k])));
    m.dom().lemma_map_finite(|k: Seq<u8>| (k, m[k]));
}

proof fn lemma_sums_empty()
    ensures
        size_sum(Map::<Seq<u8>, MetaView>::empty()) == 0,
        csize_sum(Map::<Seq<u8>, MetaView>::empty()) == 0,
{
    let m = Map::<Seq<u8>, MetaView>::empty();
    assert(m.kv_pairs() =~= Set::<(Seq<u8>, MetaView)>::empty());
    lemma_fold_empty(0int, size_step());
    lemma_fold_empty(0int, csize_step());
}

pub proof fn lemma_sums_insert(m: Map<Seq<u8>, MetaView>, k: Seq<u8>, r: MetaView)
    requires
        m.dom().finite(),
        !m.contains_key(k),
    ensures
        size_sum(m.insert(k, r)) == size_sum(m) + r.size,
        csize_sum(m.insert(k, r)) == csize_sum(m) + r.csize,
        m.insert(k, r).dom().len() == m.dom().len() + 1,
        m.insert(k, r).dom().finite(),
{
    lemma_kv_pairs_finite(m);
    assert(m.insert(k, r).kv_pairs() =~= m.kv_pairs().insert((k, r)));
    assert(!m.kv_pairs().contains((k, r)));
    assert(is_fun_commutative(size_step()));
    assert(is_fun_commutative(csize_step()));
    lemma_fold_insert(m.kv_pairs(), 0int, size_step(), (k, r));
    lemma_fold_insert(m.kv_pairs(), 0int, csize_step(), (k, r));
    assert(m.insert(k, r).dom() =~= m.dom().insert(k));
}

pub proof fn lemma_sums_update(m: Map<Seq<u8>, MetaView>, k: Seq<u8>, r: MetaView)
    requires
        m.dom().finite(),
        m.contains_key(k),
        r.size == m[k].size,
        r.csize == m[k].csize,
    ensures
        size_sum(m.insert(k, r)) == size_sum(m),
        csize_sum(m.insert(k, r)) == csize_sum(m),
        m.insert(k, r).dom().len() == m.dom().len(),
        m.insert(k, r).dom().finite(),
{
    let m0 = m.remove(k);
    assert(m0.dom() =~= m.dom().remove(k));
    assert(!m0.contains_key(k));
    assert(m =~= m0.insert(k, m[k]));
    assert(m.insert(k, r) =~= m0.insert(k, r));
    lemma_sums_insert(m0, k, m[k]);
    lemma_sums_insert(m0, k, r);
}

/// A content key's shape, derived from the identity of the payload it names.
pub proof fn lemma_identity_key_shape(b: Seq<u8>)
    requires
        spec_identity(b).len() == 71,
    ensures
        wf_id_key(spec_identity_key(b)),
        spec_identity_key(b).len() == 71,
        forall|i: int|
            0 <= i < 71 ==> #[trigger] spec_identity_key(b)[i] == spec_identity(b)[i] as u8,
{
    lemma_identity_shape(b);
    lemma_ascii_chars_bytes(spec_identity(b));
    reveal_strlit("sha256:");
    assert(spec_identity(b)[0] == 's');
    assert(spec_identity(b)[1] == 'h');
    assert(spec_identity(b)[2] == 'a');
    assert(spec_identity(b)[3] == '2');
    assert(spec_identity(b)[4] == '5');
    assert(spec_identity(b)[5] == '6');
    assert(spec_identity(b)[6] == ':');
}

/// A session key's shape.
pub proof fn lemma_session_key_shape(sid: Seq<char>)
    ensures
        has_session_prefix(spec_session_key(sid)),
        !has_id_prefix(spec_session_key(sid)),
{
    reveal_strlit("session:");
    let s = "session:"@ + sid;
    assert(s[0] == 's');
    assert(s[1] == 'e');
    assert(s[2] == 's');
    assert(s[3] == 's');
    assert(s[4] == 'i');
    assert(s[5] == 'o');
    assert(s[6] == 'n');
    assert(s[7] == ':');
    lemma_encode_prefix_ascii(s, 8);
}

/// Checks the shape of a content key: prefix, length, ASCII bytes.
fn check_id_key(k: &[u8]) -> (r: bool)
    ensures
        r == wf_id_key(k@),
{
    if k.len() < 11 {
        return false;
    }
    if !(k[0] == 115 && k[1] == 104 && k[2] == 97 && k[3] == 50 && k[4] == 53 && k[5] == 54
        && k[6] == 58) {
        return false;
    }
    let mut i: usize = 0;
    while i < k.len()
        invariant
            i <= k@.len(),
            forall|j: int| 0 <= j < i ==> #[trigger] k@[j] < 0x80,
        decreases k@.len() - i,
    {
        if k[i] >= 0x80 {
            return false;
        }
        i += 1;
    }
    true
}

/// Checks the shape of a session key.
fn check_session_key(k: &[u8]) -> (r: bool)
    ensures
        r == has_session_prefix(k@),
{
    k.len() >= 8 && k[0] == 115 && k[1] == 101 && k[2] == 115 && k[3] == 115 && k[4] == 105
        && k[5] == 111 && k[6] == 110 && k[7] == 58
}

/// The sharded path of the blob for an identity: first two hex characters,
/// next two, then the full hash as file name.
pub open spec fn spec_blob_path(base: Seq<char>, id: Seq<char>) -> Seq<char>
    recommends
        id.len() >= 11,
{
    base + "/content/"@ + id.subrange(7, 9) + "/"@ + id.subrange(9, 11) + "/"@ + id.subrange(
        7,
        id.len() as int,
    ) + ".zst"@
}

/// Builds the blob path for an identity string.
fn blob_path(base: &str, id: &str) -> (r: String)
    requires
        id@.len() >= 11,
    ensures
        r@ == spec_blob_path(base@, id@),
{
    let n = id.unicode_len();
    let mut p = String::new();
    p.append(base);
    p.append("/content/");
    p.append(id.substring_char(7, 9));
    p.append("/");
    p.append(id.substring_char(9, 11));
    p.append("/");
    p.append(id.substring_char(7, n));
    p.append(".zst");
    proof {
        assert(p@ =~= spec_blob_path(base@, id@));
    }
    p
}

/// The dated, per-session path of one snapshot file: date directory,
/// session directory, then timestamp and the first eight hex characters of
/// the page URL's identity.
pub open spec fn spec_snapshot_path(
    base: Seq<char>,
    now: i64,
    sid: Seq<char>,
    ts: i64,
    url: Seq<char>,
) -> Seq<char> {
    base + "/sessions/"@ + utc_date_chars(now) + "/"@ + sid + "/"@ + spec_i64_chars(ts) + "_"@
        + spec_identity(encode_utf8(url)).subrange(7, 15) + ".json"@
}

/// A new blob the caller still has to write to disk (and fsync) before
/// committing it to the index.
#[derive(Debug)]
pub struct PendingBlob {
    identity: String,
    rel_path: String,
    compressed: Vec<u8>,
    original: Vec<u8>,
    first_seen: i64,
}

impl PendingBlob {
    /// The payload this pending blob stores.
    pub closed spec fn spec_original(self) -> Seq<u8> {
        self.original@
    }

    /// When the payload was first seen, milliseconds since the epoch.
    pub closed spec fn spec_first_seen(self) -> i64 {
        self.first_seen
    }

    /// Whether the pending blob is internally consistent for a storage
    /// rooted at `base`.
    pub closed spec fn wf_for(self, base: Seq<char>) -> bool {
        &&& self.identity@ == spec_identity(self.original@)
        &&& self.identity@.len() == 71
        &&& self.rel_path@ == spec_blob_path(base, self.identity@)
        &&& self.compressed@ == zstd_encoding(COMPRESSION_LEVEL as int, self.original@)
        &&& zstd_decoding(self.compressed@) == Some(self.original@)
    }

    /// The identity string this pending blob carries.
    pub closed spec fn spec_identity_s(self) -> Seq<char> {
        self.identity@
    }

    /// The path string this pending blob carries.
    pub closed spec fn spec_path(self) -> Seq<char> {
        self.rel_path@
    }

    /// The identity of the payload.
    pub fn identity_str(&self) -> (r: &String)
        ensures
            r@ == self.spec_identity_s(),
    {
        &self.identity
    }

    /// Where the compressed blob belongs on disk.
    pub fn path_str(&self) -> (r: &String)
        ensures
            r@ == self.spec_path(),
    {
        &self.rel_path
    }

    /// The compressed bytes this pending blob carries.
    pub closed spec fn spec_compressed(self) -> Seq<u8> {
        self.compressed@
    }

    /// The compressed bytes to write.
    pub fn compressed_bytes(&self) -> (r: &Vec<u8>)
        ensures
            r@ == self.spec_compressed(),
    {
        &self.compressed
    }
}

/// What a store call decided: the payload was already present, or a new
/// blob must be written and then committed.
#[derive(Debug)]
pub enum StoreOutcome {
    Existing(String),
    NeedsBlob(PendingBlob),
}

/// What a retrieve call found: the raw bytes straight from the hot cache,
/// or the path of the compressed blob for the caller to read.
#[derive(Debug)]
pub enum RetrieveOutcome {
    Cached(Vec<u8>),
    OnDisk(String),
}

/// Reference-count bump, capped at the counter's width.
pub open spec fn bump_rc(r: MetaView) -> MetaView {
    MetaView {
        rc: if r.rc == u32::MAX {
            u32::MAX
        } else {
            (r.rc + 1) as u32
        },
        ..r
    }
}

/// Transition of a store that found its payload already present: only that
/// record's reference count moves.
pub open spec fn dup_store_post(m: StoreModel, m2: StoreModel, key: Seq<u8>) -> bool {
    &&& m.recs.contains_key(key)
    &&& m2.recs == m.recs.insert(key, bump_rc(m.recs[key]))
    &&& m2.contents == m.contents
    &&& m2.sessions == m.sessions
}

/// Transition of a committed first-time store: a fresh record with
/// reference count 1 and the payload filed under its identity key.
pub open spec fn new_store_post(m: StoreModel, m2: StoreModel, b: Seq<u8>, t: i64) -> bool {
    let key = spec_identity_key(b);
    &&& !m.recs.contains_key(key)
    &&& m2.recs == m.recs.insert(
        key,
        MetaView {
            size: b.len() as u64,
            csize: zstd_encoding(COMPRESSION_LEVEL as int, b).len() as u64,
            content_type: None,
            first_seen: t,
            rc: 1,
        },
    )
    &&& m2.contents == m.contents.insert(key, b)
    &&& m2.sessions == m.sessions
}

/// The value retrieval is expected to reproduce for an identity key.
pub open spec fn retrieve_value(m: StoreModel, key: Seq<u8>) -> Option<Seq<u8>> {
    if m.contents.contains_key(key) {
        Some(m.contents[key])
    } else {
        None
    }
}

/// The content-addressable storage engine: bloom filter, durable metadata
/// index, hot cache, and the path scheme of the on-disk blob layout.
///
/// Blob file writes happen outside this engine: `store_content` hands back
/// a [`PendingBlob`], the caller writes and fsyncs the file at its path, and
/// only then calls [`Storage::commit_blob`], so nothing is marked present
/// before its blob is durable.
pub struct Storage {
    base_path: String,
    meta: MetaDb,
    bloom: BloomFilter,
    cache: HotCache,
    count: usize,
    total_size: u64,
    total_csize: u64,
    model_g: Ghost<StoreModel>,
}

impl Storage {
    /// The directory under which the engine lays out its files.
    pub closed spec fn base(self) -> Seq<char> {
        self.base_path@
    }

    /// The engine's mathematical state.
    pub closed spec fn model(self) -> StoreModel {
        self.model_g@
    }

    /// What the hot cache holds: identity to raw payload bytes.
    pub closed spec fn spec_cache(self) -> Map<Seq<char>, Seq<u8>> {
        cache_view(self.cache)
    }

    /// The identity keys marked present in the bloom filter.
    pub closed spec fn spec_bloom(self) -> Set<Seq<u8>> {
        bloom_marked(self.bloom)
    }

    /// How many entries the hot cache holds.
    pub closed spec fn spec_cache_len(self) -> nat {
        cache_view(self.cache).dom().len()
    }

    /// Whether the hot cache holds an entry for an identity.
    pub open spec fn spec_is_cached(self, id: Seq<char>) -> bool {
        self.spec_cache().contains_key(id)
    }

    /// The engine's invariant.
    pub closed spec fn wf(self) -> bool {
        let m = self.model_g@;
        let db = db_view(self.meta);
        &&& db.dom().finite()
        &&& m.recs.dom().finite()
        &&& m.sessions.dom().finite()
        &&& forall|k: Seq<u8>|
            m.recs.contains_key(k) ==> db.contains_pair(k, enc_meta(#[trigger] m.recs[k]))
        &&& forall|k: Seq<u8>| #[trigger] m.recs.contains_key(k) ==> wf_id_key(k)
        &&& forall|k: Seq<u8>| m.recs.contains_key(k) ==> wf_meta(#[trigger] m.recs[k])
        &&& forall|k: Seq<u8>| #[trigger]
            m.sessions.contains_key(k) ==> has_session_prefix(k) && db.contains_pair(
                k,
                enc_paths(m.sessions[k]),
            ) && wf_paths(m.sessions[k])
        &&& forall|k: Seq<u8>| #[trigger]
            db.dom().contains(k) ==> m.recs.contains_key(k) || m.sessions.contains_key(k)
        &&& forall|k: Seq<u8>| #[trigger]
            m.recs.contains_key(k) ==> bloom_marked(self.bloom).contains(k)
        &&& cache_view(self.cache).dom().finite()
        &&& cache_view(self.cache).dom().len() <= CACHE_CAPACITY
        &&& forall|c: Seq<char>|
            cache_view(self.cache).contains_key(c) ==> spec_identity(
                #[trigger] cache_view(self.cache)[c],
            ) == c && cache_view(self.cache)[c].len() < CACHE_SIZE_CEILING
        &&& forall|k: Seq<u8>| #[trigger]
            m.contents.contains_key(k) ==> m.recs.contains_key(k) && spec_identity_key(
                m.contents[k],
            ) == k && zstd_decoding(
                zstd_encoding(COMPRESSION_LEVEL as int, m.contents[k]),
            ) == Some(m.contents[k])
        &&& self.count as int == sat_usize(m.recs.dom().len() as int)
        &&& self.total_size as int == sat_u64(size_sum(m.recs))
        &&& self.total_csize as int == sat_u64(csize_sum(m.recs))
    }

    /// Computes the content identity of a payload: `sha256:` followed by
    /// the lowercase hex SHA-256 digest of the exact bytes.
    pub fn compute_hash(data: &[u8]) -> (r: String)
        ensures
            r@ == spec_identity(data@),
            r@.len() == 71,
    {
        identity_string(data)
    }
}

fn add_sat_u64(a: u64, b: u64) -> (r: u64)
    ensures
        r as int == sat_u64(a + b),
{
    if a > u64::MAX - b {
        u64::MAX
    } else {
        a + b
    }
}

fn inc_sat_usize(a: usize) -> (r: usize)
    ensures
        r as int == sat_usize(a + 1),
{
    if a == usize::MAX {
        usize::MAX
    } else {
        a + 1
    }
}

impl Storage {
    /// Opens (creating if missing) a storage rooted at `base_path`: the
    /// metadata index under `metadata/content_index.db`, a fresh bloom
    /// filter, and an empty hot cache.  Every record and session list the
    /// index already holds is validated on the way back in and re-marked in
    /// the filter, so the fast path stays safe across restarts; a key or
    /// value this engine did not write fails the open.
    pub fn new(base_path: &str) -> (r: Result<Storage, StorageError>)
        ensures
            r matches Ok(s) ==> s.wf() && s.base() == base_path@ && s.model().contents
                == Map::<Seq<u8>, Seq<u8>>::empty() && s.spec_cache() =~= Map::empty(),
            r matches Err(e) ==> e == StorageError::IndexError || e == StorageError::IoError
                || e == StorageError::SerializationError,
    {
        let mut db_path = String::new();
        db_path.append(base_path);
        db_path.append("/metadata/content_index.db");
        let meta = MetaDb::open(db_path.as_str())?;
        let mut bloom = BloomFilter::new(BLOOM_BITMAP_BYTES, BLOOM_ITEMS)?;
        let cache = HotCache::new();
        let entries = meta.scan()?;
        let ghost db = db_view(meta);
        let mut count: usize = 0;
        let mut total_size: u64 = 0;
        let mut total_csize: u64 = 0;
        let ghost mut recs_g = Map::<Seq<u8>, MetaView>::empty();
        let ghost mut sess_g = Map::<Seq<u8>, Seq<Seq<char>>>::empty();
        proof {
            lemma_sums_empty();
            reveal(scan_entry_facts);
            reveal(scan_recs_inv);
            reveal(scan_sess_inv);
            assert(scan_entry_facts(entries@, db));
            assert(scan_recs_inv(recs_g, db, bloom_marked(bloom)));
            assert(scan_sess_inv(sess_g, db));
        }
        let n = entries.len();
        let mut i: usize = 0;
        while i < n
            invariant
                n == entries@.len(),
                i <= n,
                db == db_view(meta),
                db.dom().finite(),
                scan_entry_facts(entries@, db),
                scan_recs_inv(recs_g, db, bloom_marked(bloom)),
                scan_sess_inv(sess_g, db),
                forall|j: int|
                    0 <= j < i ==> recs_g.contains_key(#[trigger] entries@[j].0@)
                        || sess_g.contains_key(entries@[j].0@),
                forall|k: Seq<u8>| #[trigger]
                    recs_g.contains_key(k) ==> exists|j: int|
                        0 <= j < i && entries@[j].0@ == k,
                forall|k: Seq<u8>| #[trigger]
                    sess_g.contains_key(k) ==> exists|j: int|
                        0 <= j < i && entries@[j].0@ == k,
                count as int == sat_usize(recs_g.dom().len() as int),
                total_size as int == sat_u64(size_sum(recs_g)),
                total_csize as int == sat_u64(csize_sum(recs_g)),
            decreases n - i,
        {
            let ghost recs_old = recs_g;
            let ghost sess_old = sess_g;
            proof {
                lemma_scan_fresh(recs_g, sess_g, entries@, db, i as int);
                assert(db.contains_pair(entries@[i as int].0@, entries@[i as int].1@)) by {
                    reveal(scan_entry_facts);
                }
            }
            let step = absorb_entry(
                &mut bloom,
                &entries[i].0,
                &entries[i].1,
                count,
                total_size,
                total_csize,
                Ghost(db),
                Ghost(recs_g),
                Ghost(sess_g),
            );
            let (c2, t2, tc2, r2, s2) = match step {
                Ok(x) => x,
                Err(e) => {
                    return Err(e);
                },
            };
            count = c2;
            total_size = t2;
            total_csize = tc2;
            proof {
                recs_g = r2@;
                sess_g = s2@;
                let kk = entries@[i as int].0@;
                assert forall|k: Seq<u8>| #[trigger] recs_g.contains_key(k) implies exists|
                    j: int,
                |
                    0 <= j < i + 1 && entries@[j].0@ == k by {
                    if recs_old.contains_key(k) {
                        let j = choose|j: int| 0 <= j < i && entries@[j].0@ == k;
                        assert(0 <= j < i + 1 && entries@[j].0@ == k);
                    } else {
                        assert(entries@[i as int].0@ == k);
                    }
                }
                assert forall|k: Seq<u8>| #[trigger] sess_g.contains_key(k) implies exists|
                    j: int,
                |
                    0 <= j < i + 1 && entries@[j].0@ == k by {
                    if sess_old.contains_key(k) {
                        let j = choose|j: int| 0 <= j < i && entries@[j].0@ == k;
                        assert(0 <= j < i + 1 && entries@[j].0@ == k);
                    } else {
                        assert(entries@[i as int].0@ == k);
                    }
                }
            }
            i += 1;
        }
        let ghost model = StoreModel { recs: recs_g, contents: Map::empty(), sessions: sess_g };
        let s = Storage {
            base_path: base_path.to_owned(),
            meta,
            bloom,
            cache,
            count,
            total_size,
            total_csize,
            model_g: Ghost(model),
        };
        proof {
            reveal(scan_entry_facts);
            reveal(scan_recs_inv);
            reveal(scan_sess_inv);
            assert forall|k: Seq<u8>| #[trigger]
                db_view(s.meta).dom().contains(k) implies model.recs.contains_key(k)
                || model.sessions.contains_key(k) by {
                let j = choose|j: int|
                    0 <= j < entries@.len() && #[trigger] entries@[j].0@ == k;
            }
            assert(s.wf());
        }
        Ok(s)
    }

    /// Looks up the metadata record stored for an identity.
    pub fn metadata_of(&self, identity: &str) -> (r: Result<Option<ContentMetadata>, StorageError>)
        requires
            self.wf(),
        ensures
            r matches Ok(Some(m)) ==> self.model().recs.contains_key(identity.spec_bytes())
                && m@ == self.model().recs[identity.spec_bytes()],
            r matches Ok(None) ==> !self.model().recs.contains_key(identity.spec_bytes()),
            !wf_id_key(identity.spec_bytes()) ==> r matches Ok(None),
            r matches Err(e) ==> e == StorageError::IndexError,
    {
        let key = identity.as_bytes();
        if !check_id_key(key) {
            proof {
                if self.model_g@.recs.contains_key(identity.spec_bytes()) {
                    assert(wf_id_key(identity.spec_bytes()));
                    assert(false);
                }
            }
            return Ok(None);
        }
        match self.meta.get(key) {
            Err(e) => Err(e),
            Ok(None) => Ok(None),
            Ok(Some(v)) => {
                proof {
                    lemma_session_prefix_disjoint(key@);
                    assert(v@ == enc_meta(self.model_g@.recs[key@]) && meta_fits(
                        self.model_g@.recs[key@],
                    ));
                }
                let m = decode_meta(v.as_slice())?;
                proof {
                    lemma_enc_meta_inj(m@, self.model().recs[key@]);
                }
                Ok(Some(m))
            },
        }
    }

    /// Takes a payload in: computes its identity, consults the bloom filter
    /// and (when needed) the metadata index, and either bumps the reference
    /// count of an already-present payload or compresses the bytes and
    /// hands back the blob for the caller to write.
    pub fn store_content(&mut self, data: &[u8]) -> (r: Result<StoreOutcome, StorageError>)
        requires
            old(self).wf(),
        ensures
            final(self).wf(),
            final(self).base() == old(self).base(),
            final(self).spec_cache() == old(self).spec_cache(),
            final(self).spec_bloom() == old(self).spec_bloom(),
            match r {
                Ok(StoreOutcome::Existing(id)) => id@ == spec_identity(data@)
                    && dup_store_post(
                    old(self).model(),
                    final(self).model(),
                    spec_identity_key(data@),
                ),
                Ok(StoreOutcome::NeedsBlob(p)) => {
                    &&& final(self).model() == old(self).model()
                    &&& !old(self).model().recs.contains_key(spec_identity_key(data@))
                    &&& p.wf_for(old(self).base())
                    &&& p.spec_original() == data@
                    &&& p.spec_identity_s() == spec_identity(data@)
                    &&& p.spec_compressed() == zstd_encoding(COMPRESSION_LEVEL as int, data@)
                    &&& zstd_decoding(p.spec_compressed()) == Some(data@)
                    &&& p.spec_path() == spec_blob_path(old(self).base(), spec_identity(data@))
                },
                Err(e) => final(self).model() == old(self).model() && (e
                    == StorageError::IndexError || e == StorageError::CompressionError),
            },
    {
        let id = identity_string(data);
        proof {
            lemma_identity_key_shape(data@);
        }
        let key = id.as_str().as_bytes();
        if self.bloom.maybe_contains(id.as_str()) {
            match self.meta.contains(key) {
                Err(e) => {
                    return Err(e);
                },
                Ok(true) => {
                    self.increment_ref_count(key)?;
                    return Ok(StoreOutcome::Existing(id));
                },
                Ok(false) => {},
            }
        } else {
            proof {
                assert(!self.model().recs.contains_key(key@));
            }
        }
        let compressed = zstd_compress(data, COMPRESSION_LEVEL)?;
        let rel_path = blob_path(self.base_path.as_str(), id.as_str());
        let first_seen = now_millis();
        let original = vstd::slice::slice_to_vec(data);
        Ok(
            StoreOutcome::NeedsBlob(
                PendingBlob { identity: id, rel_path, compressed, original, first_seen },
            ),
        )
    }

    /// Bumps the reference count of a record known to be present.
    fn increment_ref_count(&mut self, key: &[u8]) -> (r: Result<(), StorageError>)
        requires
            old(self).wf(),
            old(self).model().recs.contains_key(key@),
        ensures
            final(self).wf(),
            final(self).base() == old(self).base(),
            cache_view(final(self).cache) == cache_view(old(self).cache),
            bloom_marked(final(self).bloom) == bloom_marked(old(self).bloom),
            match r {
                Ok(u) => dup_store_post(old(self).model(), final(self).model(), key@),
                Err(e) => final(self).model() == old(self).model() && e
                    == StorageError::IndexError,
            },
    {
        let v = match self.meta.get(key) {
            Err(e) => {
                return Err(e);
            },
            Ok(None) => {
                proof {
                    assert(false);
                }
                return Err(StorageError::IndexError);
            },
            Ok(Some(v)) => v,
        };
        proof {
            assert(v@ == enc_meta(self.model_g@.recs[key@]) && meta_fits(
                self.model_g@.recs[key@],
            ));
        }
        let m = decode_meta(v.as_slice())?;
        proof {
            lemma_enc_meta_inj(m@, self.model().recs[key@]);
        }
        let new_rc: u32 = if m.reference_count == u32::MAX {
            u32::MAX
        } else {
            m.reference_count + 1
        };
        let m2 = ContentMetadata { reference_count: new_rc, ..m };
        let enc = encode_meta(&m2);
        self.meta.insert(key, enc.as_slice())?;
        proof {
            let mm = self.model_g@;
            lemma_sums_update(mm.recs, key@, m2@);
            self.model_g@ = StoreModel { recs: mm.recs.insert(key@, m2@), ..mm };
            assert(m2@ == bump_rc(mm.recs[key@]));
            assert forall|k: Seq<u8>| self.model_g@.recs.contains_key(k) implies db_view(
                self.meta,
            ).contains_pair(k, enc_meta(#[trigger] self.model_g@.recs[k])) by {
                if k != key@ {
                    assert(mm.recs.contains_key(k));
                }
            }
            assert(self.wf());
        }
        Ok(())
    }

    /// Commits a blob whose file the caller has written and fsynced:
    /// inserts the metadata record, marks the bloom filter, and caches
    /// small payloads, evicting one arbitrary entry if the cache is over
    /// capacity.  A payload that raced in since the store call only has
    /// its reference count bumped.
    #[verifier::rlimit(100)]
    pub fn commit_blob(&mut self, pending: PendingBlob) -> (r: Result<String, StorageError>)
        requires
            old(self).wf(),
            pending.wf_for(old(self).base()),
        ensures
            final(self).wf(),
            final(self).base() == old(self).base(),
            match r {
                Ok(id) => {
                    let key = spec_identity_key(pending.spec_original());
                    &&& id@ == spec_identity(pending.spec_original())
                    &&& if old(self).model().recs.contains_key(key) {
                        dup_store_post(old(self).model(), final(self).model(), key)
                    } else {
                        new_store_post(
                            old(self).model(),
                            final(self).model(),
                            pending.spec_original(),
                            pending.spec_first_seen(),
                        )
                    }
                },
                Err(e) => final(self).model() == old(self).model() && e
                    == StorageError::IndexError,
            },
            pending.spec_original().len() >= CACHE_SIZE_CEILING ==> final(self).spec_cache()
                == old(self).spec_cache(),
            r is Ok && old(self).model().recs.contains_key(
                spec_identity_key(pending.spec_original()),
            ) ==> final(self).spec_bloom() == old(self).spec_bloom(),
            r is Ok && !old(self).model().recs.contains_key(
                spec_identity_key(pending.spec_original()),
            ) ==> final(self).spec_bloom() == old(self).spec_bloom().insert(
                spec_identity_key(pending.spec_original()),
            ),
            r is Err ==> final(self).spec_bloom() == old(self).spec_bloom()
                && final(self).spec_cache() == old(self).spec_cache(),
    {
        let PendingBlob { identity, rel_path: _rel_path, compressed, original, first_seen } =
            pending;
        proof {
            lemma_identity_key_shape(original@);
        }
        let key = identity.as_str().as_bytes();
        let present = match self.meta.contains(key) {
            Err(e) => {
                return Err(e);
            },
            Ok(b) => b,
        };
        if present {
            self.increment_ref_count(key)?;
        } else {
            proof {
                if self.model_g@.recs.contains_key(key@) {
                    assert(db_view(self.meta).contains_pair(
                        key@,
                        enc_meta(self.model_g@.recs[key@]),
                    ));
                    assert(false);
                }
            }
            let record = ContentMetadata {
                size: original.len() as u64,
                compressed_size: compressed.len() as u64,
                content_type: None,
                first_seen,
                reference_count: 1,
            };
            let enc = encode_meta(&record);
            self.meta.insert(key, enc.as_slice())?;
            self.bloom.mark(identity.as_str());
            proof {
                let mm = self.model_g@;
                self.model_g@ = StoreModel {
                    recs: mm.recs.insert(key@, record@),
                    contents: mm.contents.insert(key@, original@),
                    sessions: mm.sessions,
                };
            }
            self.count = inc_sat_usize(self.count);
            self.total_size = add_sat_u64(self.total_size, original.len() as u64);
            self.total_csize = add_sat_u64(self.total_csize, compressed.len() as u64);
            proof {
                lemma_commit_new_wf(*old(self), *self, key@, record@, original@);
            }
        }
        if original.len() < CACHE_SIZE_CEILING {
            self.cache_put(&identity, original);
        }
        Ok(identity)
    }

    /// Puts one payload into the hot cache under its own identity, then
    /// enforces the capacity bound by evicting one arbitrary entry.
    fn cache_put(&mut self, id: &String, bytes: Vec<u8>)
        requires
            old(self).wf(),
            spec_identity(bytes@) == id@,
            bytes@.len() < CACHE_SIZE_CEILING,
        ensures
            final(self).wf(),
            final(self).base() == old(self).base(),
            final(self).model() == old(self).model(),
            bloom_marked(final(self).bloom) == bloom_marked(old(self).bloom),
    {
        self.cache.insert(id.as_str(), bytes);
        proof {
            assert(cache_view(self.cache).dom() =~= cache_view(old(self).cache).dom().insert(
                id@,
            ));
        }
        if self.cache.len() > CACHE_CAPACITY {
            self.cache.evict_one();
            proof {
                assert(self.wf());
            }
        } else {
            proof {
                assert(self.wf());
            }
        }
    }

    /// Serves a read: straight from the hot cache when the identity is
    /// there, otherwise by naming the blob path for the caller to read;
    /// an identity the index does not know is a definite miss.
    pub fn retrieve_content(&self, identity: &str) -> (r: Result<RetrieveOutcome, StorageError>)
        requires
            self.wf(),
        ensures
            match r {
                Ok(RetrieveOutcome::Cached(v)) => spec_identity(v@) == identity@,
                Ok(RetrieveOutcome::OnDisk(p)) => self.model().recs.contains_key(
                    identity.spec_bytes(),
                ) && p@ == spec_blob_path(self.base(), identity@),
                Err(StorageError::NotFound) => !self.model().recs.contains_key(
                    identity.spec_bytes(),
                ),
                Err(e) => e == StorageError::NotFound || e == StorageError::IndexError,
            },
            self.spec_is_cached(identity@) ==> (r matches Ok(RetrieveOutcome::Cached(v))
                && v@ == self.spec_cache()[identity@]),
            !self.spec_is_cached(identity@) && self.model().recs.contains_key(
                identity.spec_bytes(),
            ) ==> ((r matches Ok(RetrieveOutcome::OnDisk(_))) || (r matches Err(e) && e
                == StorageError::IndexError)),
            !self.spec_is_cached(identity@) && !self.model().recs.contains_key(
                identity.spec_bytes(),
            ) ==> (r matches Err(e) && (e == StorageError::NotFound || e
                == StorageError::IndexError)),
    {
        if let Some(v) = self.cache.get(identity) {
            proof {
                assert(cache_view(self.cache).contains_key(identity@));
                assert(spec_identity(cache_view(self.cache)[identity@]) == identity@);
            }
            return Ok(RetrieveOutcome::Cached(v));
        }
        let key = identity.as_bytes();
        if !check_id_key(key) {
            proof {
                if self.model_g@.recs.contains_key(identity.spec_bytes()) {
                    assert(wf_id_key(identity.spec_bytes()));
                    assert(false);
                }
            }
            return Err(StorageError::NotFound);
        }
        match self.meta.contains(key) {
            Err(e) => Err(e),
            Ok(false) => {
                proof {
                    if self.model_g@.recs.contains_key(identity.spec_bytes()) {
                        assert(db_view(self.meta).contains_pair(
                            key@,
                            enc_meta(self.model_g@.recs[key@]),
                        ));
                        assert(false);
                    }
                }
                Err(StorageError::NotFound)
            },
            Ok(true) => {
                proof {
                    let k = identity.spec_bytes();
                    assert(db_view(self.meta).dom().contains(k));
                    if self.model_g@.sessions.contains_key(k) {
                        assert(has_session_prefix(k));
                        assert(false);
                    }
                    assert(self.model_g@.recs.contains_key(k));
                    lemma_ascii_bytes_one_per_char(identity@);
                }
                let p = blob_path(self.base_path.as_str(), identity);
                Ok(RetrieveOutcome::OnDisk(p))
            },
        }
    }

    /// Decompresses a blob the caller read for an identity, verifies that
    /// the bytes hash back to that identity before caching them, and
    /// returns the raw payload.
    pub fn decode_retrieved(&mut self, identity: &str, compressed: &[u8]) -> (r: Result<
        Vec<u8>,
        StorageError,
    >)
        requires
            old(self).wf(),
        ensures
            final(self).wf(),
            final(self).base() == old(self).base(),
            final(self).model() == old(self).model(),
            final(self).spec_bloom() == old(self).spec_bloom(),
            r matches Ok(v) ==> zstd_decoding(compressed@) == Some(v@),
            r matches Err(e) ==> e == StorageError::CompressionError && zstd_decoding(
                compressed@,
            ) is None,
            (r matches Ok(v) && v@.len() >= CACHE_SIZE_CEILING) ==> final(self).spec_cache()
                == old(self).spec_cache(),
            ({
                let key = identity.spec_bytes();
                old(self).model().contents.contains_key(key) && compressed@ == zstd_encoding(
                    COMPRESSION_LEVEL as int,
                    old(self).model().contents[key],
                )
            }) ==> (r matches Ok(v) && v@ == old(self).model().contents[identity.spec_bytes()]),
    {
        let v = zstd_decompress(compressed)?;
        if v.len() < CACHE_SIZE_CEILING {
            let vid = identity_string(v.as_slice());
            if bytes_eq(vid.as_str().as_bytes(), identity.as_bytes()) {
                proof {
                    vstd::utf8::encode_utf8_decode_utf8(vid@);
                    vstd::utf8::encode_utf8_decode_utf8(identity@);
                }
                let copy = vstd::slice::slice_to_vec(v.as_slice());
                self.cache_put(&vid, copy);
            }
        }
        proof {
            let key = identity.spec_bytes();
            if old(self).model().contents.contains_key(key) && compressed@ == zstd_encoding(
                COMPRESSION_LEVEL as int,
                old(self).model().contents[key],
            ) {
                assert(zstd_decoding(compressed@) == Some(
                    old(self).model().contents[key],
                ));
            }
        }
        Ok(v)
    }

    /// Derives the dated snapshot path for a page-fetch record, appends it
    /// to the session's path list in the metadata index, and returns it.
    /// The caller then writes the serialized record at that path.
    #[verifier::rlimit(100)]
    pub fn store_page_fetch(&mut self, session_id: &str, page_fetch: &PageFetchIndex) -> (r:
        Result<String, StorageError>)
        requires
            old(self).wf(),
        ensures
            final(self).wf(),
            final(self).base() == old(self).base(),
            final(self).spec_cache() == old(self).spec_cache(),
            final(self).spec_bloom() == old(self).spec_bloom(),
            match r {
                Ok(path) => {
                    let skey = spec_session_key(session_id@);
                    let old_list = if old(self).model().sessions.contains_key(skey) {
                        old(self).model().sessions[skey]
                    } else {
                        Seq::empty()
                    };
                    &&& final(self).model().recs == old(self).model().recs
                    &&& final(self).model().contents == old(self).model().contents
                    &&& final(self).model().sessions == old(self).model().sessions.insert(
                        skey,
                        old_list.push(path@),
                    )
                    &&& exists|t: i64|
                        0 <= t <= MAX_DATE_MILLIS && path@ == spec_snapshot_path(
                            old(self).base(),
                            t,
                            session_id@,
                            page_fetch.timestamp,
                            page_fetch.page_url@,
                        )
                },
                Err(e) => final(self).model() == old(self).model() && e
                    == StorageError::IndexError,
            },
    {
        let mut now = now_millis();
        if now < 0 {
            now = 0;
        }
        if now > MAX_DATE_MILLIS {
            now = MAX_DATE_MILLIS;
        }
        let date = utc_date_string(now);
        let page_hash = identity_string(page_fetch.page_url.as_str().as_bytes());
        proof {
            lemma_identity_key_shape(encode_utf8(page_fetch.page_url@));
        }
        let ts_str = i64_string(page_fetch.timestamp);
        let mut path = String::new();
        path.append(self.base_path.as_str());
        path.append("/sessions/");
        path.append(date.as_str());
        path.append("/");
        path.append(session_id);
        path.append("/");
        path.append(ts_str.as_str());
        path.append("_");
        path.append(page_hash.substring_char(7, 15));
        path.append(".json");
        proof {
            assert(path@ =~= spec_snapshot_path(
                self.base(),
                now,
                session_id@,
                page_fetch.timestamp,
                page_fetch.page_url@,
            ));
        }
        let mut skey_s = String::new();
        skey_s.append("session:");
        skey_s.append(session_id);
        proof {
            assert(skey_s@ =~= "session:"@ + session_id@);
            lemma_session_key_shape(session_id@);
        }
        let skey = skey_s.as_str().as_bytes();
        let mut paths: Vec<String>;
        match self.meta.get(skey) {
            Err(e) => {
                return Err(e);
            },
            Ok(None) => {
                paths = Vec::new();
            },
            Ok(Some(v)) => {
                let val_len = v.len();
                proof {
                    let sess = self.model_g@.sessions;
                    if self.model_g@.recs.contains_key(skey@) {
                        assert(has_id_prefix(skey@));
                        assert(false);
                    }
                    assert(sess.contains_key(skey@));
                    assert(v@ == enc_paths(sess[skey@]) && paths_fit(sess[skey@]));
                }
                paths = decode_paths(v.as_slice())?;
                proof {
                    let sess = self.model_g@.sessions;
                    assert forall|x: int| 0 <= x < paths.deep_view().len() implies encode_utf8(
                        #[trigger] paths.deep_view()[x],
                    ).len() < 0x10000000000000000 by {
                        crate::codec::lemma_enc_paths_item_bound(paths.deep_view(), x);
                        assert(enc_paths(paths.deep_view()).len() == v@.len());
                        assert(v@.len() == val_len);
                    }
                    lemma_enc_paths_inj(paths.deep_view(), sess[skey@]);
                }
            },
        }
        let path_bytes = path.as_str().as_bytes();
        let path_len = path_bytes.len();
        proof {
            assert(path_bytes@ == encode_utf8(path@));
            assert(encode_utf8(path@).len() == path_len);
            assert(has_session_prefix(skey@));
            if self.model_g@.recs.contains_key(skey@) {
                assert(has_id_prefix(skey@));
                assert(false);
            }
        }
        paths.push(path.clone());
        let enc = encode_paths(&paths);
        self.meta.insert(skey, enc.as_slice())?;
        proof {
            let mm = self.model_g@;
            let old_list = if mm.sessions.contains_key(skey@) {
                mm.sessions[skey@]
            } else {
                Seq::empty()
            };
            assert(paths.deep_view() =~= old_list.push(path@));
            self.model_g@ = StoreModel {
                sessions: mm.sessions.insert(skey@, paths.deep_view()),
                ..mm
            };
            let m2 = self.model_g@;
            assert forall|k: Seq<u8>| m2.recs.contains_key(k) implies db_view(
                self.meta,
            ).contains_pair(k, enc_meta(#[trigger] m2.recs[k])) by {
                assert(wf_id_key(k));
                assert(k[1] == 104u8);
                assert(skey@[1] == 101u8);
                assert(k != skey@);
            }
            assert forall|k: Seq<u8>| #[trigger] m2.sessions.contains_key(
                k,
            ) implies has_session_prefix(k) && db_view(self.meta).contains_pair(
                k,
                enc_paths(m2.sessions[k]),
            ) && wf_paths(m2.sessions[k]) by {
                if k != skey@ {
                    assert(mm.sessions.contains_key(k));
                } else {
                    if mm.sessions.contains_key(skey@) {
                        assert(wf_paths(old_list));
                    }
                    assert(encode_utf8(path@).len() == path_len);
                    assert forall|x: int|
                        0 <= x < m2.sessions[k].len() implies encode_utf8(
                        #[trigger] m2.sessions[k][x],
                    ).len() < 0x10000000000000000 by {
                        if x < old_list.len() {
                            assert(m2.sessions[k][x] == old_list[x]);
                        } else {
                            assert(m2.sessions[k][x] == path@);
                        }
                    }
                }
            }
            assert(self.wf());
        }
        Ok(path)
    }

    /// The snapshot paths recorded so far for a session, oldest first.
    pub fn session_paths(&self, session_id: &str) -> (r: Result<Vec<String>, StorageError>)
        requires
            self.wf(),
        ensures
            r matches Ok(l) ==> l.deep_view() == (if self.model().sessions.contains_key(
                spec_session_key(session_id@),
            ) {
                self.model().sessions[spec_session_key(session_id@)]
            } else {
                Seq::<Seq<char>>::empty()
            }),
            r matches Err(e) ==> e == StorageError::IndexError,
    {
        let mut skey_s = String::new();
        skey_s.append("session:");
        skey_s.append(session_id);
        proof {
            assert(skey_s@ =~= "session:"@ + session_id@);
            lemma_session_key_shape(session_id@);
        }
        match self.meta.get(skey_s.as_str().as_bytes()) {
            Err(e) => Err(e),
            Ok(None) => {
                let r: Vec<String> = Vec::new();
                proof {
                    assert(r.deep_view() =~= Seq::<Seq<char>>::empty());
                }
                Ok(r)
            },
            Ok(Some(v)) => {
                let val_len = v.len();
                proof {
                    let sess = self.model_g@.sessions;
                    let skey = spec_session_key(session_id@);
                    if self.model_g@.recs.contains_key(skey) {
                        assert(has_id_prefix(skey));
                        assert(false);
                    }
                    assert(sess.contains_key(skey));
                    assert(v@ == enc_paths(sess[skey]) && paths_fit(sess[skey]));
                }
                let paths = decode_paths(v.as_slice())?;
                proof {
                    let sess = self.model_g@.sessions;
                    let skey = spec_session_key(session_id@);
                    assert forall|x: int| 0 <= x < paths.deep_view().len() implies encode_utf8(
                        #[trigger] paths.deep_view()[x],
                    ).len() < 0x10000000000000000 by {
                        crate::codec::lemma_enc_paths_item_bound(paths.deep_view(), x);
                        assert(enc_paths(paths.deep_view()).len() == v@.len());
                        assert(v@.len() == val_len);
                    }
                    lemma_enc_paths_inj(paths.deep_view(), sess[skey]);
                }
                Ok(paths)
            },
        }
    }

    /// Aggregate numbers over every stored payload: how many distinct
    /// payloads the index holds, how many entries sit in the hot cache, and
    /// the summed raw and compressed sizes (each clamped at its counter's
    /// width).
    pub fn get_stats(&self) -> (r: StorageStats)
        requires
            self.wf(),
        ensures
            r.content_count as int == sat_usize(self.model().recs.dom().len() as int),
            r.total_size as int == sat_u64(size_sum(self.model().recs)),
            r.compressed_size as int == sat_u64(csize_sum(self.model().recs)),
            r.cache_size == self.spec_cache_len(),
            r.cache_size <= CACHE_CAPACITY,
    {
        StorageStats {
            content_count: self.count,
            cache_size: self.cache.len(),
            total_size: self.total_size,
            compressed_size: self.total_csize,
        }
    }
}

proof fn lemma_commit_new_wf(pre: Storage, post: Storage, key: Seq<u8>, rec: MetaView, orig: Seq<u8>)
    requires
        pre.wf(),
        !pre.model_g@.recs.contains_key(key),
        key == spec_identity_key(orig),
        wf_id_key(key),
        rec.content_type is None,
        rec.size == orig.len() as u64,
        rec.csize == zstd_encoding(COMPRESSION_LEVEL as int, orig).len() as u64,
        zstd_decoding(zstd_encoding(COMPRESSION_LEVEL as int, orig)) == Some(orig),
        db_view(post.meta) == db_view(pre.meta).insert(key, enc_meta(rec)),
        bloom_marked(post.bloom) == bloom_marked(pre.bloom).insert(key),
        post.cache == pre.cache,
        post.model_g@ == (StoreModel {
            recs: pre.model_g@.recs.insert(key, rec),
            contents: pre.model_g@.contents.insert(key, orig),
            sessions: pre.model_g@.sessions,
        }),
        post.count as int == sat_usize(sat_usize(pre.model_g@.recs.dom().len() as int) + 1),
        post.total_size as int == sat_u64(sat_u64(size_sum(pre.model_g@.recs)) + rec.size),
        post.total_csize as int == sat_u64(sat_u64(csize_sum(pre.model_g@.recs)) + rec.csize),
    ensures
        post.wf(),
{
    let mm = pre.model_g@;
    let m2 = post.model_g@;
    lemma_sums_insert(mm.recs, key, rec);
    assert(db_view(post.meta).dom() =~= db_view(pre.meta).dom().insert(key));
    assert forall|k: Seq<u8>| m2.recs.contains_key(k) implies db_view(post.meta).contains_pair(
        k,
        enc_meta(#[trigger] m2.recs[k]),
    ) by {
        if k != key {
            assert(mm.recs.contains_key(k));
        }
    }
    assert forall|k: Seq<u8>| #[trigger] m2.sessions.contains_key(
        k,
    ) implies has_session_prefix(k) && db_view(post.meta).contains_pair(
        k,
        enc_paths(m2.sessions[k]),
    ) && wf_paths(m2.sessions[k]) by {
        assert(k[1] == 101u8 && key[1] == 104u8);
    }
    assert forall|k: Seq<u8>| #[trigger] db_view(post.meta).dom().contains(
        k,
    ) implies m2.recs.contains_key(k) || m2.sessions.contains_key(k) by {
        if k != key {
            assert(db_view(pre.meta).dom().contains(k));
        }
    }
    assert(post.wf());
}

/// What the index scan guarantees of its result: every pair is in the
/// store, every stored key appears, and no key repeats.
#[verifier::opaque]
pub open spec fn scan_entry_facts(
    entries: Seq<(Vec<u8>, Vec<u8>)>,
    db: Map<Seq<u8>, Seq<u8>>,
) -> bool {
    &&& forall|j: int|
        0 <= j < entries.len() ==> db.contains_pair(#[trigger] entries[j].0@, entries[j].1@)
    &&& forall|x: Seq<u8>|
        db.dom().contains(x) ==> exists|j: int|
            0 <= j < entries.len() && #[trigger] entries[j].0@ == x
    &&& forall|j: int, l: int|
        0 <= j < entries.len() && 0 <= l < entries.len() && j != l
            ==> #[trigger] entries[j].0@ != #[trigger] entries[l].0@
}

/// Invariant of the content records rebuilt so far from a scan: stored as
/// their exact encodings, under well-formed keys, all marked in the filter.
#[verifier::opaque]
pub open spec fn scan_recs_inv(
    recs: Map<Seq<u8>, MetaView>,
    db: Map<Seq<u8>, Seq<u8>>,
    marked: Set<Seq<u8>>,
) -> bool {
    &&& recs.dom().finite()
    &&& forall|k: Seq<u8>|
        recs.contains_key(k) ==> db.contains_pair(k, enc_meta(#[trigger] recs[k]))
    &&& forall|k: Seq<u8>| #[trigger] recs.contains_key(k) ==> wf_id_key(k)
    &&& forall|k: Seq<u8>| recs.contains_key(k) ==> wf_meta(#[trigger] recs[k])
    &&& forall|k: Seq<u8>| #[trigger] recs.contains_key(k) ==> marked.contains(k)
}

/// Invariant of the session lists rebuilt so far from a scan.
#[verifier::opaque]
pub open spec fn scan_sess_inv(
    sess: Map<Seq<u8>, Seq<Seq<char>>>,
    db: Map<Seq<u8>, Seq<u8>>,
) -> bool {
    &&& sess.dom().finite()
    &&& forall|k: Seq<u8>| #[trigger]
        sess.contains_key(k) ==> has_session_prefix(k) && db.contains_pair(
            k,
            enc_paths(sess[k]),
        ) && wf_paths(sess[k])
}

proof fn lemma_scan_fresh(
    recs: Map<Seq<u8>, MetaView>,
    sess: Map<Seq<u8>, Seq<Seq<char>>>,
    entries: Seq<(Vec<u8>, Vec<u8>)>,
    db: Map<Seq<u8>, Seq<u8>>,
    i: int,
)
    requires
        0 <= i < entries.len(),
        scan_entry_facts(entries, db),
        forall|k: Seq<u8>| #[trigger]
            recs.contains_key(k) ==> exists|j: int| 0 <= j < i && entries[j].0@ == k,
        forall|k: Seq<u8>| #[trigger]
            sess.contains_key(k) ==> exists|j: int| 0 <= j < i && entries[j].0@ == k,
    ensures
        !recs.contains_key(entries[i].0@),
        !sess.contains_key(entries[i].0@),
{
    reveal(scan_entry_facts);
    let k = entries[i].0@;
    if recs.contains_key(k) {
        let j = choose|j: int| 0 <= j < i && entries[j].0@ == k;
        assert(entries[j].0@ == entries[i].0@);
    }
    if sess.contains_key(k) {
        let j = choose|j: int| 0 <= j < i && entries[j].0@ == k;
        assert(entries[j].0@ == entries[i].0@);
    }
}

proof fn lemma_recs_inv_marked_grow(
    recs: Map<Seq<u8>, MetaView>,
    db: Map<Seq<u8>, Seq<u8>>,
    m1: Set<Seq<u8>>,
    m2: Set<Seq<u8>>,
)
    requires
        scan_recs_inv(recs, db, m1),
        m1.subset_of(m2),
    ensures
        scan_recs_inv(recs, db, m2),
{
    reveal(scan_recs_inv);
}

proof fn lemma_scan_content_step(
    recs: Map<Seq<u8>, MetaView>,
    db: Map<Seq<u8>, Seq<u8>>,
    marked: Set<Seq<u8>>,
    k: Seq<u8>,
    m: MetaView,
)
    requires
        scan_recs_inv(recs, db, marked),
        marked.contains(k),
        !recs.contains_key(k),
        db.contains_pair(k, enc_meta(m)),
        wf_id_key(k),
        wf_meta(m),
    ensures
        scan_recs_inv(recs.insert(k, m), db, marked),
        recs.insert(k, m).dom().len() == recs.dom().len() + 1,
        size_sum(recs.insert(k, m)) == size_sum(recs) + m.size,
        csize_sum(recs.insert(k, m)) == csize_sum(recs) + m.csize,
{
    reveal(scan_recs_inv);
    lemma_sums_insert(recs, k, m);
    assert forall|x: Seq<u8>| #[trigger]
        recs.insert(k, m).contains_key(x) implies marked.contains(x) by {
        if x != k {
            assert(recs.contains_key(x));
        }
    }
}

proof fn lemma_scan_sess_step(
    sess: Map<Seq<u8>, Seq<Seq<char>>>,
    db: Map<Seq<u8>, Seq<u8>>,
    k: Seq<u8>,
    l: Seq<Seq<char>>,
)
    requires
        scan_sess_inv(sess, db),
        has_session_prefix(k),
        db.contains_pair(k, enc_paths(l)),
        wf_paths(l),
    ensures
        scan_sess_inv(sess.insert(k, l), db),
{
    reveal(scan_sess_inv);
}

/// Replays one scanned index entry: validates it, re-marks the filter for a
/// content key, and extends the rebuilt model and counters.
fn absorb_entry(
    bloom: &mut BloomFilter,
    key: &Vec<u8>,
    val: &Vec<u8>,
    count: usize,
    total_size: u64,
    total_csize: u64,
    Ghost(db): Ghost<Map<Seq<u8>, Seq<u8>>>,
    Ghost(recs): Ghost<Map<Seq<u8>, MetaView>>,
    Ghost(sess): Ghost<Map<Seq<u8>, Seq<Seq<char>>>>,
) -> (r: Result<
    (usize, u64, u64, Ghost<Map<Seq<u8>, MetaView>>, Ghost<Map<Seq<u8>, Seq<Seq<char>>>>),
    StorageError,
>)
    requires
        db.contains_pair(key@, val@),
        !recs.contains_key(key@),
        !sess.contains_key(key@),
        scan_recs_inv(recs, db, bloom_marked(*old(bloom))),
        scan_sess_inv(sess, db),
        count as int == sat_usize(recs.dom().len() as int),
        total_size as int == sat_u64(size_sum(recs)),
        total_csize as int == sat_u64(csize_sum(recs)),
    ensures
        r matches Ok(out) ==> {
            &&& scan_recs_inv(out.3@, db, bloom_marked(*final(bloom)))
            &&& scan_sess_inv(out.4@, db)
            &&& (out.3@.contains_key(key@) || out.4@.contains_key(key@))
            &&& forall|k: Seq<u8>| #[trigger]
                out.3@.contains_key(k) ==> recs.contains_key(k) || k == key@
            &&& forall|k: Seq<u8>| #[trigger]
                out.4@.contains_key(k) ==> sess.contains_key(k) || k == key@
            &&& forall|k: Seq<u8>| recs.contains_key(k) ==> #[trigger] out.3@.contains_key(k)
            &&& forall|k: Seq<u8>| sess.contains_key(k) ==> #[trigger] out.4@.contains_key(k)
            &&& out.0 as int == sat_usize(out.3@.dom().len() as int)
            &&& out.1 as int == sat_u64(size_sum(out.3@))
            &&& out.2 as int == sat_u64(csize_sum(out.3@))
        },
        r matches Err(e) ==> e == StorageError::SerializationError,
{
    let key_len = key.len();
    let val_len = val.len();
    if check_id_key(key.as_slice()) {
        let m = decode_meta(val.as_slice())?;
        let ks = utf8_string_range(key.as_slice(), 0, key_len)?;
        bloom.mark(ks.as_str());
        let c2 = inc_sat_usize(count);
        let t2 = add_sat_u64(total_size, m.size);
        let tc2 = add_sat_u64(total_csize, m.compressed_size);
        proof {
            assert(key@.subrange(0, key_len as int) =~= key@);
            if (m@.content_type matches Some(ct)) {
                crate::codec::lemma_enc_meta_len(m@);
                assert(val@.len() == val_len);
            }
            lemma_recs_inv_marked_grow(
                recs,
                db,
                bloom_marked(*old(bloom)),
                bloom_marked(*bloom),
            );
            lemma_scan_content_step(recs, db, bloom_marked(*bloom), key@, m@);
        }
        Ok((c2, t2, tc2, Ghost(recs.insert(key@, m@)), Ghost(sess)))
    } else if check_session_key(key.as_slice()) {
        let l = decode_paths(val.as_slice())?;
        proof {
            assert forall|x: int| 0 <= x < l.deep_view().len() implies encode_utf8(
                #[trigger] l.deep_view()[x],
            ).len() < 0x10000000000000000 by {
                crate::codec::lemma_enc_paths_item_bound(l.deep_view(), x);
                assert(val@.len() == val_len);
            }
            lemma_scan_sess_step(sess, db, key@, l.deep_view());
        }
        Ok((count, total_size, total_csize, Ghost(recs), Ghost(sess.insert(key@, l.deep_view()))))
    } else {
        Err(StorageError::SerializationError)
    }
}

/// Cache capacity bound: a well-formed engine never holds more hot-cache
/// entries than the configured capacity.
pub proof fn lemma_cache_capacity_bound(s: Storage)
    requires
        s.wf(),
    ensures
        s.spec_cache_len() <= CACHE_CAPACITY,
{
}

/// Every hot-cache entry of a well-formed engine hashes back to its own key
/// and sits strictly under the size ceiling: payloads at or above the
/// ceiling never enter the cache.
pub proof fn lemma_cache_entries_wf(s: Storage)
    requires
        s.wf(),
    ensures
        forall|c: Seq<char>|
            s.spec_cache().contains_key(c) ==> spec_identity(#[trigger] s.spec_cache()[c])
                == c && s.spec_cache()[c].len() < CACHE_SIZE_CEILING,
{
}

/// A well-formed content key never carries the session prefix.
proof fn lemma_session_prefix_disjoint(k: Seq<u8>)
    requires
        wf_id_key(k),
    ensures
        !has_session_prefix(k),
{
}

} // verus!
