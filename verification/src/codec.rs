use vstd::prelude::*;
use vstd::utf8::{encode_utf8, valid_utf8, encode_utf8_decode_utf8, encode_utf8_valid_utf8};
use crate::errors::StorageError;
use crate::records::{ContentMetadata, MetaView};

verus! {

// The metadata index stores structured records as byte strings.  The framing
// is the crate's own: little-endian fixed-width integers and length-prefixed
// UTF-8 text, checked on the way back in.

/// Little-endian encoding of a 64-bit value, lowest byte first.
pub open spec fn spec_le64(n: u64) -> Seq<u8> {
    seq![
        (n % 0x100) as u8,
        ((n / 0x100) % 0x100) as u8,
        ((n / 0x10000) % 0x100) as u8,
        ((n / 0x1000000) % 0x100) as u8,
        ((n / 0x100000000) % 0x100) as u8,
        ((n / 0x10000000000) % 0x100) as u8,
        ((n / 0x1000000000000) % 0x100) as u8,
        (n / 0x100000000000000) as u8,
    ]
}

/// The value eight little-endian bytes stand for.
pub open spec fn le64_int(s: Seq<u8>) -> int
    recommends
        s.len() == 8,
{
    s[0] + 0x100 * s[1] + 0x10000 * s[2] + 0x1000000 * s[3] + 0x100000000 * s[4]
        + 0x10000000000 * s[5] + 0x1000000000000 * s[6] + 0x100000000000000 * s[7]
}

pub proof fn lemma_le64_roundtrip(n: u64)
    ensures
        le64_int(spec_le64(n)) == n,
{
    let x: int = n as int;
    assert(x == 0x100 * (x / 0x100) + x % 0x100);
    assert(x / 0x100 == 0x100 * (x / 0x10000) + (x / 0x100) % 0x100);
    assert(x / 0x10000 == 0x100 * (x / 0x1000000) + (x / 0x10000) % 0x100);
    assert(x / 0x1000000 == 0x100 * (x / 0x100000000) + (x / 0x1000000) % 0x100);
    assert(x / 0x100000000 == 0x100 * (x / 0x10000000000) + (x / 0x100000000) % 0x100);
    assert(x / 0x10000000000 == 0x100 * (x / 0x1000000000000) + (x / 0x10000000000) % 0x100);
    assert(x / 0x1000000000000 == 0x100 * (x / 0x100000000000000) + (x / 0x1000000000000)
        % 0x100);
    assert(x / 0x100000000000000 < 0x100);
}

/// Appends the little-endian bytes of `n`.
pub fn push_le64(out: &mut Vec<u8>, n: u64)
    ensures
        final(out)@ == old(out)@ + spec_le64(n),
{
    out.push((n % 0x100) as u8);
    out.push(((n / 0x100) % 0x100) as u8);
    out.push(((n / 0x10000) % 0x100) as u8);
    out.push(((n / 0x1000000) % 0x100) as u8);
    out.push(((n / 0x100000000) % 0x100) as u8);
    out.push(((n / 0x10000000000) % 0x100) as u8);
    out.push(((n / 0x1000000000000) % 0x100) as u8);
    out.push((n / 0x100000000000000) as u8);
    assert(out@ =~= old(out)@ + spec_le64(n));
}

/// Reads the 64-bit value whose little-endian bytes sit at `pos`.
pub fn read_le64(b: &[u8], pos: usize) -> (r: u64)
    requires
        pos + 8 <= b@.len(),
    ensures
        r == le64_int(b@.subrange(pos as int, pos + 8)),
{
    let s = b[pos] as u64;
    let r = s + (b[pos + 1] as u64) * 0x100 + (b[pos + 2] as u64) * 0x10000 + (b[pos + 3] as u64)
        * 0x1000000 + (b[pos + 4] as u64) * 0x100000000 + (b[pos + 5] as u64) * 0x10000000000 + (
    b[pos + 6] as u64) * 0x1000000000000 + (b[pos + 7] as u64) * 0x100000000000000;
    assert(b@.subrange(pos as int, pos + 8)[0] == b@[pos as int]);
    r
}

/// Whether two byte strings are equal, element for element.
pub fn bytes_eq(a: &[u8], b: &[u8]) -> (r: bool)
    ensures
        r == (a@ == b@),
{
    if a.len() != b.len() {
        assert(a@ != b@);
        return false;
    }
    let n = a.len();
    let mut i: usize = 0;
    while i < n
        invariant
            n == a@.len() == b@.len(),
            i <= n,
            forall|j: int| 0 <= j < i ==> a@[j] == b@[j],
        decreases n - i,
    {
        if a[i] != b[i] {
            return false;
        }
        i += 1;
    }
    assert(a@ =~= b@);
    true
}

/// Relies on `String::from_utf8`: succeeds exactly on valid UTF-8 and wraps
/// exactly the given bytes.
#[verifier::external_body]
pub(crate) fn utf8_string_range(b: &[u8], from: usize, to: usize) -> (r: Result<
    String,
    StorageError,
>)
    requires
        from <= to <= b@.len(),
    ensures
        r matches Ok(s) ==> encode_utf8(s@) == b@.subrange(from as int, to as int),
        r matches Err(e) ==> e == StorageError::SerializationError && !valid_utf8(
            b@.subrange(from as int, to as int),
        ),
{
    String::from_utf8(b[from..to].to_vec()).map_err(|_| StorageError::SerializationError)
}

/// The byte encoding of one metadata record.
pub open spec fn enc_meta(m: MetaView) -> Seq<u8> {
    spec_le64(m.size) + spec_le64(m.csize) + spec_le64(m.first_seen as u64) + spec_le64(
        m.rc as u64,
    ) + match m.content_type {
        None => seq![0u8],
        Some(s) => seq![1u8] + spec_le64(encode_utf8(s).len() as u64) + encode_utf8(s),
    }
}

/// Whether a record's optional content type is short enough for its length
/// to be framed exactly.
pub open spec fn meta_fits(m: MetaView) -> bool {
    match m.content_type {
        Some(s) => encode_utf8(s).len() < 0x10000000000000000,
        None => true,
    }
}

/// Whether every path is short enough for its length to be framed exactly.
pub open spec fn paths_fit(l: Seq<Seq<char>>) -> bool {
    forall|i: int| 0 <= i < l.len() ==> encode_utf8(#[trigger] l[i]).len() < 0x10000000000000000
}

/// Serializes a metadata record.
pub fn encode_meta(m: &ContentMetadata) -> (r: Vec<u8>)
    ensures
        r@ == enc_meta(m@),
{
    let mut out: Vec<u8> = Vec::new();
    push_le64(&mut out, m.size);
    push_le64(&mut out, m.compressed_size);
    push_le64(&mut out, m.first_seen as u64);
    push_le64(&mut out, m.reference_count as u64);
    match &m.content_type {
        None => {
            out.push(0u8);
            assert(out@ =~= enc_meta(m@));
        },
        Some(s) => {
            out.push(1u8);
            let bs = s.as_str().as_bytes();
            push_le64(&mut out, bs.len() as u64);
            let mut i: usize = 0;
            let ghost base = out@;
            while i < bs.len()
                invariant
                    i <= bs@.len(),
                    out@ == base + bs@.subrange(0, i as int),
                decreases bs@.len() - i,
            {
                out.push(bs[i]);
                i += 1;
                assert(out@ =~= base + bs@.subrange(0, i as int));
            }
            assert(bs@.subrange(0, bs@.len() as int) =~= bs@);
            assert(out@ =~= enc_meta(m@));
        },
    }
    out
}

/// The field values a valid encoding pins down.
#[verifier::rlimit(80)]
proof fn lemma_enc_meta_fields(b: Seq<u8>, mv: MetaView)
    requires
        b == enc_meta(mv),
        meta_fits(mv),
    ensures
        b.len() >= 33,
        le64_int(b.subrange(0, 8)) == mv.size,
        le64_int(b.subrange(8, 16)) == mv.csize,
        le64_int(b.subrange(16, 24)) == mv.first_seen as u64,
        le64_int(b.subrange(24, 32)) == mv.rc as u64,
        mv.content_type is None ==> b[32] == 0u8 && b.len() == 33,
        mv.content_type matches Some(s) ==> b[32] == 1u8 && b.len() == 41 + encode_utf8(s).len()
            && le64_int(b.subrange(33, 41)) == encode_utf8(s).len() && b.subrange(
            41,
            b.len() as int,
        ) == encode_utf8(s),
{
    lemma_enc_meta_len(mv);
    assert(b.subrange(0, 8) =~= spec_le64(mv.size));
    lemma_le64_roundtrip(mv.size);
    assert(b.subrange(8, 16) =~= spec_le64(mv.csize));
    lemma_le64_roundtrip(mv.csize);
    assert(b.subrange(16, 24) =~= spec_le64(mv.first_seen as u64));
    lemma_le64_roundtrip(mv.first_seen as u64);
    assert(b.subrange(24, 32) =~= spec_le64(mv.rc as u64));
    lemma_le64_roundtrip(mv.rc as u64);
    match mv.content_type {
        None => {
            assert(b[32] == 0u8);
        },
        Some(s) => {
            assert(b[32] == 1u8);
            assert(b.subrange(33, 41) =~= spec_le64(encode_utf8(s).len() as u64));
            lemma_le64_roundtrip(encode_utf8(s).len() as u64);
            assert(b.subrange(41, b.len() as int) =~= encode_utf8(s));
        },
    }
}

/// Parses a metadata record, accepting exactly the byte strings that
/// `encode_meta` produces; every fitting record's encoding is accepted.
#[verifier::rlimit(100)]
pub fn decode_meta(b: &[u8]) -> (r: Result<ContentMetadata, StorageError>)
    ensures
        r matches Ok(m) ==> b@ == enc_meta(m@),
        r matches Err(e) ==> e == StorageError::SerializationError,
        (exists|mv: MetaView| b@ == enc_meta(mv) && meta_fits(mv)) ==> r is Ok,
{
    if b.len() < 33 {
        proof {
            if exists|mv: MetaView| b@ == enc_meta(mv) && meta_fits(mv) {
                let mv = choose|mv: MetaView| b@ == enc_meta(mv) && meta_fits(mv);
                lemma_enc_meta_fields(b@, mv);
            }
        }
        return Err(StorageError::SerializationError);
    }
    let size = read_le64(b, 0);
    let csize = read_le64(b, 8);
    let first_seen = read_le64(b, 16) as i64;
    let rc64 = read_le64(b, 24);
    if rc64 > 0xFFFF_FFFF {
        proof {
            if exists|mv: MetaView| b@ == enc_meta(mv) && meta_fits(mv) {
                let mv = choose|mv: MetaView| b@ == enc_meta(mv) && meta_fits(mv);
                lemma_enc_meta_fields(b@, mv);
            }
        }
        return Err(StorageError::SerializationError);
    }
    let flag = b[32];
    let content_type: Option<String>;
    if flag == 0 {
        if b.len() != 33 {
            proof {
                if exists|mv: MetaView| b@ == enc_meta(mv) && meta_fits(mv) {
                    let mv = choose|mv: MetaView| b@ == enc_meta(mv) && meta_fits(mv);
                    lemma_enc_meta_fields(b@, mv);
                }
            }
            return Err(StorageError::SerializationError);
        }
        content_type = None;
    } else if flag == 1 {
        if b.len() < 41 {
            proof {
                if exists|mv: MetaView| b@ == enc_meta(mv) && meta_fits(mv) {
                    let mv = choose|mv: MetaView| b@ == enc_meta(mv) && meta_fits(mv);
                    lemma_enc_meta_fields(b@, mv);
                }
            }
            return Err(StorageError::SerializationError);
        }
        let n = read_le64(b, 33);
        if n != (b.len() - 41) as u64 {
            proof {
                if exists|mv: MetaView| b@ == enc_meta(mv) && meta_fits(mv) {
                    let mv = choose|mv: MetaView| b@ == enc_meta(mv) && meta_fits(mv);
                    lemma_enc_meta_fields(b@, mv);
                }
            }
            return Err(StorageError::SerializationError);
        }
        match utf8_string_range(b, 41, b.len()) {
            Ok(s) => {
                content_type = Some(s);
            },
            Err(e) => {
                proof {
                    if exists|mv: MetaView| b@ == enc_meta(mv) && meta_fits(mv) {
                        let mv = choose|mv: MetaView| b@ == enc_meta(mv) && meta_fits(mv);
                        lemma_enc_meta_fields(b@, mv);
                        match mv.content_type {
                            Some(sv) => {
                                encode_utf8_valid_utf8(sv);
                            },
                            None => {},
                        }
                    }
                }
                return Err(e);
            },
        }
    } else {
        proof {
            if exists|mv: MetaView| b@ == enc_meta(mv) && meta_fits(mv) {
                let mv = choose|mv: MetaView| b@ == enc_meta(mv) && meta_fits(mv);
                lemma_enc_meta_fields(b@, mv);
            }
        }
        return Err(StorageError::SerializationError);
    }
    let m = ContentMetadata {
        size,
        compressed_size: csize,
        content_type,
        first_seen,
        reference_count: rc64 as u32,
    };
    let enc2 = encode_meta(&m);
    if bytes_eq(b, enc2.as_slice()) {
        Ok(m)
    } else {
        proof {
            if exists|mv: MetaView| b@ == enc_meta(mv) && meta_fits(mv) {
                let mv = choose|mv: MetaView| b@ == enc_meta(mv) && meta_fits(mv);
                lemma_enc_meta_fields(b@, mv);
                let fs: i64 = mv.first_seen;
                assert((fs as u64) as i64 == fs) by (bit_vector);
                let rv: u32 = mv.rc;
                assert((rv as u64) as u32 == rv) by (bit_vector);
                match (mv.content_type, m@.content_type) {
                    (Some(sv), Some(sp)) => {
                        assert(encode_utf8(sp) == encode_utf8(sv));
                        encode_utf8_decode_utf8(sp);
                        encode_utf8_decode_utf8(sv);
                    },
                    _ => {},
                }
                assert(m@ == mv);
            }
        }
        Err(StorageError::SerializationError)
    }
}

/// The byte encoding of one snapshot path./// The byte encoding of one snapshot path.
pub open spec fn enc_path_item(p: Seq<char>) -> Seq<u8> {
    spec_le64(encode_utf8(p).len() as u64) + encode_utf8(p)
}

/// The byte encoding of a snapshot path list, item after item.
pub open spec fn enc_paths(l: Seq<Seq<char>>) -> Seq<u8>
    decreases l.len(),
{
    if l.len() == 0 {
        Seq::empty()
    } else {
        enc_path_item(l[0]) + enc_paths(l.drop_first())
    }
}

pub proof fn lemma_enc_paths_push(l: Seq<Seq<char>>, p: Seq<char>)
    ensures
        enc_paths(l.push(p)) == enc_paths(l) + enc_path_item(p),
    decreases l.len(),
{
    let lp = l.push(p);
    if l.len() == 0 {
        assert(lp[0] == p);
        assert(lp.drop_first() =~= Seq::<Seq<char>>::empty());
        Seq::<u8>::add_empty_right(enc_path_item(p), enc_paths(lp.drop_first()));
        Seq::<u8>::add_empty_left(enc_paths(l), enc_path_item(p));
    } else {
        assert(lp[0] == l[0]);
        assert(lp.drop_first() =~= l.drop_first().push(p));
        lemma_enc_paths_push(l.drop_first(), p);
        vstd::seq_lib::lemma_concat_associative(
            enc_path_item(l[0]),
            enc_paths(l.drop_first()),
            enc_path_item(p),
        );
    }
}

/// Serializes a snapshot path list.
pub fn encode_paths(v: &Vec<String>) -> (r: Vec<u8>)
    ensures
        r@ == enc_paths(v.deep_view()),
{
    let mut out: Vec<u8> = Vec::new();
    let mut i: usize = 0;
    while i < v.len()
        invariant
            i <= v@.len(),
            out@ == enc_paths(v.deep_view().take(i as int)),
        decreases v@.len() - i,
    {
        let bs = v[i].as_str().as_bytes();
        push_le64(&mut out, bs.len() as u64);
        let mut j: usize = 0;
        let ghost base = out@;
        while j < bs.len()
            invariant
                j <= bs@.len(),
                out@ == base + bs@.subrange(0, j as int),
            decreases bs@.len() - j,
        {
            out.push(bs[j]);
            j += 1;
            assert(out@ =~= base + bs@.subrange(0, j as int));
        }
        proof {
            assert(bs@.subrange(0, bs@.len() as int) =~= bs@);
            lemma_enc_paths_push(v.deep_view().take(i as int), v@[i as int]@);
            assert(v.deep_view().take(i as int).push(v@[i as int]@) =~= v.deep_view().take(
                i + 1,
            ));
            assert(out@ =~= enc_paths(v.deep_view().take(i + 1)));
        }
        i += 1;
    }
    proof {
        assert(v.deep_view().take(v@.len() as int) =~= v.deep_view());
    }
    out
}

/// Parses a snapshot path list, accepting exactly the byte strings that
/// `encode_paths` produces.
#[verifier::rlimit(50)]
/// Parse state of a path list: the items read so far are exactly the first
/// frames of any fitting list the bytes encode, and the rest of the bytes
/// encode that list's remaining items.
#[verifier::opaque]
pub open spec fn paths_parse_inv(b: Seq<u8>, items: Seq<Seq<char>>, pos: int) -> bool {
    forall|l: Seq<Seq<char>>| #[trigger]
        enc_paths(l) == b && paths_fit(l) ==> items == l.take(items.len() as int)
            && items.len() <= l.len() && b.subrange(pos, b.len() as int) == enc_paths(
            l.skip(items.len() as int),
        )
}

proof fn lemma_paths_inv_init(b: Seq<u8>)
    ensures
        paths_parse_inv(b, Seq::empty(), 0),
{
    reveal(paths_parse_inv);
    assert forall|l: Seq<Seq<char>>| #[trigger]
        enc_paths(l) == b && paths_fit(l) implies Seq::<Seq<char>>::empty() == l.take(0)
        && b.subrange(0, b.len() as int) == enc_paths(l.skip(0)) by {
        assert(Seq::<Seq<char>>::empty() =~= l.take(0));
        assert(b.subrange(0, b.len() as int) =~= b);
        assert(l.skip(0) =~= l);
    }
}

/// What the head frame of the remaining bytes must be, for any fitting list.
#[verifier::rlimit(100)]
proof fn lemma_paths_head(b: Seq<u8>, items: Seq<Seq<char>>, pos: int, l: Seq<Seq<char>>)
    requires
        paths_parse_inv(b, items, pos),
        0 <= pos < b.len(),
        enc_paths(l) == b,
        paths_fit(l),
    ensures
        items.len() < l.len(),
        items == l.take(items.len() as int),
        pos + 8 + encode_utf8(l[items.len() as int]).len() <= b.len(),
        le64_int(b.subrange(pos, pos + 8)) == encode_utf8(l[items.len() as int]).len(),
        b.subrange(pos + 8, pos + 8 + encode_utf8(l[items.len() as int]).len() as int)
            == encode_utf8(l[items.len() as int]),
        b.subrange(
            pos + 8 + encode_utf8(l[items.len() as int]).len() as int,
            b.len() as int,
        ) == enc_paths(l.skip(items.len() as int + 1)),
{
    reveal(paths_parse_inv);
    let j = items.len() as int;
    let suffix = b.subrange(pos, b.len() as int);
    assert(suffix == enc_paths(l.skip(j)));
    assert(l.skip(j).len() > 0);
    let hd = l.skip(j)[0];
    assert(hd == l[j]);
    assert(enc_paths(l.skip(j)) == enc_path_item(hd) + enc_paths(l.skip(j).drop_first()));
    assert(l.skip(j).drop_first() =~= l.skip(j + 1));
    lemma_le64_roundtrip(encode_utf8(hd).len() as u64);
    let nl = encode_utf8(hd).len() as int;
    let item = enc_path_item(hd);
    let rest = enc_paths(l.skip(j + 1));
    assert(item.len() == 8 + nl);
    assert(suffix.len() == item.len() + rest.len());
    assert forall|x: int| 0 <= x < 8 implies suffix[x] == item[x] by {}
    assert(b.subrange(pos, pos + 8) =~= suffix.subrange(0, 8));
    assert(suffix.subrange(0, 8) =~= spec_le64(encode_utf8(hd).len() as u64));
    assert forall|x: int| 0 <= x < nl implies b[pos + 8 + x] == encode_utf8(hd)[x] by {
        assert(b[pos + 8 + x] == suffix[8 + x]);
        assert(suffix[8 + x] == item[8 + x]);
        assert(item[8 + x] == encode_utf8(hd)[x]);
    }
    assert(b.subrange(pos + 8, pos + 8 + nl) =~= encode_utf8(hd));
    assert forall|x: int| 0 <= x < rest.len() implies b[pos + 8 + nl + x] == rest[x] by {
        assert(b[pos + 8 + nl + x] == suffix[8 + nl + x]);
        assert(suffix[8 + nl + x] == rest[x]);
    }
    assert(b.subrange(pos + 8 + nl, b.len() as int) =~= rest);
}

proof fn lemma_paths_no_fit(b: Seq<u8>, items: Seq<Seq<char>>, pos: int, n: int)
    requires
        paths_parse_inv(b, items, pos),
        0 <= pos < b.len(),
        b.len() - pos >= 8 ==> n == le64_int(b.subrange(pos, pos + 8)),
        b.len() - pos < 8 || n > b.len() - pos - 8 || (0 <= n <= b.len() - pos - 8
            && !valid_utf8(b.subrange(pos + 8, pos + 8 + n))),
    ensures
        !(exists|l: Seq<Seq<char>>| #[trigger] enc_paths(l) == b && paths_fit(l)),
{
    if exists|l: Seq<Seq<char>>| #[trigger] enc_paths(l) == b && paths_fit(l) {
        let l = choose|l: Seq<Seq<char>>| #[trigger] enc_paths(l) == b && paths_fit(l);
        lemma_paths_head(b, items, pos, l);
        let hd = l[items.len() as int];
        encode_utf8_valid_utf8(hd);
        assert(false);
    }
}

proof fn lemma_paths_inv_step(
    b: Seq<u8>,
    items: Seq<Seq<char>>,
    pos: int,
    s: Seq<char>,
    end: int,
)
    requires
        paths_parse_inv(b, items, pos),
        0 <= pos < b.len(),
        pos + 8 <= end <= b.len(),
        end - pos - 8 == le64_int(b.subrange(pos, pos + 8)),
        encode_utf8(s) == b.subrange(pos + 8, end),
    ensures
        paths_parse_inv(b, items.push(s), end),
{
    reveal(paths_parse_inv);
    assert forall|l: Seq<Seq<char>>| #[trigger]
        enc_paths(l) == b && paths_fit(l) implies items.push(s) == l.take(
        items.push(s).len() as int,
    ) && items.push(s).len() <= l.len() && b.subrange(end, b.len() as int) == enc_paths(
        l.skip(items.push(s).len() as int),
    ) by {
        lemma_paths_head(b, items, pos, l);
        let j = items.len() as int;
        let hd = l[j];
        assert(encode_utf8(hd).len() == end - pos - 8);
        assert(encode_utf8(s) == encode_utf8(hd));
        encode_utf8_decode_utf8(s);
        encode_utf8_decode_utf8(hd);
        assert(s == hd);
        assert(items.push(s) =~= l.take(j + 1));
        assert(b.subrange(end, b.len() as int) == enc_paths(l.skip(j + 1)));
    }
}

proof fn lemma_paths_final(b: Seq<u8>, items: Seq<Seq<char>>)
    requires
        paths_parse_inv(b, items, b.len() as int),
    ensures
        (exists|l: Seq<Seq<char>>| #[trigger] enc_paths(l) == b && paths_fit(l))
            ==> enc_paths(items) == b,
{
    reveal(paths_parse_inv);
    if exists|l: Seq<Seq<char>>| #[trigger] enc_paths(l) == b && paths_fit(l) {
        let l = choose|l: Seq<Seq<char>>| #[trigger] enc_paths(l) == b && paths_fit(l);
        let j = items.len() as int;
        assert(b.subrange(b.len() as int, b.len() as int) =~= Seq::<u8>::empty());
        if l.skip(j).len() > 0 {
            assert(enc_paths(l.skip(j)) == enc_path_item(l.skip(j)[0]) + enc_paths(
                l.skip(j).drop_first(),
            ));
            assert(false);
        }
        assert(items =~= l);
    }
}

/// Parses a snapshot path list, accepting exactly the byte strings that
/// `encode_paths` produces; every fitting list's encoding is accepted.
pub fn decode_paths(b: &[u8]) -> (r: Result<Vec<String>, StorageError>)
    ensures
        r matches Ok(l) ==> b@ == enc_paths(l.deep_view()),
        r matches Err(e) ==> e == StorageError::SerializationError,
        (exists|l: Seq<Seq<char>>| #[trigger] enc_paths(l) == b@ && paths_fit(l)) ==> r
            is Ok,
{
    let mut items: Vec<String> = Vec::new();
    let mut pos: usize = 0;
    proof {
        lemma_paths_inv_init(b@);
        assert(items.deep_view() =~= Seq::<Seq<char>>::empty());
    }
    while pos < b.len()
        invariant
            pos <= b@.len(),
            paths_parse_inv(b@, items.deep_view(), pos as int),
        decreases b@.len() - pos,
    {
        if b.len() - pos < 8 {
            proof {
                lemma_paths_no_fit(b@, items.deep_view(), pos as int, 0);
            }
            return Err(StorageError::SerializationError);
        }
        let n = read_le64(b, pos);
        if n > (b.len() - pos - 8) as u64 {
            proof {
                lemma_paths_no_fit(b@, items.deep_view(), pos as int, n as int);
            }
            return Err(StorageError::SerializationError);
        }
        let end = pos + 8 + (n as usize);
        let ghost items_old = items.deep_view();
        let s_item = match utf8_string_range(b, pos + 8, end) {
            Ok(s) => s,
            Err(e) => {
                proof {
                    lemma_paths_no_fit(b@, items.deep_view(), pos as int, n as int);
                }
                return Err(e);
            },
        };
        proof {
            lemma_paths_inv_step(b@, items.deep_view(), pos as int, s_item@, end as int);
            assert(items_old.push(s_item@) =~= items_old.push(s_item@));
        }
        items.push(s_item);
        pos = end;
        proof {
            assert(items.deep_view() =~= items_old.push(s_item@));
        }
    }
    let enc2 = encode_paths(&items);
    if bytes_eq(b, enc2.as_slice()) {
        Ok(items)
    } else {
        proof {
            lemma_paths_final(b@, items.deep_view());
        }
        Err(StorageError::SerializationError)
    }
}

// Each encoding names its value unambiguously: equal encodings come from
// equal records.  Callers use this to learn that what they decode is the
// record the index holds.

pub proof fn lemma_le64_inj(a: u64, b: u64)
    requires
        spec_le64(a) == spec_le64(b),
    ensures
        a == b,
{
    lemma_le64_roundtrip(a);
    lemma_le64_roundtrip(b);
}

#[verifier::rlimit(80)]
pub proof fn lemma_enc_meta_len(m: MetaView)
    ensures
        enc_meta(m).len() >= 33,
        m.content_type is None ==> enc_meta(m).len() == 33,
        m.content_type matches Some(s) ==> enc_meta(m).len() == 41 + encode_utf8(s).len(),
{
}

#[verifier::rlimit(80)]
pub proof fn lemma_enc_meta_inj(a: MetaView, b: MetaView)
    requires
        enc_meta(a) == enc_meta(b),
    ensures
        a == b,
{
    let ea = enc_meta(a);
    let eb = enc_meta(b);
    lemma_enc_meta_len(a);
    lemma_enc_meta_len(b);
    assert(ea.subrange(0, 8) =~= spec_le64(a.size));
    assert(eb.subrange(0, 8) =~= spec_le64(b.size));
    lemma_le64_inj(a.size, b.size);
    assert(ea.subrange(8, 16) =~= spec_le64(a.csize));
    assert(eb.subrange(8, 16) =~= spec_le64(b.csize));
    lemma_le64_inj(a.csize, b.csize);
    assert(ea.subrange(16, 24) =~= spec_le64(a.first_seen as u64));
    assert(eb.subrange(16, 24) =~= spec_le64(b.first_seen as u64));
    lemma_le64_inj(a.first_seen as u64, b.first_seen as u64);
    let af: i64 = a.first_seen;
    let bf: i64 = b.first_seen;
    assert(af == bf) by (bit_vector)
        requires
            af as u64 == bf as u64,
    ;
    assert(ea.subrange(24, 32) =~= spec_le64(a.rc as u64));
    assert(eb.subrange(24, 32) =~= spec_le64(b.rc as u64));
    lemma_le64_inj(a.rc as u64, b.rc as u64);
    let ar: u32 = a.rc;
    let br: u32 = b.rc;
    assert(ar == br) by (bit_vector)
        requires
            ar as u64 == br as u64,
    ;
    match (a.content_type, b.content_type) {
        (None, None) => {
        },
        (Some(sa), Some(sb)) => {
            assert(ea.subrange(41, ea.len() as int) =~= encode_utf8(sa));
            assert(eb.subrange(41, eb.len() as int) =~= encode_utf8(sb));
            encode_utf8_decode_utf8(sa);
            encode_utf8_decode_utf8(sb);
            assert(sa == sb);
        },
        (None, Some(sb)) => {
            assert(ea[32] == 0u8);
            assert(eb[32] == 1u8);
        },
        (Some(sa), None) => {
            assert(ea[32] == 1u8);
            assert(eb[32] == 0u8);
        },
    }
}

#[verifier::rlimit(80)]
pub proof fn lemma_enc_paths_inj(a: Seq<Seq<char>>, b: Seq<Seq<char>>)
    requires
        enc_paths(a) == enc_paths(b),
        forall|i: int| 0 <= i < a.len() ==> encode_utf8(#[trigger] a[i]).len() < 0x10000000000000000,
        forall|i: int| 0 <= i < b.len() ==> encode_utf8(#[trigger] b[i]).len() < 0x10000000000000000,
    ensures
        a == b,
    decreases a.len(),
{
    if a.len() == 0 {
        if b.len() != 0 {
            assert(enc_paths(b).len() >= 8);
        }
        assert(a =~= b);
    } else {
        assert(enc_paths(a).len() >= 8);
        if b.len() == 0 {
            assert(false);
        }
        let ea = enc_paths(a);
        let na = encode_utf8(a[0]).len();
        let nb = encode_utf8(b[0]).len();
        assert(ea.subrange(0, 8) =~= spec_le64(na as u64));
        assert(ea.subrange(0, 8) =~= spec_le64(nb as u64));
        lemma_le64_inj(na as u64, nb as u64);
        assert(na == nb);
        assert(ea.subrange(8, 8 + na as int) =~= encode_utf8(a[0]));
        assert(ea.subrange(8, 8 + na as int) =~= encode_utf8(b[0]));
        encode_utf8_decode_utf8(a[0]);
        encode_utf8_decode_utf8(b[0]);
        assert(a[0] == b[0]);
        assert(ea.subrange(8 + na as int, ea.len() as int) =~= enc_paths(a.drop_first()));
        assert(ea.subrange(8 + na as int, ea.len() as int) =~= enc_paths(b.drop_first()));
        assert forall|i: int| 0 <= i < a.drop_first().len() implies encode_utf8(
            #[trigger] a.drop_first()[i],
        ).len() < 0x10000000000000000 by {
            assert(a.drop_first()[i] == a[i + 1]);
        }
        assert forall|i: int| 0 <= i < b.drop_first().len() implies encode_utf8(
            #[trigger] b.drop_first()[i],
        ).len() < 0x10000000000000000 by {
            assert(b.drop_first()[i] == b[i + 1]);
        }
        lemma_enc_paths_inj(a.drop_first(), b.drop_first());
        assert(a.len() == b.len());
        assert forall|i: int| 0 <= i < a.len() implies a[i] == b[i] by {
            if i > 0 {
                assert(a[i] == a.drop_first()[i - 1]);
                assert(b[i] == b.drop_first()[i - 1]);
            }
        }
        assert(a =~= b);
    }
}

/// Each item's text is no longer than the whole encoded list.
pub proof fn lemma_enc_paths_item_bound(l: Seq<Seq<char>>, i: int)
    requires
        0 <= i < l.len(),
    ensures
        enc_paths(l).len() >= encode_utf8(l[i]).len(),
    decreases l.len(),
{
    if i == 0 {
    } else {
        lemma_enc_paths_item_bound(l.drop_first(), i - 1);
        assert(l.drop_first()[i - 1] == l[i]);
    }
}

} // verus!
