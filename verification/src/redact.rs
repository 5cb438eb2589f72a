use vstd::prelude::*;
use vstd::string::{StringExecFns, StrSliceExecFns};
use crate::records::{HttpHeader, ArchivedRequest, ArchivedResponse, opt_str_view};

verus! {

/// Leftmost, non-overlapping replacement of every occurrence of `pat` in
/// `s` by `rep`; `s` unchanged when `pat` is empty.
pub open spec fn spec_replace(s: Seq<char>, pat: Seq<char>, rep: Seq<char>) -> Seq<char>
    decreases s.len(),
{
    if pat.len() == 0 || s.len() < pat.len() {
        s
    } else if s.take(pat.len() as int) == pat {
        rep + spec_replace(s.skip(pat.len() as int), pat, rep)
    } else {
        seq![s[0]] + spec_replace(s.drop_first(), pat, rep)
    }
}

/// Whether `pat` occurs in `text` at position `i`.
fn matches_at(text: &str, i: usize, pat: &str, m: usize, n: usize) -> (r: bool)
    requires
        m == pat@.len(),
        n == text@.len(),
        i + m <= n,
    ensures
        r == (text@.subrange(i as int, i + m) == pat@),
{
    let mut j: usize = 0;
    while j < m
        invariant
            m == pat@.len(),
            n == text@.len(),
            i + m <= n,
            j <= m,
            forall|x: int| 0 <= x < j ==> text@[i + x] == pat@[x],
        decreases m - j,
    {
        if text.get_char(i + j) != pat.get_char(j) {
            assert(text@.subrange(i as int, i + m)[j as int] != pat@[j as int]);
            return false;
        }
        j += 1;
    }
    assert(text@.subrange(i as int, i + m) =~= pat@);
    true
}

/// Replaces every occurrence of `pat` in `text` by `rep`, leftmost first,
/// without rescanning replaced text.
pub fn replace_all(text: &str, pat: &str, rep: &str) -> (r: String)
    ensures
        r@ == spec_replace(text@, pat@, rep@),
{
    let n = text.unicode_len();
    let m = pat.unicode_len();
    if m == 0 {
        return text.to_owned();
    }
    let mut out = String::new();
    let mut i: usize = 0;
    proof {
        assert(text@.skip(0) =~= text@);
    }
    while i < n
        invariant
            n == text@.len(),
            m == pat@.len(),
            m > 0,
            i <= n,
            out@ + spec_replace(text@.skip(i as int), pat@, rep@) == spec_replace(
                text@,
                pat@,
                rep@,
            ),
        decreases n - i,
    {
        let ghost rest = text@.skip(i as int);
        if m <= n - i && matches_at(text, i, pat, m, n) {
            out.append(rep);
            proof {
                assert(rest.take(m as int) =~= text@.subrange(i as int, i + m));
                assert(rest.skip(m as int) =~= text@.skip(i + m));
                assert(spec_replace(rest, pat@, rep@) == rep@ + spec_replace(
                    text@.skip(i + m),
                    pat@,
                    rep@,
                ));
            }
            i += m;
        } else {
            out.append(text.substring_char(i, i + 1));
            proof {
                assert(text@.subrange(i as int, i + 1) =~= seq![rest[0]]);
                if rest.len() < m {
                    assert(spec_replace(rest, pat@, rep@) == rest);
                    assert(rest.drop_first() =~= text@.skip(i + 1));
                    assert(spec_replace(text@.skip(i + 1), pat@, rep@) == text@.skip(i + 1));
                    assert(rest =~= seq![rest[0]] + rest.drop_first());
                } else {
                    assert(rest.take(m as int) =~= text@.subrange(i as int, i + m));
                    assert(rest.take(m as int) != pat@);
                    assert(rest.drop_first() =~= text@.skip(i + 1));
                    assert(spec_replace(rest, pat@, rep@) == seq![rest[0]] + spec_replace(
                        text@.skip(i + 1),
                        pat@,
                        rep@,
                    ));
                }
            }
            i += 1;
        }
    }
    proof {
        assert(text@.skip(n as int) =~= Seq::<char>::empty());
        assert(spec_replace(text@.skip(n as int), pat@, rep@) == Seq::<char>::empty());
        assert(out@ =~= out@ + Seq::<char>::empty());
    }
    out
}

/// The marker that stands in for a redacted secret value.
pub open spec fn spec_redacted() -> Seq<char> {
    "[REDACTED]"@
}

/// Replacing each secret in turn, first to last.
pub open spec fn spec_strip(s: Seq<char>, hs: Seq<Seq<char>>) -> Seq<char>
    decreases hs.len(),
{
    if hs.len() == 0 {
        s
    } else {
        spec_strip(spec_replace(s, hs[0], spec_redacted()), hs.drop_first())
    }
}

/// Replaces every occurrence of every known secret value in `text` with
/// `[REDACTED]`, applying the secrets in the order given.
pub fn strip_password_hashes(text: &str, hashes: &Vec<String>) -> (r: String)
    ensures
        r@ == spec_strip(text@, hashes.deep_view()),
{
    let mut cur = text.to_owned();
    let mut i: usize = 0;
    proof {
        assert(hashes.deep_view().skip(0) =~= hashes.deep_view());
    }
    while i < hashes.len()
        invariant
            i <= hashes@.len(),
            spec_strip(cur@, hashes.deep_view().skip(i as int)) == spec_strip(
                text@,
                hashes.deep_view(),
            ),
        decreases hashes@.len() - i,
    {
        let next = replace_all(cur.as_str(), hashes[i].as_str(), "[REDACTED]");
        proof {
            let hs = hashes.deep_view().skip(i as int);
            assert(hs[0] == hashes.deep_view()[i as int]);
            assert(hs.drop_first() =~= hashes.deep_view().skip(i + 1));
        }
        cur = next;
        i += 1;
    }
    proof {
        assert(hashes.deep_view().skip(hashes@.len() as int) =~= Seq::<Seq<char>>::empty());
    }
    cur
}

/// The view of converted headers: names kept, values redacted.
pub open spec fn spec_convert_headers(
    h: Option<Seq<(Seq<char>, Seq<char>)>>,
    hs: Seq<Seq<char>>,
) -> Seq<(Seq<char>, Seq<char>)> {
    match h {
        None => Seq::empty(),
        Some(l) => Seq::new(l.len(), |i: int| (l[i].0, spec_strip(l[i].1, hs))),
    }
}

/// The views of a list of string pairs.
pub open spec fn pairs_view(v: Seq<(String, String)>) -> Seq<(Seq<char>, Seq<char>)> {
    Seq::new(v.len(), |i: int| (v[i].0@, v[i].1@))
}

pub open spec fn headers_view(h: Option<Vec<HttpHeader>>) -> Option<Seq<(Seq<char>, Seq<char>)>> {
    match h {
        None => None,
        Some(v) => Some(Seq::new(v@.len(), |i: int| (v@[i].name@, v@[i].value@))),
    }
}

/// Turns optional raw headers into name/value pairs with every known secret
/// value redacted from the values; `None` becomes the empty list.
pub fn convert_headers(headers: Option<Vec<HttpHeader>>, password_hashes: &Vec<String>) -> (r:
    Vec<(String, String)>)
    ensures
        pairs_view(r@) == spec_convert_headers(headers_view(headers), password_hashes.deep_view()),
{
    let ghost hv = headers_view(headers);
    let mut out: Vec<(String, String)> = Vec::new();
    match headers {
        None => {
            proof {
                assert(pairs_view(out@) =~= spec_convert_headers(
                    hv,
                    password_hashes.deep_view(),
                ));
            }
        },
        Some(v) => {
            let mut i: usize = 0;
            while i < v.len()
                invariant
                    i <= v@.len(),
                    out@.len() == i,
                    hv == headers_view(Some(v)),
                    pairs_view(out@) =~= spec_convert_headers(
                        hv,
                        password_hashes.deep_view(),
                    ).take(i as int),
                decreases v@.len() - i,
            {
                let h = &v[i];
                let value = strip_password_hashes(h.value.as_str(), password_hashes);
                let name = h.name.clone();
                out.push((name, value));
                proof {
                    let full = spec_convert_headers(hv, password_hashes.deep_view());
                    assert(full[i as int] == (
                        v@[i as int].name@,
                        spec_strip(v@[i as int].value@, password_hashes.deep_view()),
                    ));
                    assert(out@[i as int] == (name, value));
                    assert(pairs_view(out@)[i as int] == (name@, value@));
                    assert(pairs_view(out@) =~= full.take(i + 1));
                }
                i += 1;
            }
            proof {
                let full = spec_convert_headers(hv, password_hashes.deep_view());
                assert(full.take(v@.len() as int) =~= full);
            }
        },
    }
    out
}

/// Position of the first `/` at or after `from`, or the length when none.
pub open spec fn find_slash(s: Seq<char>, from: int) -> int
    recommends
        0 <= from <= s.len(),
    decreases s.len() - from,
{
    if from >= s.len() {
        s.len() as int
    } else if s[from] == '/' {
        from
    } else {
        find_slash(s, from + 1)
    }
}

/// The third `/`-separated segment of a URL (for `scheme://host/...` this
/// is the host), or `default` when the URL has fewer than three segments.
pub open spec fn spec_extract_session_id(s: Seq<char>) -> Seq<char> {
    let a = find_slash(s, 0);
    if a >= s.len() {
        "default"@
    } else {
        let b = find_slash(s, a + 1);
        if b >= s.len() {
            "default"@
        } else {
            s.subrange(b + 1, find_slash(s, b + 1))
        }
    }
}

/// Finds the first `/` at or after `from`, executably.
fn find_slash_exec(s: &str, from: usize, n: usize) -> (r: usize)
    requires
        n == s@.len(),
        from <= n,
    ensures
        r == find_slash(s@, from as int),
        from <= r <= n,
    decreases n - from,
{
    if from >= n {
        n
    } else if s.get_char(from) == '/' {
        from
    } else {
        find_slash_exec(s, from + 1, n)
    }
}

/// Extracts the session identifier from a URL: its third `/`-separated
/// segment (the domain of an `http(s)://` URL), or `default`.
pub fn extract_session_id(url: &str) -> (r: String)
    ensures
        r@ == spec_extract_session_id(url@),
{
    let n = url.unicode_len();
    let a = find_slash_exec(url, 0, n);
    if a >= n {
        return "default".to_owned();
    }
    let b = find_slash_exec(url, a + 1, n);
    if b >= n {
        return "default".to_owned();
    }
    let c = find_slash_exec(url, b + 1, n);
    url.substring_char(b + 1, c).to_owned()
}

/// Assembles one archived request: URL and header values redacted, the
/// body referenced by identity rather than embedded, no response yet.
pub fn build_archived_request(
    request_id: String,
    timestamp: i64,
    method: String,
    url: &str,
    headers: Option<Vec<HttpHeader>>,
    body_hash: Option<String>,
    body_size: Option<u64>,
    secrets: &Vec<String>,
) -> (r: ArchivedRequest)
    ensures
        r@.request_id == request_id@,
        r@.timestamp == timestamp,
        r@.method == method@,
        r@.url == spec_strip(url@, secrets.deep_view()),
        r@.request_headers == spec_convert_headers(headers_view(headers), secrets.deep_view()),
        r@.request_body_hash == opt_str_view(body_hash),
        r@.request_body_size == body_size,
        r@.response is None,
{
    let r = ArchivedRequest {
        request_id,
        timestamp,
        method,
        url: strip_password_hashes(url, secrets),
        request_headers: convert_headers(headers, secrets),
        request_body_hash: body_hash,
        request_body_size: body_size,
        response: None,
    };
    proof {
        assert(r@.request_headers =~= pairs_view(r.request_headers@));
    }
    r
}

/// Assembles one archived response: header values redacted, the body
/// referenced by identity.
pub fn build_archived_response(
    status_code: u16,
    headers: Option<Vec<HttpHeader>>,
    body_hash: Option<String>,
    body_size: Option<u64>,
    body_type: Option<String>,
    secrets: &Vec<String>,
) -> (r: ArchivedResponse)
    ensures
        r@.status_code == status_code,
        r@.headers == spec_convert_headers(headers_view(headers), secrets.deep_view()),
        r@.body_hash == opt_str_view(body_hash),
        r@.body_size == body_size,
        r@.body_type == opt_str_view(body_type),
{
    let r = ArchivedResponse {
        status_code,
        headers: convert_headers(headers, secrets),
        body_hash,
        body_size,
        body_type,
    };
    proof {
        assert(r@.headers =~= pairs_view(r.headers@));
    }
    r
}

} // verus!
