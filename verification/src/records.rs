use vstd::prelude::*;

verus! {

/// One metadata record per distinct content identity: sizes, optional
/// content-type hint, first-seen time (milliseconds since the epoch) and the
/// reference count, which starts at 1 and grows on every repeated store.
#[derive(Debug)]
pub struct ContentMetadata {
    pub size: u64,
    pub compressed_size: u64,
    pub content_type: Option<String>,
    pub first_seen: i64,
    pub reference_count: u32,
}

/// Mathematical view of a metadata record.
pub struct MetaView {
    pub size: u64,
    pub csize: u64,
    pub content_type: Option<Seq<char>>,
    pub first_seen: i64,
    pub rc: u32,
}

impl View for ContentMetadata {
    type V = MetaView;

    open spec fn view(&self) -> MetaView {
        MetaView {
            size: self.size,
            csize: self.compressed_size,
            content_type: match self.content_type {
                Some(s) => Some(s@),
                None => None,
            },
            first_seen: self.first_seen,
            rc: self.reference_count,
        }
    }
}

/// Aggregate numbers over every stored payload, computed against the
/// metadata index.  The compression ratio is the quotient of
/// `compressed_size` over `total_size`; callers that want it as a fraction
/// divide these two fields.
#[derive(Debug)]
pub struct StorageStats {
    pub content_count: usize,
    pub cache_size: usize,
    pub total_size: u64,
    pub compressed_size: u64,
}

/// One HTTP header, name and value.
#[derive(Debug, Clone)]
pub struct HttpHeader {
    pub name: String,
    pub value: String,
}

impl View for HttpHeader {
    type V = (Seq<char>, Seq<char>);

    open spec fn view(&self) -> (Seq<char>, Seq<char>) {
        (self.name@, self.value@)
    }
}

/// An archived response, referencing its body by content identity rather
/// than embedding raw bytes; the body fields are `None` for an empty body.
#[derive(Debug, Clone)]
pub struct ArchivedResponse {
    pub status_code: u16,
    pub headers: Vec<(String, String)>,
    pub body_hash: Option<String>,
    pub body_size: Option<u64>,
    pub body_type: Option<String>,
}

/// Mathematical view of an archived response.
pub struct ArchivedResponseView {
    pub status_code: u16,
    pub headers: Seq<(Seq<char>, Seq<char>)>,
    pub body_hash: Option<Seq<char>>,
    pub body_size: Option<u64>,
    pub body_type: Option<Seq<char>>,
}

pub open spec fn opt_str_view(s: Option<String>) -> Option<Seq<char>> {
    match s {
        Some(x) => Some(x@),
        None => None,
    }
}

impl View for ArchivedResponse {
    type V = ArchivedResponseView;

    open spec fn view(&self) -> ArchivedResponseView {
        ArchivedResponseView {
            status_code: self.status_code,
            headers: Seq::new(self.headers@.len(), |i: int| (self.headers@[i].0@, self.headers@[i].1@)),
            body_hash: opt_str_view(self.body_hash),
            body_size: self.body_size,
            body_type: opt_str_view(self.body_type),
        }
    }
}

/// An archived request, referencing its body by content identity.
#[derive(Debug, Clone)]
pub struct ArchivedRequest {
    pub request_id: String,
    pub timestamp: i64,
    pub method: String,
    pub url: String,
    pub request_headers: Vec<(String, String)>,
    pub request_body_hash: Option<String>,
    pub request_body_size: Option<u64>,
    pub response: Option<ArchivedResponse>,
}

/// Mathematical view of an archived request.
pub struct ArchivedRequestView {
    pub request_id: Seq<char>,
    pub timestamp: i64,
    pub method: Seq<char>,
    pub url: Seq<char>,
    pub request_headers: Seq<(Seq<char>, Seq<char>)>,
    pub request_body_hash: Option<Seq<char>>,
    pub request_body_size: Option<u64>,
    pub response: Option<ArchivedResponseView>,
}

impl View for ArchivedRequest {
    type V = ArchivedRequestView;

    open spec fn view(&self) -> ArchivedRequestView {
        ArchivedRequestView {
            request_id: self.request_id@,
            timestamp: self.timestamp,
            method: self.method@,
            url: self.url@,
            request_headers: Seq::new(
                self.request_headers@.len(),
                |i: int| (self.request_headers@[i].0@, self.request_headers@[i].1@),
            ),
            request_body_hash: opt_str_view(self.request_body_hash),
            request_body_size: self.request_body_size,
            response: match self.response {
                Some(r) => Some(r@),
                None => None,
            },
        }
    }
}

/// One record per (session, navigation): the page URL, a generated
/// navigation identifier, the archived requests in arrival order, and the
/// secret values that were redacted from the record.
#[derive(Debug, Clone)]
pub struct PageFetchIndex {
    pub session_id: String,
    pub page_url: String,
    pub timestamp: i64,
    pub navigation_id: String,
    pub requests: Vec<ArchivedRequest>,
    pub password_hashes: Vec<String>,
}

/// Mathematical view of a page-fetch record.
pub struct PageFetchIndexView {
    pub session_id: Seq<char>,
    pub page_url: Seq<char>,
    pub timestamp: i64,
    pub navigation_id: Seq<char>,
    pub requests: Seq<ArchivedRequestView>,
    pub password_hashes: Seq<Seq<char>>,
}

impl View for PageFetchIndex {
    type V = PageFetchIndexView;

    open spec fn view(&self) -> PageFetchIndexView {
        PageFetchIndexView {
            session_id: self.session_id@,
            page_url: self.page_url@,
            timestamp: self.timestamp,
            navigation_id: self.navigation_id@,
            requests: Seq::new(self.requests@.len(), |i: int| self.requests@[i]@),
            password_hashes: Seq::new(
                self.password_hashes@.len(),
                |i: int| self.password_hashes@[i]@,
            ),
        }
    }
}

} // verus!
