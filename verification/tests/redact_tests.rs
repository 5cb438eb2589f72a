use archiver_server::records::HttpHeader;
use archiver_server::redact::{build_archived_request, build_archived_response, convert_headers,
    extract_session_id, replace_all, strip_password_hashes};

#[test]
fn strip_replaces_every_occurrence() {
    let hashes = vec!["hunter2".to_string()];
    let out = strip_password_hashes("pass=hunter2&again=hunter2", &hashes);
    assert_eq!(out, "pass=[REDACTED]&again=[REDACTED]");
}

#[test]
fn strip_applies_each_secret_in_order() {
    let hashes = vec!["aaa".to_string(), "bbb".to_string()];
    let out = strip_password_hashes("xaaaybbbz", &hashes);
    assert_eq!(out, "x[REDACTED]y[REDACTED]z");
}

#[test]
fn strip_without_match_is_identity() {
    let hashes = vec!["secret".to_string()];
    assert_eq!(strip_password_hashes("nothing to hide", &hashes), "nothing to hide");
    let none: Vec<String> = Vec::new();
    assert_eq!(strip_password_hashes("text", &none), "text");
}

#[test]
fn replace_all_is_leftmost_nonoverlapping() {
    assert_eq!(replace_all("aaaa", "aa", "b"), "bb");
    assert_eq!(replace_all("abc", "", "x"), "abc");
    assert_eq!(replace_all("ababa", "aba", "c"), "cba");
}

#[test]
fn convert_headers_redacts_values_and_keeps_names() {
    let hashes = vec!["tok123".to_string()];
    let headers = Some(vec![
        HttpHeader { name: "Authorization".to_string(), value: "Bearer tok123".to_string() },
        HttpHeader { name: "Accept".to_string(), value: "text/html".to_string() },
    ]);
    let out = convert_headers(headers, &hashes);
    assert_eq!(out.len(), 2);
    assert_eq!(out[0].0, "Authorization");
    assert_eq!(out[0].1, "Bearer [REDACTED]");
    assert_eq!(out[1], ("Accept".to_string(), "text/html".to_string()));
    assert_eq!(convert_headers(None, &hashes).len(), 0);
}

#[test]
fn session_id_is_third_segment_or_default() {
    assert_eq!(extract_session_id("https://example.com/page"), "example.com");
    assert_eq!(extract_session_id("https://example.com"), "example.com");
    assert_eq!(extract_session_id("nothing-here"), "default");
    assert_eq!(extract_session_id("a/b/c/d"), "c");
}

#[test]
fn archived_record_builders_redact_and_reference() {
    let secrets = vec!["tok".to_string()];
    let req = build_archived_request(
        "req-1".to_string(),
        5,
        "GET".to_string(),
        "https://example.com/?q=tok",
        Some(vec![HttpHeader { name: "X-Auth".to_string(), value: "tok!".to_string() }]),
        Some("sha256:ab".to_string()),
        Some(2),
        &secrets,
    );
    assert_eq!(req.url, "https://example.com/?q=[REDACTED]");
    assert_eq!(req.request_headers[0].0, "X-Auth");
    assert_eq!(req.request_headers[0].1, "[REDACTED]!");
    assert_eq!(req.request_body_hash.as_deref(), Some("sha256:ab"));
    assert_eq!(req.request_body_size, Some(2));
    assert!(req.response.is_none());
    let resp = build_archived_response(
        200,
        None,
        None,
        None,
        Some("text/html".to_string()),
        &secrets,
    );
    assert_eq!(resp.status_code, 200);
    assert_eq!(resp.headers.len(), 0);
    assert_eq!(resp.body_type.as_deref(), Some("text/html"));
}
