use websave_core::capture::{decode_data_url, has_client_header, route, CaptureRoute};

fn fields(v: &[&str]) -> Vec<String> {
    v.iter().map(|t| t.to_string()).collect()
}

#[test]
fn requests_are_routed_by_method_and_path() {
    assert_eq!(route("GET", "/ping"), CaptureRoute::Ping);
    assert_eq!(route("GET", "/show"), CaptureRoute::Show);
    assert_eq!(route("GET", "/reload"), CaptureRoute::Reload);
    assert_eq!(route("POST", "/save"), CaptureRoute::Save);
    assert_eq!(route("GET", "/save"), CaptureRoute::NotFound);
    assert_eq!(route("POST", "/ping"), CaptureRoute::NotFound);
    assert_eq!(route("get", "/ping"), CaptureRoute::NotFound);
    assert_eq!(route("GET", "/ping?x=1"), CaptureRoute::NotFound);
    assert_eq!(route("DELETE", "/"), CaptureRoute::NotFound);
}

#[test]
fn client_header_is_matched_ignoring_case() {
    assert!(has_client_header(&fields(&["Host", "X-WebSave-Client", "Content-Type"])));
    assert!(has_client_header(&fields(&["x-websave-client"])));
    assert!(!has_client_header(&fields(&["Host", "Origin"])));
    assert!(!has_client_header(&fields(&["x-websave-clients"])));
    assert!(!has_client_header(&fields(&[])));
}

#[test]
fn screenshots_decode_from_data_urls() {
    assert_eq!(
        decode_data_url("data:image/png;base64,aGVsbG8="),
        Some((b"hello".to_vec(), "png"))
    );
    assert_eq!(decode_data_url("data:IMAGE/JPEG;base64, aGk= \n"), Some((b"hi".to_vec(), "jpg")));
    assert_eq!(decode_data_url("data:image/jpg;base64,aGk="), Some((b"hi".to_vec(), "jpg")));
    assert_eq!(decode_data_url("data:image/webp;base64,aGk="), Some((b"hi".to_vec(), "webp")));
}

#[test]
fn unusable_screenshots_are_refused() {
    // wrong media type, no base64 marker, no data: prefix
    assert_eq!(decode_data_url("data:image/gif;base64,aGk="), None);
    assert_eq!(decode_data_url("data:image/png,aGk="), None);
    assert_eq!(decode_data_url("image/png;base64,aGk="), None);
    // empty image, payload the standard engine rejects
    assert_eq!(decode_data_url("data:image/png;base64,"), None);
    assert_eq!(decode_data_url("data:image/png;base64,@@@@"), None);
    assert_eq!(decode_data_url("data:image/png;base64,aGk"), None);
}
