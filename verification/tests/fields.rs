use axum::http::{HeaderMap, HeaderName, HeaderValue};
use image_optimizer::formats::TargetFormat;
use image_optimizer::headers::{
    copy_response_headers, forwarded_headers, forwarded_request_headers, has_field, header_chars,
    should_skip_for_size, MAX_FIELDS, MOST_FIELDS,
};
use image_optimizer::response::{
    cached_file_response, converted_response, original_bytes_response, response_with_status,
    upstream_response, Refusal,
};

fn map(fields: &[(&'static str, &'static str)]) -> HeaderMap {
    let mut map = HeaderMap::new();
    for (name, value) in fields {
        map.append(HeaderName::from_static(name), HeaderValue::from_static(value));
    }
    map
}

fn values(map: &HeaderMap, name: &str) -> Vec<String> {
    map.get_all(name).iter().map(|v| v.to_str().unwrap().to_string()).collect()
}

fn many_fields(n: usize) -> HeaderMap {
    let mut map = HeaderMap::new();
    for i in 0..n {
        let name = HeaderName::from_bytes(format!("x-{}", i).as_bytes()).unwrap();
        map.insert(name, HeaderValue::from_static("1"));
    }
    map
}

#[test]
fn connection_fields_are_not_copied() {
    let source = map(&[
        ("connection", "close"),
        ("keep-alive", "1"),
        ("proxy-authenticate", "x"),
        ("proxy-authorization", "x"),
        ("te", "x"),
        ("trailer", "x"),
        ("transfer-encoding", "chunked"),
        ("upgrade", "x"),
        ("content-type", "image/png"),
        ("content-length", "5"),
        ("etag", "e"),
    ]);
    let mut target = HeaderMap::new();
    copy_response_headers(&mut target, &source, false);
    assert_eq!(target, map(&[("content-type", "image/png"), ("etag", "e")]));
    copy_response_headers(&mut target, &source, true);
    assert_eq!(
        target,
        map(&[("content-type", "image/png"), ("etag", "e"), ("content-length", "5")])
    );
}

#[test]
fn the_last_of_several_values_is_copied() {
    let source = map(&[("set-cookie", "a=1"), ("x", "y"), ("set-cookie", "b=2")]);
    let mut target = map(&[("set-cookie", "old"), ("x", "1"), ("x", "2"), ("z", "kept")]);
    copy_response_headers(&mut target, &source, true);
    assert_eq!(values(&target, "set-cookie"), vec!["b=2"]);
    assert_eq!(values(&target, "x"), vec!["y"]);
    assert_eq!(values(&target, "z"), vec!["kept"]);
}

#[test]
fn copying_the_same_fields_twice_changes_nothing() {
    let source = map(&[("a", "1"), ("a", "2"), ("b", "3")]);
    let mut once = map(&[("a", "0"), ("c", "4")]);
    copy_response_headers(&mut once, &source, true);
    let mut twice = once.clone();
    copy_response_headers(&mut twice, &source, true);
    assert_eq!(once, twice);
}

#[test]
fn sensitive_values_stay_sensitive() {
    let mut value = HeaderValue::from_static("secret");
    value.set_sensitive(true);
    let mut source = HeaderMap::new();
    source.insert("x-token", value);
    let mut target = HeaderMap::new();
    copy_response_headers(&mut target, &source, true);
    assert!(target.get("x-token").unwrap().is_sensitive());
}

#[test]
fn some_fields_are_forwarded() {
    assert_eq!(
        forwarded_request_headers(),
        vec![
            "accept",
            "accept-encoding",
            "if-none-match",
            "if-modified-since",
            "range",
            "if-range",
            "user-agent"
        ]
    );
    let request = map(&[
        ("user-agent", "u"),
        ("cookie", "c"),
        ("accept", "first"),
        ("accept", "second"),
        ("range", "bytes=0-1"),
    ]);
    let expected: Vec<(String, Vec<u8>)> = vec![
        ("accept".to_string(), b"first".to_vec()),
        ("range".to_string(), b"bytes=0-1".to_vec()),
        ("user-agent".to_string(), b"u".to_vec()),
    ];
    assert_eq!(forwarded_headers(&request), expected);
    assert!(has_field(&request, "range"));
    assert!(!has_field(&request, "if-range"));
}

#[test]
fn values_have_text_where_they_are_visible() {
    assert_eq!(header_chars(b"a\tb ~"), Some(vec!['a', '\t', 'b', ' ', '~']));
    assert_eq!(header_chars(b"a\x7f"), None);
    assert_eq!(header_chars(b"\xc3\xa4"), None);
    for b in 0..=255u8 {
        if let Ok(value) = HeaderValue::from_bytes(&[b]) {
            assert_eq!(header_chars(&[b]).is_some(), value.to_str().is_ok(), "{}", b);
        }
    }
}

#[test]
fn declared_lengths_decide_on_size() {
    assert!(should_skip_for_size(&map(&[("content-length", "11")]), 10));
    assert!(!should_skip_for_size(&map(&[("content-length", "10")]), 10));
    assert!(should_skip_for_size(&map(&[("content-length", "+11")]), 10));
    assert!(!should_skip_for_size(&map(&[("content-length", "many")]), 10));
    assert!(!should_skip_for_size(&map(&[("content-length", "99999999999999999999")]), 10));
    assert!(!should_skip_for_size(&map(&[]), 10));
    let mut twice = map(&[("content-length", "5"), ("content-length", "500")]);
    assert!(!should_skip_for_size(&twice, 10));
    twice.insert("content-length", HeaderValue::from_bytes(b"\xff").unwrap());
    assert!(!should_skip_for_size(&twice, 10));
}

#[test]
fn image_responses_may_be_kept_for_ever() {
    let head = converted_response(TargetFormat::Avif, 1234);
    assert_eq!(head.status, 200);
    assert_eq!(
        head.headers,
        map(&[
            ("content-type", "image/avif"),
            ("content-length", "1234"),
            ("cache-control", "public, max-age=31536000, immutable"),
            ("vary", "Accept"),
        ])
    );
    assert!(should_skip_for_size(&head.headers, 1233));
    assert!(!should_skip_for_size(&head.headers, 1234));

    let head = cached_file_response(TargetFormat::Webp, Some(7));
    assert_eq!(head.status, 200);
    assert_eq!(
        head.headers,
        map(&[
            ("content-type", "image/webp"),
            ("content-length", "7"),
            ("cache-control", "public, max-age=31536000, immutable"),
            ("vary", "Accept"),
        ])
    );
    let head = cached_file_response(TargetFormat::Webp, None);
    assert!(head.headers.get("content-length").is_none());
    assert_eq!(head.headers.len(), 3);
}

#[test]
fn original_images_declare_their_own_length() {
    let source = map(&[
        ("content-length", "999"),
        ("content-type", "image/jpeg"),
        ("connection", "close"),
    ]);
    let head = original_bytes_response(&source, 19).unwrap();
    assert_eq!(head.status, 200);
    assert_eq!(head.headers, map(&[("content-type", "image/jpeg"), ("content-length", "19")]));
}

#[test]
fn upstream_responses_keep_their_status() {
    let source = map(&[("content-length", "3"), ("te", "x"), ("location", "/b")]);
    let head = upstream_response(302, &source, true).unwrap();
    assert_eq!(head.status, 302);
    assert_eq!(head.headers, map(&[("content-length", "3"), ("location", "/b")]));
    let head = upstream_response(404, &source, false).unwrap();
    assert_eq!(head.status, 404);
    assert_eq!(head.headers, map(&[("location", "/b")]));
}

#[test]
fn fields_are_copied_while_there_is_room() {
    let most = many_fields(MAX_FIELDS);
    assert_eq!(upstream_response(200, &most, true).unwrap().headers, most);
    assert_eq!(original_bytes_response(&most, 1).unwrap().headers.len(), MAX_FIELDS + 1);

    let mut more = many_fields(20000);
    assert_eq!(upstream_response(200, &more, true).unwrap().headers, more);
    assert_eq!(original_bytes_response(&more, 1).unwrap().headers.len(), 20001);
    more.insert("connection", HeaderValue::from_static("close"));
    assert_eq!(upstream_response(200, &more, true).unwrap().headers.len(), 20000);

    let full = many_fields(MOST_FIELDS);
    assert_eq!(upstream_response(200, &full, true).unwrap().headers, full);
    assert!(original_bytes_response(&full, 1).is_none());

    let mut values = HeaderMap::new();
    for _ in 0..7000 {
        values.append("set-cookie", HeaderValue::from_static("a=1"));
    }
    values.append("set-cookie", HeaderValue::from_static("b=2"));
    let head = upstream_response(200, &values, true).unwrap();
    assert_eq!(head.headers, map(&[("set-cookie", "b=2")]));
}

#[test]
fn refusals_say_what_is_refused() {
    let cases = [
        (Refusal::MethodNotAllowed, 405, "method not allowed"),
        (Refusal::BadGateway, 502, "bad gateway"),
        (Refusal::ServiceUnavailable, 503, "service unavailable"),
    ];
    for (refusal, status, body) in cases {
        let head = response_with_status(refusal);
        assert_eq!(head.status, status);
        assert!(head.headers.is_empty());
        assert_eq!(refusal.body(), body);
    }
}
