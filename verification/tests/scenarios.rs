use axum::http::header::{ACCEPT, CONTENT_TYPE, RANGE};
use axum::http::{HeaderMap, HeaderValue};
use image_optimizer::body::LimitedBody;
use image_optimizer::cache::{
    cache_entry, cache_temp_path, is_cache_managed_file, TempFileCounter,
};
use image_optimizer::config::{
    Config, DEFAULT_AVIF_QUALITY, DEFAULT_AVIF_SPEED, DEFAULT_CACHE_CLEANUP_ENABLED,
    DEFAULT_CACHE_CLEANUP_INTERVAL_SECS, DEFAULT_CACHE_MAX_AGE_DAYS, DEFAULT_CACHE_MAX_BYTES,
    DEFAULT_CACHE_VERSION, DEFAULT_MAX_PIXELS, DEFAULT_MAX_TRANSFORM_BYTES,
    DEFAULT_UPSTREAM_CONNECT_TIMEOUT_SECS, DEFAULT_UPSTREAM_REQUEST_TIMEOUT_SECS,
    DEFAULT_WEBP_QUALITY,
};
use image_optimizer::formats::TargetFormat;
use image_optimizer::images::{encode_input, ensure_pixel_limit, EncodeError};
use image_optimizer::paths::PathStyle;
use image_optimizer::proxy::{
    fetch_upstream, proxy_handler, BodyOutcome, Event, Plan, ProxyMethod, Reply, Stage,
};
use image_optimizer::query::strip_format_query_raw;
use image_optimizer::response::{
    original_bytes_response, response_with_status, upstream_response, Refusal,
};
use image_optimizer::target::{build_upstream_url, uri_with_query, RequestTarget};
use image_optimizer::transform::decide_transform;

fn test_config(enable_accept_negotiation: bool) -> Config {
    Config {
        listen_addr: "127.0.0.1:9000".to_string(),
        upstream_base: url::Url::parse("http://127.0.0.1:9100").unwrap().to_string(),
        cache_dir: "C:\\minio_img_cache".to_string(),
        max_transform_bytes: DEFAULT_MAX_TRANSFORM_BYTES,
        max_pixels: DEFAULT_MAX_PIXELS,
        avif_quality: DEFAULT_AVIF_QUALITY.to_string(),
        avif_speed: DEFAULT_AVIF_SPEED,
        webp_quality: DEFAULT_WEBP_QUALITY.to_string(),
        cache_version: DEFAULT_CACHE_VERSION.to_string(),
        enable_accept_negotiation,
        max_concurrent_encodes: 1,
        upstream_connect_timeout: DEFAULT_UPSTREAM_CONNECT_TIMEOUT_SECS,
        upstream_request_timeout: DEFAULT_UPSTREAM_REQUEST_TIMEOUT_SECS,
        cache_cleanup_enabled: DEFAULT_CACHE_CLEANUP_ENABLED,
        cache_max_bytes: DEFAULT_CACHE_MAX_BYTES,
        cache_max_age: DEFAULT_CACHE_MAX_AGE_DAYS * 24 * 60 * 60,
        cache_cleanup_interval: DEFAULT_CACHE_CLEANUP_INTERVAL_SECS,
        path_style: PathStyle::Unix,
    }
}

fn target(written: &str) -> RequestTarget {
    RequestTarget::parse(written).unwrap()
}

#[test]
fn explicit_format_selects_transform_and_strips_format_query() {
    let uri = target("/bucket/a.jpg?format=avif&v=1");
    let decision = decide_transform(&uri, &HeaderMap::new(), &test_config(false)).unwrap();

    assert_eq!(decision.target, TargetFormat::Avif);
    assert_eq!(decision.upstream_query.as_deref(), Some("v=1"));
}

#[test]
fn no_format_does_not_negotiate_accept_by_default() {
    let uri = target("/bucket/a.jpg");
    let mut headers = HeaderMap::new();
    headers.insert(ACCEPT, HeaderValue::from_static("image/avif,image/webp"));

    assert!(decide_transform(&uri, &headers, &test_config(false)).is_none());
}

#[test]
fn accept_negotiation_can_be_enabled() {
    let uri = target("/bucket/a.jpg");
    let mut headers = HeaderMap::new();
    headers.insert(ACCEPT, HeaderValue::from_static("image/avif;q=0,image/webp"));

    let decision = decide_transform(&uri, &headers, &test_config(true)).unwrap();
    assert_eq!(decision.target, TargetFormat::Webp);
}

#[test]
fn range_requests_bypass_transform() {
    let uri = target("/bucket/a.jpg?format=webp");
    let mut headers = HeaderMap::new();
    headers.insert(RANGE, HeaderValue::from_static("bytes=0-99"));

    assert!(decide_transform(&uri, &headers, &test_config(false)).is_none());
}

#[test]
fn non_jpeg_png_paths_bypass_transform() {
    let uri = target("/bucket/video.mp4?format=avif");
    assert!(decide_transform(&uri, &HeaderMap::new(), &test_config(false)).is_none());
}

#[test]
fn cache_key_changes_when_encoder_settings_change() {
    let uri = target("/bucket/a.jpg?format=avif&v=1");
    let decision = decide_transform(&uri, &HeaderMap::new(), &test_config(false)).unwrap();
    let cfg_a = test_config(false);
    let mut cfg_b = test_config(false);
    cfg_b.avif_quality = "60".to_string();

    let entry_a = cache_entry(&cfg_a, &uri, &decision);
    let entry_b = cache_entry(&cfg_b, &uri, &decision);

    assert_ne!(entry_a.final_path, entry_b.final_path);
}

#[test]
fn build_upstream_preserves_path_style_access() {
    let base = url::Url::parse("http://127.0.0.1:9100").unwrap();
    let uri = target("/my-bucket/a/b.jpg?v=1");
    let url = build_upstream_url(base.as_str(), &uri).unwrap();

    assert_eq!(url.as_str(), "http://127.0.0.1:9100/my-bucket/a/b.jpg?v=1");
}

#[test]
fn build_upstream_preserves_encoded_path_bytes() {
    let base = url::Url::parse("http://127.0.0.1:9100").unwrap();
    let uri = target("/my-bucket/a%20b.jpg?v=hello%20world");
    let url = build_upstream_url(base.as_str(), &uri).unwrap();

    assert_eq!(
        url.as_str(),
        "http://127.0.0.1:9100/my-bucket/a%20b.jpg?v=hello%20world"
    );
}

#[test]
fn bypass_path_strips_format_before_proxying() {
    let uri = target("/my-bucket/a%20b.jpg?format=webp&v=1");
    let upstream_uri = uri_with_query(&uri, strip_format_query_raw(uri.query.as_deref()).as_deref());
    let base = url::Url::parse("http://127.0.0.1:9100").unwrap();
    let url = build_upstream_url(base.as_str(), &upstream_uri).unwrap();

    assert_eq!(url.as_str(), "http://127.0.0.1:9100/my-bucket/a%20b.jpg?v=1");
}

#[test]
fn pixel_limit_rejects_oversized_images() {
    let err = ensure_pixel_limit(10_000, 10_000, 40_000_000).unwrap_err();

    assert!(err.message().contains("MAX_PIXELS"));
}

#[test]
fn cache_temp_path_is_unique_per_write() {
    let mut counter = TempFileCounter::new();
    let uri = target("/bucket/a.jpg?format=avif");
    let decision = decide_transform(&uri, &HeaderMap::new(), &test_config(false)).unwrap();
    let entry = cache_entry(&test_config(false), &uri, &decision);

    let first = cache_temp_path(&mut counter, 4711, &entry);
    let second = cache_temp_path(&mut counter, 4711, &entry);

    assert_ne!(first, second);
    assert_eq!(first.parent, entry.final_path.parent);
    assert_eq!(second.parent, entry.final_path.parent);
}

#[test]
fn cache_cleanup_only_manages_target_format_and_tmp_files() {
    assert!(is_cache_managed_file(Some("abc.avif"), "avif"));
    assert!(is_cache_managed_file(Some("abc.avif.tmp-1-2"), "avif"));
    assert!(!is_cache_managed_file(Some("abc.jpg"), "avif"));
    assert!(!is_cache_managed_file(Some("notes.txt"), "webp"));
}

#[test]
fn get_without_format_proxies_original() {
    let cfg = test_config(false);
    let request = HeaderMap::new();
    let uri = target("/bucket/a.jpg?v=1");

    let (method, upstream) = match proxy_handler("GET", &uri, &request, &cfg) {
        Plan::Proxy { method, target } => (method, target),
        other => panic!("{:?}", other),
    };
    assert_eq!(method, ProxyMethod::Get);
    let asked = fetch_upstream(&cfg.upstream_base, method, &upstream, &request).unwrap();
    let url = url::Url::parse(&asked.url).unwrap();
    assert_eq!(url.path(), "/bucket/a.jpg");
    assert_eq!(url.query(), Some("v=1"));

    let mut headers = HeaderMap::new();
    headers.insert(CONTENT_TYPE, HeaderValue::from_static("image/jpeg"));
    let event = Event::Fetched { status: 200, headers: headers.clone() };
    let stage = Stage::Pass.next(&event, cfg.max_transform_bytes);
    assert_eq!(stage, Stage::Finished(Reply::PassOn { streaming: true }));

    let head = upstream_response(200, &headers, true).unwrap();
    assert_eq!(head.status, 200);
    assert_eq!(
        head.headers.get(CONTENT_TYPE).unwrap(),
        HeaderValue::from_static("image/jpeg")
    );
}

#[test]
fn transform_failure_returns_original_bytes() {
    let cfg = test_config(false);
    let request = HeaderMap::new();
    let uri = target("/bucket/a.jpg?format=webp&v=1");

    let (decision, upstream) = match proxy_handler("GET", &uri, &request, &cfg) {
        Plan::Convert { decision, upstream, .. } => (decision, upstream),
        other => panic!("{:?}", other),
    };
    let asked = fetch_upstream(&cfg.upstream_base, ProxyMethod::Get, &upstream, &request).unwrap();
    let url = url::Url::parse(&asked.url).unwrap();
    assert_eq!(url.path(), "/bucket/a.jpg");
    assert_eq!(url.query(), Some("v=1"));

    let mut source_headers = HeaderMap::new();
    source_headers.insert(CONTENT_TYPE, HeaderValue::from_static("image/jpeg"));
    let max = cfg.max_transform_bytes;
    let mut stage = Stage::LookUp;
    stage = stage.next(&Event::Looked { found: false }, max);
    stage = stage.next(&Event::TurnCame, max);
    stage = stage.next(&Event::Looked { found: false }, max);
    stage = stage.next(&Event::Fetched { status: 200, headers: source_headers.clone() }, max);
    assert_eq!(stage, Stage::Read);

    let mut body = LimitedBody::new(max);
    body.push(b"not an actual image").unwrap();
    let source = body.finish();
    stage = stage.next(&Event::BodyRead(BodyOutcome::Whole), max);
    stage = stage.next(&Event::Permit { granted: true }, max);
    let outcome = encode_input(&source, decision.target, cfg.max_pixels);
    assert!(matches!(outcome, Err(EncodeError::Unrecognised)));
    stage = stage.next(&Event::Encoded { ok: outcome.is_ok() }, max);
    assert_eq!(stage, Stage::Finished(Reply::Original));

    let head = original_bytes_response(&source_headers, source.len() as u64).unwrap();
    assert_eq!(head.status, 200);
    assert_eq!(
        head.headers.get(CONTENT_TYPE).unwrap(),
        HeaderValue::from_static("image/jpeg")
    );
    assert_eq!(&source[..], b"not an actual image");
}

#[test]
fn unsupported_method_is_rejected_before_upstream() {
    let uri = target("/bucket/a.jpg");
    match proxy_handler("POST", &uri, &HeaderMap::new(), &test_config(false)) {
        Plan::Refuse(refusal) => assert_eq!(response_with_status(refusal).status, 405),
        other => panic!("{:?}", other),
    }
}

#[test]
fn upstream_connection_failure_returns_bad_gateway() {
    let cfg = test_config(false);
    let uri = target("/bucket/a.jpg");
    assert!(matches!(
        proxy_handler("GET", &uri, &HeaderMap::new(), &cfg),
        Plan::Proxy { .. }
    ));
    match Stage::Pass.next(&Event::FetchFailed, cfg.max_transform_bytes) {
        Stage::Finished(Reply::Refused(refusal)) => {
            assert_eq!(refusal, Refusal::BadGateway);
            assert_eq!(response_with_status(refusal).status, 502);
        }
        other => panic!("{:?}", other),
    }
}
