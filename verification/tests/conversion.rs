use std::io::Cursor;

use axum::http::{HeaderMap, HeaderValue};
use image::{DynamicImage, ImageFormat, Rgba, RgbaImage};
use image_optimizer::body::{LimitedBody, TooLarge};
use image_optimizer::cache::encoder_fingerprint;
use image_optimizer::config::{
    parse_env_bool, parse_env_f32, AddressVariable, Config, Demand, NumberVariable, Variables,
};
use image_optimizer::config::{parse_env_nonzero_u64, parse_env_u64, parse_env_u8, parse_env_usize};
use image_optimizer::formats::TargetFormat;
use image_optimizer::images::{
    codec_named, encode_input, ensure_pixel_limit, input_from, Codec, EncodeError,
};
use image_optimizer::paths::PathStyle;
use image_optimizer::proxy::{
    fetch_upstream, proxy_handler, reply_head, BodyOutcome, Event, Plan, ProxyMethod, Reply, Stage,
};
use image_optimizer::response::Refusal;
use image_optimizer::target::RequestTarget;
use image_optimizer::transform::decide_transform;

fn picture(width: u32, height: u32) -> DynamicImage {
    DynamicImage::ImageRgba8(RgbaImage::from_fn(width, height, |x, y| {
        Rgba([x as u8, y as u8, 7, 255])
    }))
}

fn encoded(image: &DynamicImage, format: ImageFormat) -> Vec<u8> {
    let mut out = Cursor::new(Vec::new());
    image.write_to(&mut out, format).unwrap();
    out.into_inner()
}

fn unset() -> Variables {
    Variables {
        listen_addr: None,
        upstream_base: None,
        cache_dir: None,
        max_transform_bytes: None,
        max_pixels: None,
        avif_quality: None,
        avif_speed: None,
        webp_quality: None,
        cache_version: None,
        enable_accept_negotiation: None,
        max_concurrent_encodes: None,
        upstream_connect_timeout_secs: None,
        upstream_request_timeout_secs: None,
        cache_cleanup_enabled: None,
        cache_max_bytes: None,
        cache_max_age_days: None,
        cache_cleanup_interval_secs: None,
    }
}

fn fault(vars: &Variables) -> String {
    Config::from_env(vars, None, PathStyle::Unix).unwrap_err().message()
}

fn number(s: &str) -> Option<NumberVariable> {
    Some(NumberVariable {
        written: s.to_string(),
        printed: s.parse::<f32>().map_or(String::new(), |n| n.to_string()),
    })
}

fn address(s: &str, is_address: bool) -> Option<AddressVariable> {
    Some(AddressVariable { written: s.to_string(), is_address })
}

fn text(s: &str) -> Option<String> {
    Some(s.to_string())
}

#[test]
fn png_images_are_decoded_to_pixels() {
    let image = picture(3, 2);
    let source = encoded(&image, ImageFormat::Png);
    let input = encode_input(&source, TargetFormat::Webp, 6).unwrap();
    assert_eq!(input.target, TargetFormat::Webp);
    assert_eq!((input.width, input.height), (3, 2));
    assert_eq!(input.rgba, image.to_rgba8().into_raw());
}

#[test]
fn jpeg_images_are_decoded_to_pixels() {
    let image = DynamicImage::ImageRgb8(picture(16, 8).to_rgb8());
    let source = encoded(&image, ImageFormat::Jpeg);
    let input = encode_input(&source, TargetFormat::Avif, 1000).unwrap();
    assert_eq!((input.width, input.height), (16, 8));
    assert_eq!(input.rgba.len(), 16 * 8 * 4);
    assert!(input.rgba.chunks(4).all(|pixel| pixel[3] == 255));
}

#[test]
fn decoded_images_are_held_to_the_limit() {
    let image = picture(3, 2);
    let input = input_from(&image, TargetFormat::Avif, 6).unwrap();
    assert_eq!(input.rgba, image.to_rgba8().into_raw());
    let error = input_from(&image, TargetFormat::Avif, 5).unwrap_err();
    assert_eq!(error.message(), "image dimensions exceed MAX_PIXELS: 3x2=6 > 5");
}

#[test]
fn pixel_limits_are_met_exactly() {
    assert!(ensure_pixel_limit(10, 10, 100).is_ok());
    assert!(ensure_pixel_limit(u32::MAX, u32::MAX, u64::MAX).is_ok());
    let error = ensure_pixel_limit(u32::MAX, u32::MAX, 1).unwrap_err();
    assert_eq!(error.pixels, u64::from(u32::MAX) * u64::from(u32::MAX));
    assert_eq!(
        ensure_pixel_limit(10_000, 10_000, 40_000_000).unwrap_err().message(),
        "image dimensions exceed MAX_PIXELS: 10000x10000=100000000 > 40000000"
    );
}

#[test]
fn other_images_are_not_converted() {
    let cases: [(&[u8], &str); 17] = [
        (b"GIF89a...", "Gif"),
        (b"GIF87a", "Gif"),
        (b"RIFF1234WEBPx", "WebP"),
        (b"MM\x00*", "Tiff"),
        (b"II*\x00", "Tiff"),
        (b"DDS ", "Dds"),
        (b"BM", "Bmp"),
        (b"\x00\x00\x01\x00", "Ico"),
        (b"#?RADIANCE", "Hdr"),
        (b"\x00\x00\x00\x20ftypavif", "Avif"),
        (b"\x76\x2f\x31\x01", "OpenExr"),
        (b"qoif", "Qoi"),
        (b"P1", "Pnm"),
        (b"P4", "Pnm"),
        (b"P7", "Pnm"),
        (b"farbfeld", "Farbfeld"),
        (b"\x00\x00\x01\x00ftypavif", "Ico"),
    ];
    for (source, name) in cases {
        let error = encode_input(source, TargetFormat::Avif, 100).unwrap_err();
        assert_eq!(error.message(), format!("unsupported source image format: {}", name));
    }
    let unknown: [&[u8]; 6] = [b"", b"GIF88a", b"P0", b"P8", b"RIFF1234WEB", b"\x89PNG\r\n\x1a"];
    for source in unknown {
        let error = encode_input(source, TargetFormat::Avif, 100).unwrap_err();
        assert!(matches!(error, EncodeError::Unrecognised));
        assert_eq!(error.message(), "failed to detect image format");
    }
}

#[test]
fn broken_images_are_not_converted() {
    let broken: [&[u8]; 2] = [b"\x89PNG\r\n\x1a\nrest", b"\xff\xd8\xff"];
    for source in broken {
        let error = encode_input(source, TargetFormat::Avif, 100).unwrap_err();
        assert!(matches!(error, EncodeError::Undecodable));
        assert_eq!(error.message(), "failed to decode source image");
    }
    assert_eq!(EncodeError::OutOfMemory.message(), "image does not fit in memory");
    assert_eq!(codec_named("Png"), Some(Codec::Png));
    assert_eq!(codec_named("Jpeg"), Some(Codec::Jpeg));
    assert_eq!(codec_named("Gif"), None);
}

#[test]
fn bodies_are_read_up_to_the_limit() {
    let mut body = LimitedBody::new(5);
    assert_eq!(body.push(b"ab"), Ok(()));
    assert_eq!(body.push(b""), Ok(()));
    assert_eq!(body.push(b"cdef"), Err(TooLarge));
    assert_eq!(body.len(), 2);
    assert_eq!(body.push(b"cde"), Ok(()));
    assert_eq!(body.len(), 5);
    assert_eq!(body.push(b"f"), Err(TooLarge));
    assert_eq!(&body.finish()[..], b"abcde");
    assert_eq!(LimitedBody::new(0).finish().len(), 0);

    let mut body = LimitedBody::new(3);
    assert_eq!(body.offer(b"ab"), Some(Ok(())));
    assert_eq!(body.offer(b"cd"), Some(Err(TooLarge)));
    assert_eq!(body.offer(b"c"), Some(Ok(())));
    assert_eq!(&body.finish()[..], b"abc");
}

#[test]
fn pieces_make_no_difference_to_a_body() {
    let whole = b"a body that comes in pieces";
    for max in [0, 26, 27, 28] {
        for size in 1..=whole.len() {
            let mut body = LimitedBody::new(max);
            let mut fits = true;
            for piece in whole.chunks(size) {
                fits = fits && body.push(piece).is_ok();
            }
            assert_eq!(fits, whole.len() as u64 <= max);
            if fits {
                assert_eq!(&body.finish()[..], whole);
            }
        }
    }
}

#[test]
fn the_query_prevails_over_the_accept_field() {
    let mut vars = unset();
    vars.enable_accept_negotiation = text("yes");
    let cfg = Config::from_env(&vars, None, PathStyle::Unix).unwrap();
    let mut request = HeaderMap::new();
    request.insert("accept", HeaderValue::from_static("image/avif"));
    let chosen = |written: &str| {
        let target = RequestTarget::parse(written).unwrap();
        decide_transform(&target, &request, &cfg).map(|decision| decision.target)
    };
    assert_eq!(chosen("/a.jpg?format=webp"), Some(TargetFormat::Webp));
    assert_eq!(chosen("/a.jpg?format=gif"), Some(TargetFormat::Avif));
    assert_eq!(chosen("/a.jpg"), Some(TargetFormat::Avif));
    assert_eq!(chosen("/a.jpg/"), Some(TargetFormat::Avif));
    assert_eq!(chosen("/a.gif"), None);
}

#[test]
fn numbers_are_read_from_variables() {
    assert_eq!(parse_env_u64("N", None, 7).unwrap(), 7);
    assert_eq!(parse_env_u64("N", Some("0"), 7).unwrap(), 0);
    assert_eq!(parse_env_u64("N", Some("x"), 7).unwrap_err().message(), "N must be u64");
    assert_eq!(parse_env_nonzero_u64("N", Some("3"), 7).unwrap(), 3);
    assert_eq!(
        parse_env_nonzero_u64("N", Some("0"), 7).unwrap_err().message(),
        "N must be greater than zero"
    );
    assert_eq!(parse_env_nonzero_u64("N", Some(""), 7).unwrap_err().message(), "N must be u64");
    assert_eq!(parse_env_usize("N", Some("12"), 7).unwrap(), 12);
    assert_eq!(parse_env_usize("N", None, 7).unwrap(), 7);
    assert_eq!(parse_env_usize("N", Some("-1"), 7).unwrap_err().message(), "N must be usize");
    assert_eq!(
        parse_env_usize("N", Some("0"), 7).unwrap_err().message(),
        "N must be greater than zero"
    );
    assert_eq!(parse_env_u8("N", Some("255"), 7).unwrap(), 255);
    assert_eq!(parse_env_u8("N", Some("256"), 7).unwrap_err().message(), "N must be u8");
    assert_eq!(parse_env_f32("N", &number("1.5e1"), "7").unwrap(), "15");
    assert_eq!(parse_env_f32("N", &number("-.1"), "7").unwrap(), "-0.1");
    assert_eq!(parse_env_f32("N", &number("nan"), "7").unwrap(), "NaN");
    assert_eq!(parse_env_f32("N", &number("-INFINITY"), "7").unwrap(), "-inf");
    assert_eq!(parse_env_f32("N", &None, "7").unwrap(), "7");
    assert_eq!(parse_env_f32("N", &number("1,5"), "7").unwrap_err().message(), "N must be number");
}

#[test]
fn yes_and_no_are_read_from_variables() {
    for word in ["1", "true", "YES", " on\n", "True"] {
        assert!(parse_env_bool("B", Some(word), false).unwrap(), "{:?}", word);
    }
    for word in ["0", "false", "No", "\toff"] {
        assert!(!parse_env_bool("B", Some(word), true).unwrap(), "{:?}", word);
    }
    assert!(parse_env_bool("B", None, true).unwrap());
    assert!(!parse_env_bool("B", None, false).unwrap());
    let error = parse_env_bool("B", Some("maybe"), true).unwrap_err();
    assert_eq!(error.demand, Demand::Boolean);
    assert_eq!(error.message(), "B must be boolean");
}

#[test]
fn defaults_are_taken_where_nothing_is_set() {
    let cfg = Config::from_env(&unset(), Some(9), PathStyle::Unix).unwrap();
    assert_eq!(cfg.listen_addr, "127.0.0.1:9000");
    assert_eq!(cfg.upstream_base, "http://127.0.0.1:9100/");
    assert_eq!(cfg.cache_dir, "C:\\minio_img_cache");
    assert_eq!(cfg.max_transform_bytes, 26_214_400);
    assert_eq!(cfg.max_pixels, 40_000_000);
    assert_eq!(cfg.avif_quality, "75");
    assert_eq!(cfg.avif_speed, 6);
    assert_eq!(cfg.webp_quality, "82");
    assert_eq!(cfg.cache_version, "1");
    assert!(!cfg.enable_accept_negotiation);
    assert_eq!(cfg.max_concurrent_encodes, 4);
    assert_eq!(cfg.upstream_connect_timeout, 3);
    assert_eq!(cfg.upstream_request_timeout, 30);
    assert!(cfg.cache_cleanup_enabled);
    assert_eq!(cfg.cache_max_bytes, 10_737_418_240);
    assert_eq!(cfg.cache_max_age, 7_776_000);
    assert_eq!(cfg.cache_cleanup_interval, 3600);
    assert_eq!(Config::from_env(&unset(), Some(1), PathStyle::Unix).unwrap().max_concurrent_encodes, 1);
    assert_eq!(Config::from_env(&unset(), None, PathStyle::Unix).unwrap().max_concurrent_encodes, 1);
}

#[test]
fn variables_override_defaults() {
    let mut vars = unset();
    vars.listen_addr = address("[::1]:80", true);
    vars.upstream_base = text("HTTP://Minio:9000");
    vars.cache_dir = text("/var/cache");
    vars.max_transform_bytes = text("0");
    vars.avif_speed = text("0");
    vars.cache_version = text("");
    vars.enable_accept_negotiation = text("on");
    vars.max_concurrent_encodes = text("8");
    vars.cache_cleanup_enabled = text("off");
    vars.cache_max_age_days = text("18446744073709551615");
    let cfg = Config::from_env(&vars, Some(64), PathStyle::Unix).unwrap();
    assert_eq!(cfg.listen_addr, "[::1]:80");
    assert_eq!(cfg.upstream_base, "http://minio:9000/");
    assert_eq!(cfg.cache_dir, "/var/cache");
    assert_eq!(cfg.max_transform_bytes, 0);
    assert_eq!(cfg.avif_speed, 0);
    assert_eq!(cfg.cache_version, "");
    assert!(cfg.enable_accept_negotiation);
    assert_eq!(cfg.max_concurrent_encodes, 8);
    assert!(!cfg.cache_cleanup_enabled);
    assert_eq!(cfg.cache_max_age, u64::MAX);
}

#[test]
fn qualities_are_known_as_they_are_printed() {
    let mut vars = unset();
    vars.avif_quality = number("75.0");
    vars.webp_quality = number("8.25e1");
    let cfg = Config::from_env(&vars, None, PathStyle::Unix).unwrap();
    assert_eq!(encoder_fingerprint(&cfg, TargetFormat::Avif), "avif:q=75:speed=6");
    assert_eq!(encoder_fingerprint(&cfg, TargetFormat::Webp), "webp:q=82.5");
}

#[test]
fn every_reply_has_its_head() {
    let mut source = HeaderMap::new();
    source.insert("content-length", HeaderValue::from_static("9"));
    source.insert("etag", HeaderValue::from_static("e"));
    let head = |reply: Reply, len: Option<u64>| {
        reply_head(reply, TargetFormat::Webp, 404, &source, len)
    };
    for reply in [Reply::Cached, Reply::Converted] {
        let head = head(reply, Some(5)).unwrap();
        assert_eq!(head.status, 200);
        assert_eq!(head.headers.get("content-type").unwrap(), "image/webp");
        assert_eq!(head.headers.get("content-length").unwrap(), "5");
        assert!(head.headers.get("etag").is_none());
    }
    assert!(head(Reply::Cached, None).unwrap().headers.get("content-length").is_none());
    assert!(head(Reply::Converted, None).is_none());
    assert!(head(Reply::Original, None).is_none());
    let original = head(Reply::Original, Some(5)).unwrap();
    assert_eq!(original.status, 200);
    assert_eq!(original.headers.get("content-length").unwrap(), "5");
    assert_eq!(original.headers.get("etag").unwrap(), "e");
    let streamed = head(Reply::PassOn { streaming: true }, None).unwrap();
    assert_eq!(streamed.status, 404);
    assert_eq!(streamed.headers, source);
    let drained = head(Reply::PassOn { streaming: false }, None).unwrap();
    assert_eq!(drained.status, 404);
    assert!(drained.headers.get("content-length").is_none());
    let refused = head(Reply::Refused(Refusal::ServiceUnavailable), None).unwrap();
    assert_eq!(refused.status, 503);
    assert!(refused.headers.is_empty());
}

#[test]
fn the_first_wrong_variable_is_reported() {
    let mut vars = unset();
    vars.cache_cleanup_interval_secs = text("0");
    assert_eq!(fault(&vars), "CACHE_CLEANUP_INTERVAL_SECS must be greater than zero");
    vars.cache_max_age_days = text("old");
    assert_eq!(fault(&vars), "CACHE_MAX_AGE_DAYS must be u64");
    vars.cache_max_bytes = text("0");
    assert_eq!(fault(&vars), "CACHE_MAX_BYTES must be greater than zero");
    vars.cache_cleanup_enabled = text("2");
    assert_eq!(fault(&vars), "CACHE_CLEANUP_ENABLED must be boolean");
    vars.upstream_request_timeout_secs = text("0");
    assert_eq!(fault(&vars), "UPSTREAM_REQUEST_TIMEOUT_SECS must be greater than zero");
    vars.upstream_connect_timeout_secs = text("-3");
    assert_eq!(fault(&vars), "UPSTREAM_CONNECT_TIMEOUT_SECS must be u64");
    vars.max_concurrent_encodes = text("x");
    assert_eq!(fault(&vars), "MAX_CONCURRENT_ENCODES must be usize");
    vars.enable_accept_negotiation = text("");
    assert_eq!(fault(&vars), "ENABLE_ACCEPT_NEGOTIATION must be boolean");
    vars.webp_quality = number("best");
    assert_eq!(fault(&vars), "WEBP_QUALITY must be number");
    vars.avif_speed = text("300");
    assert_eq!(fault(&vars), "AVIF_SPEED must be u8");
    vars.avif_quality = number("");
    assert_eq!(fault(&vars), "AVIF_QUALITY must be number");
    vars.max_pixels = text("0");
    assert_eq!(fault(&vars), "MAX_PIXELS must be greater than zero");
    vars.max_transform_bytes = text("1.5");
    assert_eq!(fault(&vars), "MAX_TRANSFORM_BYTES must be u64");
    vars.upstream_base = text("/relative");
    assert_eq!(fault(&vars), "UPSTREAM_BASE must be an absolute URL");
    vars.listen_addr = address("localhost", false);
    assert_eq!(fault(&vars), "LISTEN_ADDR must be host:port, e.g. 127.0.0.1:9000");
}

#[test]
fn requests_are_planned() {
    let cfg = Config::from_env(&unset(), None, PathStyle::Unix).unwrap();
    let target = RequestTarget::parse("/b/a.png?x=1&format=webp").unwrap();
    let none = HeaderMap::new();
    match proxy_handler("GET", &target, &none, &cfg) {
        Plan::Convert { decision, entry, upstream } => {
            assert_eq!(decision.target, TargetFormat::Webp);
            assert_eq!(decision.upstream_query.as_deref(), Some("x=1"));
            assert_eq!(entry.final_path.parent[1], "webp");
            assert_eq!(upstream.path, "/b/a.png");
            assert_eq!(upstream.query.as_deref(), Some("x=1"));
        }
        other => panic!("{:?}", other),
    }
    match proxy_handler("HEAD", &target, &none, &cfg) {
        Plan::Proxy { method, target } => {
            assert_eq!(method, ProxyMethod::Head);
            assert_eq!(target.query.as_deref(), Some("x=1"));
        }
        other => panic!("{:?}", other),
    }
    for method in ["POST", "get", "", "OPTIONS"] {
        assert!(matches!(
            proxy_handler(method, &target, &none, &cfg),
            Plan::Refuse(Refusal::MethodNotAllowed)
        ));
    }
}

#[test]
fn upstream_requests_carry_some_fields() {
    let target = RequestTarget::parse("/b/a.png?x=1").unwrap();
    let mut request = HeaderMap::new();
    request.insert("cookie", HeaderValue::from_static("c"));
    request.insert("if-none-match", HeaderValue::from_static("e"));
    let asked = fetch_upstream("http://host/", ProxyMethod::Head, &target, &request).unwrap();
    assert_eq!(asked.method.name(), "HEAD");
    assert_eq!(ProxyMethod::Get.name(), "GET");
    assert_eq!(asked.url, "http://host/b/a.png?x=1");
    let expected: Vec<(String, Vec<u8>)> = vec![("if-none-match".to_string(), b"e".to_vec())];
    assert_eq!(asked.headers, expected);
    assert!(fetch_upstream("host", ProxyMethod::Get, &target, &request).is_err());
}

fn fetched(status: u16, length: Option<&'static str>) -> Event {
    let mut headers = HeaderMap::new();
    if let Some(length) = length {
        headers.insert("content-length", HeaderValue::from_static(length));
    }
    Event::Fetched { status, headers }
}

fn course(events: &[Event]) -> Stage {
    let mut stage = Stage::LookUp;
    for event in events {
        stage = stage.next(event, 100);
    }
    stage
}

fn up_to_encoding() -> Vec<Event> {
    vec![
        Event::Looked { found: false },
        Event::TurnCame,
        Event::Looked { found: false },
        fetched(200, Some("100")),
        Event::BodyRead(BodyOutcome::Whole),
        Event::Permit { granted: true },
    ]
}

#[test]
fn images_are_converted_and_stored() {
    for stored in [true, false] {
        let mut events = up_to_encoding();
        assert_eq!(course(&events), Stage::Encode);
        events.push(Event::Encoded { ok: true });
        assert_eq!(course(&events), Stage::Store);
        events.push(Event::Stored { ok: stored });
        assert_eq!(course(&events), Stage::Finished(Reply::Converted));
        assert_eq!(events.len(), 8);
    }
    let mut events = up_to_encoding();
    events.push(Event::Encoded { ok: false });
    assert_eq!(course(&events), Stage::Finished(Reply::Original));
}

#[test]
fn cached_images_are_served_at_once() {
    let cached = Stage::Finished(Reply::Cached);
    assert_eq!(course(&[Event::Looked { found: true }]), cached);
    let waited = [Event::Looked { found: false }, Event::TurnCame, Event::Looked { found: true }];
    assert_eq!(course(&waited), cached);
}

#[test]
fn responses_that_cannot_be_converted_are_passed_on() {
    let mut events = up_to_encoding();
    events.truncate(3);
    assert_eq!(course(&events), Stage::Fetch);
    for status in [100, 199, 300, 404, 500] {
        assert_eq!(Stage::Fetch.next(&fetched(status, None), 100), Stage::Drain);
    }
    for status in [200, 204, 299] {
        assert_eq!(Stage::Fetch.next(&fetched(status, None), 100), Stage::Read);
    }
    let streamed = Stage::Finished(Reply::PassOn { streaming: true });
    assert_eq!(Stage::Fetch.next(&fetched(200, Some("101")), 100), streamed);
    assert_eq!(Stage::Drain.next(&fetched(404, Some("101")), 100), Stage::Drain);
    assert_eq!(
        Stage::Drain.next(&Event::BodyRead(BodyOutcome::Whole), 100),
        Stage::Finished(Reply::PassOn { streaming: false })
    );
    assert_eq!(Stage::Read.next(&Event::BodyRead(BodyOutcome::TooLarge), 100), Stage::Pass);
    assert_eq!(Stage::Pass.next(&fetched(500, Some("101")), 100), streamed);
}

#[test]
fn failures_are_answered() {
    let bad_gateway = Stage::Finished(Reply::Refused(Refusal::BadGateway));
    assert_eq!(Stage::Fetch.next(&Event::FetchFailed, 100), bad_gateway);
    assert_eq!(Stage::Pass.next(&Event::FetchFailed, 100), bad_gateway);
    let failed = Event::BodyRead(BodyOutcome::Failed);
    assert_eq!(Stage::Read.next(&failed, 100), bad_gateway);
    assert_eq!(Stage::Drain.next(&failed, 100), bad_gateway);
    assert_eq!(
        Stage::AwaitPermit.next(&Event::Permit { granted: false }, 100),
        Stage::Finished(Reply::Refused(Refusal::ServiceUnavailable))
    );
}

#[test]
fn paths_are_read_as_the_system_writes_them() {
    let uri = RequestTarget::parse("/x\\.jpg?format=webp").unwrap();
    let unix = Config::from_env(&unset(), None, PathStyle::Unix).unwrap();
    assert_eq!(unix.path_style, PathStyle::Unix);
    let decision = decide_transform(&uri, &HeaderMap::new(), &unix).unwrap();
    assert_eq!(decision.target, TargetFormat::Webp);

    let windows = Config::from_env(&unset(), None, PathStyle::Windows).unwrap();
    assert_eq!(windows.path_style, PathStyle::Windows);
    assert!(decide_transform(&uri, &HeaderMap::new(), &windows).is_none());
}
