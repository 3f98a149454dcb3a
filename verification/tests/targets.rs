use axum::http::uri::PathAndQuery;
use image_optimizer::formats::TargetFormat;
use image_optimizer::query::{
    parse_query, query_pair_key_eq_ignore_ascii_case, requested_format, strip_format_query_raw,
};
use image_optimizer::target::{
    build_upstream_url, uri_with_query, without_format, RequestTarget, UpstreamUrlError,
    MAX_TARGET_LEN,
};

fn pairs(list: &[(&str, &str)]) -> Vec<(String, String)> {
    list.iter().map(|(k, v)| (k.to_string(), v.to_string())).collect()
}

#[test]
fn queries_are_parsed_as_forms() {
    assert_eq!(parse_query(None), pairs(&[]));
    assert_eq!(parse_query(Some("")), pairs(&[]));
    assert_eq!(parse_query(Some("a=b&&c")), pairs(&[("a", "b"), ("c", "")]));
    assert_eq!(parse_query(Some("a=b=c&=d")), pairs(&[("a", "b=c"), ("", "d")]));
    assert_eq!(parse_query(Some("a+b=%41%zz")), pairs(&[("a b", "A%zz")]));
    assert_eq!(parse_query(Some("x=%ff")), pairs(&[("x", "\u{fffd}")]));
    assert_eq!(parse_query(Some("ä=ö")), pairs(&[("ä", "ö")]));
}

#[test]
fn the_last_format_parameter_counts() {
    assert_eq!(
        requested_format(&parse_query(Some("format=avif&FORMAT=webp"))),
        Some(TargetFormat::Webp)
    );
    assert_eq!(requested_format(&parse_query(Some("format=avif&format=x"))), None);
    assert_eq!(
        requested_format(&parse_query(Some("f%6Frmat=%61vif&v=1"))),
        Some(TargetFormat::Avif)
    );
    assert_eq!(requested_format(&parse_query(Some("v=1"))), None);
}

#[test]
fn format_parameters_are_stripped_and_nothing_else() {
    let strip = |raw: &str| strip_format_query_raw(Some(raw));
    assert_eq!(strip("format=avif&v=1"), Some("v=1".to_string()));
    assert_eq!(strip("a=1&Format=webp&b=%20&format"), Some("a=1&b=%20".to_string()));
    assert_eq!(strip("format=avif"), None);
    assert_eq!(strip("f%6Frmat=avif&x"), Some("x".to_string()));
    assert_eq!(strip("formats=1&=format"), Some("formats=1&=format".to_string()));
    assert_eq!(strip("a&&b"), Some("a&&b".to_string()));
    assert_eq!(strip("&format=1"), Some("".to_string()));
    assert_eq!(strip(""), Some("".to_string()));
    assert_eq!(strip_format_query_raw(None), None);
}

#[test]
fn stripping_leaves_no_format_and_is_done_once() {
    for raw in ["format=avif&v=1", "a=1&Format=webp&b=%20&format", "x=1&f%6Frmat=2&&y", "v"] {
        let once = strip_format_query_raw(Some(raw));
        assert_eq!(requested_format(&parse_query(once.as_deref())), None);
        assert_eq!(strip_format_query_raw(once.as_deref()), once);
        let kept: Vec<(String, String)> = parse_query(Some(raw))
            .into_iter()
            .filter(|(key, _)| !key.eq_ignore_ascii_case("format"))
            .collect();
        assert_eq!(parse_query(once.as_deref()), kept);
    }
}

#[test]
fn keys_of_pieces_are_decoded() {
    assert!(query_pair_key_eq_ignore_ascii_case("FORMAT=avif", "format"));
    assert!(query_pair_key_eq_ignore_ascii_case("form%61t", "format"));
    assert!(query_pair_key_eq_ignore_ascii_case("a+b=1", "a b"));
    assert!(!query_pair_key_eq_ignore_ascii_case("xformat=1", "format"));
    assert!(query_pair_key_eq_ignore_ascii_case("", ""));
}

#[test]
fn targets_are_accepted_as_the_http_crate_accepts_them() {
    for n in 0..0x250u32 {
        let c = char::from_u32(n).unwrap();
        for written in [format!("/a{}b", c), format!("/a?x{}y", c), format!("{}", c)] {
            let parsed = PathAndQuery::try_from(written.as_str()).ok();
            let target = RequestTarget::parse(&written);
            if written.starts_with('/') || written == "*" {
                assert_eq!(target.is_some(), parsed.is_some(), "{:?}", written);
            }
            if let (Some(target), Some(parsed)) = (target, parsed) {
                assert_eq!(target.path, parsed.path());
                assert_eq!(target.query.as_deref(), parsed.query());
                assert_eq!(
                    RequestTarget::new(parsed.path(), parsed.query()),
                    Some(target),
                    "{:?}",
                    written
                );
            }
        }
    }
}

#[test]
fn fragments_are_cut_off() {
    let target = RequestTarget::parse("/a?b#c?d").unwrap();
    assert_eq!(target.path, "/a");
    assert_eq!(target.query.as_deref(), Some("b"));
    assert_eq!(RequestTarget::parse("a.jpg"), None);
    assert_eq!(RequestTarget::parse(""), None);
    assert_eq!(RequestTarget::parse("*").unwrap().path, "*");
}

#[test]
fn long_targets_are_refused() {
    let longest = format!("/{}", "a".repeat(MAX_TARGET_LEN - 1));
    assert!(PathAndQuery::try_from(longest.as_str()).is_ok());
    assert!(RequestTarget::parse(&longest).is_some());
    assert!(RequestTarget::new(&longest, None).is_some());
    assert!(RequestTarget::new(&longest, Some("")).is_none());
    let longer = format!("{}a", longest);
    assert!(PathAndQuery::try_from(longer.as_str()).is_err());
    assert!(RequestTarget::parse(&longer).is_none());
    assert!(RequestTarget::new(&longer, None).is_none());
}

#[test]
fn impossible_targets_are_refused() {
    assert!(RequestTarget::new("", None).is_none());
    assert!(RequestTarget::new("a", None).is_none());
    assert!(RequestTarget::new("/a b", None).is_none());
    assert!(RequestTarget::new("/a?b", None).is_none());
    assert!(RequestTarget::new("/a", Some("b#c")).is_none());
    assert!(RequestTarget::new("*", Some("a")).is_none());
    assert!(RequestTarget::new("/a", Some("b?c")).is_some());
}

#[test]
fn queries_are_replaced() {
    let target = RequestTarget::new("/a.jpg", Some("format=avif")).unwrap();
    assert_eq!(uri_with_query(&target, Some("v=1")).query.as_deref(), Some("v=1"));
    assert_eq!(uri_with_query(&target, Some("")).query, None);
    assert_eq!(uri_with_query(&target, None).query, None);
    assert_eq!(uri_with_query(&target, None).path, "/a.jpg");
    assert_eq!(without_format(&target).query, None);
    let target = RequestTarget::new("/a.jpg", Some("&format=avif")).unwrap();
    assert_eq!(without_format(&target).query, None);
    let target = RequestTarget::new("/a.jpg", Some("b&format=avif&c")).unwrap();
    assert_eq!(without_format(&target).query.as_deref(), Some("b&c"));
}

#[test]
fn upstream_urls_stand_below_the_base() {
    let target = RequestTarget::new("/b.jpg", Some("v=1")).unwrap();
    assert_eq!(
        build_upstream_url("http://host/files//", &target).as_deref(),
        Ok("http://host/files/b.jpg?v=1")
    );
    assert_eq!(
        build_upstream_url("HTTP://HOST:80", &target).as_deref(),
        Ok("http://host/b.jpg?v=1")
    );
    let error = build_upstream_url("host", &target).unwrap_err();
    assert_eq!(error, UpstreamUrlError::NotAUrl);
    assert_eq!(error.message(), "failed to build upstream URL");
}
