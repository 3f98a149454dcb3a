use image_optimizer::accept::{accepts_mime, negotiate_accept};
use image_optimizer::formats::{parse_target_format, TargetFormat};
use image_optimizer::numbers::{parse_unsigned, to_decimal};
use image_optimizer::paths::{extension_of, name_of, stem_of, PathStyle};
use image_optimizer::quality::{number, positive_number};
use image_optimizer::text::{
    chars_of, find, has, has_at_end, is_text_ignoring_case, same, split, string_of, to_lowered,
    trim, trim_end_of, white,
};
use image_optimizer::transform::is_transformable_image_path;

fn chars(s: &str) -> Vec<char> {
    s.chars().collect()
}

fn text(s: Vec<char>) -> String {
    s.into_iter().collect()
}

#[test]
fn white_space_is_that_of_the_standard_library() {
    for n in 0..=0x10ffffu32 {
        if let Some(c) = char::from_u32(n) {
            assert_eq!(white(c), c.is_whitespace(), "{:x}", n);
        }
    }
}

#[test]
fn strings_and_characters_convert() {
    assert_eq!(chars_of("aé€"), vec!['a', 'é', '€']);
    assert_eq!(string_of(&['a', 'é', '€']), "aé€");
    assert_eq!(string_of(&[]), "");
    assert!(same(&chars("abc"), &chars("abc")));
    assert!(!same(&chars("abc"), &chars("abd")));
}

#[test]
fn trimming_takes_white_space_from_both_ends() {
    assert_eq!(text(trim(&chars(" \t a b \u{2003}"))), "a b");
    assert_eq!(text(trim(&chars("   "))), "");
    assert_eq!(text(trim_end_of(&chars("a//b///"), '/')), "a//b");
    assert_eq!(text(trim_end_of(&chars("///"), '/')), "");
}

#[test]
fn case_folding_is_ascii_only() {
    assert_eq!(text(to_lowered(&chars("AbÄZ"))), "abÄz");
    assert!(is_text_ignoring_case(&chars("ForMat"), "format"));
    assert!(!is_text_ignoring_case(&chars("Ä"), "ä"));
}

#[test]
fn splitting_keeps_empty_pieces() {
    let parts: Vec<String> = split(&chars("a&&b&"), '&').into_iter().map(text).collect();
    assert_eq!(parts, vec!["a", "", "b", ""]);
    assert_eq!(split(&[], '&').len(), 1);
}

#[test]
fn searching_finds_the_first_place() {
    assert_eq!(find(&chars("a=b=c"), '='), 1);
    assert_eq!(find(&chars("abc"), '='), 3);
    assert!(has(&chars("x.tmp-1"), &chars(".tmp-")));
    assert!(!has(&chars("x.tmp"), &chars(".tmp-")));
    assert!(has(&chars("x"), &[]));
    assert!(has_at_end(&chars("x.avif"), &chars(".avif")));
    assert!(!has_at_end(&chars("avif"), &chars(".avif")));
}

#[test]
fn unsigned_numbers_read_as_the_standard_library_reads_them() {
    let texts = [
        "0", "7", "+7", "007", "18446744073709551615", "18446744073709551616", "", "+", "-1", " 1",
        "1 ", "1_000", "++1", "１", "99999999999999999999999999",
    ];
    for s in texts {
        assert_eq!(parse_unsigned(&chars(s), u64::MAX), s.parse::<u64>().ok(), "{:?}", s);
        assert_eq!(
            parse_unsigned(&chars(s), 255),
            s.parse::<u8>().ok().map(u64::from),
            "{:?}",
            s
        );
    }
    assert_eq!(parse_unsigned(&chars("256"), 255), None);
}

#[test]
fn decimal_forms_read_back() {
    for n in [0, 9, 10, 99, 100, 12345, u64::MAX] {
        assert_eq!(to_decimal(n), n.to_string());
        assert_eq!(parse_unsigned(&chars(&to_decimal(n)), u64::MAX), Some(n));
    }
}

#[test]
fn quality_numbers_read_as_single_precision() {
    let texts = [
        "0", "1", "0.0", "0.5", ".5", "5.", ".", "", "+1", "-1", "-0", "-0.5", "+.5e1", "1e3",
        "1E+3", "1e-3", "1e", "e1", "1e+", "0e9", "0.000e99999999999", "1e-45", "1e-46",
        "7.006492321624085e-46", "7.0064923216240854e-46", "7.00649232162408535461864791644958e-46",
        "7.00649232162408535461864791644959e-46", "8e-46", "1e-99999999999999999999",
        "1e99999999999999999999", "00000000000000000000000001e-20", "inf", "INF", "-inf", "Infinity",
        "infinit", "nan", "NaN", "-nan", "0x10", "1_0", "1,5", " 1", "1 ", "1.2.3", "++1",
        "100000000000000000000000000000000000000000000000000e-90",
        "0.00000000000000000000000000000000000000000000001", "0.0000000000000000000000000000000000000000000000000001",
    ];
    for s in texts {
        let parsed = s.parse::<f32>().ok();
        assert_eq!(number(&chars(s)), parsed.is_some(), "{:?}", s);
        assert_eq!(positive_number(&chars(s)), parsed.map_or(false, |q| q > 0.0), "{:?}", s);
    }
}

#[test]
fn half_of_the_smallest_quality_rounds_to_zero() {
    let half = format!("{:.150}", f64::from_bits(0x3690_0000_0000_0000));
    assert_eq!(half.parse::<f32>().unwrap(), 0.0);
    assert!(!positive_number(&chars(&half)));
    let above = format!("{}1", half);
    assert!(above.parse::<f32>().unwrap() > 0.0);
    assert!(positive_number(&chars(&above)));
}

#[test]
fn format_names_are_read_in_any_case() {
    assert_eq!(parse_target_format("avif"), Some(TargetFormat::Avif));
    assert_eq!(parse_target_format(" WebP\t"), Some(TargetFormat::Webp));
    assert_eq!(parse_target_format("jpeg"), None);
    assert_eq!(parse_target_format(""), None);
    assert_eq!(TargetFormat::Avif.extension(), "avif");
    assert_eq!(TargetFormat::Webp.extension(), "webp");
    assert_eq!(TargetFormat::Avif.content_type(), "image/avif");
    assert_eq!(TargetFormat::Webp.content_type(), "image/webp");
}

#[test]
fn media_ranges_are_weighed() {
    assert!(accepts_mime("image/avif", "image/avif"));
    assert!(accepts_mime("text/html, IMAGE/AVIF ;q=0.1", "image/avif"));
    assert!(!accepts_mime("image/avif;q=0", "image/avif"));
    assert!(!accepts_mime("image/avif; q=0.0", "image/avif"));
    assert!(!accepts_mime("image/avif;q=-1", "image/avif"));
    assert!(!accepts_mime("image/avif;q=nan", "image/avif"));
    assert!(accepts_mime("image/avif;q=high", "image/avif"));
    assert!(accepts_mime("image/avif;level=1;Q = 0.5;q=0", "image/avif"));
    assert!(accepts_mime("image/avif;q=0,image/avif", "image/avif"));
    assert!(!accepts_mime("image/*", "image/avif"));
    assert!(!accepts_mime("*/*", "image/avif"));
    assert!(!accepts_mime("", "image/avif"));
}

#[test]
fn avif_is_chosen_before_webp() {
    let both: &[u8] = b"image/webp,image/avif;q=0.1";
    assert_eq!(negotiate_accept(Some(both)), Some(TargetFormat::Avif));
    let one: &[u8] = b"image/webp";
    assert_eq!(negotiate_accept(Some(one)), Some(TargetFormat::Webp));
    let none: &[u8] = b"text/html";
    assert_eq!(negotiate_accept(Some(none)), None);
    let opaque: &[u8] = b"image/avif\xff";
    assert_eq!(negotiate_accept(Some(opaque)), None);
    assert_eq!(negotiate_accept(None), None);
}

#[test]
fn file_names_are_those_of_the_standard_library() {
    let paths = [
        "/a/b.jpg", "/a/b.jpg/", "/a/b.jpg/.", "/a/b.jpg/..", "b", "", "/", ".", "..", "/.jpg",
        "/a.b/c", "/a/..b", "/...", "/a/.b.png", "/a//b.png", "./a.png", "/a.", "/a..png", "*",
        "/x\\.jpg", "/a\\b.jpg", "//server/share", "//server/share/b.jpg", "//server/b.jpg",
    ];
    let style =
        if std::path::is_separator('\\') { PathStyle::Windows } else { PathStyle::Unix };
    for path in paths {
        let std_path = std::path::Path::new(path);
        let name = name_of(&chars(path), style);
        assert_eq!(
            name.clone().map(text),
            std_path.file_name().map(|s| s.to_str().unwrap().to_string()),
            "{:?}",
            path
        );
        if let Some(name) = name {
            assert_eq!(
                extension_of(&name).map(text),
                std_path.extension().map(|s| s.to_str().unwrap().to_string()),
                "{:?}",
                path
            );
            assert_eq!(
                Some(text(stem_of(&name))),
                std_path.file_stem().map(|s| s.to_str().unwrap().to_string()),
                "{:?}",
                path
            );
        }
    }
}

#[test]
fn backslashes_separate_on_windows_only() {
    let cases = [
        ("/x\\.jpg", true, false),
        ("/a\\b.jpg", true, true),
        ("/a.jpg\\b", false, false),
        ("/a.jpg\\", false, true),
        ("/a.jpg\\..", false, false),
        ("//server/share.jpg", true, false),
        ("/\\server\\share.jpg", true, false),
        ("//server/share/b.jpg", true, true),
        ("//server//b.jpg", true, true),
        ("///share/b.jpg", true, true),
        ("//b.jpg", true, true),
    ];
    for (path, unix, windows) in cases {
        assert_eq!(is_transformable_image_path(path, PathStyle::Unix), unix, "{:?}", path);
        assert_eq!(is_transformable_image_path(path, PathStyle::Windows), windows, "{:?}", path);
    }
    let name = name_of(&chars("/a\\b.jpg"), PathStyle::Unix);
    assert_eq!(name.map(text), Some("a\\b.jpg".to_string()));
    let name = name_of(&chars("/a\\b.jpg"), PathStyle::Windows);
    assert_eq!(name.map(text), Some("b.jpg".to_string()));
    assert_eq!(name_of(&chars("//server/share"), PathStyle::Windows), None);
}

#[test]
fn image_paths_are_told_by_their_extension() {
    for path in ["/a.jpg", "/a.JPEG", "/a.b.Png", "/a.jpg/", "/a.jpg//", "/x/%20.png"] {
        assert!(is_transformable_image_path(path, PathStyle::Unix), "{:?}", path);
    }
    for path in ["/a.gif", "/jpg", "/.jpg", "/a.jpg/b", "/a.jpg/..", "/", "*", "/a.jpg.", "/a.jp"] {
        assert!(!is_transformable_image_path(path, PathStyle::Unix), "{:?}", path);
    }
}
