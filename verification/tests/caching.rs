use image_optimizer::cache::{
    cache_entry, cache_temp_path, encoder_fingerprint, is_cache_managed_file, CacheEntry, FilePath,
    TempFileCounter, WriteStep,
};
use image_optimizer::cleanup::{
    cached_formats, is_older_than, CacheCleanup, CacheFile, CacheWalk, EntryKind,
};
use image_optimizer::config::{Config, Variables};
use image_optimizer::flight::Flights;
use image_optimizer::formats::TargetFormat;
use image_optimizer::paths::PathStyle;
use image_optimizer::sorting::sorted_places;
use image_optimizer::target::RequestTarget;
use image_optimizer::transform::TransformDecision;

fn config() -> Config {
    let vars = Variables {
        listen_addr: None,
        upstream_base: None,
        cache_dir: Some("/cache".to_string()),
        max_transform_bytes: None,
        max_pixels: None,
        avif_quality: None,
        avif_speed: None,
        webp_quality: None,
        cache_version: None,
        enable_accept_negotiation: None,
        max_concurrent_encodes: None,
        upstream_connect_timeout_secs: None,
        upstream_request_timeout_secs: None,
        cache_cleanup_enabled: None,
        cache_max_bytes: None,
        cache_max_age_days: None,
        cache_cleanup_interval_secs: None,
    };
    Config::from_env(&vars, None, PathStyle::Unix).unwrap()
}

fn decision(target: TargetFormat, query: Option<&str>) -> TransformDecision {
    TransformDecision { target, upstream_query: query.map(str::to_string) }
}

fn named(name: &str) -> CacheEntry {
    CacheEntry {
        key: String::new(),
        final_path: FilePath { parent: vec!["d".to_string()], file_name: name.to_string() },
    }
}

fn file(path: usize, len: u64, modified: i128) -> CacheFile<usize> {
    CacheFile { path, len, modified }
}

fn run(mut cleanup: CacheCleanup<usize>, fails: &[usize]) -> (Vec<usize>, u64, u128, u128) {
    let mut asked = Vec::new();
    while let Some(path) = cleanup.next().copied() {
        asked.push(path);
        cleanup.report(!fails.contains(&path));
    }
    (asked, cleanup.removed_files(), cleanup.removed_bytes(), cleanup.remaining_bytes())
}

const SECOND: i128 = 1_000_000_000;

#[test]
fn keys_are_digests_of_what_the_image_depends_on() {
    let target = RequestTarget::new("/bucket/a.jpg", Some("format=avif&v=1")).unwrap();
    let entry = cache_entry(&config(), &target, &decision(TargetFormat::Avif, Some("v=1")));
    let key = "d8b49c3bd9a580eeb80838e09d5576e0f6e21ffb533cc61149cb55b0043a0803";
    assert_eq!(entry.key, key);
    assert_eq!(entry.key.len(), 64);
    assert_eq!(entry.final_path.parent, vec!["/cache", "avif", "d8"]);
    assert_eq!(entry.final_path.file_name, format!("{}.avif", key));

    let entry = cache_entry(&config(), &target, &decision(TargetFormat::Webp, None));
    let key = "164d96bfc0cef2ac3ee9812c69bbaa7474b278e45e65f7b69cf182c6e664b3c0";
    assert_eq!(entry.key, key);
    assert_eq!(entry.final_path.parent, vec!["/cache", "webp", "16"]);
    assert_eq!(entry.final_path.file_name, format!("{}.webp", key));
}

#[test]
fn fingerprints_name_the_settings() {
    let mut cfg = config();
    assert_eq!(encoder_fingerprint(&cfg, TargetFormat::Avif), "avif:q=75:speed=6");
    assert_eq!(encoder_fingerprint(&cfg, TargetFormat::Webp), "webp:q=82");
    cfg.avif_quality = "60.5".to_string();
    cfg.avif_speed = 10;
    assert_eq!(encoder_fingerprint(&cfg, TargetFormat::Avif), "avif:q=60.5:speed=10");
    assert_eq!(encoder_fingerprint(&cfg, TargetFormat::Webp), "webp:q=82");
}

#[test]
fn every_setting_and_part_of_a_request_changes_the_key() {
    let target = RequestTarget::new("/a.jpg", None).unwrap();
    let avif = decision(TargetFormat::Avif, Some("v=1"));
    let mut keys = vec![
        cache_entry(&config(), &target, &avif).key,
        cache_entry(&config(), &target, &decision(TargetFormat::Webp, Some("v=1"))).key,
        cache_entry(&config(), &target, &decision(TargetFormat::Avif, None)).key,
        cache_entry(&config(), &target, &decision(TargetFormat::Avif, Some("v=2"))).key,
        cache_entry(&config(), &RequestTarget::new("/b.jpg", None).unwrap(), &avif).key,
    ];
    let mut cfg = config();
    cfg.avif_speed = 7;
    keys.push(cache_entry(&cfg, &target, &avif).key);
    let mut cfg = config();
    cfg.cache_version = "2".to_string();
    keys.push(cache_entry(&cfg, &target, &avif).key);
    let mut cfg = config();
    cfg.webp_quality = "1".to_string();
    assert_eq!(cache_entry(&cfg, &target, &avif).key, keys[0]);
    let count = keys.len();
    keys.sort();
    keys.dedup();
    assert_eq!(keys.len(), count);
}

#[test]
fn files_being_written_have_names_of_their_own() {
    let mut counter = TempFileCounter::new();
    let path = cache_temp_path(&mut counter, 12, &named("abc.avif"));
    assert_eq!(path.file_name, "abc.avif.tmp-12-0");
    assert_eq!(path.parent, vec!["d"]);
    let path = cache_temp_path(&mut counter, 12, &named("abc"));
    assert_eq!(path.file_name, "abc.cache.tmp-12-1");
    let path = cache_temp_path(&mut counter, 0, &named(".avif"));
    assert_eq!(path.file_name, ".avif.cache.tmp-0-2");
    let path = cache_temp_path(&mut counter, 0, &named("a.b.c"));
    assert_eq!(path.file_name, "a.b.c.tmp-0-3");
    for name in ["abc.avif", "abc", ".avif", "a.b.c"] {
        let mut counter = TempFileCounter { next: u64::MAX };
        let std_name = |sequence: u64| {
            let path = std::path::Path::new(name);
            let ext = path.extension().map_or("cache", |s| s.to_str().unwrap());
            path.with_extension(format!("{}.tmp-{}-{}", ext, 9, sequence))
        };
        let path = cache_temp_path(&mut counter, 9, &named(name));
        assert_eq!(std::path::Path::new(&path.file_name), std_name(u64::MAX));
        let path = cache_temp_path(&mut counter, 9, &named(name));
        assert_eq!(std::path::Path::new(&path.file_name), std_name(0));
    }
}

#[test]
fn the_cache_looks_after_its_own_files() {
    let target = RequestTarget::new("/a.jpg", None).unwrap();
    for format in cached_formats() {
        let entry = cache_entry(&config(), &target, &decision(format, None));
        let name = entry.final_path.file_name.clone();
        assert!(is_cache_managed_file(Some(&name), format.extension()));
        let temp = cache_temp_path(&mut TempFileCounter::new(), 1, &entry).file_name;
        assert_ne!(temp, name);
        assert!(is_cache_managed_file(Some(&temp), format.extension()));
    }
    assert!(is_cache_managed_file(Some(".avif"), "avif"));
    assert!(!is_cache_managed_file(Some("avif"), "avif"));
    assert!(!is_cache_managed_file(Some("a.avif"), "webp"));
    assert!(!is_cache_managed_file(None, "avif"));
}

#[test]
fn files_are_renamed_once_they_are_written() {
    let order = [
        WriteStep::CreateDirectory,
        WriteStep::CreateFile,
        WriteStep::WriteBytes,
        WriteStep::Flush,
        WriteStep::Rename,
    ];
    let mut step = WriteStep::CreateDirectory;
    for expected in order {
        assert_eq!(step, expected);
        let failed = step.next(false);
        if expected == WriteStep::Rename {
            assert_eq!(failed, WriteStep::RemoveFile);
            assert_eq!(failed.next(true), WriteStep::Failed);
            assert_eq!(failed.next(false), WriteStep::Failed);
        } else {
            assert_eq!(failed, WriteStep::Failed);
        }
        step = step.next(true);
    }
    assert_eq!(step, WriteStep::Written);
    assert_eq!(step.next(false), WriteStep::Written);
    assert_eq!(WriteStep::Failed.next(true), WriteStep::Failed);
}

#[test]
fn ages_are_counted_from_the_time_of_writing() {
    assert!(is_older_than(0, 11, 10));
    assert!(!is_older_than(0, 10, 10));
    assert!(!is_older_than(20, 10, 0));
    assert!(is_older_than(-5, 6, 10));
    assert!(is_older_than(-20, -5, 10));
    assert!(!is_older_than(5, 5, 0));
    assert!(is_older_than(i128::MIN, i128::MAX, u128::MAX - 1));
    assert!(!is_older_than(i128::MIN, i128::MAX, u128::MAX));
    assert!(!is_older_than(i128::MAX, i128::MIN, 0));
}

#[test]
fn sorting_is_stable() {
    let numbers: Vec<i128> = vec![3, 1, 2, 1, 3, -7, 2];
    let places: Vec<usize> = (0..7).collect();
    assert_eq!(sorted_places(&numbers, &places), vec![5, 1, 3, 2, 6, 0, 4]);
    assert_eq!(sorted_places(&numbers, &vec![0, 3, 6]), vec![3, 6, 0]);
    assert_eq!(sorted_places(&numbers, &vec![]), Vec::<usize>::new());
    let mut state: u64 = 7;
    let numbers: Vec<i128> = (0..1000)
        .map(|_| {
            state = state.wrapping_mul(6364136223846793005).wrapping_add(1442695040888963407);
            i128::from(state >> 58)
        })
        .collect();
    let places: Vec<usize> = (0..1000).collect();
    let mut expected = places.clone();
    expected.sort_by_key(|&i| numbers[i]);
    assert_eq!(sorted_places(&numbers, &places), expected);
}

#[test]
fn expired_files_go_first_and_in_order() {
    let now = 1000 * SECOND;
    let files = vec![
        file(0, 10, 995 * SECOND),
        file(1, 20, 1),
        file(2, 30, 999 * SECOND),
        file(3, 40, 0),
        file(4, 50, 990 * SECOND),
    ];
    let cleanup = CacheCleanup::new(files, now, 100, 1000);
    assert_eq!(run(cleanup, &[]), (vec![1, 3], 2, 60, 90));
}

#[test]
fn a_file_expires_after_its_greatest_age() {
    let now = 200 * SECOND;
    let files = vec![file(0, 1, 100 * SECOND), file(1, 1, 100 * SECOND - 1)];
    assert_eq!(run(CacheCleanup::new(files, now, 100, 10), &[]), (vec![1], 1, 1, 1));
}

#[test]
fn the_oldest_files_make_room() {
    let files = vec![file(0, 10, 5), file(1, 10, 3), file(2, 10, 4), file(3, 10, 3), file(4, 10, 9)];
    let cleanup = CacheCleanup::new(files, 10, 1, 25);
    assert_eq!(run(cleanup, &[]), (vec![1, 3, 2], 3, 30, 20));
}

#[test]
fn files_that_cannot_be_removed_are_passed_over() {
    let files = vec![file(0, 10, 5), file(1, 10, 3), file(2, 10, 4), file(3, 10, 3), file(4, 10, 9)];
    let cleanup = CacheCleanup::new(files, 10, 1, 25);
    assert_eq!(run(cleanup, &[1, 2]), (vec![1, 3, 2, 0, 4], 3, 30, 20));

    let now = 1000 * SECOND;
    let files = vec![file(0, 100, 0), file(1, 10, now), file(2, 10, now)];
    let cleanup = CacheCleanup::new(files, now, 1, 50);
    assert_eq!(run(cleanup, &[0]), (vec![0, 1, 2], 2, 20, 100));
}

#[test]
fn a_cache_that_fits_is_left_alone() {
    let files = vec![file(0, u64::MAX, 5), file(1, 0, 6)];
    let cleanup = CacheCleanup::new(files, 10, 1, u64::MAX);
    assert_eq!(run(cleanup, &[]), (vec![], 0, 0, u128::from(u64::MAX)));
    let none: Vec<CacheFile<usize>> = Vec::new();
    assert_eq!(run(CacheCleanup::new(none, 10, 1, 1), &[]), (vec![], 0, 0, 0));
    let files = vec![file(0, u64::MAX, 5), file(1, u64::MAX, 6)];
    let cleanup = CacheCleanup::new(files, 10, 1, u64::MAX);
    assert_eq!(run(cleanup, &[]), (vec![0], 1, u128::from(u64::MAX), u128::from(u64::MAX)));
}

#[test]
fn a_report_without_a_removal_changes_nothing() {
    let mut cleanup = CacheCleanup::new(vec![file(0, 1, 5)], 10, 1, 5);
    assert!(cleanup.next().is_none());
    cleanup.report(true);
    assert_eq!(run(cleanup, &[]), (vec![], 0, 0, 1));
}

#[test]
fn the_walk_goes_into_directories_and_keeps_files() {
    assert_eq!(cached_formats(), vec![TargetFormat::Avif, TargetFormat::Webp]);
    let mut walk: CacheWalk<&str> = CacheWalk::new();
    walk.enter(TargetFormat::Avif, "avif", true);
    assert_eq!(walk.next_directory(), Some("avif"));
    let data = |len: u64| EntryKind::File { len, modified: Some(7) };
    walk.found("avif/ab", Some("ab"), EntryKind::Directory);
    walk.found("avif/cd", Some("cd"), EntryKind::Directory);
    walk.found("avif/x.avif", Some("x.avif"), data(5));
    walk.found("avif/x.webp", Some("x.webp"), data(6));
    walk.found("avif/l.avif", Some("l.avif"), EntryKind::Other);
    walk.found("avif/u.avif", Some("u.avif"), EntryKind::Unreadable);
    walk.found("avif/n", None, data(8));
    assert_eq!(walk.next_directory(), Some("avif/cd"));
    assert_eq!(walk.next_directory(), Some("avif/ab"));
    walk.found(
        "avif/ab/y.tmp-1-2",
        Some("y.tmp-1-2"),
        EntryKind::File { len: 9, modified: None },
    );
    assert_eq!(walk.next_directory(), None);
    walk.enter(TargetFormat::Webp, "webp", false);
    assert_eq!(walk.next_directory(), None);
    walk.enter(TargetFormat::Webp, "webp", true);
    assert_eq!(walk.next_directory(), Some("webp"));
    walk.found("webp/x.avif", Some("x.avif"), data(1));
    walk.found("webp/x.webp", Some("x.webp"), data(2));
    let found: Vec<(&str, u64, i128)> =
        walk.files.iter().map(|f| (f.path, f.len, f.modified)).collect();
    assert_eq!(
        found,
        vec![("avif/x.avif", 5, 7), ("avif/ab/y.tmp-1-2", 9, 0), ("webp/x.webp", 2, 7)]
    );
}

#[test]
fn a_walk_finds_every_file_once() {
    let data = |len: u64| EntryKind::File { len, modified: Some(1) };
    let listing: Vec<(&str, Vec<(&str, &str, EntryKind)>)> = vec![
        (
            "r",
            vec![
                ("r/a", "a", EntryKind::Directory),
                ("r/1.avif", "1.avif", data(1)),
                ("r/b", "b", EntryKind::Directory),
            ],
        ),
        ("r/a", vec![("r/a/2.avif", "2.avif", data(2)), ("r/a/c", "c", EntryKind::Directory)]),
        ("r/b", vec![("r/b/x.txt", "x.txt", data(9)), ("r/b/3.avif", "3.avif", data(3))]),
        ("r/a/c", vec![("r/a/c/4.tmp-1-1", "4.tmp-1-1", data(4))]),
        ("elsewhere", vec![("elsewhere/5.avif", "5.avif", data(5))]),
    ];
    let mut walk: CacheWalk<&str> = CacheWalk::new();
    walk.files.push(CacheFile { path: "before", len: 0, modified: 0 });
    walk.enter(TargetFormat::Avif, "r", true);
    let mut read = Vec::new();
    while let Some(dir) = walk.next_directory() {
        read.push(dir);
        for (at, entries) in &listing {
            if *at == dir {
                for (path, name, kind) in entries {
                    walk.found(path, Some(name), *kind);
                }
            }
        }
    }
    assert_eq!(read, vec!["r", "r/b", "r/a", "r/a/c"]);
    let found: Vec<&str> = walk.files.iter().map(|f| f.path).collect();
    assert_eq!(found, vec!["before", "r/1.avif", "r/b/3.avif", "r/a/2.avif", "r/a/c/4.tmp-1-1"]);
}

#[test]
fn requests_for_one_image_share_a_lock() {
    let mut flights: Flights<u32> = Flights::new();
    assert_eq!(*flights.join("a", 1), 1);
    assert_eq!(*flights.join("b", 2), 2);
    assert_eq!(*flights.join("a", 3), 1);
    assert_eq!(flights.find("a"), Some(&1));
    assert_eq!(flights.find("c"), None);
}

#[test]
fn unused_locks_leave_the_table() {
    let mut flights: Flights<u32> = Flights::new();
    flights.join("a", 1);
    flights.join("b", 2);
    flights.retire("a", 4, true);
    flights.retire("a", 3, false);
    flights.retire("c", 3, true);
    assert_eq!(flights.find("a"), Some(&1));
    flights.retire("a", 3, true);
    assert_eq!(flights.find("a"), None);
    assert_eq!(flights.find("b"), Some(&2));
    assert_eq!(*flights.join("a", 5), 5);
}
