//! The cache of converted images: the key of an image, where its file stands,
//! and how the file is written.
use crate::config::Config;
use crate::formats::TargetFormat;
use crate::numbers;
use crate::paths;
use crate::query;
use crate::target;
use crate::target::RequestTarget;
use crate::text;
use crate::transform::TransformDecision;
use sha2::Digest;
use vstd::prelude::*;

verus! {

// ------------------------------------------------------------- outside calls

/// The SHA-256 digest of a message.
pub uninterp spec fn sha256(message: Seq<u8>) -> Seq<u8>;

/// Calls `Sha256::digest`. A digest has 32 bytes.
#[verifier::external_body]
fn digest(message: &[u8]) -> (r: Vec<u8>)
    ensures
        r@ == sha256(message@),
        r@.len() == 32,
{
    sha2::Sha256::digest(message).to_vec()
}

/// Calls `hex::encode`: two digits for each byte, the letters in lower case.
#[verifier::external_body]
fn encode_hex(bytes: &[u8]) -> (r: String)
    ensures
        r@ == hex_text(bytes@),
{
    hex::encode(bytes)
}

// --------------------------------------------------------------------- types

/// Where a file stands: the directories on the way to it, and its name.
#[derive(Debug, PartialEq, Eq)]
pub struct FilePath {
    pub parent: Vec<String>,
    pub file_name: String,
}

/// A converted image in the cache.
#[derive(Debug)]
pub struct CacheEntry {
    /// What tells the image from every other.
    pub key: String,
    /// Where its file stands.
    pub final_path: FilePath,
}

/// Gives every file that is being written a number of its own.
#[derive(Debug)]
pub struct TempFileCounter {
    pub next: u64,
}

impl FilePath {
    /// The directories and the name.
    pub open spec fn parts(self) -> (Seq<Seq<char>>, Seq<char>) {
        (self.parent@.map_values(|dir: String| dir@), self.file_name@)
    }
}

// ---------------------------------------------------------------- statements

/// The digit for a number below sixteen.
pub open spec fn hex_digit(n: int) -> char {
    if n < 10 {
        ('0' as int + n) as char
    } else {
        ('a' as int + n - 10) as char
    }
}

/// The bytes in base sixteen, two digits for each.
pub open spec fn hex_text(bytes: Seq<u8>) -> Seq<char> {
    Seq::new(
        2 * bytes.len(),
        |i: int|
            if i % 2 == 0 {
                hex_digit(bytes[i / 2] as int / 16)
            } else {
                hex_digit(bytes[i / 2] as int % 16)
            },
    )
}

/// The settings that the encoder for a format is run with, written out.
pub open spec fn fingerprint(
    target: TargetFormat,
    avif_quality: Seq<char>,
    avif_speed: u8,
    webp_quality: Seq<char>,
) -> Seq<char> {
    match target {
        TargetFormat::Avif => "avif:q="@ + avif_quality + ":speed="@ + numbers::decimal(
            avif_speed as nat,
        ),
        TargetFormat::Webp => "webp:q="@ + webp_quality,
    }
}

/// The settings that the encoder for a format is run with, written out.
pub open spec fn config_fingerprint(cfg: Config, target: TargetFormat) -> Seq<char> {
    fingerprint(target, cfg.avif_quality@, cfg.avif_speed, cfg.webp_quality@)
}

/// A query, or nothing where there is none.
pub open spec fn query_or_nothing(query: Option<Seq<char>>) -> Seq<char> {
    match query {
        Some(q) => q,
        None => Seq::empty(),
    }
}

/// All that an image in the cache depends on, line by line.
pub open spec fn key_lines(
    path: Seq<char>,
    query: Option<Seq<char>>,
    target: TargetFormat,
    settings: Seq<char>,
    version: Seq<char>,
) -> Seq<Seq<char>> {
    seq!["GET"@, path, query_or_nothing(query), target.extension_text(), settings, version]
}

/// The text whose digest is the key of an image.
pub open spec fn key_message(
    path: Seq<char>,
    query: Option<Seq<char>>,
    target: TargetFormat,
    settings: Seq<char>,
    version: Seq<char>,
) -> Seq<char> {
    text::joined(key_lines(path, query, target, settings, version), '\n')
}

/// The key of the image with the given message.
pub open spec fn key_of(message: Seq<char>) -> Seq<char> {
    hex_text(sha256(vstd::utf8::encode_utf8(message)))
}

/// Where the file of the image with the key `key` stands.
pub open spec fn path_of(cache_dir: Seq<char>, target: TargetFormat, key: Seq<char>) -> (
    Seq<Seq<char>>,
    Seq<char>,
) {
    (
        seq![cache_dir, target.extension_text(), key.take(2)],
        key.push('.') + target.extension_text(),
    )
}

/// The name of a file that is still being written, by the process `process` as
/// its `sequence`th: that of the file it will be, with a mark behind it.
pub open spec fn temp_name(name: Seq<char>, process: nat, sequence: nat) -> Seq<char> {
    paths::stem(name).push('.') + match paths::extension(name) {
        Some(ext) => ext,
        None => "cache"@,
    } + ".tmp-"@ + numbers::decimal(process) + "-"@ + numbers::decimal(sequence)
}

/// Where a file stands while it is being written.
pub open spec fn temp_path(
    parts: (Seq<Seq<char>>, Seq<char>),
    process: nat,
    sequence: nat,
) -> (Seq<Seq<char>>, Seq<char>) {
    (parts.0, temp_name(parts.1, process, sequence))
}

/// A file that the cache looks after: one of the format's, or one that is still
/// being written.
pub open spec fn is_managed(name: Seq<char>, extension: Seq<char>) -> bool {
    text::occurs_at(name, seq!['.'] + extension, name.len() - 1 - extension.len())
        || text::occurs_in(name, ".tmp-"@)
}

// -------------------------------------------------------------------- lemmas

/// A file can be named after a key.
proof fn lemma_key_makes_a_file_name(bytes: Seq<u8>, target: TargetFormat)
    requires
        bytes.len() > 0,
    ensures
        paths::is_file_name(hex_text(bytes).push('.') + target.extension_text()),
{
    let key = hex_text(bytes);
    let name = key.push('.') + target.extension_text();
    reveal_strlit("avif");
    reveal_strlit("webp");
    reveal_strlit(".");
    reveal_strlit("..");
    assert(name.len() == 2 * bytes.len() + 5);
    assert forall|i: int| 0 <= i < name.len() implies #[trigger] name[i] != '/' by {
        if i < key.len() {
            let n = bytes[i / 2] as int;
            assert(0 <= n / 16 < 16 && 0 <= n % 16 < 16);
            assert(key[i] == hex_digit(n / 16) || key[i] == hex_digit(n % 16));
            assert(name[i] == key[i]);
        }
    }
}

// ---------------------------------------------------------------- operations

/// The settings that the encoder for a format is run with, written out.
pub fn encoder_fingerprint(cfg: &Config, target: TargetFormat) -> (r: String)
    ensures
        r@ == config_fingerprint(*cfg, target),
{
    match target {
        TargetFormat::Avif => {
            let mut r = "avif:q=".to_owned();
            r.append(cfg.avif_quality.as_str());
            r.append(":speed=");
            let speed = numbers::to_decimal(cfg.avif_speed as u64);
            r.append(speed.as_str());
            r
        },
        TargetFormat::Webp => {
            let mut r = "webp:q=".to_owned();
            r.append(cfg.webp_quality.as_str());
            r
        },
    }
}

/// Writes out all that an image in the cache depends on.
fn write_key_message(
    path: &str,
    query: Option<&str>,
    target: TargetFormat,
    settings: &str,
    version: &str,
) -> (r: String)
    ensures
        r@ == key_message(path@, query::optional_view(query), target, settings@, version@),
{
    let mut r = "GET".to_owned();
    r.push('\n');
    r.append(path);
    r.push('\n');
    if let Some(q) = query {
        r.append(q);
    }
    r.push('\n');
    r.append(target.extension());
    r.push('\n');
    r.append(settings);
    r.push('\n');
    r.append(version);
    proof {
        let lines = key_lines(path@, query::optional_view(query), target, settings@, version@);
        reveal_with_fuel(text::joined, 6);
        assert(lines.drop_last() == lines.take(5));
        assert(lines.take(5).drop_last() == lines.take(4));
        assert(lines.take(4).drop_last() == lines.take(3));
        assert(lines.take(3).drop_last() == lines.take(2));
        assert(lines.take(2).drop_last() == lines.take(1));
        assert(r@ == text::joined(lines, '\n'));
    }
    r
}

/// The entry of the cache for a request and what its answer is converted to.
pub fn cache_entry(cfg: &Config, target: &RequestTarget, decision: &TransformDecision) -> (r:
    CacheEntry)
    ensures
        r.key@ == key_of(
            key_message(
                target.path@,
                query::optional_string_view(decision.upstream_query),
                decision.target,
                config_fingerprint(*cfg, decision.target),
                cfg.cache_version@,
            ),
        ),
        r.key@.len() == 64,
        r.final_path.parts() == path_of(cfg.cache_dir@, decision.target, r.key@),
        paths::is_file_name(r.final_path.file_name@),
{
    let query = match &decision.upstream_query {
        Some(q) => Some(q.as_str()),
        None => None,
    };
    let settings = encoder_fingerprint(cfg, decision.target);
    let message = write_key_message(
        target.path.as_str(),
        query,
        decision.target,
        settings.as_str(),
        cfg.cache_version.as_str(),
    );
    let bytes = digest(message.as_str().as_bytes());
    let key = encode_hex(bytes.as_slice());
    let chars = text::chars_of(key.as_str());
    let shard = text::stretch(chars.as_slice(), 0, 2);
    let mut file_name = key.as_str().to_owned();
    file_name.push('.');
    file_name.append(decision.target.extension());
    let mut parent: Vec<String> = Vec::new();
    parent.push(cfg.cache_dir.as_str().to_owned());
    parent.push(decision.target.extension().to_owned());
    parent.push(text::string_of(shard.as_slice()));
    proof {
        lemma_key_makes_a_file_name(bytes@, decision.target);
    }
    let final_path = FilePath { parent, file_name };
    assert(final_path.parts().0 == path_of(cfg.cache_dir@, decision.target, key@).0);
    CacheEntry { key, final_path }
}

/// The number that a counter gives next, and the one after it.
pub open spec fn number_after(n: u64) -> u64 {
    if n == u64::MAX {
        0
    } else {
        (n + 1) as u64
    }
}

impl TempFileCounter {
    /// Starts at zero.
    pub fn new() -> (r: Self)
        ensures
            r.next == 0,
    {
        TempFileCounter { next: 0 }
    }

    /// The next number. Behind the greatest comes zero again.
    pub fn take(&mut self) -> (n: u64)
        ensures
            n == old(self).next,
            final(self).next == number_after(old(self).next),
    {
        let n: u64 = self.next;
        self.next = if n == u64::MAX {
            0
        } else {
            n + 1
        };
        n
    }
}

/// The same directories once more.
fn same_directories(parent: &Vec<String>) -> (r: Vec<String>)
    ensures
        r@.map_values(|dir: String| dir@) == parent@.map_values(|dir: String| dir@),
{
    let mut r: Vec<String> = Vec::new();
    let mut i: usize = 0;
    while i < parent.len()
        invariant
            i <= parent@.len(),
            r@.len() == i,
            forall|j: int| 0 <= j < i ==> #[trigger] r@[j]@ == parent@[j]@,
        decreases parent@.len() - i,
    {
        r.push(parent[i].as_str().to_owned());
        i = i + 1;
    }
    assert(r@.map_values(|dir: String| dir@) == parent@.map_values(|dir: String| dir@));
    r
}

/// Where the file of an entry stands while it is being written: beside the file
/// that it will be, under a name that no other writer has.
pub fn cache_temp_path(counter: &mut TempFileCounter, process: u32, entry: &CacheEntry) -> (r:
    FilePath)
    requires
        paths::is_file_name(entry.final_path.file_name@),
    ensures
        final(counter).next == number_after(old(counter).next),
        r.parts() == (
            entry.final_path.parts().0,
            temp_name(entry.final_path.file_name@, process as nat, old(counter).next as nat),
        ),
        r.parts() == temp_path(
            entry.final_path.parts(),
            process as nat,
            old(counter).next as nat,
        ),
{
    let chars = text::chars_of(entry.final_path.file_name.as_str());
    let stem = paths::stem_of(chars.as_slice());
    let extension = match paths::extension_of(chars.as_slice()) {
        Some(ext) => text::string_of(ext.as_slice()),
        None => "cache".to_owned(),
    };
    let sequence: u64 = counter.take();
    let mut file_name = text::string_of(stem.as_slice());
    file_name.push('.');
    file_name.append(extension.as_str());
    file_name.append(".tmp-");
    let process_text = numbers::to_decimal(process as u64);
    file_name.append(process_text.as_str());
    file_name.append("-");
    let sequence_text = numbers::to_decimal(sequence);
    file_name.append(sequence_text.as_str());
    FilePath { parent: same_directories(&entry.final_path.parent), file_name }
}

/// Whether the cache looks after a file with this name. A name that is not
/// text is not one of the cache's.
pub fn is_cache_managed_file(file_name: Option<&str>, extension: &str) -> (r: bool)
    ensures
        r == match file_name {
            Some(name) => is_managed(name@, extension@),
            None => false,
        },
{
    let name = match file_name {
        Some(name) => text::chars_of(name),
        None => return false,
    };
    let mut suffix: Vec<char> = Vec::new();
    suffix.push('.');
    let mut rest = text::chars_of(extension);
    suffix.append(&mut rest);
    assert(suffix@ == seq!['.'] + extension@);
    let mark = text::chars_of(".tmp-");
    text::has_at_end(name.as_slice(), suffix.as_slice()) || text::has(
        name.as_slice(),
        mark.as_slice(),
    )
}

// ------------------------------------------------------------------- writing

/// A step on the way of a file into the cache.
#[derive(Debug, Clone, Copy, PartialEq, Eq, Structural)]
pub enum WriteStep {
    /// Make the directories that the file stands in.
    CreateDirectory,
    /// Make the file, under its name for the time of writing.
    CreateFile,
    /// Write the image to it.
    WriteBytes,
    /// Hand what was written to the system.
    Flush,
    /// Give the file its own name.
    Rename,
    /// Remove the file that could not be renamed.
    RemoveFile,
    /// The file stands in the cache.
    Written,
    /// It does not.
    Failed,
}

impl WriteStep {
    /// What follows a step that was taken, with success or without.
    pub open spec fn following(self, ok: bool) -> WriteStep {
        match self {
            WriteStep::CreateDirectory => if ok {
                WriteStep::CreateFile
            } else {
                WriteStep::Failed
            },
            WriteStep::CreateFile => if ok {
                WriteStep::WriteBytes
            } else {
                WriteStep::Failed
            },
            WriteStep::WriteBytes => if ok {
                WriteStep::Flush
            } else {
                WriteStep::Failed
            },
            WriteStep::Flush => if ok {
                WriteStep::Rename
            } else {
                WriteStep::Failed
            },
            WriteStep::Rename => if ok {
                WriteStep::Written
            } else {
                WriteStep::RemoveFile
            },
            WriteStep::RemoveFile => WriteStep::Failed,
            WriteStep::Written => WriteStep::Written,
            WriteStep::Failed => WriteStep::Failed,
        }
    }

    /// What follows a step that was taken, with success or without.
    pub fn next(self, ok: bool) -> (r: WriteStep)
        ensures
            r == self.following(ok),
    {
        match self {
            WriteStep::CreateDirectory if ok => WriteStep::CreateFile,
            WriteStep::CreateFile if ok => WriteStep::WriteBytes,
            WriteStep::WriteBytes if ok => WriteStep::Flush,
            WriteStep::Flush if ok => WriteStep::Rename,
            WriteStep::Rename => if ok {
                WriteStep::Written
            } else {
                WriteStep::RemoveFile
            },
            WriteStep::Written => WriteStep::Written,
            _ => WriteStep::Failed,
        }
    }
}

/// Where the writing of a file stands once its steps had these outcomes.
pub open spec fn write_progress(outcomes: Seq<bool>) -> WriteStep
    decreases outcomes.len(),
{
    if outcomes.len() == 0 {
        WriteStep::CreateDirectory
    } else {
        write_progress(outcomes.drop_last()).following(outcomes.last())
    }
}

/// The first so many outcomes are successes.
pub open spec fn all_well(outcomes: Seq<bool>, n: int) -> bool {
    n <= outcomes.len() && forall|i: int| 0 <= i < n ==> #[trigger] outcomes[i]
}

/// What the outcomes were where the writing of a file stands somewhere.
proof fn lemma_write_progress(outcomes: Seq<bool>)
    ensures
        match write_progress(outcomes) {
            WriteStep::CreateDirectory => outcomes.len() == 0,
            WriteStep::CreateFile => outcomes.len() == 1 && all_well(outcomes, 1),
            WriteStep::WriteBytes => outcomes.len() == 2 && all_well(outcomes, 2),
            WriteStep::Flush => outcomes.len() == 3 && all_well(outcomes, 3),
            WriteStep::Rename => outcomes.len() == 4 && all_well(outcomes, 4),
            WriteStep::RemoveFile => outcomes.len() == 5 && !all_well(outcomes, 5),
            WriteStep::Written => all_well(outcomes, 5),
            WriteStep::Failed => outcomes.len() > 0 && !all_well(
                outcomes,
                if outcomes.len() < 5 {
                    outcomes.len() as int
                } else {
                    5
                },
            ),
        },
    decreases outcomes.len(),
{
    if outcomes.len() > 0 {
        let front = outcomes.drop_last();
        lemma_write_progress(front);
        assert forall|n: int| 0 <= n < outcomes.len() implies #[trigger] all_well(outcomes, n)
            == all_well(front, n) by {
            assert forall|i: int| 0 <= i < n implies outcomes[i] == #[trigger] front[i] by {}
            if all_well(front, n) {
                assert forall|i: int| 0 <= i < n implies #[trigger] outcomes[i] by {
                    assert(front[i]);
                }
            }
        }
        assert(all_well(outcomes, outcomes.len() as int) == (all_well(
            outcomes,
            outcomes.len() - 1,
        ) && outcomes.last()));
    }
}

/// A file stands in the cache exactly if the directory was made, the file was
/// made, written and flushed, and then got its name: no reader ever finds one
/// that was written in part.
pub proof fn only_complete_files_are_cached(outcomes: Seq<bool>)
    ensures
        write_progress(outcomes) == WriteStep::Written <==> all_well(outcomes, 5),
{
    lemma_write_progress(outcomes);
}

/// A file that could not be renamed is removed, and the write has failed.
pub proof fn refused_rename_is_undone(outcomes: Seq<bool>)
    requires
        write_progress(outcomes) == WriteStep::Rename,
    ensures
        write_progress(outcomes.push(false)) == WriteStep::RemoveFile,
        forall|ok: bool| #[trigger]
            write_progress(outcomes.push(false).push(ok)) == WriteStep::Failed,
{
    assert(outcomes.push(false).drop_last() == outcomes);
    assert forall|ok: bool| #[trigger]
        write_progress(outcomes.push(false).push(ok)) == WriteStep::Failed by {
        assert(outcomes.push(false).push(ok).drop_last() == outcomes.push(false));
    }
}

// ---------------------------------------------------------------------- laws

/// No line of a message but the last holds a line break.
pub open spec fn lines_hold(path: Seq<char>, query: Option<Seq<char>>, settings: Seq<char>) -> bool {
    text::free_of(path, '\n') && text::free_of(query_or_nothing(query), '\n') && text::free_of(
        settings,
        '\n',
    )
}

/// The lines of a message.
proof fn lemma_lines_of_message(
    path: Seq<char>,
    query: Option<Seq<char>>,
    target: TargetFormat,
    settings: Seq<char>,
    version: Seq<char>,
)
    requires
        lines_hold(path, query, settings),
    ensures
        text::pieces(key_message(path, query, target, settings, version), '\n') == key_lines(
            path,
            query,
            target,
            settings,
            version,
        ).drop_last() + text::pieces(version, '\n'),
{
    let lines = key_lines(path, query, target, settings, version);
    let front = lines.drop_last();
    reveal_strlit("GET");
    reveal_strlit("avif");
    reveal_strlit("webp");
    assert(text::free_of("GET"@, '\n'));
    assert(text::free_of(target.extension_text(), '\n'));
    assert(front[0] == "GET"@);
    assert(text::all_free_of(front, '\n')) by {
        assert forall|i: int| 0 <= i < front.len() implies text::free_of(
            #[trigger] front[i],
            '\n',
        ) by {
            assert(i == 0 || i == 1 || i == 2 || i == 3 || i == 4);
        }
    }
    text::lemma_pieces_of_joined(front, '\n');
    text::lemma_pieces_of_two(text::joined(front, '\n'), version, '\n');
}

/// Two images with the same message are the same in all that they depend on.
pub proof fn message_tells_images_apart(
    path_a: Seq<char>,
    query_a: Option<Seq<char>>,
    target_a: TargetFormat,
    settings_a: Seq<char>,
    version_a: Seq<char>,
    path_b: Seq<char>,
    query_b: Option<Seq<char>>,
    target_b: TargetFormat,
    settings_b: Seq<char>,
    version_b: Seq<char>,
)
    requires
        lines_hold(path_a, query_a, settings_a),
        lines_hold(path_b, query_b, settings_b),
        key_message(path_a, query_a, target_a, settings_a, version_a) == key_message(
            path_b,
            query_b,
            target_b,
            settings_b,
            version_b,
        ),
    ensures
        path_a == path_b,
        query_or_nothing(query_a) == query_or_nothing(query_b),
        target_a == target_b,
        settings_a == settings_b,
        version_a == version_b,
{
    lemma_lines_of_message(path_a, query_a, target_a, settings_a, version_a);
    lemma_lines_of_message(path_b, query_b, target_b, settings_b, version_b);
    let front_a = key_lines(path_a, query_a, target_a, settings_a, version_a).drop_last();
    let front_b = key_lines(path_b, query_b, target_b, settings_b, version_b).drop_last();
    let all_a = front_a + text::pieces(version_a, '\n');
    let all_b = front_b + text::pieces(version_b, '\n');
    assert(all_a == all_b);
    assert(all_a.take(5) == front_a);
    assert(all_b.take(5) == front_b);
    assert(all_a.skip(5) == text::pieces(version_a, '\n'));
    assert(all_b.skip(5) == text::pieces(version_b, '\n'));
    assert(front_a[1] == front_b[1] && front_a[2] == front_b[2] && front_a[3] == front_b[3]
        && front_a[4] == front_b[4]);
    text::lemma_joined_of_pieces(version_a, '\n');
    text::lemma_joined_of_pieces(version_b, '\n');
    crate::formats::extensions_differ(target_a, target_b);
}

/// Neither the target of a request nor the settings of an encoder hold a line
/// break.
pub proof fn requests_and_settings_are_lines(
    path: Seq<char>,
    query: Option<Seq<char>>,
    target: TargetFormat,
    avif_quality: Seq<char>,
    avif_speed: u8,
    webp_quality: Seq<char>,
)
    requires
        target::is_target(path, query),
        crate::quality::is_number(avif_quality),
        crate::quality::is_number(webp_quality),
    ensures
        lines_hold(
            path,
            query::stripped(query),
            fingerprint(target, avif_quality, avif_speed, webp_quality),
        ),
{
    target::stripped_query_fits(path, query);
    assert forall|i: int| 0 <= i < path.len() implies #[trigger] path[i] != '\n' by {
        assert(target::is_path_char(path[i]));
    }
    let rest = query_or_nothing(query::stripped(query));
    assert forall|i: int| 0 <= i < rest.len() implies #[trigger] rest[i] != '\n' by {
        assert(target::is_query_char(rest[i]));
    }
    crate::quality::lemma_number_chars(avif_quality);
    crate::quality::lemma_number_chars(webp_quality);
    numbers::lemma_decimal_writes(avif_speed as nat);
    reveal_strlit("avif:q=");
    reveal_strlit(":speed=");
    reveal_strlit("webp:q=");
    let speed = numbers::decimal(avif_speed as nat);
    let written = fingerprint(target, avif_quality, avif_speed, webp_quality);
    assert forall|i: int| 0 <= i < written.len() implies #[trigger] written[i] != '\n' by {
        match target {
            TargetFormat::Avif => {
                let q = avif_quality.len();
                if 7 <= i < 7 + q {
                    assert(crate::quality::is_number_char(avif_quality[i - 7]));
                } else if 14 + q <= i {
                    assert(numbers::is_digit(speed[i - 14 - q]));
                }
            },
            TargetFormat::Webp => {
                if 7 <= i {
                    assert(crate::quality::is_number_char(webp_quality[i - 7]));
                }
            },
        }
    }
}

/// Other settings of the encoder for a format are written otherwise.
pub proof fn fingerprint_tells_settings_apart(
    target: TargetFormat,
    avif_quality_a: Seq<char>,
    avif_speed_a: u8,
    webp_quality_a: Seq<char>,
    avif_quality_b: Seq<char>,
    avif_speed_b: u8,
    webp_quality_b: Seq<char>,
)
    requires
        crate::quality::is_number(avif_quality_a),
        crate::quality::is_number(avif_quality_b),
        fingerprint(target, avif_quality_a, avif_speed_a, webp_quality_a) == fingerprint(
            target,
            avif_quality_b,
            avif_speed_b,
            webp_quality_b,
        ),
    ensures
        match target {
            TargetFormat::Avif => avif_quality_a == avif_quality_b && avif_speed_a == avif_speed_b,
            TargetFormat::Webp => webp_quality_a == webp_quality_b,
        },
{
    let a = fingerprint(target, avif_quality_a, avif_speed_a, webp_quality_a);
    let b = fingerprint(target, avif_quality_b, avif_speed_b, webp_quality_b);
    reveal_strlit("avif:q=");
    reveal_strlit(":speed=");
    reveal_strlit("webp:q=");
    match target {
        TargetFormat::Avif => {
            let tail_a = ":speed="@ + numbers::decimal(avif_speed_a as nat);
            let tail_b = ":speed="@ + numbers::decimal(avif_speed_b as nat);
            assert(a.skip(7) == avif_quality_a + tail_a);
            assert(b.skip(7) == avif_quality_b + tail_b);
            crate::quality::lemma_number_chars(avif_quality_a);
            crate::quality::lemma_number_chars(avif_quality_b);
            lemma_parts_before_colon(avif_quality_a, tail_a, avif_quality_b, tail_b);
            assert(tail_a.skip(7) == numbers::decimal(avif_speed_a as nat));
            assert(tail_b.skip(7) == numbers::decimal(avif_speed_b as nat));
            numbers::decimal_is_injective(avif_speed_a as nat, avif_speed_b as nat);
        },
        TargetFormat::Webp => {
            assert(a.skip(7) == webp_quality_a);
            assert(b.skip(7) == webp_quality_b);
        },
    }
}

/// A text before a colon, where it holds none, and what follows.
proof fn lemma_parts_before_colon(a: Seq<char>, x: Seq<char>, b: Seq<char>, y: Seq<char>)
    requires
        forall|i: int| 0 <= i < a.len() ==> crate::quality::is_number_char(#[trigger] a[i]),
        forall|i: int| 0 <= i < b.len() ==> crate::quality::is_number_char(#[trigger] b[i]),
        x.len() > 0,
        y.len() > 0,
        x[0] == ':',
        y[0] == ':',
        a + x == b + y,
    ensures
        a == b,
        x == y,
{
    let both = a + x;
    if a.len() < b.len() {
        assert(both[a.len() as int] == ':');
        assert((b + y)[a.len() as int] == b[a.len() as int]);
    }
    if b.len() < a.len() {
        assert((b + y)[b.len() as int] == ':');
        assert(both[b.len() as int] == a[b.len() as int]);
    }
    assert(both.take(a.len() as int) == a);
    assert((b + y).take(a.len() as int) == b);
    assert(both.skip(a.len() as int) == x);
    assert((b + y).skip(a.len() as int) == y);
}

/// Other settings of the encoder make another message, for every image.
pub proof fn changed_settings_change_the_message(
    path: Seq<char>,
    query: Option<Seq<char>>,
    target: TargetFormat,
    a: Config,
    b: Config,
)
    requires
        target::is_target(path, query),
        a.wf(),
        b.wf(),
        config_fingerprint(a, target) != config_fingerprint(b, target) || a.cache_version@
            != b.cache_version@,
    ensures
        key_message(
            path,
            query::stripped(query),
            target,
            config_fingerprint(a, target),
            a.cache_version@,
        ) != key_message(
            path,
            query::stripped(query),
            target,
            config_fingerprint(b, target),
            b.cache_version@,
        ),
{
    requests_and_settings_are_lines(
        path,
        query,
        target,
        a.avif_quality@,
        a.avif_speed,
        a.webp_quality@,
    );
    requests_and_settings_are_lines(
        path,
        query,
        target,
        b.avif_quality@,
        b.avif_speed,
        b.webp_quality@,
    );
    let rest = query::stripped(query);
    let left = config_fingerprint(a, target);
    let right = config_fingerprint(b, target);
    if key_message(path, rest, target, left, a.cache_version@) == key_message(
        path,
        rest,
        target,
        right,
        b.cache_version@,
    ) {
        message_tells_images_apart(
            path,
            rest,
            target,
            left,
            a.cache_version@,
            path,
            rest,
            target,
            right,
            b.cache_version@,
        );
    }
}

/// Two images have the same key only where the digests of their messages are
/// the same.
pub proof fn key_tells_digests_apart(a: Seq<u8>, b: Seq<u8>)
    requires
        hex_text(a) == hex_text(b),
    ensures
        a == b,
{
    assert(hex_text(a).len() == 2 * a.len() && hex_text(b).len() == 2 * b.len());
    assert forall|i: int| 0 <= i < a.len() implies a[i] == b[i] by {
        assert((2 * i) / 2 == i && (2 * i) % 2 == 0);
        assert((2 * i + 1) / 2 == i && (2 * i + 1) % 2 == 1);
        assert(hex_text(a)[2 * i] == hex_digit(a[i] as int / 16));
        assert(hex_text(b)[2 * i] == hex_digit(b[i] as int / 16));
        assert(hex_text(a)[2 * i + 1] == hex_digit(a[i] as int % 16));
        assert(hex_text(b)[2 * i + 1] == hex_digit(b[i] as int % 16));
        lemma_hex_digit(a[i] as int / 16, b[i] as int / 16);
        lemma_hex_digit(a[i] as int % 16, b[i] as int % 16);
    }
}

/// Other numbers have other digits.
proof fn lemma_hex_digit(m: int, n: int)
    requires
        0 <= m < 16,
        0 <= n < 16,
        hex_digit(m) == hex_digit(n),
    ensures
        m == n,
{
}

/// The files of two entries stand in the same place only where the entries have
/// the same key and the same format.
pub proof fn path_tells_entries_apart(
    cache_dir: Seq<char>,
    target_a: TargetFormat,
    key_a: Seq<char>,
    target_b: TargetFormat,
    key_b: Seq<char>,
)
    requires
        path_of(cache_dir, target_a, key_a) == path_of(cache_dir, target_b, key_b),
    ensures
        target_a == target_b,
        key_a == key_b,
{
    let dirs_a = path_of(cache_dir, target_a, key_a).0;
    let dirs_b = path_of(cache_dir, target_b, key_b).0;
    assert(dirs_a[1] == dirs_b[1]);
    crate::formats::extensions_differ(target_a, target_b);
    let name_a = path_of(cache_dir, target_a, key_a).1;
    let name_b = path_of(cache_dir, target_b, key_b).1;
    assert(name_a.len() == name_b.len());
    assert(name_a.take(key_a.len() as int) == key_a);
    assert(name_b.take(key_a.len() as int) == key_b);
}

/// Two files that are being written for the same entry have the same name only
/// where they have the same process and the same number.
pub proof fn temp_names_differ(
    name: Seq<char>,
    process_a: nat,
    sequence_a: nat,
    process_b: nat,
    sequence_b: nat,
)
    requires
        temp_name(name, process_a, sequence_a) == temp_name(name, process_b, sequence_b),
    ensures
        process_a == process_b,
        sequence_a == sequence_b,
{
    let front = paths::stem(name).push('.') + match paths::extension(name) {
        Some(ext) => ext,
        None => "cache"@,
    } + ".tmp-"@;
    let p = numbers::decimal(process_a);
    let q = numbers::decimal(process_b);
    let s = numbers::decimal(sequence_a);
    let t = numbers::decimal(sequence_b);
    numbers::lemma_decimal_writes(process_a);
    numbers::lemma_decimal_writes(process_b);
    reveal_strlit("-");
    let left = temp_name(name, process_a, sequence_a).skip(front.len() as int);
    let right = temp_name(name, process_b, sequence_b).skip(front.len() as int);
    assert(left == p + "-"@ + s);
    assert(right == q + "-"@ + t);
    if p.len() < q.len() {
        assert(left[p.len() as int] == '-');
        assert(numbers::is_digit(q[p.len() as int]));
        assert(right[p.len() as int] == q[p.len() as int]);
    }
    if q.len() < p.len() {
        assert(right[q.len() as int] == '-');
        assert(numbers::is_digit(p[q.len() as int]));
        assert(left[q.len() as int] == p[q.len() as int]);
    }
    assert(left.take(p.len() as int) == p);
    assert(right.take(p.len() as int) == q);
    assert(left.skip(1 + p.len() as int) == s);
    assert(right.skip(1 + p.len() as int) == t);
    numbers::decimal_is_injective(process_a, process_b);
    numbers::decimal_is_injective(sequence_a, sequence_b);
}

/// A counter never gives the same number twice in a row.
pub proof fn successive_temp_names_differ(name: Seq<char>, process: nat, n: u64)
    ensures
        temp_name(name, process, n as nat) != temp_name(name, process, number_after(n) as nat),
{
    if temp_name(name, process, n as nat) == temp_name(name, process, number_after(n) as nat) {
        temp_names_differ(name, process, n as nat, process, number_after(n) as nat);
    }
}

/// A file that is being written has the name of the one it will be, and a mark
/// behind it.
pub proof fn temp_name_begins_with_the_name(name: Seq<char>, process: nat, sequence: nat)
    requires
        paths::extension(name) is Some,
    ensures
        temp_name(name, process, sequence) == name + ".tmp-"@ + numbers::decimal(process) + "-"@
            + numbers::decimal(sequence),
{
    paths::lemma_last_place(name, '.');
    assert(paths::stem(name).push('.') + paths::extension(name)->0 == name);
}

/// A file that is being written does not have the name of the one it will be.
pub proof fn temp_name_is_not_the_name(name: Seq<char>, process: nat, sequence: nat)
    ensures
        temp_name(name, process, sequence) != name,
{
    paths::lemma_last_place(name, '.');
    reveal_strlit(".tmp-");
    assert(temp_name(name, process, sequence).len() > name.len());
}

/// The cache looks after all that is written to it, finished or not.
pub proof fn written_files_are_managed(
    cache_dir: Seq<char>,
    target: TargetFormat,
    key: Seq<char>,
    process: nat,
    sequence: nat,
)
    ensures
        is_managed(path_of(cache_dir, target, key).1, target.extension_text()),
        is_managed(
            temp_name(path_of(cache_dir, target, key).1, process, sequence),
            target.extension_text(),
        ),
{
    let name = path_of(cache_dir, target, key).1;
    let ext = target.extension_text();
    assert(name.subrange(key.len() as int, name.len() as int) == seq!['.'] + ext);
    let written = temp_name(name, process, sequence);
    let front = paths::stem(name).push('.') + match paths::extension(name) {
        Some(ext) => ext,
        None => "cache"@,
    };
    let at = front.len() as int;
    assert(written.subrange(at, at + ".tmp-"@.len()) == ".tmp-"@);
    assert(text::occurs_at(written, ".tmp-"@, at));
}

/// The text whose digest is the key of an image is six lines: the method, the
/// path, the query or nothing, the format, the settings of its encoder and the
/// version of the cache.
pub proof fn messages_are_six_lines(
    path: Seq<char>,
    query: Option<Seq<char>>,
    target: TargetFormat,
    settings: Seq<char>,
    version: Seq<char>,
)
    ensures
        key_message(path, query, target, settings, version) == seq!['G', 'E', 'T', '\n'] + path
            + seq!['\n'] + match query {
            Some(q) => q,
            None => Seq::empty(),
        } + seq!['\n'] + match target {
            TargetFormat::Avif => seq!['a', 'v', 'i', 'f'],
            TargetFormat::Webp => seq!['w', 'e', 'b', 'p'],
        } + seq!['\n'] + settings + seq!['\n'] + version,
{
    reveal_strlit("GET");
    crate::formats::media_types_are_named_after_extensions(target);
    assert("GET"@ == seq!['G', 'E', 'T']);
    let q = query_or_nothing(query);
    let ext = target.extension_text();
    let lines = key_lines(path, query, target, settings, version);
    reveal_with_fuel(text::joined, 6);
    assert(lines.drop_last() == lines.take(5));
    assert(lines.take(5).drop_last() == lines.take(4));
    assert(lines.take(4).drop_last() == lines.take(3));
    assert(lines.take(3).drop_last() == lines.take(2));
    assert(lines.take(2).drop_last() == lines.take(1));
    assert(text::joined(lines, '\n') == seq!['G', 'E', 'T', '\n'] + path + seq!['\n'] + q + seq![
        '\n',
    ] + ext + seq!['\n'] + settings + seq!['\n'] + version);
}

/// The settings of the AVIF encoder are its quality and its speed, those of the
/// WebP encoder its quality; each is written behind the name of the format.
pub proof fn settings_are_written_out(
    avif_quality: Seq<char>,
    avif_speed: u8,
    webp_quality: Seq<char>,
)
    ensures
        fingerprint(TargetFormat::Avif, avif_quality, avif_speed, webp_quality) == seq![
            'a',
            'v',
            'i',
            'f',
            ':',
            'q',
            '=',
        ] + avif_quality + seq![':', 's', 'p', 'e', 'e', 'd', '='] + numbers::decimal(
            avif_speed as nat,
        ),
        fingerprint(TargetFormat::Webp, avif_quality, avif_speed, webp_quality) == seq![
            'w',
            'e',
            'b',
            'p',
            ':',
            'q',
            '=',
        ] + webp_quality,
{
    reveal_strlit("avif:q=");
    reveal_strlit(":speed=");
    reveal_strlit("webp:q=");
    assert("avif:q="@ == seq!['a', 'v', 'i', 'f', ':', 'q', '=']);
    assert(":speed="@ == seq![':', 's', 'p', 'e', 'e', 'd', '=']);
    assert("webp:q="@ == seq!['w', 'e', 'b', 'p', ':', 'q', '=']);
}

/// The settings that a key depends on are those of the configuration.
pub proof fn keys_depend_on_the_configuration(cfg: Config)
    ensures
        config_fingerprint(cfg, TargetFormat::Avif) == fingerprint(
            TargetFormat::Avif,
            cfg.avif_quality@,
            cfg.avif_speed,
            cfg.webp_quality@,
        ),
        config_fingerprint(cfg, TargetFormat::Webp) == fingerprint(
            TargetFormat::Webp,
            cfg.avif_quality@,
            cfg.avif_speed,
            cfg.webp_quality@,
        ),
{
}

/// A key is the digest of its message, in base sixteen.
pub proof fn keys_are_digests(message: Seq<char>)
    ensures
        key_of(message) == hex_text(sha256(vstd::utf8::encode_utf8(message))),
{
}

/// What a digit in base sixteen stands for.
pub open spec fn hex_value(c: char) -> int {
    if '0' <= c <= '9' {
        c as int - '0' as int
    } else {
        c as int - 'a' as int + 10
    }
}

/// In base sixteen each byte is two digits, the greater one first, with small
/// letters for the digits from ten on.
pub proof fn bytes_are_two_digits(bytes: Seq<u8>, i: int)
    requires
        0 <= i < bytes.len(),
    ensures
        hex_text(bytes).len() == 2 * bytes.len(),
        ({
            let high = hex_text(bytes)[2 * i];
            let low = hex_text(bytes)[2 * i + 1];
            &&& '0' <= high <= '9' || 'a' <= high <= 'f'
            &&& '0' <= low <= '9' || 'a' <= low <= 'f'
            &&& 16 * hex_value(high) + hex_value(low) == bytes[i]
            &&& 0 <= hex_value(high) < 16
            &&& 0 <= hex_value(low) < 16
        }),
{
    assert((2 * i) / 2 == i && (2 * i) % 2 == 0);
    assert((2 * i + 1) / 2 == i && (2 * i + 1) % 2 == 1);
    let b = bytes[i] as int;
    assert(hex_text(bytes)[2 * i] == hex_digit(b / 16));
    assert(hex_text(bytes)[2 * i + 1] == hex_digit(b % 16));
}

/// The file of an image stands in the directory of its format, there in one that
/// is called after the first two digits of its key, and has the key and the
/// format for a name.
pub proof fn files_stand_under_their_keys(
    cache_dir: Seq<char>,
    target: TargetFormat,
    shard: Seq<char>,
    rest: Seq<char>,
)
    requires
        shard.len() == 2,
    ensures
        ({
            let ext = match target {
                TargetFormat::Avif => seq!['a', 'v', 'i', 'f'],
                TargetFormat::Webp => seq!['w', 'e', 'b', 'p'],
            };
            &&& path_of(cache_dir, target, shard + rest).0 == seq![cache_dir, ext, shard]
            &&& path_of(cache_dir, target, shard + rest).1 == shard + rest + seq!['.'] + ext
        }),
{
    crate::formats::media_types_are_named_after_extensions(target);
    assert((shard + rest).take(2) == shard);
    let ext = target.extension_text();
    assert((shard + rest).push('.') + ext == shard + rest + seq!['.'] + ext);
}

/// A file without an extension is marked as one of the cache's while it is being
/// written; any other keeps its name in front of the mark.
pub proof fn temp_names_are_marked(name: Seq<char>, process: nat, sequence: nat)
    ensures
        paths::extension(name) is Some ==> temp_name(name, process, sequence) == name + ".tmp-"@
            + numbers::decimal(process) + "-"@ + numbers::decimal(sequence),
        paths::extension(name) is None ==> temp_name(name, process, sequence) == name
            + ".cache.tmp-"@ + numbers::decimal(process) + "-"@ + numbers::decimal(sequence),
{
    if paths::extension(name) is Some {
        temp_name_begins_with_the_name(name, process, sequence);
    } else {
        reveal_strlit("cache");
        reveal_strlit(".tmp-");
        reveal_strlit(".cache.tmp-");
        assert(seq!['.'] + "cache"@ + ".tmp-"@ == ".cache.tmp-"@);
        assert(name.push('.') + "cache"@ + ".tmp-"@ == name + (seq!['.'] + "cache"@ + ".tmp-"@));
    }
}

/// Numbers are given one after the other, and zero behind the greatest.
pub proof fn counters_count_up(n: u64)
    ensures
        n < 18446744073709551615 ==> number_after(n) == n + 1,
        number_after(18446744073709551615) == 0,
{
}

/// Every file whose name ends with a dot and the extension of the format belongs
/// to the cache, and so does every file with the mark of one that is being
/// written anywhere in its name.
pub proof fn cache_files_are_told_by_their_names(
    a: Seq<char>,
    b: Seq<char>,
    extension: Seq<char>,
)
    ensures
        is_managed(a + seq!['.'] + extension, extension),
        is_managed(a + seq!['.', 't', 'm', 'p', '-'] + b, extension),
{
    let suffix = seq!['.'] + extension;
    let name = a + seq!['.'] + extension;
    assert(name.subrange(a.len() as int, name.len() as int) == suffix);
    reveal_strlit(".tmp-");
    let mark = seq!['.', 't', 'm', 'p', '-'];
    assert(".tmp-"@ == mark);
    let marked = a + mark + b;
    let at = a.len() as int;
    assert(marked.subrange(at, at + mark.len()) == mark);
    assert(text::occurs_at(marked, ".tmp-"@, at));
}

/// No other file belongs to the cache.
pub proof fn other_files_are_left_alone(name: Seq<char>, extension: Seq<char>)
    requires
        is_managed(name, extension),
    ensures
        (exists|a: Seq<char>|
            name == #[trigger] a.push('.') + extension) || (exists|a: Seq<char>, b: Seq<char>|
            #![trigger a.len(), b.len()]
            name == a + seq!['.', 't', 'm', 'p', '-'] + b),
{
    let suffix = seq!['.'] + extension;
    reveal_strlit(".tmp-");
    let mark = seq!['.', 't', 'm', 'p', '-'];
    assert(".tmp-"@ == mark);
    if text::occurs_at(name, suffix, name.len() - 1 - extension.len()) {
        let a = name.take(name.len() - 1 - extension.len());
        assert(name == a + suffix);
        assert(name == a.push('.') + extension);
    } else {
        let at = choose|at: int| #[trigger] text::occurs_at(name, ".tmp-"@, at);
        let a = name.take(at);
        let b = name.skip(at + 5);
        assert(a.len() == at && b.len() == name.len() - at - 5);
        assert(name == a + mark + b);
    }
}

/// A file is written step by step: the directory is made, then the file, then it
/// is written, flushed and renamed. A step before the last that fails ends it;
/// where the last one fails, the file is removed first.
pub proof fn files_are_written_step_by_step(outcomes: Seq<bool>, n: int)
    requires
        outcomes.len() == n,
        forall|i: int| 0 <= i < n ==> #[trigger] outcomes[i],
    ensures
        n == 0 ==> write_progress(outcomes) == WriteStep::CreateDirectory,
        n == 1 ==> write_progress(outcomes) == WriteStep::CreateFile,
        n == 2 ==> write_progress(outcomes) == WriteStep::WriteBytes,
        n == 3 ==> write_progress(outcomes) == WriteStep::Flush,
        n == 4 ==> write_progress(outcomes) == WriteStep::Rename,
        n >= 5 ==> write_progress(outcomes) == WriteStep::Written,
        n < 4 ==> write_progress(outcomes.push(false)) == WriteStep::Failed,
        n == 4 ==> write_progress(outcomes.push(false)) == WriteStep::RemoveFile,
        n >= 5 ==> write_progress(outcomes.push(false)) == WriteStep::Written,
    decreases n,
{
    assert(outcomes.push(false).drop_last() == outcomes);
    if n > 0 {
        let front = outcomes.drop_last();
        assert forall|i: int| 0 <= i < n - 1 implies #[trigger] front[i] by {
            assert(outcomes[i]);
        }
        files_are_written_step_by_step(front, n - 1);
        assert(outcomes[n - 1]);
    }
}

/// A file that was not written stays so.
pub proof fn failed_writes_stay_failed(outcomes: Seq<bool>, ok: bool)
    requires
        write_progress(outcomes) == WriteStep::Failed,
    ensures
        write_progress(outcomes.push(ok)) == WriteStep::Failed,
{
    assert(outcomes.push(ok).drop_last() == outcomes);
}

/// A file is written in the directory that it will stand in, so that it has only
/// to be renamed.
pub proof fn files_are_written_where_they_will_stand(
    dirs: Seq<Seq<char>>,
    name: Seq<char>,
    process: nat,
    sequence: nat,
)
    ensures
        temp_path((dirs, name), process, sequence).0 == dirs,
        temp_path((dirs, name), process, sequence).1 == temp_name(name, process, sequence),
{
}

} // verus!
