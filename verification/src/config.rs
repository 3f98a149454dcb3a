//! The settings: what they are when nothing is said of them, and how they are
//! read from the texts of environment variables.
//!
//! Two things of those texts come from outside, beside them: whether a text is
//! a socket address, and how the number that a text writes is printed in single
//! precision. Everything else is read off the texts here.
use crate::numbers;
use crate::paths::PathStyle;
use crate::quality;
use crate::query;
use crate::target;
use crate::text;
use vstd::prelude::*;

verus! {

/// Where the server listens.
pub const DEFAULT_LISTEN_ADDR: &'static str = "127.0.0.1:9000";

/// Where the upstream server is.
pub const DEFAULT_UPSTREAM_BASE: &'static str = "http://127.0.0.1:9100";

/// Where converted images are kept.
pub const DEFAULT_CACHE_DIR: &'static str = "C:\\minio_img_cache";

/// Where the log files are written.
pub const DEFAULT_LOG_DIR: &'static str = ".\\logs";

/// The longest source image that is converted, in bytes.
pub const DEFAULT_MAX_TRANSFORM_BYTES: u64 = 25 * 1024 * 1024;

/// The largest source image that is converted, in pixels.
pub const DEFAULT_MAX_PIXELS: u64 = 40_000_000;

/// The quality of AVIF images.
pub const DEFAULT_AVIF_QUALITY: &'static str = "75";

/// The speed at which AVIF images are encoded.
pub const DEFAULT_AVIF_SPEED: u8 = 6;

/// The quality of WebP images.
pub const DEFAULT_WEBP_QUALITY: &'static str = "82";

/// The version of the cache.
pub const DEFAULT_CACHE_VERSION: &'static str = "1";

/// How long a connection to the upstream server may take, in seconds.
pub const DEFAULT_UPSTREAM_CONNECT_TIMEOUT_SECS: u64 = 3;

/// How long a request to the upstream server may take, in seconds.
pub const DEFAULT_UPSTREAM_REQUEST_TIMEOUT_SECS: u64 = 30;

/// Whether the cache is cleaned up.
pub const DEFAULT_CACHE_CLEANUP_ENABLED: bool = true;

/// The size that the cache is cut down to, in bytes.
pub const DEFAULT_CACHE_MAX_BYTES: u64 = 10 * 1024 * 1024 * 1024;

/// The age from which on a cached file is removed, in days.
pub const DEFAULT_CACHE_MAX_AGE_DAYS: u64 = 90;

/// The time from one clean-up to the next, in seconds.
pub const DEFAULT_CACHE_CLEANUP_INTERVAL_SECS: u64 = 3600;

/// The seconds of a day.
pub const SECS_PER_DAY: u64 = 24 * 60 * 60;

// --------------------------------------------------------------------- types

/// The settings.
#[derive(Debug, Clone)]
pub struct Config {
    /// Where the server listens: a socket address, host and port.
    pub listen_addr: String,
    /// The upstream server's URL, serialised.
    pub upstream_base: String,
    /// The directory of the cache.
    pub cache_dir: String,
    /// The longest source image that is converted, in bytes.
    pub max_transform_bytes: u64,
    /// The largest source image that is converted, in pixels.
    pub max_pixels: u64,
    /// The quality of AVIF images, as single precision prints it.
    pub avif_quality: String,
    /// The speed at which AVIF images are encoded.
    pub avif_speed: u8,
    /// The quality of WebP images, as single precision prints it.
    pub webp_quality: String,
    /// The version of the cache: another one gives every image another key.
    pub cache_version: String,
    /// Whether the format may be chosen by the request's `Accept` field.
    pub enable_accept_negotiation: bool,
    /// How many images may be encoded at a time.
    pub max_concurrent_encodes: usize,
    /// How long a connection to the upstream server may take, in seconds.
    pub upstream_connect_timeout: u64,
    /// How long a request to the upstream server may take, in seconds.
    pub upstream_request_timeout: u64,
    /// Whether the cache is cleaned up.
    pub cache_cleanup_enabled: bool,
    /// The size that the cache is cut down to, in bytes.
    pub cache_max_bytes: u64,
    /// The age above which a cached file is removed, in seconds.
    pub cache_max_age: u64,
    /// The time from one clean-up to the next, in seconds.
    pub cache_cleanup_interval: u64,
    /// How the system that the server runs on writes paths.
    pub path_style: PathStyle,
}

/// The text of an environment variable for a socket address, and whether it is
/// one: that is not found out here.
#[derive(Debug)]
pub struct AddressVariable {
    pub written: String,
    pub is_address: bool,
}

/// The text of an environment variable for a number, and how single precision
/// prints the number that the text writes, such as `75` for `75.0`: that is not
/// found out here. Where the text writes no number, nothing depends on it.
#[derive(Debug)]
pub struct NumberVariable {
    pub written: String,
    pub printed: String,
}

/// The environment variables, where they are set: their texts, and with two of
/// them what is to be known of the text.
#[derive(Debug)]
pub struct Variables {
    pub listen_addr: Option<AddressVariable>,
    pub upstream_base: Option<String>,
    pub cache_dir: Option<String>,
    pub max_transform_bytes: Option<String>,
    pub max_pixels: Option<String>,
    pub avif_quality: Option<NumberVariable>,
    pub avif_speed: Option<String>,
    pub webp_quality: Option<NumberVariable>,
    pub cache_version: Option<String>,
    pub enable_accept_negotiation: Option<String>,
    pub max_concurrent_encodes: Option<String>,
    pub upstream_connect_timeout_secs: Option<String>,
    pub upstream_request_timeout_secs: Option<String>,
    pub cache_cleanup_enabled: Option<String>,
    pub cache_max_bytes: Option<String>,
    pub cache_max_age_days: Option<String>,
    pub cache_cleanup_interval_secs: Option<String>,
}

/// What a setting must be and is not.
#[derive(Debug, Clone, Copy, PartialEq, Eq, Structural)]
pub enum Demand {
    /// A socket address.
    Address,
    /// An absolute URL.
    Url,
    /// A number from zero to the greatest `u64`.
    U64,
    /// A number from zero to the greatest `usize`.
    Usize,
    /// A number from zero to the greatest `u8`.
    U8,
    /// A number.
    Number,
    /// Yes or no.
    Boolean,
    /// More than zero.
    Positive,
}

/// A setting that cannot be used.
#[derive(Debug)]
pub struct ConfigError {
    /// The name of the environment variable.
    pub name: String,
    /// What it must be.
    pub demand: Demand,
}

impl Demand {
    /// The demand in words.
    pub open spec fn text(self) -> Seq<char> {
        match self {
            Demand::Address => "host:port, e.g. 127.0.0.1:9000"@,
            Demand::Url => "an absolute URL"@,
            Demand::U64 => "u64"@,
            Demand::Usize => "usize"@,
            Demand::U8 => "u8"@,
            Demand::Number => "number"@,
            Demand::Boolean => "boolean"@,
            Demand::Positive => "greater than zero"@,
        }
    }

    /// The demand in words.
    pub fn describe(self) -> (r: &'static str)
        ensures
            r@ == self.text(),
    {
        match self {
            Demand::Address => "host:port, e.g. 127.0.0.1:9000",
            Demand::Url => "an absolute URL",
            Demand::U64 => "u64",
            Demand::Usize => "usize",
            Demand::U8 => "u8",
            Demand::Number => "number",
            Demand::Boolean => "boolean",
            Demand::Positive => "greater than zero",
        }
    }
}

impl ConfigError {
    /// The name of the variable and the demand on it.
    pub open spec fn parts(self) -> (Seq<char>, Demand) {
        (self.name@, self.demand)
    }

    /// The text of the error.
    pub fn message(&self) -> (r: String)
        ensures
            r@ == self.name@ + " must be "@ + self.demand.text(),
    {
        let mut r = self.name.as_str().to_owned();
        r.append(" must be ");
        r.append(self.demand.describe());
        r
    }
}

// ---------------------------------------------------------------- statements

/// The value of a setting, or what it must be.
pub type Reading<T> = Result<T, Demand>;

/// A number that is at most `max`, or the default where nothing is said.
pub open spec fn number_setting(
    value: Option<Seq<char>>,
    default: nat,
    max: nat,
    demand: Demand,
) -> Reading<nat> {
    match value {
        None => Ok(default),
        Some(s) => match numbers::unsigned_value(s, max) {
            Some(n) => Ok(n),
            None => Err(demand),
        },
    }
}

/// A setting that must not be zero.
pub open spec fn positive(value: Reading<nat>) -> Reading<nat> {
    match value {
        Ok(n) => if n == 0 {
            Err(Demand::Positive)
        } else {
            Ok(n)
        },
        Err(demand) => Err(demand),
    }
}

/// A setting from zero to the greatest `u64`.
pub open spec fn u64_setting(value: Option<Seq<char>>, default: u64) -> Reading<nat> {
    number_setting(value, default as nat, u64::MAX as nat, Demand::U64)
}

/// A setting from one to the greatest `u64`.
pub open spec fn positive_u64_setting(value: Option<Seq<char>>, default: u64) -> Reading<nat> {
    positive(u64_setting(value, default))
}

/// A setting from one to the greatest `usize`.
pub open spec fn positive_usize_setting(value: Option<Seq<char>>, default: usize) -> Reading<nat> {
    positive(number_setting(value, default as nat, usize::MAX as nat, Demand::Usize))
}

/// A setting from zero to the greatest `u8`.
pub open spec fn u8_setting(value: Option<Seq<char>>, default: u8) -> Reading<nat> {
    number_setting(value, default as nat, u8::MAX as nat, Demand::U8)
}

/// A setting that is a socket address.
pub open spec fn address_setting(value: Option<AddressVariable>, default: Seq<char>) -> Reading<
    Seq<char>,
> {
    match value {
        None => Ok(default),
        Some(v) => if v.is_address {
            Ok(v.written@)
        } else {
            Err(Demand::Address)
        },
    }
}

/// A setting that is any number, as single precision prints it.
pub open spec fn printed_number_setting(
    value: Option<NumberVariable>,
    default: Seq<char>,
) -> Reading<Seq<char>> {
    match value {
        None => Ok(default),
        Some(v) => if quality::is_number(v.written@) && quality::is_number(v.printed@) {
            Ok(v.printed@)
        } else {
            Err(Demand::Number)
        },
    }
}

/// A word that says yes.
pub open spec fn says_yes(word: Seq<char>) -> bool {
    word == "1"@ || word == "true"@ || word == "yes"@ || word == "on"@
}

/// A word that says no.
pub open spec fn says_no(word: Seq<char>) -> bool {
    word == "0"@ || word == "false"@ || word == "no"@ || word == "off"@
}

/// A setting that is yes or no, in any case, with white space around it or not.
pub open spec fn bool_setting(value: Option<Seq<char>>, default: bool) -> Reading<bool> {
    match value {
        None => Ok(default),
        Some(s) => {
            let word = text::lowered(text::trimmed(s));
            if says_yes(word) {
                Ok(true)
            } else if says_no(word) {
                Ok(false)
            } else {
                Err(Demand::Boolean)
            }
        },
    }
}

/// A setting that is a text.
pub open spec fn text_setting(value: Option<Seq<char>>, default: Seq<char>) -> Seq<char> {
    match value {
        Some(s) => s,
        None => default,
    }
}

/// How many images are encoded at a time where nothing is said: half as many
/// as can run at a time, if that is known, but one at least.
pub open spec fn default_encodes(parallelism: Option<usize>) -> usize {
    match parallelism {
        Some(n) => if n / 2 > 1 {
            n / 2
        } else {
            1
        },
        None => 1,
    }
}

/// What a name is paired with where a setting is not what it must be.
pub open spec fn fault<T>(name: Seq<char>, value: Reading<T>) -> Option<(Seq<char>, Demand)> {
    match value {
        Ok(_) => None,
        Err(demand) => Some((name, demand)),
    }
}

/// The first of two faults.
pub open spec fn or_else(
    first: Option<(Seq<char>, Demand)>,
    second: Option<(Seq<char>, Demand)>,
) -> Option<(Seq<char>, Demand)> {
    match first {
        Some(_) => first,
        None => second,
    }
}

impl Variables {
    /// Where the server listens.
    pub open spec fn listen_addr_setting(self) -> Reading<Seq<char>> {
        address_setting(self.listen_addr, DEFAULT_LISTEN_ADDR@)
    }

    /// The upstream server's URL.
    pub open spec fn upstream_base_setting(self) -> Reading<Seq<char>> {
        match target::parsed_url(
            text_setting(query::optional_string_view(self.upstream_base), DEFAULT_UPSTREAM_BASE@),
        ) {
            Some(url) => Ok(url),
            None => Err(Demand::Url),
        }
    }

    pub open spec fn max_transform_bytes_setting(self) -> Reading<nat> {
        u64_setting(
            query::optional_string_view(self.max_transform_bytes),
            DEFAULT_MAX_TRANSFORM_BYTES,
        )
    }

    pub open spec fn max_pixels_setting(self) -> Reading<nat> {
        positive_u64_setting(query::optional_string_view(self.max_pixels), DEFAULT_MAX_PIXELS)
    }

    pub open spec fn avif_quality_setting(self) -> Reading<Seq<char>> {
        printed_number_setting(self.avif_quality, DEFAULT_AVIF_QUALITY@)
    }

    pub open spec fn avif_speed_setting(self) -> Reading<nat> {
        u8_setting(query::optional_string_view(self.avif_speed), DEFAULT_AVIF_SPEED)
    }

    pub open spec fn webp_quality_setting(self) -> Reading<Seq<char>> {
        printed_number_setting(self.webp_quality, DEFAULT_WEBP_QUALITY@)
    }

    pub open spec fn enable_accept_negotiation_setting(self) -> Reading<bool> {
        bool_setting(query::optional_string_view(self.enable_accept_negotiation), false)
    }

    pub open spec fn max_concurrent_encodes_setting(self, parallelism: Option<usize>) -> Reading<
        nat,
    > {
        positive_usize_setting(
            query::optional_string_view(self.max_concurrent_encodes),
            default_encodes(parallelism),
        )
    }

    pub open spec fn upstream_connect_timeout_setting(self) -> Reading<nat> {
        positive_u64_setting(
            query::optional_string_view(self.upstream_connect_timeout_secs),
            DEFAULT_UPSTREAM_CONNECT_TIMEOUT_SECS,
        )
    }

    pub open spec fn upstream_request_timeout_setting(self) -> Reading<nat> {
        positive_u64_setting(
            query::optional_string_view(self.upstream_request_timeout_secs),
            DEFAULT_UPSTREAM_REQUEST_TIMEOUT_SECS,
        )
    }

    pub open spec fn cache_cleanup_enabled_setting(self) -> Reading<bool> {
        bool_setting(
            query::optional_string_view(self.cache_cleanup_enabled),
            DEFAULT_CACHE_CLEANUP_ENABLED,
        )
    }

    pub open spec fn cache_max_bytes_setting(self) -> Reading<nat> {
        positive_u64_setting(
            query::optional_string_view(self.cache_max_bytes),
            DEFAULT_CACHE_MAX_BYTES,
        )
    }

    /// The greatest age in days.
    pub open spec fn cache_max_age_setting(self) -> Reading<nat> {
        positive_u64_setting(
            query::optional_string_view(self.cache_max_age_days),
            DEFAULT_CACHE_MAX_AGE_DAYS,
        )
    }

    pub open spec fn cache_cleanup_interval_setting(self) -> Reading<nat> {
        positive_u64_setting(
            query::optional_string_view(self.cache_cleanup_interval_secs),
            DEFAULT_CACHE_CLEANUP_INTERVAL_SECS,
        )
    }

    /// The first variable, in the order in which they are read, that is not
    /// what it must be.
    pub open spec fn first_fault(self, parallelism: Option<usize>) -> Option<(Seq<char>, Demand)> {
        or_else(
            fault("LISTEN_ADDR"@, self.listen_addr_setting()),
            self.further_fault(parallelism),
        )
    }

    /// The first fault among the variables that are read behind the first.
    pub open spec fn further_fault(self, parallelism: Option<usize>) -> Option<
        (Seq<char>, Demand),
    > {
        or_else(
            fault("UPSTREAM_BASE"@, self.upstream_base_setting()),
            or_else(
                fault("MAX_TRANSFORM_BYTES"@, self.max_transform_bytes_setting()),
                or_else(
                    fault("MAX_PIXELS"@, self.max_pixels_setting()),
                    or_else(
                        fault("AVIF_QUALITY"@, self.avif_quality_setting()),
                        or_else(
                            fault("AVIF_SPEED"@, self.avif_speed_setting()),
                            or_else(
                                fault("WEBP_QUALITY"@, self.webp_quality_setting()),
                                or_else(
                                    fault(
                                        "ENABLE_ACCEPT_NEGOTIATION"@,
                                        self.enable_accept_negotiation_setting(),
                                    ),
                                    self.later_fault(parallelism),
                                ),
                            ),
                        ),
                    ),
                ),
            ),
        )
    }

    /// The first fault among the variables that are read last.
    pub open spec fn later_fault(self, parallelism: Option<usize>) -> Option<(Seq<char>, Demand)> {
        or_else(
            fault(
                "MAX_CONCURRENT_ENCODES"@,
                self.max_concurrent_encodes_setting(parallelism),
            ),
            or_else(
                fault("UPSTREAM_CONNECT_TIMEOUT_SECS"@, self.upstream_connect_timeout_setting()),
                or_else(
                    fault(
                        "UPSTREAM_REQUEST_TIMEOUT_SECS"@,
                        self.upstream_request_timeout_setting(),
                    ),
                    or_else(
                        fault("CACHE_CLEANUP_ENABLED"@, self.cache_cleanup_enabled_setting()),
                        or_else(
                            fault("CACHE_MAX_BYTES"@, self.cache_max_bytes_setting()),
                            or_else(
                                fault("CACHE_MAX_AGE_DAYS"@, self.cache_max_age_setting()),
                                fault(
                                    "CACHE_CLEANUP_INTERVAL_SECS"@,
                                    self.cache_cleanup_interval_setting(),
                                ),
                            ),
                        ),
                    ),
                ),
            ),
        )
    }
}

/// So many days in seconds, or the greatest `u64` where they are more.
pub open spec fn days_in_secs(days: nat) -> nat {
    if days * SECS_PER_DAY <= u64::MAX {
        days * SECS_PER_DAY as nat
    } else {
        u64::MAX as nat
    }
}

impl Config {
    /// Every limit lets something through, and every period lasts.
    pub open spec fn wf(self) -> bool {
        &&& self.max_pixels > 0
        &&& quality::is_number(self.avif_quality@)
        &&& quality::is_number(self.webp_quality@)
        &&& self.max_concurrent_encodes > 0
        &&& self.upstream_connect_timeout > 0
        &&& self.upstream_request_timeout > 0
        &&& self.cache_max_bytes > 0
        &&& self.cache_max_age >= SECS_PER_DAY
        &&& self.cache_cleanup_interval > 0
    }

    /// The settings that the variables give.
    pub open spec fn is_read_from(self, vars: Variables, parallelism: Option<usize>) -> bool {
        &&& vars.listen_addr_setting() == Reading::<Seq<char>>::Ok(self.listen_addr@)
        &&& vars.upstream_base_setting() == Reading::<Seq<char>>::Ok(self.upstream_base@)
        &&& self.cache_dir@ == text_setting(
            query::optional_string_view(vars.cache_dir),
            DEFAULT_CACHE_DIR@,
        )
        &&& vars.max_transform_bytes_setting() == Reading::<nat>::Ok(
            self.max_transform_bytes as nat,
        )
        &&& vars.max_pixels_setting() == Reading::<nat>::Ok(self.max_pixels as nat)
        &&& vars.avif_quality_setting() == Reading::<Seq<char>>::Ok(self.avif_quality@)
        &&& vars.avif_speed_setting() == Reading::<nat>::Ok(self.avif_speed as nat)
        &&& vars.webp_quality_setting() == Reading::<Seq<char>>::Ok(self.webp_quality@)
        &&& self.cache_version@ == text_setting(
            query::optional_string_view(vars.cache_version),
            DEFAULT_CACHE_VERSION@,
        )
        &&& vars.enable_accept_negotiation_setting() == Reading::<bool>::Ok(
            self.enable_accept_negotiation,
        )
        &&& vars.max_concurrent_encodes_setting(parallelism) == Reading::<nat>::Ok(
            self.max_concurrent_encodes as nat,
        )
        &&& vars.upstream_connect_timeout_setting() == Reading::<nat>::Ok(
            self.upstream_connect_timeout as nat,
        )
        &&& vars.upstream_request_timeout_setting() == Reading::<nat>::Ok(
            self.upstream_request_timeout as nat,
        )
        &&& vars.cache_cleanup_enabled_setting() == Reading::<bool>::Ok(self.cache_cleanup_enabled)
        &&& vars.cache_max_bytes_setting() == Reading::<nat>::Ok(self.cache_max_bytes as nat)
        &&& vars.cache_max_age_setting() matches Ok(days) && self.cache_max_age == days_in_secs(
            days,
        )
        &&& vars.cache_cleanup_interval_setting() == Reading::<nat>::Ok(
            self.cache_cleanup_interval as nat,
        )
    }
}

/// The default qualities are numbers.
proof fn lemma_default_qualities()
    ensures
        quality::is_number(DEFAULT_AVIF_QUALITY@),
        quality::is_number(DEFAULT_WEBP_QUALITY@),
{
    reveal_strlit("75");
    reveal_strlit("82");
    quality::lemma_digits_write_a_number(DEFAULT_AVIF_QUALITY@);
    quality::lemma_digits_write_a_number(DEFAULT_WEBP_QUALITY@);
}

// ---------------------------------------------------------------- operations

/// The error that a variable is not what it must be.
fn refused(name: &str, demand: Demand) -> (e: ConfigError)
    ensures
        e.parts() == (name@, demand),
{
    ConfigError { name: name.to_owned(), demand }
}

/// Reads a number that is at most `max`.
fn parse_number(
    name: &str,
    value: Option<&str>,
    default: u64,
    max: u64,
    demand: Demand,
) -> (r: Result<u64, ConfigError>)
    requires
        default <= max,
    ensures
        match r {
            Ok(n) => n <= max && number_setting(
                query::optional_view(value),
                default as nat,
                max as nat,
                demand,
            ) == Reading::<nat>::Ok(n as nat),
            Err(e) => e.parts() == (name@, demand) && number_setting(
                query::optional_view(value),
                default as nat,
                max as nat,
                demand,
            ) == Reading::<nat>::Err(demand),
        },
{
    match value {
        None => Ok(default),
        Some(s) => {
            let chars = text::chars_of(s);
            match numbers::parse_unsigned(chars.as_slice(), max) {
                Some(n) => Ok(n),
                None => Err(refused(name, demand)),
            }
        },
    }
}

/// Reads a number from zero to the greatest `u64`.
pub fn parse_env_u64(name: &str, value: Option<&str>, default: u64) -> (r: Result<u64, ConfigError>)
    ensures
        match r {
            Ok(n) => u64_setting(query::optional_view(value), default) == Reading::<nat>::Ok(
                n as nat,
            ),
            Err(e) => e.name@ == name@ && u64_setting(query::optional_view(value), default)
                == Reading::<nat>::Err(e.demand),
        },
{
    parse_number(name, value, default, u64::MAX, Demand::U64)
}

/// Reads a number from one to the greatest `u64`.
pub fn parse_env_nonzero_u64(name: &str, value: Option<&str>, default: u64) -> (r: Result<
    u64,
    ConfigError,
>)
    ensures
        match r {
            Ok(n) => positive_u64_setting(query::optional_view(value), default) == Reading::<
                nat,
            >::Ok(n as nat),
            Err(e) => e.name@ == name@ && positive_u64_setting(query::optional_view(value), default)
                == Reading::<nat>::Err(e.demand),
        },
{
    match parse_env_u64(name, value, default) {
        Ok(n) => if n == 0 {
            Err(refused(name, Demand::Positive))
        } else {
            Ok(n)
        },
        Err(e) => Err(e),
    }
}

/// Reads a number from one to the greatest `usize`.
pub fn parse_env_usize(name: &str, value: Option<&str>, default: usize) -> (r: Result<
    usize,
    ConfigError,
>)
    ensures
        match r {
            Ok(n) => positive_usize_setting(query::optional_view(value), default) == Reading::<
                nat,
            >::Ok(n as nat),
            Err(e) => e.name@ == name@ && positive_usize_setting(
                query::optional_view(value),
                default,
            ) == Reading::<nat>::Err(e.demand),
        },
{
    match parse_number(name, value, default as u64, usize::MAX as u64, Demand::Usize) {
        Ok(n) => if n == 0 {
            Err(refused(name, Demand::Positive))
        } else {
            Ok(n as usize)
        },
        Err(e) => Err(e),
    }
}

/// Reads a number from zero to the greatest `u8`.
pub fn parse_env_u8(name: &str, value: Option<&str>, default: u8) -> (r: Result<u8, ConfigError>)
    ensures
        match r {
            Ok(n) => u8_setting(query::optional_view(value), default) == Reading::<nat>::Ok(
                n as nat,
            ),
            Err(e) => e.name@ == name@ && u8_setting(query::optional_view(value), default)
                == Reading::<nat>::Err(e.demand),
        },
{
    match parse_number(name, value, default as u64, 255, Demand::U8) {
        Ok(n) => Ok(n as u8),
        Err(e) => Err(e),
    }
}

/// Reads a socket address.
fn parse_env_address(name: &str, value: &Option<AddressVariable>, default: &str) -> (r: Result<
    String,
    ConfigError,
>)
    ensures
        match r {
            Ok(s) => address_setting(*value, default@) == Reading::<Seq<char>>::Ok(s@),
            Err(e) => e.name@ == name@ && address_setting(*value, default@) == Reading::<
                Seq<char>,
            >::Err(e.demand),
        },
{
    match value {
        None => Ok(default.to_owned()),
        Some(v) => if v.is_address {
            Ok(v.written.as_str().to_owned())
        } else {
            Err(refused(name, Demand::Address))
        },
    }
}

/// Reads a number, which is kept as single precision prints it.
pub fn parse_env_f32(name: &str, value: &Option<NumberVariable>, default: &str) -> (r: Result<
    String,
    ConfigError,
>)
    ensures
        match r {
            Ok(s) => printed_number_setting(*value, default@) == Reading::<Seq<char>>::Ok(s@),
            Err(e) => e.name@ == name@ && printed_number_setting(*value, default@) == Reading::<
                Seq<char>,
            >::Err(e.demand),
        },
{
    match value {
        None => Ok(default.to_owned()),
        Some(v) => {
            let written = text::chars_of(v.written.as_str());
            let printed = text::chars_of(v.printed.as_str());
            if quality::number(written.as_slice()) && quality::number(printed.as_slice()) {
                Ok(v.printed.as_str().to_owned())
            } else {
                Err(refused(name, Demand::Number))
            }
        },
    }
}

/// Reads yes or no.
pub fn parse_env_bool(name: &str, value: Option<&str>, default: bool) -> (r: Result<
    bool,
    ConfigError,
>)
    ensures
        match r {
            Ok(b) => bool_setting(query::optional_view(value), default) == Reading::<bool>::Ok(b),
            Err(e) => e.name@ == name@ && bool_setting(query::optional_view(value), default)
                == Reading::<bool>::Err(e.demand),
        },
{
    match value {
        None => Ok(default),
        Some(s) => {
            let chars = text::chars_of(s);
            let trimmed = text::trim(chars.as_slice());
            let lowered = text::to_lowered(trimmed.as_slice());
            let word = lowered.as_slice();
            if text::is_text(word, "1") || text::is_text(word, "true") || text::is_text(word, "yes")
                || text::is_text(word, "on") {
                Ok(true)
            } else if text::is_text(word, "0") || text::is_text(word, "false") || text::is_text(
                word,
                "no",
            ) || text::is_text(word, "off") {
                Ok(false)
            } else {
                Err(refused(name, Demand::Boolean))
            }
        },
    }
}

/// Reads a text.
fn parse_env_text(value: Option<&str>, default: &str) -> (r: String)
    ensures
        r@ == text_setting(query::optional_view(value), default@),
{
    match value {
        Some(s) => s.to_owned(),
        None => default.to_owned(),
    }
}

/// Reads the upstream server's URL.
fn parse_env_url(name: &str, value: Option<&str>, default: &str) -> (r: Result<String, ConfigError>)
    ensures
        match r {
            Ok(url) => target::parsed_url(text_setting(query::optional_view(value), default@))
                == Some(url@),
            Err(e) => e.parts() == (name@, Demand::Url) && target::parsed_url(
                text_setting(query::optional_view(value), default@),
            ) is None,
        },
{
    let written = parse_env_text(value, default);
    match target::parse_url(written.as_str()) {
        Ok(url) => Ok(url),
        Err(_) => Err(refused(name, Demand::Url)),
    }
}

/// The value of a variable, borrowed.
fn borrowed(value: &Option<String>) -> (r: Option<&str>)
    ensures
        query::optional_view(r) == query::optional_string_view(*value),
{
    match value {
        Some(s) => Some(s.as_str()),
        None => None,
    }
}

/// How many images are encoded at a time where nothing is said.
fn usual_encodes(parallelism: Option<usize>) -> (n: usize)
    ensures
        n == default_encodes(parallelism),
{
    match parallelism {
        Some(n) => if n / 2 > 1 {
            n / 2
        } else {
            1
        },
        None => 1,
    }
}

/// So many days in seconds.
fn secs_of_days(days: u64) -> (secs: u64)
    ensures
        secs == days_in_secs(days as nat),
        days > 0 ==> secs >= SECS_PER_DAY,
{
    assert(days > 0 ==> days * SECS_PER_DAY >= SECS_PER_DAY) by (nonlinear_arith);
    match days.checked_mul(SECS_PER_DAY) {
        Some(secs) => secs,
        None => u64::MAX,
    }
}

impl Config {
    /// Reads the settings from the environment variables. Where one of them is
    /// not what it must be, the first such one is reported. Whether the text for
    /// the listening address is one, and how the qualities are printed, is taken
    /// from `vars` and not checked here. How many threads can run at a time and
    /// how paths are written is up to the system.
    pub fn from_env(
        vars: &Variables,
        parallelism: Option<usize>,
        path_style: PathStyle,
    ) -> (r: Result<Config, ConfigError>)
        ensures
            match r {
                Ok(cfg) => vars.first_fault(parallelism) is None && cfg.is_read_from(
                    *vars,
                    parallelism,
                ) && cfg.path_style == path_style && cfg.wf(),
                Err(e) => vars.first_fault(parallelism) == Some(e.parts()),
            },
    {
        proof {
            lemma_default_qualities();
        }
        let listen_addr = match parse_env_address(
            "LISTEN_ADDR",
            &vars.listen_addr,
            DEFAULT_LISTEN_ADDR,
        ) {
            Ok(addr) => addr,
            Err(e) => return Err(e),
        };
        let upstream_base = match parse_env_url(
            "UPSTREAM_BASE",
            borrowed(&vars.upstream_base),
            DEFAULT_UPSTREAM_BASE,
        ) {
            Ok(url) => url,
            Err(e) => return Err(e),
        };
        let cache_dir = parse_env_text(borrowed(&vars.cache_dir), DEFAULT_CACHE_DIR);
        let max_transform_bytes: u64 = match parse_env_u64(
            "MAX_TRANSFORM_BYTES",
            borrowed(&vars.max_transform_bytes),
            DEFAULT_MAX_TRANSFORM_BYTES,
        ) {
            Ok(n) => n,
            Err(e) => return Err(e),
        };
        let max_pixels: u64 = match parse_env_nonzero_u64(
            "MAX_PIXELS",
            borrowed(&vars.max_pixels),
            DEFAULT_MAX_PIXELS,
        ) {
            Ok(n) => n,
            Err(e) => return Err(e),
        };
        let avif_quality = match parse_env_f32(
            "AVIF_QUALITY",
            &vars.avif_quality,
            DEFAULT_AVIF_QUALITY,
        ) {
            Ok(s) => s,
            Err(e) => return Err(e),
        };
        let avif_speed: u8 = match parse_env_u8(
            "AVIF_SPEED",
            borrowed(&vars.avif_speed),
            DEFAULT_AVIF_SPEED,
        ) {
            Ok(n) => n,
            Err(e) => return Err(e),
        };
        let webp_quality = match parse_env_f32(
            "WEBP_QUALITY",
            &vars.webp_quality,
            DEFAULT_WEBP_QUALITY,
        ) {
            Ok(s) => s,
            Err(e) => return Err(e),
        };
        let cache_version = parse_env_text(borrowed(&vars.cache_version), DEFAULT_CACHE_VERSION);
        let enable_accept_negotiation = match parse_env_bool(
            "ENABLE_ACCEPT_NEGOTIATION",
            borrowed(&vars.enable_accept_negotiation),
            false,
        ) {
            Ok(b) => b,
            Err(e) => return Err(e),
        };
        let max_concurrent_encodes: usize = match parse_env_usize(
            "MAX_CONCURRENT_ENCODES",
            borrowed(&vars.max_concurrent_encodes),
            usual_encodes(parallelism),
        ) {
            Ok(n) => n,
            Err(e) => return Err(e),
        };
        let upstream_connect_timeout: u64 = match parse_env_nonzero_u64(
            "UPSTREAM_CONNECT_TIMEOUT_SECS",
            borrowed(&vars.upstream_connect_timeout_secs),
            DEFAULT_UPSTREAM_CONNECT_TIMEOUT_SECS,
        ) {
            Ok(n) => n,
            Err(e) => return Err(e),
        };
        let upstream_request_timeout: u64 = match parse_env_nonzero_u64(
            "UPSTREAM_REQUEST_TIMEOUT_SECS",
            borrowed(&vars.upstream_request_timeout_secs),
            DEFAULT_UPSTREAM_REQUEST_TIMEOUT_SECS,
        ) {
            Ok(n) => n,
            Err(e) => return Err(e),
        };
        let cache_cleanup_enabled = match parse_env_bool(
            "CACHE_CLEANUP_ENABLED",
            borrowed(&vars.cache_cleanup_enabled),
            DEFAULT_CACHE_CLEANUP_ENABLED,
        ) {
            Ok(b) => b,
            Err(e) => return Err(e),
        };
        let cache_max_bytes: u64 = match parse_env_nonzero_u64(
            "CACHE_MAX_BYTES",
            borrowed(&vars.cache_max_bytes),
            DEFAULT_CACHE_MAX_BYTES,
        ) {
            Ok(n) => n,
            Err(e) => return Err(e),
        };
        let cache_max_age_days: u64 = match parse_env_nonzero_u64(
            "CACHE_MAX_AGE_DAYS",
            borrowed(&vars.cache_max_age_days),
            DEFAULT_CACHE_MAX_AGE_DAYS,
        ) {
            Ok(n) => n,
            Err(e) => return Err(e),
        };
        let cache_cleanup_interval: u64 = match parse_env_nonzero_u64(
            "CACHE_CLEANUP_INTERVAL_SECS",
            borrowed(&vars.cache_cleanup_interval_secs),
            DEFAULT_CACHE_CLEANUP_INTERVAL_SECS,
        ) {
            Ok(n) => n,
            Err(e) => return Err(e),
        };
        Ok(
            Config {
                listen_addr,
                upstream_base,
                cache_dir,
                max_transform_bytes,
                max_pixels,
                avif_quality,
                avif_speed,
                webp_quality,
                cache_version,
                enable_accept_negotiation,
                max_concurrent_encodes,
                upstream_connect_timeout,
                upstream_request_timeout,
                cache_cleanup_enabled,
                cache_max_bytes,
                cache_max_age: secs_of_days(cache_max_age_days),
                cache_cleanup_interval,
                path_style,
            },
        )
    }
}

// ---------------------------------------------------------------------- laws

/// Where no variable is set, the defaults are taken, and nothing is wrong with
/// them.
pub proof fn defaults_are_accepted(vars: Variables, parallelism: Option<usize>, cfg: Config)
    requires
        vars.listen_addr is None,
        vars.upstream_base is None,
        vars.cache_dir is None,
        vars.max_transform_bytes is None,
        vars.max_pixels is None,
        vars.avif_quality is None,
        vars.avif_speed is None,
        vars.webp_quality is None,
        vars.cache_version is None,
        vars.enable_accept_negotiation is None,
        vars.max_concurrent_encodes is None,
        vars.upstream_connect_timeout_secs is None,
        vars.upstream_request_timeout_secs is None,
        vars.cache_cleanup_enabled is None,
        vars.cache_max_bytes is None,
        vars.cache_max_age_days is None,
        vars.cache_cleanup_interval_secs is None,
        target::parsed_url(DEFAULT_UPSTREAM_BASE@) is Some,
    ensures
        vars.first_fault(parallelism) is None,
        cfg.is_read_from(vars, parallelism) ==> {
            &&& cfg.listen_addr@ == DEFAULT_LISTEN_ADDR@
            &&& target::parsed_url(DEFAULT_UPSTREAM_BASE@) == Some(cfg.upstream_base@)
            &&& cfg.cache_dir@ == DEFAULT_CACHE_DIR@
            &&& cfg.max_transform_bytes == DEFAULT_MAX_TRANSFORM_BYTES
            &&& cfg.max_pixels == DEFAULT_MAX_PIXELS
            &&& cfg.avif_quality@ == DEFAULT_AVIF_QUALITY@
            &&& cfg.avif_speed == DEFAULT_AVIF_SPEED
            &&& cfg.webp_quality@ == DEFAULT_WEBP_QUALITY@
            &&& cfg.cache_version@ == DEFAULT_CACHE_VERSION@
            &&& !cfg.enable_accept_negotiation
            &&& cfg.max_concurrent_encodes == default_encodes(parallelism)
            &&& cfg.upstream_connect_timeout == DEFAULT_UPSTREAM_CONNECT_TIMEOUT_SECS
            &&& cfg.upstream_request_timeout == DEFAULT_UPSTREAM_REQUEST_TIMEOUT_SECS
            &&& cfg.cache_cleanup_enabled == DEFAULT_CACHE_CLEANUP_ENABLED
            &&& cfg.cache_max_bytes == DEFAULT_CACHE_MAX_BYTES
            &&& cfg.cache_max_age == DEFAULT_CACHE_MAX_AGE_DAYS * SECS_PER_DAY
            &&& cfg.cache_cleanup_interval == DEFAULT_CACHE_CLEANUP_INTERVAL_SECS
        },
{
}

/// A variable that is wrong is reported, whatever the others are.
pub proof fn no_fault_is_passed_over(vars: Variables, parallelism: Option<usize>)
    requires
        vars.listen_addr_setting() is Err || vars.max_pixels_setting() is Err
            || vars.cache_max_bytes_setting() is Err
            || vars.upstream_base_setting() is Err || vars.max_transform_bytes_setting() is Err
            || vars.avif_quality_setting() is Err || vars.avif_speed_setting() is Err
            || vars.webp_quality_setting() is Err || vars.enable_accept_negotiation_setting() is Err
            || vars.max_concurrent_encodes_setting(parallelism) is Err
            || vars.upstream_connect_timeout_setting() is Err
            || vars.upstream_request_timeout_setting() is Err
            || vars.cache_cleanup_enabled_setting() is Err || vars.cache_max_age_setting() is Err
            || vars.cache_cleanup_interval_setting() is Err,
    ensures
        vars.first_fault(parallelism) is Some,
{
}

/// What must be positive is never zero.
pub proof fn positive_settings_are_positive(value: Option<Seq<char>>, default: u64)
    ensures
        positive_u64_setting(value, default) matches Ok(n) ==> n > 0,
        u64_setting(value, default) == Reading::<nat>::Ok(0) ==> positive_u64_setting(
            value,
            default,
        ) == Reading::<nat>::Err(Demand::Positive),
{
}

/// A number is taken as it is written in decimal, up to the greatest that its
/// type holds, and one beyond is refused; zero is refused where it must not be.
/// Where nothing is said, the default is taken.
pub proof fn numbers_are_taken_as_they_are_written(
    n: nat,
    u64_default: u64,
    usize_default: usize,
    u8_default: u8,
)
    ensures
        n <= 18446744073709551615 ==> u64_setting(Some(numbers::decimal(n)), u64_default)
            == Reading::<nat>::Ok(n),
        n > 18446744073709551615 ==> u64_setting(Some(numbers::decimal(n)), u64_default)
            == Reading::<nat>::Err(Demand::U64) && positive_u64_setting(
            Some(numbers::decimal(n)),
            u64_default,
        ) == Reading::<nat>::Err(Demand::U64),
        0 < n <= 18446744073709551615 ==> positive_u64_setting(
            Some(numbers::decimal(n)),
            u64_default,
        ) == Reading::<nat>::Ok(n),
        positive_u64_setting(Some(numbers::decimal(0)), u64_default) == Reading::<nat>::Err(
            Demand::Positive,
        ),
        0 < n <= usize::MAX ==> positive_usize_setting(Some(numbers::decimal(n)), usize_default)
            == Reading::<nat>::Ok(n),
        n > usize::MAX ==> positive_usize_setting(Some(numbers::decimal(n)), usize_default)
            == Reading::<nat>::Err(Demand::Usize),
        positive_usize_setting(Some(numbers::decimal(0)), usize_default) == Reading::<nat>::Err(
            Demand::Positive,
        ),
        n <= 255 ==> u8_setting(Some(numbers::decimal(n)), u8_default) == Reading::<nat>::Ok(n),
        n > 255 ==> u8_setting(Some(numbers::decimal(n)), u8_default) == Reading::<nat>::Err(
            Demand::U8,
        ),
        u64_setting(None, u64_default) == Reading::<nat>::Ok(u64_default as nat),
        u64_default > 0 ==> positive_u64_setting(None, u64_default) == Reading::<nat>::Ok(
            u64_default as nat,
        ),
        usize_default > 0 ==> positive_usize_setting(None, usize_default) == Reading::<nat>::Ok(
            usize_default as nat,
        ),
        u8_setting(None, u8_default) == Reading::<nat>::Ok(u8_default as nat),
{
    numbers::decimal_reads_back(0, u64::MAX as nat);
    numbers::decimal_reads_back(0, usize::MAX as nat);
    numbers::lemma_decimal_writes(n);
    let digits = numbers::decimal(n);
    assert(numbers::is_digit(digits[0]));
    assert(numbers::without_plus(digits) == digits);
}

/// What writes no number is refused as such.
pub proof fn only_numbers_are_taken(s: Seq<char>, u64_default: u64, usize_default: usize, d: u8)
    requires
        numbers::unsigned_value(s, u64::MAX as nat) is None,
        numbers::unsigned_value(s, usize::MAX as nat) is None,
        numbers::unsigned_value(s, 255) is None,
    ensures
        u64_setting(Some(s), u64_default) == Reading::<nat>::Err(Demand::U64),
        positive_u64_setting(Some(s), u64_default) == Reading::<nat>::Err(Demand::U64),
        positive_usize_setting(Some(s), usize_default) == Reading::<nat>::Err(Demand::Usize),
        u8_setting(Some(s), d) == Reading::<nat>::Err(Demand::U8),
{
}

/// Yes and no are each said by four words, in any case and with any white space
/// around them; any other word is refused, and where nothing is said the default
/// is taken.
pub proof fn yes_and_no_are_four_words_each(
    lead: Seq<char>,
    word: Seq<char>,
    trail: Seq<char>,
    default: bool,
)
    requires
        text::all_white(lead),
        text::all_white(trail),
        word.len() > 0 ==> !text::is_white(word[0]) && !text::is_white(word.last()),
    ensures
        ({
            let setting = bool_setting(Some(lead + word + trail), default);
            let w = text::lowered(word);
            let yes = w == seq!['1'] || w == seq!['t', 'r', 'u', 'e'] || w == seq!['y', 'e', 's']
                || w == seq!['o', 'n'];
            let no = w == seq!['0'] || w == seq!['f', 'a', 'l', 's', 'e'] || w == seq!['n', 'o']
                || w == seq!['o', 'f', 'f'];
            &&& setting == Reading::<bool>::Ok(true) <==> yes
            &&& setting == Reading::<bool>::Ok(false) <==> no
            &&& setting == Reading::<bool>::Err(Demand::Boolean) <==> !yes && !no
        }),
        bool_setting(None, default) == Reading::<bool>::Ok(default),
{
    text::trimming_leaves_what_stands_between(lead, word, trail);
    reveal_strlit("1");
    reveal_strlit("true");
    reveal_strlit("yes");
    reveal_strlit("on");
    reveal_strlit("0");
    reveal_strlit("false");
    reveal_strlit("no");
    reveal_strlit("off");
    assert("1"@ == seq!['1'] && "true"@ == seq!['t', 'r', 'u', 'e'] && "yes"@ == seq![
        'y',
        'e',
        's',
    ] && "on"@ == seq!['o', 'n']);
    assert("0"@ == seq!['0'] && "false"@ == seq!['f', 'a', 'l', 's', 'e'] && "no"@ == seq!['n', 'o']
        && "off"@ == seq!['o', 'f', 'f']);
    let w = text::lowered(word);
    if w == "0"@ || w == "false"@ || w == "no"@ || w == "off"@ {
        assert(w[0] != '1' && w[0] != 't' && w[0] != 'y' && (w[0] != 'o' || w[1] != 'n'));
        assert("1"@[0] == '1' && "true"@[0] == 't' && "yes"@[0] == 'y' && "on"@[1] == 'n'
            && "on"@[0] == 'o');
    }
}

/// Half as many images are encoded at a time as can run at a time, but always
/// one at least.
pub proof fn half_the_processors_encode(n: usize)
    ensures
        default_encodes(None) == 1,
        n < 4 ==> default_encodes(Some(n)) == 1,
        n >= 4 ==> 2 * default_encodes(Some(n)) == n || 2 * default_encodes(Some(n)) + 1 == n,
{
}

/// A day has 86400 seconds; more seconds than 64 bits hold are cut down to the
/// greatest number that they do hold.
pub proof fn days_are_counted_in_seconds(days: nat)
    ensures
        days * 86400 <= 18446744073709551615 ==> days_in_secs(days) == days * 86400,
        days * 86400 > 18446744073709551615 ==> days_in_secs(days) == 18446744073709551615,
{
}

/// The variable that is reported is the first one, in the order in which they
/// are read, that is not what it must be; where there is none, nothing is
/// reported.
pub proof fn first_fault_is_reported(vars: Variables, parallelism: Option<usize>)
    ensures
        vars.first_fault(parallelism) == if let Err(demand) = vars.listen_addr_setting() {
            Some(("LISTEN_ADDR"@, demand))
        } else if let Err(demand) = vars.upstream_base_setting() {
            Some(("UPSTREAM_BASE"@, demand))
        } else if let Err(demand) = vars.max_transform_bytes_setting() {
            Some(("MAX_TRANSFORM_BYTES"@, demand))
        } else if let Err(demand) = vars.max_pixels_setting() {
            Some(("MAX_PIXELS"@, demand))
        } else if let Err(demand) = vars.avif_quality_setting() {
            Some(("AVIF_QUALITY"@, demand))
        } else if let Err(demand) = vars.avif_speed_setting() {
            Some(("AVIF_SPEED"@, demand))
        } else if let Err(demand) = vars.webp_quality_setting() {
            Some(("WEBP_QUALITY"@, demand))
        } else if let Err(demand) = vars.enable_accept_negotiation_setting() {
            Some(("ENABLE_ACCEPT_NEGOTIATION"@, demand))
        } else if let Err(demand) = vars.max_concurrent_encodes_setting(parallelism) {
            Some(("MAX_CONCURRENT_ENCODES"@, demand))
        } else if let Err(demand) = vars.upstream_connect_timeout_setting() {
            Some(("UPSTREAM_CONNECT_TIMEOUT_SECS"@, demand))
        } else if let Err(demand) = vars.upstream_request_timeout_setting() {
            Some(("UPSTREAM_REQUEST_TIMEOUT_SECS"@, demand))
        } else if let Err(demand) = vars.cache_cleanup_enabled_setting() {
            Some(("CACHE_CLEANUP_ENABLED"@, demand))
        } else if let Err(demand) = vars.cache_max_bytes_setting() {
            Some(("CACHE_MAX_BYTES"@, demand))
        } else if let Err(demand) = vars.cache_max_age_setting() {
            Some(("CACHE_MAX_AGE_DAYS"@, demand))
        } else if let Err(demand) = vars.cache_cleanup_interval_setting() {
            Some(("CACHE_CLEANUP_INTERVAL_SECS"@, demand))
        } else {
            None
        },
{
}

/// Each setting is read from the variable that is its own.
pub proof fn settings_are_read_from_their_variables(
    cfg: Config,
    vars: Variables,
    parallelism: Option<usize>,
)
    requires
        cfg.is_read_from(vars, parallelism),
    ensures
        ({
            &&& vars.listen_addr matches Some(v) ==> v.is_address && cfg.listen_addr@ == v.written@
            &&& vars.upstream_base matches Some(s) ==> target::parsed_url(s@) == Some(
                cfg.upstream_base@,
            )
            &&& vars.cache_dir matches Some(s) ==> cfg.cache_dir@ == s@
            &&& vars.cache_version matches Some(s) ==> cfg.cache_version@ == s@
            &&& vars.avif_quality matches Some(v) ==> quality::is_number(v.written@)
                && cfg.avif_quality@ == v.printed@
            &&& vars.webp_quality matches Some(v) ==> quality::is_number(v.written@)
                && cfg.webp_quality@ == v.printed@
            &&& vars.enable_accept_negotiation matches Some(s) ==> bool_setting(
                Some(s@),
                cfg.enable_accept_negotiation,
            ) == Reading::<bool>::Ok(cfg.enable_accept_negotiation)
            &&& vars.cache_cleanup_enabled matches Some(s) ==> bool_setting(
                Some(s@),
                cfg.cache_cleanup_enabled,
            ) == Reading::<bool>::Ok(cfg.cache_cleanup_enabled)
            &&& vars.max_transform_bytes matches Some(s) ==> numbers::unsigned_value(s@, u64::MAX as nat) == Some(
                cfg.max_transform_bytes as nat,
            )
            &&& vars.max_pixels matches Some(s) ==> numbers::unsigned_value(s@, u64::MAX as nat) == Some(
                cfg.max_pixels as nat,
            )
            &&& vars.avif_speed matches Some(s) ==> numbers::unsigned_value(s@, 255 as nat) == Some(
                cfg.avif_speed as nat,
            )
            &&& vars.max_concurrent_encodes matches Some(s) ==> numbers::unsigned_value(s@, usize::MAX as nat) == Some(
                cfg.max_concurrent_encodes as nat,
            )
            &&& vars.upstream_connect_timeout_secs matches Some(s) ==> numbers::unsigned_value(s@, u64::MAX as nat) == Some(
                cfg.upstream_connect_timeout as nat,
            )
            &&& vars.upstream_request_timeout_secs matches Some(s) ==> numbers::unsigned_value(s@, u64::MAX as nat) == Some(
                cfg.upstream_request_timeout as nat,
            )
            &&& vars.cache_max_bytes matches Some(s) ==> numbers::unsigned_value(s@, u64::MAX as nat) == Some(
                cfg.cache_max_bytes as nat,
            )
            &&& vars.cache_cleanup_interval_secs matches Some(s) ==> numbers::unsigned_value(s@, u64::MAX as nat) == Some(
                cfg.cache_cleanup_interval as nat,
            )
            &&& vars.cache_max_age_days matches Some(s) ==> (numbers::unsigned_value(
                s@,
                u64::MAX as nat,
            ) matches Some(days) && cfg.cache_max_age == if days * 86400
                <= 18446744073709551615 {
                (days * 86400) as int
            } else {
                18446744073709551615
            })
        }),
{
}

/// A setting of which nothing is said is this.
pub proof fn defaults_are_these(cfg: Config, vars: Variables, parallelism: Option<usize>)
    requires
        cfg.is_read_from(vars, parallelism),
    ensures
        ({
            &&& vars.listen_addr is None ==> cfg.listen_addr@ == "127.0.0.1:9000"@
            &&& vars.upstream_base is None ==> target::parsed_url("http://127.0.0.1:9100"@) == Some(
                cfg.upstream_base@,
            )
            &&& vars.cache_dir is None ==> cfg.cache_dir@ == "C:\\minio_img_cache"@
            &&& vars.max_transform_bytes is None ==> cfg.max_transform_bytes == 26214400
            &&& vars.max_pixels is None ==> cfg.max_pixels == 40000000
            &&& vars.avif_quality is None ==> cfg.avif_quality@ == "75"@
            &&& vars.avif_speed is None ==> cfg.avif_speed == 6
            &&& vars.webp_quality is None ==> cfg.webp_quality@ == "82"@
            &&& vars.cache_version is None ==> cfg.cache_version@ == "1"@
            &&& vars.enable_accept_negotiation is None ==> !cfg.enable_accept_negotiation
            &&& vars.max_concurrent_encodes is None ==> cfg.max_concurrent_encodes
                == default_encodes(parallelism)
            &&& vars.upstream_connect_timeout_secs is None ==> cfg.upstream_connect_timeout == 3
            &&& vars.upstream_request_timeout_secs is None ==> cfg.upstream_request_timeout == 30
            &&& vars.cache_cleanup_enabled is None ==> cfg.cache_cleanup_enabled
            &&& vars.cache_max_bytes is None ==> cfg.cache_max_bytes == 10737418240
            &&& vars.cache_max_age_days is None ==> cfg.cache_max_age == 7776000
            &&& vars.cache_cleanup_interval_secs is None ==> cfg.cache_cleanup_interval == 3600
        }),
        DEFAULT_LOG_DIR@ == ".\\logs"@,
{
    assert(DEFAULT_MAX_TRANSFORM_BYTES == 26214400);
    assert(DEFAULT_CACHE_MAX_BYTES == 10737418240);
    assert(SECS_PER_DAY == 86400);
}

/// A number is kept as it is printed where both the text and what is printed are
/// numbers, and refused otherwise; an address is kept as it is written.
pub proof fn addresses_and_numbers_are_kept(
    number: NumberVariable,
    address: AddressVariable,
    default: Seq<char>,
)
    ensures
        printed_number_setting(Some(number), default) == if quality::is_number(number.written@)
            && quality::is_number(number.printed@) {
            Reading::<Seq<char>>::Ok(number.printed@)
        } else {
            Reading::<Seq<char>>::Err(Demand::Number)
        },
        printed_number_setting(None, default) == Reading::<Seq<char>>::Ok(default),
        address_setting(Some(address), default) == if address.is_address {
            Reading::<Seq<char>>::Ok(address.written@)
        } else {
            Reading::<Seq<char>>::Err(Demand::Address)
        },
        address_setting(None, default) == Reading::<Seq<char>>::Ok(default),
{
}

/// Each demand is put in words of its own.
pub proof fn demands_are_put_in_words(demand: Demand)
    ensures
        demand == Demand::Address ==> demand.text() == "host:port, e.g. 127.0.0.1:9000"@,
        demand == Demand::Url ==> demand.text() == "an absolute URL"@,
        demand == Demand::U64 ==> demand.text() == "u64"@,
        demand == Demand::Usize ==> demand.text() == "usize"@,
        demand == Demand::U8 ==> demand.text() == "u8"@,
        demand == Demand::Number ==> demand.text() == "number"@,
        demand == Demand::Boolean ==> demand.text() == "boolean"@,
        demand == Demand::Positive ==> demand.text() == "greater than zero"@,
{
}

} // verus!
