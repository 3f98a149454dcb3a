//! The heads of the responses: their status and their fields.
use crate::formats::TargetFormat;
use crate::headers;
use crate::numbers;
use crate::text;
use axum::http::HeaderMap;
use vstd::prelude::*;

verus! {

// --------------------------------------------------------------------- types

/// The status and the fields of a response.
#[derive(Debug)]
pub struct ResponseHead {
    pub status: u16,
    pub headers: HeaderMap,
}

/// A response that the server gives of its own accord.
#[derive(Debug, Clone, Copy, PartialEq, Eq, Structural)]
pub enum Refusal {
    MethodNotAllowed,
    BadGateway,
    ServiceUnavailable,
}

// ---------------------------------------------------------------- statements

/// A length that may be unknown.
pub open spec fn length_of(len: Option<u64>) -> Option<nat> {
    match len {
        Some(n) => Some(n as nat),
        None => None,
    }
}

/// The values of a field of a response with a converted image.
pub open spec fn image_field(target: TargetFormat, len: Option<nat>, name: Seq<char>) -> Seq<
    Seq<u8>,
> {
    if name == "content-type"@ {
        seq![text::ascii_bytes(target.media_type())]
    } else if name == "cache-control"@ {
        seq![text::ascii_bytes("public, max-age=31536000, immutable"@)]
    } else if name == "vary"@ {
        seq![text::ascii_bytes("Accept"@)]
    } else if name == "content-length"@ && len is Some {
        seq![headers::length_bytes(len->0)]
    } else {
        Seq::empty()
    }
}

/// The values of a field of a response with the source image as it came.
pub open spec fn original_field(source: Seq<Seq<u8>>, len: nat, name: Seq<char>) -> Seq<Seq<u8>> {
    if name == "content-length"@ {
        seq![headers::length_bytes(len)]
    } else {
        headers::copied_values(Seq::empty(), source, headers::is_passed_on(name, false))
    }
}

/// The values of a field of a response that is passed on.
pub open spec fn passed_field(source: Seq<Seq<u8>>, streaming: bool, name: Seq<char>) -> Seq<
    Seq<u8>,
> {
    headers::copied_values(Seq::empty(), source, headers::is_passed_on(name, streaming))
}

/// The fields of a response that are passed on can be copied into a new one
/// without more than `limit` fields in it whenever one is put in.
pub open spec fn fields_fit(source: HeaderMap, include_length: bool, limit: int) -> bool {
    headers::has_room(Set::empty(), headers::header_entries(source), include_length, limit)
}

/// The same of the fields but the length, and of the length behind them.
pub open spec fn fields_and_length_fit(source: HeaderMap, limit: int) -> bool {
    fields_fit(source, false, limit) && headers::passed_names(
        headers::header_entries(source),
        false,
    ).len() <= limit
}

impl Refusal {
    /// The status.
    pub open spec fn code(self) -> u16 {
        match self {
            Refusal::MethodNotAllowed => 405,
            Refusal::BadGateway => 502,
            Refusal::ServiceUnavailable => 503,
        }
    }

    /// The body.
    pub open spec fn text(self) -> Seq<char> {
        match self {
            Refusal::MethodNotAllowed => "method not allowed"@,
            Refusal::BadGateway => "bad gateway"@,
            Refusal::ServiceUnavailable => "service unavailable"@,
        }
    }

    /// The body.
    pub fn body(self) -> (r: &'static str)
        ensures
            r@ == self.text(),
    {
        match self {
            Refusal::MethodNotAllowed => "method not allowed",
            Refusal::BadGateway => "bad gateway",
            Refusal::ServiceUnavailable => "service unavailable",
        }
    }
}

// ---------------------------------------------------------------- operations

/// Writes the length of a body into its field, and tells whether the map took
/// it.
fn set_length(map: &mut HeaderMap, len: u64) -> (taken: bool)
    ensures
        headers::field_names(headers::header_entries(*old(map))).len() <= headers::MAX_FIELDS
            ==> taken,
        headers::field_names(headers::header_entries(*old(map))).len() >= headers::MOST_FIELDS
            ==> !taken,
        forall|name: Seq<char>| #[trigger]
            headers::header_values(*final(map), name) == if taken && name == "content-length"@ {
                seq![headers::length_bytes(len as nat)]
            } else {
                headers::header_values(*old(map), name)
            },
{
    proof {
        reveal_strlit("content-length");
        headers::lemma_decimal_is_visible(len as nat);
    }
    let written = numbers::to_decimal(len);
    headers::set_header(map, "content-length", written.as_str())
}

/// The head of a response with a converted image.
fn image_head(target: TargetFormat, len: Option<u64>) -> (r: ResponseHead)
    ensures
        r.status == 200,
        forall|name: Seq<char>| #[trigger]
            headers::header_values(r.headers, name) == image_field(
                target,
                length_of(len),
                name,
            ),
{
    proof {
        reveal_strlit("content-type");
        reveal_strlit("cache-control");
        reveal_strlit("vary");
        reveal_strlit("content-length");
        reveal_strlit("image/avif");
        reveal_strlit("image/webp");
        reveal_strlit("public, max-age=31536000, immutable");
        reveal_strlit("Accept");
        assert("content-type"@.len() == 12 && "cache-control"@.len() == 13 && "vary"@.len() == 4
            && "content-length"@.len() == 14);
    }
    let mut map = headers::no_headers();
    headers::put_header(&mut map, "content-type", target.content_type());
    headers::put_header(&mut map, "cache-control", "public, max-age=31536000, immutable");
    headers::put_header(&mut map, "vary", "Accept");
    if let Some(n) = len {
        let _ = set_length(&mut map, n);
    }
    ResponseHead { status: 200, headers: map }
}

/// The head of a response with an image from the cache, of which the length may
/// be unknown.
pub fn cached_file_response(target: TargetFormat, len: Option<u64>) -> (r: ResponseHead)
    ensures
        r.status == 200,
        forall|name: Seq<char>| #[trigger]
            headers::header_values(r.headers, name) == image_field(
                target,
                length_of(len),
                name,
            ),
{
    image_head(target, len)
}

/// The head of a response with an image that was just converted.
pub fn converted_response(target: TargetFormat, len: u64) -> (r: ResponseHead)
    ensures
        r.status == 200,
        forall|name: Seq<char>| #[trigger]
            headers::header_values(r.headers, name) == image_field(
                target,
                Some(len as nat),
                name,
            ),
{
    image_head(target, Some(len))
}

/// The head of a response with the source image as it came. There is none where
/// the source has more fields than a header map takes: up to `MAX_FIELDS` it
/// takes them, and `MOST_FIELDS` are too many.
pub fn original_bytes_response(source: &HeaderMap, len: u64) -> (r: Option<ResponseHead>)
    ensures
        fields_and_length_fit(*source, headers::MAX_FIELDS as int) ==> r is Some,
        r is Some ==> fields_and_length_fit(*source, headers::MOST_FIELDS - 1),
        r matches Some(head) ==> head.status == 200 && forall|name: Seq<char>| #[trigger]
            headers::header_values(head.headers, name) == original_field(
                headers::header_values(*source, name),
                len as nat,
                name,
            ),
{
    let mut map = headers::no_headers();
    if !headers::copy_while_room(&mut map, source, false) {
        return None;
    }
    assert(headers::field_names(headers::header_entries(map)) == headers::passed_names(
        headers::header_entries(*source),
        false,
    ));
    if !set_length(&mut map, len) {
        return None;
    }
    Some(ResponseHead { status: 200, headers: map })
}

/// The head of an upstream response that is passed on, piece by piece as it
/// comes or once it was read whole. There is none where it has more fields than
/// a header map takes: up to `MAX_FIELDS` it takes them, and `MOST_FIELDS` are
/// too many.
pub fn upstream_response(status: u16, source: &HeaderMap, streaming: bool) -> (r: Option<
    ResponseHead,
>)
    ensures
        fields_fit(*source, streaming, headers::MAX_FIELDS as int) ==> r is Some,
        r is Some ==> fields_fit(*source, streaming, headers::MOST_FIELDS - 1),
        r matches Some(head) ==> head.status == status && forall|name: Seq<char>| #[trigger]
            headers::header_values(head.headers, name) == passed_field(
                headers::header_values(*source, name),
                streaming,
                name,
            ),
{
    let mut map = headers::no_headers();
    if !headers::copy_while_room(&mut map, source, streaming) {
        return None;
    }
    Some(ResponseHead { status, headers: map })
}

/// The head of a response that the server gives of its own accord.
pub fn response_with_status(refusal: Refusal) -> (r: ResponseHead)
    ensures
        r.status == refusal.code(),
        headers::header_entries(r.headers) == Seq::<(Seq<char>, Seq<u8>)>::empty(),
{
    let status: u16 = match refusal {
        Refusal::MethodNotAllowed => 405,
        Refusal::BadGateway => 502,
        Refusal::ServiceUnavailable => 503,
    };
    ResponseHead { status, headers: headers::no_headers() }
}

// ---------------------------------------------------------------------- laws

/// A response with an image declares the length that the image has.
pub proof fn image_length_is_declared(map: HeaderMap, target: TargetFormat, len: nat)
    requires
        len <= u64::MAX,
        forall|name: Seq<char>| #[trigger]
            headers::header_values(map, name) == image_field(target, Some(len), name),
    ensures
        headers::declared_length(map) == Some(len),
{
    lemma_length_field(target, len);
    headers::declared_length_reads_back(map, len);
}

/// A response with the source image declares the length that the image has,
/// whatever the upstream server said of it.
pub proof fn original_length_is_declared(map: HeaderMap, source: HeaderMap, len: nat)
    requires
        len <= u64::MAX,
        forall|name: Seq<char>| #[trigger]
            headers::header_values(map, name) == original_field(
                headers::header_values(source, name),
                len,
                name,
            ),
    ensures
        headers::declared_length(map) == Some(len),
{
    assert(headers::header_values(map, "content-length"@) == seq![headers::length_bytes(len)]);
    headers::declared_length_reads_back(map, len);
}

/// The field with the length of an image.
proof fn lemma_length_field(target: TargetFormat, len: nat)
    ensures
        image_field(target, Some(len), "content-length"@) == seq![headers::length_bytes(len)],
{
    reveal_strlit("content-type");
    reveal_strlit("cache-control");
    reveal_strlit("vary");
    reveal_strlit("content-length");
    assert("content-type"@.len() == 12 && "cache-control"@.len() == 13 && "vary"@.len() == 4
        && "content-length"@.len() == 14);
}

/// What concerns one connection only is never passed on to a client.
pub proof fn clients_get_no_hop_by_hop_fields(
    source: Seq<Seq<u8>>,
    len: nat,
    streaming: bool,
    name: Seq<char>,
)
    requires
        headers::is_hop_by_hop(name),
    ensures
        passed_field(source, streaming, name) == Seq::<Seq<u8>>::empty(),
        original_field(source, len, name) == Seq::<Seq<u8>>::empty(),
{
    reveal_strlit("content-length");
    reveal_strlit("connection");
    reveal_strlit("keep-alive");
    reveal_strlit("proxy-authenticate");
    reveal_strlit("proxy-authorization");
    reveal_strlit("te");
    reveal_strlit("trailer");
    reveal_strlit("transfer-encoding");
    reveal_strlit("upgrade");
    assert("content-length"@.len() == 14);
    assert("connection"@.len() == 10 && "keep-alive"@.len() == 10 && "proxy-authenticate"@.len()
        == 18 && "proxy-authorization"@.len() == 19 && "te"@.len() == 2 && "trailer"@.len() == 7
        && "transfer-encoding"@.len() == 17 && "upgrade"@.len() == 7);
}

/// Where a response is not streamed, the length that the upstream server
/// declared is left out: it is declared anew.
pub proof fn buffered_responses_drop_the_declared_length(source: Seq<Seq<u8>>)
    ensures
        passed_field(source, false, "content-length"@) == Seq::<Seq<u8>>::empty(),
{
}

/// Every field of an upstream response that is passed on gets through with the
/// last of its values, but for those that concern one connection only; the
/// length does where the response is streamed. What the response does not have
/// the client does not get.
pub proof fn clients_get_every_other_field(
    source: Seq<Seq<u8>>,
    streaming: bool,
    name: Seq<char>,
)
    ensures
        name != "connection"@ && name != "keep-alive"@ && name != "proxy-authenticate"@ && name
            != "proxy-authorization"@ && name != "te"@ && name != "trailer"@ && name
            != "transfer-encoding"@ && name != "upgrade"@ && name != "content-length"@
            && source.len() > 0 ==> passed_field(source, streaming, name) == seq![
            source[source.len() - 1],
        ],
        source.len() > 0 ==> passed_field(source, true, "content-length"@) == seq![
            source[source.len() - 1],
        ],
        passed_field(source, false, "content-length"@) == Seq::<Seq<u8>>::empty(),
        source.len() == 0 ==> passed_field(source, streaming, name) == Seq::<Seq<u8>>::empty(),
        name == "connection"@ || name == "keep-alive"@ || name == "proxy-authenticate"@ || name
            == "proxy-authorization"@ || name == "te"@ || name == "trailer"@ || name
            == "transfer-encoding"@ || name == "upgrade"@ ==> passed_field(
            source,
            streaming,
            name,
        ) == Seq::<Seq<u8>>::empty(),
{
    headers::every_other_field_gets_through(name, Seq::empty(), source, streaming);
}

/// A source image that is sent as it came has every other field of the upstream
/// response, with the last of its values, and the length of the image in
/// decimal digits.
pub proof fn originals_keep_every_other_field(source: Seq<Seq<u8>>, len: nat, name: Seq<char>)
    ensures
        name != "connection"@ && name != "keep-alive"@ && name != "proxy-authenticate"@ && name
            != "proxy-authorization"@ && name != "te"@ && name != "trailer"@ && name
            != "transfer-encoding"@ && name != "upgrade"@ && name != "content-length"@
            && source.len() > 0 ==> original_field(source, len, name) == seq![
            source[source.len() - 1],
        ],
        original_field(source, len, "content-length"@) == seq![
            text::ascii_bytes(numbers::decimal(len)),
        ],
        source.len() == 0 && name != "content-length"@ ==> original_field(source, len, name)
            == Seq::<Seq<u8>>::empty(),
        name == "connection"@ || name == "keep-alive"@ || name == "proxy-authenticate"@ || name
            == "proxy-authorization"@ || name == "te"@ || name == "trailer"@ || name
            == "transfer-encoding"@ || name == "upgrade"@ ==> original_field(source, len, name)
            == Seq::<Seq<u8>>::empty(),
{
    headers::every_other_field_gets_through(name, Seq::empty(), source, false);
    if headers::is_hop_by_hop(name) {
        clients_get_no_hop_by_hop_fields(source, len, false, name);
    }
}

/// A converted image is sent with its media type, for a year's keeping, marked
/// as chosen by the `Accept` field, with its length where that is known, and
/// with no other field.
pub proof fn images_are_sent_with_four_fields(
    target: TargetFormat,
    len: Option<nat>,
    name: Seq<char>,
)
    ensures
        image_field(target, len, "content-type"@) == seq![
            text::ascii_bytes(
                match target {
                    TargetFormat::Avif => "image/avif"@,
                    TargetFormat::Webp => "image/webp"@,
                },
            ),
        ],
        image_field(target, len, "cache-control"@) == seq![
            text::ascii_bytes("public, max-age=31536000, immutable"@),
        ],
        image_field(target, len, "vary"@) == seq![text::ascii_bytes("Accept"@)],
        image_field(target, len, "content-length"@) == match len {
            Some(n) => seq![text::ascii_bytes(numbers::decimal(n))],
            None => Seq::empty(),
        },
        name != "content-type"@ && name != "cache-control"@ && name != "vary"@ && name
            != "content-length"@ ==> image_field(target, len, name) == Seq::<Seq<u8>>::empty(),
{
    reveal_strlit("content-type");
    reveal_strlit("cache-control");
    reveal_strlit("vary");
    reveal_strlit("content-length");
    assert("content-type"@.len() == 12 && "cache-control"@.len() == 13 && "vary"@.len() == 4
        && "content-length"@.len() == 14);
}

/// Each refusal has a status and a body of its own.
pub proof fn refusals_say_what_they_are(refusal: Refusal)
    ensures
        refusal == Refusal::MethodNotAllowed ==> refusal.code() == 405 && refusal.text()
            == "method not allowed"@,
        refusal == Refusal::BadGateway ==> refusal.code() == 502 && refusal.text()
            == "bad gateway"@,
        refusal == Refusal::ServiceUnavailable ==> refusal.code() == 503 && refusal.text()
            == "service unavailable"@,
{
}

/// The fields of an upstream response with no more than 6553 of them always fit,
/// and the length with them.
pub proof fn few_fields_fit(source: HeaderMap, include_length: bool)
    requires
        headers::field_names(headers::header_entries(source)).len() <= 6553,
    ensures
        fields_fit(source, include_length, headers::MAX_FIELDS as int),
        fields_and_length_fit(source, headers::MAX_FIELDS as int),
{
    let entries = headers::header_entries(source);
    let none = Set::<Seq<char>>::empty();
    assert(none.union(headers::field_names(entries)) == headers::field_names(entries));
    headers::few_fields_have_room(none, entries, include_length);
    headers::few_fields_have_room(none, entries, false);
    assert(none.union(headers::passed_names(entries, false)) == headers::passed_names(
        entries,
        false,
    ));
}

} // verus!
