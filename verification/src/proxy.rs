//! What is done with a request: it is refused, passed on to the upstream server,
//! or answered with a converted image.
use crate::cache;
use crate::cache::CacheEntry;
use crate::config::Config;
use crate::formats::TargetFormat;
use crate::headers;
use crate::query;
use crate::response;
use crate::response::{Refusal, ResponseHead};
use crate::target;
use crate::target::{RequestTarget, UpstreamUrlError};
use crate::text;
use crate::transform;
use crate::transform::TransformDecision;
use axum::http::HeaderMap;
use vstd::prelude::*;

verus! {

// --------------------------------------------------------------------- types

/// The methods with which the upstream server is asked.
#[derive(Debug, Clone, Copy, PartialEq, Eq, Structural)]
pub enum ProxyMethod {
    Get,
    Head,
}

/// What is done with a request.
#[derive(Debug)]
pub enum Plan {
    /// It is refused.
    Refuse(Refusal),
    /// The upstream server is asked, and its response is passed on.
    Proxy { method: ProxyMethod, target: RequestTarget },
    /// It is answered with a converted image, which is the entry of the cache;
    /// for the source image the upstream server is asked with `upstream`.
    Convert { decision: TransformDecision, entry: CacheEntry, upstream: RequestTarget },
}

/// A request to the upstream server.
#[derive(Debug)]
pub struct UpstreamRequest {
    pub method: ProxyMethod,
    pub url: String,
    pub headers: Vec<(String, Vec<u8>)>,
}

/// What is to be done next for a request.
#[derive(Debug, Clone, Copy, PartialEq, Eq, Structural)]
pub enum Stage {
    /// Open the image in the cache.
    LookUp,
    /// Wait until no other request converts the image.
    AwaitTurn,
    /// Open the image in the cache once more.
    LookUpAgain,
    /// Ask the upstream server for the source image.
    Fetch,
    /// Read the source image, up to the limit.
    Read,
    /// Wait until an image more may be encoded.
    AwaitPermit,
    /// Encode the image.
    Encode,
    /// Write the converted image to the cache.
    Store,
    /// Read an upstream response whole that is passed on.
    Drain,
    /// Ask the upstream server for a response that is passed on.
    Pass,
    /// Answer the request.
    Finished(Reply),
}

/// The answer to a request.
#[derive(Debug, Clone, Copy, PartialEq, Eq, Structural)]
pub enum Reply {
    /// The image from the cache.
    Cached,
    /// The converted image.
    Converted,
    /// The source image as it came.
    Original,
    /// The upstream response, as it comes or once it was read whole.
    PassOn { streaming: bool },
    /// A response of the server's own.
    Refused(Refusal),
}

/// How the reading of a body ended.
#[derive(Debug, Clone, Copy, PartialEq, Eq, Structural)]
pub enum BodyOutcome {
    Whole,
    TooLarge,
    Failed,
}

/// How it went what was to be done.
#[derive(Debug)]
pub enum Event {
    /// The image was looked up in the cache.
    Looked { found: bool },
    /// No other request converts the image.
    TurnCame,
    /// The upstream server responded.
    Fetched { status: u16, headers: HeaderMap },
    /// It did not.
    FetchFailed,
    /// The body of its response was read.
    BodyRead(BodyOutcome),
    /// An image more may be encoded, or none will be any more.
    Permit { granted: bool },
    /// The image was encoded.
    Encoded { ok: bool },
    /// The converted image was written to the cache.
    Stored { ok: bool },
}

// ---------------------------------------------------------------- statements

/// A status that reports success.
pub open spec fn is_success(status: u16) -> bool {
    200 <= status < 300
}

/// A response with a body that is longer than may be read.
pub open spec fn declares_too_much(response: HeaderMap, max_bytes: u64) -> bool {
    headers::declared_length(response) matches Some(len) && len > max_bytes
}

impl Stage {
    /// The event is one that can follow the stage.
    pub open spec fn expects(self, event: Event) -> bool {
        match self {
            Stage::LookUp => event is Looked,
            Stage::AwaitTurn => event is TurnCame,
            Stage::LookUpAgain => event is Looked,
            Stage::Fetch => event is Fetched || event is FetchFailed,
            Stage::Read => event is BodyRead,
            Stage::AwaitPermit => event is Permit,
            Stage::Encode => event is Encoded,
            Stage::Store => event is Stored,
            Stage::Drain => event matches Event::BodyRead(outcome) && outcome
                != BodyOutcome::TooLarge,
            Stage::Pass => event is Fetched || event is FetchFailed,
            Stage::Finished(_) => false,
        }
    }

    /// What is to be done once it went so. Where the event cannot follow, the
    /// stage stays what it is.
    pub open spec fn after(self, event: Event, max_bytes: u64) -> Stage {
        match (self, event) {
            (Stage::LookUp, Event::Looked { found }) => if found {
                Stage::Finished(Reply::Cached)
            } else {
                Stage::AwaitTurn
            },
            (Stage::AwaitTurn, Event::TurnCame) => Stage::LookUpAgain,
            (Stage::LookUpAgain, Event::Looked { found }) => if found {
                Stage::Finished(Reply::Cached)
            } else {
                Stage::Fetch
            },
            (Stage::Fetch, Event::Fetched { status, headers }) => if !is_success(status) {
                Stage::Drain
            } else if declares_too_much(headers, max_bytes) {
                Stage::Finished(Reply::PassOn { streaming: true })
            } else {
                Stage::Read
            },
            (Stage::Read, Event::BodyRead(outcome)) => match outcome {
                BodyOutcome::Whole => Stage::AwaitPermit,
                BodyOutcome::TooLarge => Stage::Pass,
                BodyOutcome::Failed => Stage::Finished(Reply::Refused(Refusal::BadGateway)),
            },
            (Stage::AwaitPermit, Event::Permit { granted }) => if granted {
                Stage::Encode
            } else {
                Stage::Finished(Reply::Refused(Refusal::ServiceUnavailable))
            },
            (Stage::Encode, Event::Encoded { ok }) => if ok {
                Stage::Store
            } else {
                Stage::Finished(Reply::Original)
            },
            (Stage::Store, Event::Stored { ok: _ }) => Stage::Finished(Reply::Converted),
            (Stage::Drain, Event::BodyRead(outcome)) => match outcome {
                BodyOutcome::Whole => Stage::Finished(Reply::PassOn { streaming: false }),
                BodyOutcome::TooLarge => Stage::Drain,
                BodyOutcome::Failed => Stage::Finished(Reply::Refused(Refusal::BadGateway)),
            },
            (Stage::Pass, Event::Fetched { status: _, headers: _ }) => Stage::Finished(
                Reply::PassOn { streaming: true },
            ),
            (Stage::Fetch, Event::FetchFailed) => Stage::Finished(
                Reply::Refused(Refusal::BadGateway),
            ),
            (Stage::Pass, Event::FetchFailed) => Stage::Finished(
                Reply::Refused(Refusal::BadGateway),
            ),
            _ => self,
        }
    }

    /// How many events can still follow, at most.
    pub open spec fn remaining(self) -> nat {
        match self {
            Stage::LookUp => 8,
            Stage::AwaitTurn => 7,
            Stage::LookUpAgain => 6,
            Stage::Fetch => 5,
            Stage::Read => 4,
            Stage::AwaitPermit => 3,
            Stage::Encode => 2,
            Stage::Store => 1,
            Stage::Drain => 1,
            Stage::Pass => 1,
            Stage::Finished(_) => 0,
        }
    }
}

/// The stage that a request for an image is at once all this happened.
pub open spec fn stage_after(events: Seq<Event>, max_bytes: u64) -> Stage
    decreases events.len(),
{
    if events.len() == 0 {
        Stage::LookUp
    } else {
        stage_after(events.drop_last(), max_bytes).after(events.last(), max_bytes)
    }
}

/// Every event followed a stage that it can follow.
pub open spec fn is_course(events: Seq<Event>, max_bytes: u64) -> bool
    decreases events.len(),
{
    events.len() == 0 || (is_course(events.drop_last(), max_bytes) && stage_after(
        events.drop_last(),
        max_bytes,
    ).expects(events.last()))
}

impl Plan {
    /// The plan is the one for a request with this method, for this target and
    /// with these fields.
    pub open spec fn answers(
        self,
        method: Seq<char>,
        path: Seq<char>,
        query: Option<Seq<char>>,
        request: HeaderMap,
        cfg: Config,
    ) -> bool {
        let chosen = transform::transform_target(
            path,
            query,
            request,
            cfg.enable_accept_negotiation,
            cfg.path_style,
        );
        let kept = query::stripped(query);
        let asked_for = (path, target::not_empty(kept));
        match self {
            Plan::Refuse(refusal) => method != "GET"@ && method != "HEAD"@ && refusal
                == Refusal::MethodNotAllowed,
            Plan::Proxy { method: asked, target: upstream } => upstream.parts() == asked_for
                && match asked {
                ProxyMethod::Get => method == "GET"@ && chosen is None,
                ProxyMethod::Head => method == "HEAD"@,
            },
            Plan::Convert { decision, entry, upstream } => method == "GET"@ && chosen == Some(
                decision.target,
            ) && query::optional_string_view(decision.upstream_query) == kept && entry.key@
                == cache::key_of(
                cache::key_message(
                    path,
                    kept,
                    decision.target,
                    cache::config_fingerprint(cfg, decision.target),
                    cfg.cache_version@,
                ),
            ) && entry.final_path.parts() == cache::path_of(
                cfg.cache_dir@,
                decision.target,
                entry.key@,
            ) && upstream.parts() == asked_for,
        }
    }
}

impl Reply {
    /// There is a head for the reply where a header map takes one more field
    /// while it has no more than `limit`: the length of what is sent is known
    /// where it must be, and the fields of an upstream response fit.
    pub open spec fn has_head(self, source: HeaderMap, len: Option<u64>, limit: int) -> bool {
        match self {
            Reply::Cached => true,
            Reply::Converted => len is Some,
            Reply::Original => len is Some && response::fields_and_length_fit(source, limit),
            Reply::PassOn { streaming } => response::fields_fit(source, streaming, limit),
            Reply::Refused(_) => true,
        }
    }

    /// The status of the reply, where the upstream server's was `status`.
    pub open spec fn status(self, status: u16) -> u16 {
        match self {
            Reply::PassOn { streaming: _ } => status,
            Reply::Refused(refusal) => refusal.code(),
            _ => 200,
        }
    }

    /// The values of a field of the reply: one with an image in the format
    /// `target`, `len` bytes long, or one of which the field of the upstream
    /// response has the values `source`.
    pub open spec fn field(
        self,
        target: TargetFormat,
        source: Seq<Seq<u8>>,
        len: Option<u64>,
        name: Seq<char>,
    ) -> Seq<Seq<u8>> {
        match self {
            Reply::Cached => response::image_field(target, response::length_of(len), name),
            Reply::Converted => response::image_field(target, response::length_of(len), name),
            Reply::Original => response::original_field(source, len->0 as nat, name),
            Reply::PassOn { streaming } => response::passed_field(source, streaming, name),
            Reply::Refused(_) => Seq::empty(),
        }
    }
}

impl ProxyMethod {
    /// The name of the method.
    pub open spec fn text(self) -> Seq<char> {
        match self {
            ProxyMethod::Get => "GET"@,
            ProxyMethod::Head => "HEAD"@,
        }
    }
}

impl UpstreamRequest {
    /// The request is the one with which the upstream server at `base` is asked
    /// for a target, on behalf of a client's request with these fields.
    pub open spec fn asks(
        self,
        base: Seq<char>,
        method: ProxyMethod,
        path: Seq<char>,
        query: Option<Seq<char>>,
        request: HeaderMap,
    ) -> bool {
        &&& self.method == method
        &&& target::parsed_url(target::upstream_text(base, path, query)) == Some(self.url@)
        &&& headers::field_views(self.headers@) == headers::present_fields(
            request,
            headers::forwarded_names(),
        )
    }
}

// ---------------------------------------------------------------- operations

/// What is done with a request.
pub fn proxy_handler(method: &str, target: &RequestTarget, request: &HeaderMap, cfg: &Config) -> (r:
    Plan)
    requires
        target.wf(),
    ensures
        match r {
            Plan::Refuse(refusal) => method@ != "GET"@ && method@ != "HEAD"@ && refusal
                == Refusal::MethodNotAllowed,
            Plan::Proxy { method: asked, target: upstream } => upstream.wf() && upstream.parts()
                == (target.path@, target::not_empty(query::stripped(target.parts().1)))
                && match asked {
                ProxyMethod::Get => method@ == "GET"@ && transform::transform_target(
                    target.parts().0,
                    target.parts().1,
                    *request,
                    cfg.enable_accept_negotiation,
                    cfg.path_style,
                ) is None,
                ProxyMethod::Head => method@ == "HEAD"@,
            },
            Plan::Convert { decision, entry, upstream } => method@ == "GET"@
                && transform::transform_target(
                target.parts().0,
                target.parts().1,
                *request,
                cfg.enable_accept_negotiation,
                cfg.path_style,
            ) == Some(decision.target) && query::optional_string_view(decision.upstream_query)
                == query::stripped(target.parts().1) && entry.key@ == cache::key_of(
                cache::key_message(
                    target.path@,
                    query::stripped(target.parts().1),
                    decision.target,
                    cache::config_fingerprint(*cfg, decision.target),
                    cfg.cache_version@,
                ),
            ) && entry.final_path.parts() == cache::path_of(
                cfg.cache_dir@,
                decision.target,
                entry.key@,
            ) && entry.key@.len() == 64 && crate::paths::is_file_name(
                entry.final_path.file_name@,
            ) && upstream.wf()
                && upstream.parts() == (
                target.path@,
                target::not_empty(query::stripped(target.parts().1)),
            ),
        },
        r.answers(method@, target.parts().0, target.parts().1, *request, *cfg),
{
    let name = text::chars_of(method);
    proof {
        reveal_strlit("GET");
        reveal_strlit("HEAD");
        assert("GET"@.len() == 3 && "HEAD"@.len() == 4);
    }
    if text::is_text(name.as_slice(), "GET") {
        match transform::decide_transform(target, request, cfg) {
            Some(decision) => {
                let entry = cache::cache_entry(cfg, target, &decision);
                Plan::Convert { decision, entry, upstream: target::without_format(target) }
            },
            None => Plan::Proxy {
                method: ProxyMethod::Get,
                target: target::without_format(target),
            },
        }
    } else if text::is_text(name.as_slice(), "HEAD") {
        Plan::Proxy { method: ProxyMethod::Head, target: target::without_format(target) }
    } else {
        Plan::Refuse(Refusal::MethodNotAllowed)
    }
}

/// The request with which the upstream server is asked for a target: its URL,
/// and those fields of the client's request that are passed on.
pub fn fetch_upstream(
    base: &str,
    method: ProxyMethod,
    target: &RequestTarget,
    request: &HeaderMap,
) -> (r: Result<UpstreamRequest, UpstreamUrlError>)
    ensures
        match r {
            Ok(asked) => asked.method == method && target::parsed_url(
                target::upstream_text(base@, target.parts().0, target.parts().1),
            ) == Some(asked.url@) && headers::field_views(asked.headers@)
                == headers::present_fields(*request, headers::forwarded_names()),
            Err(UpstreamUrlError::NotAUrl) => target::parsed_url(
                target::upstream_text(base@, target.parts().0, target.parts().1),
            ) is None,
        },
        r matches Ok(asked) ==> asked.asks(
            base@,
            method,
            target.parts().0,
            target.parts().1,
            *request,
        ),
{
    let url = match target::build_upstream_url(base, target) {
        Ok(url) => url,
        Err(e) => return Err(e),
    };
    Ok(UpstreamRequest { method, url, headers: headers::forwarded_headers(request) })
}

impl ProxyMethod {
    /// The name of the method.
    pub fn name(self) -> (r: &'static str)
        ensures
            r@ == match self {
                ProxyMethod::Get => "GET"@,
                ProxyMethod::Head => "HEAD"@,
            },
            r@ == self.text(),
    {
        match self {
            ProxyMethod::Get => "GET",
            ProxyMethod::Head => "HEAD",
        }
    }
}

/// What is to be done with the source image that the upstream server sent.
fn after_fetch(status: u16, response: &HeaderMap, max_bytes: u64) -> (r: Stage)
    ensures
        r == Stage::Fetch.after((Event::Fetched { status, headers: *response }), max_bytes),
{
    if !(200 <= status && status < 300) {
        Stage::Drain
    } else if headers::should_skip_for_size(response, max_bytes) {
        Stage::Finished(Reply::PassOn { streaming: true })
    } else {
        Stage::Read
    }
}

impl Stage {
    /// What is to be done once it went so. Images up to `max_bytes` long are
    /// converted.
    pub fn next(self, event: &Event, max_bytes: u64) -> (r: Stage)
        ensures
            r == self.after(*event, max_bytes),
    {
        match (self, event) {
            (Stage::LookUp, Event::Looked { found }) => if *found {
                Stage::Finished(Reply::Cached)
            } else {
                Stage::AwaitTurn
            },
            (Stage::AwaitTurn, Event::TurnCame) => Stage::LookUpAgain,
            (Stage::LookUpAgain, Event::Looked { found }) => if *found {
                Stage::Finished(Reply::Cached)
            } else {
                Stage::Fetch
            },
            (Stage::Fetch, Event::Fetched { status, headers }) => after_fetch(
                *status,
                headers,
                max_bytes,
            ),
            (Stage::Read, Event::BodyRead(outcome)) => match outcome {
                BodyOutcome::Whole => Stage::AwaitPermit,
                BodyOutcome::TooLarge => Stage::Pass,
                BodyOutcome::Failed => Stage::Finished(Reply::Refused(Refusal::BadGateway)),
            },
            (Stage::AwaitPermit, Event::Permit { granted }) => if *granted {
                Stage::Encode
            } else {
                Stage::Finished(Reply::Refused(Refusal::ServiceUnavailable))
            },
            (Stage::Encode, Event::Encoded { ok }) => if *ok {
                Stage::Store
            } else {
                Stage::Finished(Reply::Original)
            },
            (Stage::Store, Event::Stored { ok: _ }) => Stage::Finished(Reply::Converted),
            (Stage::Drain, Event::BodyRead(outcome)) => match outcome {
                BodyOutcome::Whole => Stage::Finished(Reply::PassOn { streaming: false }),
                BodyOutcome::TooLarge => Stage::Drain,
                BodyOutcome::Failed => Stage::Finished(Reply::Refused(Refusal::BadGateway)),
            },
            (Stage::Pass, Event::Fetched { status: _, headers: _ }) => Stage::Finished(
                Reply::PassOn { streaming: true },
            ),
            (Stage::Fetch, Event::FetchFailed) => Stage::Finished(
                Reply::Refused(Refusal::BadGateway),
            ),
            (Stage::Pass, Event::FetchFailed) => Stage::Finished(
                Reply::Refused(Refusal::BadGateway),
            ),
            _ => self,
        }
    }
}

/// The head of the answer to a request: one with an image in the format
/// `target`, or one to which the upstream server answered with `status` and the
/// fields `source`. What is sent is `len` bytes long, if that is known. There is
/// none where a length is missing or a header map does not take the fields.
pub fn reply_head(
    reply: Reply,
    target: TargetFormat,
    status: u16,
    source: &HeaderMap,
    len: Option<u64>,
) -> (r: Option<ResponseHead>)
    ensures
        reply.has_head(*source, len, headers::MAX_FIELDS as int) ==> r is Some,
        r is Some ==> reply.has_head(*source, len, headers::MOST_FIELDS - 1),
        r matches Some(head) ==> head.status == reply.status(status),
        r matches Some(head) ==> forall|name: Seq<char>| #[trigger]
            headers::header_values(head.headers, name) == reply.field(
                target,
                headers::header_values(*source, name),
                len,
                name,
            ),
{
    match reply {
        Reply::Cached => Some(response::cached_file_response(target, len)),
        Reply::Converted => match len {
            Some(n) => Some(response::converted_response(target, n)),
            None => None,
        },
        Reply::Original => match len {
            Some(n) => response::original_bytes_response(source, n),
            None => None,
        },
        Reply::PassOn { streaming } => response::upstream_response(status, source, streaming),
        Reply::Refused(refusal) => Some(response::response_with_status(refusal)),
    }
}

// ---------------------------------------------------------------------- laws

/// Every event brings a request nearer to its answer.
pub proof fn every_event_brings_the_answer_nearer(stage: Stage, event: Event, max_bytes: u64)
    requires
        stage.expects(event),
    ensures
        stage.after(event, max_bytes).remaining() < stage.remaining(),
{
}

/// A request for an image is answered after eight events at most.
pub proof fn requests_are_answered(events: Seq<Event>, max_bytes: u64)
    requires
        is_course(events, max_bytes),
    ensures
        events.len() + stage_after(events, max_bytes).remaining() <= 8,
    decreases events.len(),
{
    if events.len() > 0 {
        requests_are_answered(events.drop_last(), max_bytes);
        every_event_brings_the_answer_nearer(
            stage_after(events.drop_last(), max_bytes),
            events.last(),
            max_bytes,
        );
    }
}

/// The events up to the place `n` are those of a request that found nothing in
/// the cache, got the source image and converted it.
pub open spec fn converts_up_to(events: Seq<Event>, n: int, max_bytes: u64) -> bool {
    &&& events.len() >= n
    &&& n > 0 ==> events[0] == (Event::Looked { found: false })
    &&& n > 1 ==> events[1] is TurnCame
    &&& n > 2 ==> events[2] == (Event::Looked { found: false })
    &&& n > 3 ==> (events[3] matches Event::Fetched { status, headers } && is_success(status)
        && !declares_too_much(headers, max_bytes))
    &&& n > 4 ==> events[4] == Event::BodyRead(BodyOutcome::Whole)
    &&& n > 5 ==> events[5] == (Event::Permit { granted: true })
    &&& n > 6 ==> events[6] == (Event::Encoded { ok: true })
    &&& n > 7 ==> events[7] is Stored
}

/// What happened to a request that is at a stage.
proof fn lemma_course(events: Seq<Event>, max_bytes: u64)
    requires
        is_course(events, max_bytes),
    ensures
        match stage_after(events, max_bytes) {
            Stage::LookUp => events.len() == 0,
            Stage::AwaitTurn => events.len() == 1 && converts_up_to(events, 1, max_bytes),
            Stage::LookUpAgain => events.len() == 2 && converts_up_to(events, 2, max_bytes),
            Stage::Fetch => events.len() == 3 && converts_up_to(events, 3, max_bytes),
            Stage::Read => events.len() == 4 && converts_up_to(events, 4, max_bytes),
            Stage::AwaitPermit => events.len() == 5 && converts_up_to(events, 5, max_bytes),
            Stage::Encode => events.len() == 6 && converts_up_to(events, 6, max_bytes),
            Stage::Store => events.len() == 7 && converts_up_to(events, 7, max_bytes),
            Stage::Drain => events.len() == 4 && converts_up_to(events, 3, max_bytes) && (events[3]
                matches Event::Fetched { status, headers: _ } && !is_success(status)),
            Stage::Pass => events.len() == 5 && converts_up_to(events, 4, max_bytes) && events[4]
                == Event::BodyRead(BodyOutcome::TooLarge),
            Stage::Finished(_) => events.len() > 0 && stage_after(
                events.drop_last(),
                max_bytes,
            ).expects(events.last()) && stage_after(events, max_bytes) == stage_after(
                events.drop_last(),
                max_bytes,
            ).after(events.last(), max_bytes) && is_course(events.drop_last(), max_bytes),
        },
    decreases events.len(),
{
    if events.len() > 0 {
        lemma_course(events.drop_last(), max_bytes);
    }
}

/// An image is answered as converted exactly if it was not in the cache, the
/// upstream server sent it and declared no more than may be read, it was read
/// whole and it was encoded. Whether it could be written to the cache makes no
/// difference.
pub proof fn converted_images_were_fetched_and_encoded(events: Seq<Event>, max_bytes: u64)
    requires
        is_course(events, max_bytes),
    ensures
        stage_after(events, max_bytes) == Stage::Finished(Reply::Converted) <==> (events.len() == 8
            && converts_up_to(events, 8, max_bytes)),
{
    lemma_course(events, max_bytes);
    if events.len() > 0 {
        lemma_course(events.drop_last(), max_bytes);
    }
    if events.len() == 8 && converts_up_to(events, 8, max_bytes) {
        requests_are_answered(events, max_bytes);
        requests_are_answered(events.drop_last(), max_bytes);
    }
}

/// Where the image cannot be encoded, the client gets the source image as it
/// came.
pub proof fn failed_conversions_return_the_original(
    events: Seq<Event>,
    event: Event,
    max_bytes: u64,
)
    requires
        stage_after(events, max_bytes) == Stage::Encode,
        event == (Event::Encoded { ok: false }),
    ensures
        stage_after(events.push(event), max_bytes) == Stage::Finished(Reply::Original),
{
    assert(events.push(event).drop_last() == events);
}

/// A client gets the source image as it came only where encoding it failed.
pub proof fn originals_are_failed_conversions(events: Seq<Event>, max_bytes: u64)
    requires
        is_course(events, max_bytes),
        stage_after(events, max_bytes) == Stage::Finished(Reply::Original),
    ensures
        events.len() == 7,
        converts_up_to(events, 6, max_bytes),
        events[6] == (Event::Encoded { ok: false }),
{
    lemma_course(events, max_bytes);
    lemma_course(events.drop_last(), max_bytes);
}

/// A client is told of a bad gateway only where the upstream server could not be
/// asked or its response could not be read, and that the service is unavailable
/// only where no image is encoded any more. Nothing else is refused.
pub proof fn refusals_have_their_reasons(events: Seq<Event>, refusal: Refusal, max_bytes: u64)
    requires
        is_course(events, max_bytes),
        stage_after(events, max_bytes) == Stage::Finished(Reply::Refused(refusal)),
    ensures
        events.len() > 0,
        match refusal {
            Refusal::BadGateway => events.last() is FetchFailed || events.last()
                == Event::BodyRead(BodyOutcome::Failed),
            Refusal::ServiceUnavailable => events.last() == (Event::Permit { granted: false }),
            Refusal::MethodNotAllowed => false,
        },
{
    lemma_course(events, max_bytes);
}

/// An image that is in the cache is never fetched.
pub proof fn cached_images_are_not_fetched(events: Seq<Event>, max_bytes: u64)
    requires
        is_course(events, max_bytes),
        stage_after(events, max_bytes) == Stage::Finished(Reply::Cached),
    ensures
        forall|i: int| 0 <= i < events.len() ==> !(#[trigger] events[i] is Fetched),
{
    lemma_course(events, max_bytes);
    lemma_course(events.drop_last(), max_bytes);
    assert forall|i: int| 0 <= i < events.len() implies !(#[trigger] events[i] is Fetched) by {
        if i < events.len() - 1 {
            assert(events.drop_last()[i] == events[i]);
        }
    }
}

/// An image is encoded only where nothing was found in the cache, not even once
/// the request's turn had come.
pub proof fn images_are_looked_up_twice(events: Seq<Event>, max_bytes: u64)
    requires
        is_course(events, max_bytes),
        stage_after(events, max_bytes) == Stage::Encode,
    ensures
        events[0] == (Event::Looked { found: false }),
        events[1] is TurnCame,
        events[2] == (Event::Looked { found: false }),
{
    lemma_course(events, max_bytes);
}

/// One event more.
proof fn lemma_one_more(events: Seq<Event>, event: Event, max_bytes: u64)
    ensures
        stage_after(events.push(event), max_bytes) == stage_after(events, max_bytes).after(
            event,
            max_bytes,
        ),
{
    assert(events.push(event).drop_last() == events);
}

/// An image that is found in the cache, at once or when the turn has come, is
/// the answer; otherwise the upstream server is asked for it, and where that
/// fails the answer is that the gateway is bad.
pub proof fn images_come_from_the_cache_or_from_upstream(max_bytes: u64)
    ensures
        ({
            let none = Seq::<Event>::empty();
            let missed = none.push(Event::Looked { found: false });
            let waited = missed.push(Event::TurnCame);
            let missed_again = waited.push(Event::Looked { found: false });
            &&& stage_after(none, max_bytes) == Stage::LookUp
            &&& stage_after(none.push(Event::Looked { found: true }), max_bytes)
                == Stage::Finished(Reply::Cached)
            &&& stage_after(missed, max_bytes) == Stage::AwaitTurn
            &&& stage_after(waited, max_bytes) == Stage::LookUpAgain
            &&& stage_after(waited.push(Event::Looked { found: true }), max_bytes)
                == Stage::Finished(Reply::Cached)
            &&& stage_after(missed_again, max_bytes) == Stage::Fetch
            &&& stage_after(missed_again.push(Event::FetchFailed), max_bytes) == Stage::Finished(
                Reply::Refused(Refusal::BadGateway),
            )
        }),
{
    let none = Seq::<Event>::empty();
    let missed = none.push(Event::Looked { found: false });
    let waited = missed.push(Event::TurnCame);
    let missed_again = waited.push(Event::Looked { found: false });
    lemma_one_more(none, Event::Looked { found: true }, max_bytes);
    lemma_one_more(none, Event::Looked { found: false }, max_bytes);
    lemma_one_more(missed, Event::TurnCame, max_bytes);
    lemma_one_more(waited, Event::Looked { found: true }, max_bytes);
    lemma_one_more(waited, Event::Looked { found: false }, max_bytes);
    lemma_one_more(missed_again, Event::FetchFailed, max_bytes);
}

/// Once the upstream server was asked for an image, its status and the length
/// that it declares decide. A status from 200 to 299 reports success. Any other
/// response is read whole and passed on; one that declares more than may be read
/// is passed on as it comes; and every other is read, to be converted.
pub proof fn upstream_responses_are_read_or_passed_on(
    events: Seq<Event>,
    status: u16,
    headers: HeaderMap,
    max_bytes: u64,
)
    requires
        stage_after(events, max_bytes) == Stage::Fetch,
    ensures
        ({
            let fetched = events.push(Event::Fetched { status, headers });
            let too_long = crate::headers::declared_length(headers) matches Some(len) && len
                > max_bytes;
            &&& status < 200 || status > 299 ==> stage_after(fetched, max_bytes) == Stage::Drain
                && stage_after(
                fetched.push(Event::BodyRead(BodyOutcome::Whole)),
                max_bytes,
            ) == Stage::Finished(Reply::PassOn { streaming: false }) && stage_after(
                fetched.push(Event::BodyRead(BodyOutcome::Failed)),
                max_bytes,
            ) == Stage::Finished(Reply::Refused(Refusal::BadGateway))
            &&& 200 <= status <= 299 && too_long ==> stage_after(fetched, max_bytes)
                == Stage::Finished(Reply::PassOn { streaming: true })
            &&& 200 <= status <= 299 && !too_long ==> stage_after(fetched, max_bytes)
                == Stage::Read
        }),
{
    let fetched = events.push(Event::Fetched { status, headers });
    lemma_one_more(events, Event::Fetched { status, headers }, max_bytes);
    lemma_one_more(fetched, Event::BodyRead(BodyOutcome::Whole), max_bytes);
    lemma_one_more(fetched, Event::BodyRead(BodyOutcome::Failed), max_bytes);
}

/// A source image that was read whole is encoded once that is permitted, and the
/// answer is the converted image, whether or not it could be stored. Where it
/// cannot be encoded, the answer is the source image as it came. One that is too
/// long is asked for once more and passed on as it comes. What fails on the way
/// is refused.
pub proof fn source_images_are_converted_or_passed_on(
    events: Seq<Event>,
    status: u16,
    headers: HeaderMap,
    stored: bool,
    max_bytes: u64,
)
    requires
        stage_after(events, max_bytes) == Stage::Read,
    ensures
        ({
            let long = events.push(Event::BodyRead(BodyOutcome::TooLarge));
            let whole = events.push(Event::BodyRead(BodyOutcome::Whole));
            let permitted = whole.push(Event::Permit { granted: true });
            let encoded = permitted.push(Event::Encoded { ok: true });
            &&& stage_after(events.push(Event::BodyRead(BodyOutcome::Failed)), max_bytes)
                == Stage::Finished(Reply::Refused(Refusal::BadGateway))
            &&& stage_after(long, max_bytes) == Stage::Pass
            &&& stage_after(long.push(Event::Fetched { status, headers }), max_bytes)
                == Stage::Finished(Reply::PassOn { streaming: true })
            &&& stage_after(long.push(Event::FetchFailed), max_bytes) == Stage::Finished(
                Reply::Refused(Refusal::BadGateway),
            )
            &&& stage_after(whole, max_bytes) == Stage::AwaitPermit
            &&& stage_after(whole.push(Event::Permit { granted: false }), max_bytes)
                == Stage::Finished(Reply::Refused(Refusal::ServiceUnavailable))
            &&& stage_after(permitted, max_bytes) == Stage::Encode
            &&& stage_after(permitted.push(Event::Encoded { ok: false }), max_bytes)
                == Stage::Finished(Reply::Original)
            &&& stage_after(encoded, max_bytes) == Stage::Store
            &&& stage_after(encoded.push(Event::Stored { ok: stored }), max_bytes)
                == Stage::Finished(Reply::Converted)
        }),
{
    let long = events.push(Event::BodyRead(BodyOutcome::TooLarge));
    let whole = events.push(Event::BodyRead(BodyOutcome::Whole));
    let permitted = whole.push(Event::Permit { granted: true });
    let encoded = permitted.push(Event::Encoded { ok: true });
    lemma_one_more(events, Event::BodyRead(BodyOutcome::Failed), max_bytes);
    lemma_one_more(events, Event::BodyRead(BodyOutcome::TooLarge), max_bytes);
    lemma_one_more(long, Event::Fetched { status, headers }, max_bytes);
    lemma_one_more(long, Event::FetchFailed, max_bytes);
    lemma_one_more(events, Event::BodyRead(BodyOutcome::Whole), max_bytes);
    lemma_one_more(whole, Event::Permit { granted: false }, max_bytes);
    lemma_one_more(whole, Event::Permit { granted: true }, max_bytes);
    lemma_one_more(permitted, Event::Encoded { ok: false }, max_bytes);
    lemma_one_more(permitted, Event::Encoded { ok: true }, max_bytes);
    lemma_one_more(encoded, Event::Stored { ok: stored }, max_bytes);
}

/// An answer is final, whatever happens then.
pub proof fn answers_are_final(reply: Reply, event: Event, max_bytes: u64)
    ensures
        Stage::Finished(reply).after(event, max_bytes) == Stage::Finished(reply),
{
}

/// A request that is passed on for its source image alone, as one that is not
/// converted is, is answered with what the upstream server sends, as it comes.
pub proof fn other_requests_are_passed_on(status: u16, headers: HeaderMap, max_bytes: u64)
    ensures
        Stage::Pass.after((Event::Fetched { status, headers }), max_bytes) == Stage::Finished(
            Reply::PassOn { streaming: true },
        ),
        Stage::Pass.after(Event::FetchFailed, max_bytes) == Stage::Finished(
            Reply::Refused(Refusal::BadGateway),
        ),
{
}

/// An image and the source image as it came are sent with the status 200, a
/// response that is passed on keeps its status, and each refusal has its own.
pub proof fn replies_have_their_status(upstream: u16, streaming: bool)
    ensures
        Reply::Cached.status(upstream) == 200,
        Reply::Converted.status(upstream) == 200,
        Reply::Original.status(upstream) == 200,
        (Reply::PassOn { streaming }).status(upstream) == upstream,
        Reply::Refused(Refusal::MethodNotAllowed).status(upstream) == 405,
        Reply::Refused(Refusal::BadGateway).status(upstream) == 502,
        Reply::Refused(Refusal::ServiceUnavailable).status(upstream) == 503,
{
}

/// A converted image, from the cache or not, has the fields of an image; the
/// source image and a response that is passed on have those of the upstream
/// response; and a refusal has none.
pub proof fn replies_have_their_fields(
    target: TargetFormat,
    source: Seq<Seq<u8>>,
    len: u64,
    streaming: bool,
    refusal: Refusal,
    name: Seq<char>,
)
    ensures
        Reply::Cached.field(target, source, Some(len), name) == response::image_field(
            target,
            Some(len as nat),
            name,
        ),
        Reply::Cached.field(target, source, None, name) == response::image_field(
            target,
            None,
            name,
        ),
        Reply::Converted.field(target, source, Some(len), name) == response::image_field(
            target,
            Some(len as nat),
            name,
        ),
        Reply::Original.field(target, source, Some(len), name) == response::original_field(
            source,
            len as nat,
            name,
        ),
        (Reply::PassOn { streaming }).field(target, source, Some(len), name)
            == response::passed_field(source, streaming, name),
        (Reply::PassOn { streaming }).field(target, source, None, name)
            == response::passed_field(source, streaming, name),
        Reply::Refused(refusal).field(target, source, Some(len), name)
            == Seq::<Seq<u8>>::empty(),
{
}

/// There is an answer to every request, unless an upstream response has more
/// than 6553 fields or the length of what is sent is not known.
pub proof fn replies_have_a_head(
    source: HeaderMap,
    len: u64,
    unknown: Option<u64>,
    streaming: bool,
    refusal: Refusal,
)
    requires
        headers::field_names(headers::header_entries(source)).len() <= 6553,
    ensures
        Reply::Cached.has_head(source, unknown, headers::MAX_FIELDS as int),
        Reply::Converted.has_head(source, Some(len), headers::MAX_FIELDS as int),
        Reply::Original.has_head(source, Some(len), headers::MAX_FIELDS as int),
        (Reply::PassOn { streaming }).has_head(source, unknown, headers::MAX_FIELDS as int),
        Reply::Refused(refusal).has_head(source, unknown, headers::MAX_FIELDS as int),
{
    response::few_fields_fit(source, streaming);
    response::few_fields_fit(source, false);
}

/// What is planned for a request depends on its method: with GET it is answered
/// with a converted image where a format is chosen, and otherwise passed on;
/// with HEAD it is passed on; any other is refused. The upstream server is asked
/// for the same path without the `format` parameters.
pub proof fn methods_decide_on_the_plan(
    plan: Plan,
    method: Seq<char>,
    path: Seq<char>,
    query: Option<Seq<char>>,
    request: HeaderMap,
    cfg: Config,
)
    requires
        plan.answers(method, path, query, request, cfg),
    ensures
        method != seq!['G', 'E', 'T'] && method != seq!['H', 'E', 'A', 'D'] ==> plan
            == Plan::Refuse(Refusal::MethodNotAllowed),
        method == seq!['H', 'E', 'A', 'D'] ==> (plan matches Plan::Proxy {
            method: asked,
            target: upstream,
        } && asked == ProxyMethod::Head && upstream.path@ == path
            && query::optional_string_view(upstream.query) == target::not_empty(
            query::stripped(query),
        )),
        method == seq!['G', 'E', 'T'] && transform::transform_target(
            path,
            query,
            request,
            cfg.enable_accept_negotiation,
            cfg.path_style,
        ) is None ==> (plan matches Plan::Proxy { method: asked, target: upstream } && asked
            == ProxyMethod::Get && upstream.path@ == path && query::optional_string_view(
            upstream.query,
        ) == target::not_empty(query::stripped(query))),
        method == seq!['G', 'E', 'T'] && transform::transform_target(
            path,
            query,
            request,
            cfg.enable_accept_negotiation,
            cfg.path_style,
        ) is Some ==> (plan matches Plan::Convert { decision, entry, upstream } && Some(
            decision.target,
        ) == transform::transform_target(
            path,
            query,
            request,
            cfg.enable_accept_negotiation,
            cfg.path_style,
        ) && query::optional_string_view(decision.upstream_query) == query::stripped(query)
            && upstream.path@ == path && query::optional_string_view(upstream.query)
            == target::not_empty(query::stripped(query)) && entry.final_path.parts()
            == cache::path_of(cfg.cache_dir@, decision.target, entry.key@) && entry.key@
            == cache::key_of(
            cache::key_message(
                path,
                query::stripped(query),
                decision.target,
                cache::config_fingerprint(cfg, decision.target),
                cfg.cache_version@,
            ),
        )),
{
    reveal_strlit("GET");
    reveal_strlit("HEAD");
    assert("GET"@ == seq!['G', 'E', 'T']);
    assert("HEAD"@ == seq!['H', 'E', 'A', 'D']);
    assert("GET"@.len() == 3 && "HEAD"@.len() == 4);
}

/// The upstream server is asked with the same method, with the URL that the base
/// without its slashes, the path and the query write, and with those of seven
/// fields that the client's request has.
pub proof fn upstream_is_asked_for_the_same(
    asked: UpstreamRequest,
    base: Seq<char>,
    slashes: Seq<char>,
    method: ProxyMethod,
    path: Seq<char>,
    query: Option<Seq<char>>,
    request: HeaderMap,
    name: Seq<char>,
    value: Seq<u8>,
)
    requires
        text::all_same(slashes, '/'),
        base.len() > 0 ==> base.last() != '/',
        asked.asks(base + slashes, method, path, query, request),
    ensures
        asked.method == method,
        Some(asked.url@) == target::parsed_url(
            match query {
                Some(q) => base + path + seq!['?'] + q,
                None => base + path,
            },
        ),
        headers::field_views(asked.headers@).contains((name, value)) <==> ((name == "accept"@
            || name == "accept-encoding"@ || name == "if-none-match"@ || name
            == "if-modified-since"@ || name == "range"@ || name == "if-range"@ || name
            == "user-agent"@) && headers::header_values(request, name).len() > 0 && value
            == headers::header_values(request, name)[0]),
{
    let q = match query {
        Some(q) => q,
        None => Seq::empty(),
    };
    target::upstream_urls_are_base_path_and_query(base, slashes, path, q);
    headers::seven_fields_are_forwarded(request, name, value);
}

/// A request that is passed on keeps its method.
pub proof fn methods_are_kept(
    plan: Plan,
    method: Seq<char>,
    path: Seq<char>,
    query: Option<Seq<char>>,
    request: HeaderMap,
    cfg: Config,
)
    requires
        plan.answers(method, path, query, request, cfg),
    ensures
        plan matches Plan::Proxy { method: asked, target: _ } ==> asked.text() == method,
        ProxyMethod::Get.text() == seq!['G', 'E', 'T'],
        ProxyMethod::Head.text() == seq!['H', 'E', 'A', 'D'],
{
    reveal_strlit("GET");
    reveal_strlit("HEAD");
    assert("GET"@ == seq!['G', 'E', 'T']);
    assert("HEAD"@ == seq!['H', 'E', 'A', 'D']);
}

} // verus!
