//! The target of a request: its path and its query, and the URL that it has at
//! the upstream server.
use crate::query;
use crate::text;
use axum::http::uri::{InvalidUri, PathAndQuery};
use vstd::prelude::*;

verus! {

// ------------------------------------------------------------- outside calls

#[verifier::external_type_specification]
#[verifier::external_body]
pub struct ExInvalidUri(InvalidUri);

#[verifier::external_type_specification]
#[verifier::external_body]
pub struct ExParseError(url::ParseError);

/// Calls `PathAndQuery::try_from` on a text and reads `path` and `query` off
/// the outcome. It is trusted to accept exactly the texts for which
/// `read_target` has an answer, and to split them as it says.
#[verifier::external_body]
fn parse_path_and_query(s: &str) -> (r: Result<RequestTarget, InvalidUri>)
    ensures
        match r {
            Ok(target) => read_target(s@) == Some(target.parts()),
            Err(_) => read_target(s@) is None,
        },
{
    let parsed = PathAndQuery::try_from(s)?;
    Ok(RequestTarget {
        path: parsed.path().to_string(),
        query: parsed.query().map(str::to_string),
    })
}

/// What `Url::parse` makes of a text: the serialisation of the URL that it
/// writes, if it writes an absolute one.
pub uninterp spec fn parsed_url(written: Seq<char>) -> Option<Seq<char>>;

/// Calls `Url::parse` and serialises the outcome with `Url::as_str`. Whether a
/// text is accepted, and how its URL is serialised, depends on the text alone.
#[verifier::external_body]
pub(crate) fn parse_url(s: &str) -> (r: Result<String, url::ParseError>)
    ensures
        parsed_url(s@) == match r {
            Ok(serialised) => Some(serialised@),
            Err(_) => None,
        },
{
    Ok(url::Url::parse(s)?.as_str().to_string())
}

// ---------------------------------------------------------------- statements

/// The greatest length of a request target, in bytes.
pub const MAX_TARGET_LEN: usize = 65534;

/// The number of bytes that a text takes in UTF-8.
pub open spec fn byte_len(s: Seq<char>) -> nat {
    vstd::utf8::encode_utf8(s).len()
}

/// A character that may stand in a path.
pub open spec fn is_path_char(c: char) -> bool {
    ||| c >= '\u{80}'
    ||| c == '!'
    ||| c == '"'
    ||| '$' <= c <= ';'
    ||| c == '='
    ||| '@' <= c <= '_'
    ||| 'a' <= c <= '~'
}

/// A character that may stand in a query.
pub open spec fn is_query_char(c: char) -> bool {
    ||| c >= '\u{80}'
    ||| c == '!'
    ||| '$' <= c <= ';'
    ||| c == '='
    ||| '?' <= c <= '~'
}

/// Nothing but characters that may stand in a path.
pub open spec fn all_path_chars(s: Seq<char>) -> bool {
    forall|i: int| 0 <= i < s.len() ==> is_path_char(#[trigger] s[i])
}

/// Nothing but characters that may stand in a query.
pub open spec fn all_query_chars(s: Seq<char>) -> bool {
    forall|i: int| 0 <= i < s.len() ==> is_query_char(#[trigger] s[i])
}

/// The path that a written target has: what stands before its first question
/// mark or number sign.
pub open spec fn written_path(s: Seq<char>) -> Seq<char> {
    text::before_first(text::before_first(s, '#'), '?')
}

/// The query that a written target has: what stands between its first question
/// mark and its first number sign.
pub open spec fn written_query(s: Seq<char>) -> Option<Seq<char>> {
    let body = text::before_first(s, '#');
    if body.contains('?') {
        Some(text::after_first(body, '?'))
    } else {
        None
    }
}

/// The path and the query of a written target. It is `*`, or begins with a
/// slash or with an empty path; every character may stand where it stands, and
/// it is not too long. An empty path is read as a slash.
pub open spec fn read_target(s: Seq<char>) -> Option<(Seq<char>, Option<Seq<char>>)> {
    let path = written_path(s);
    let query = written_query(s);
    if s.len() > 0 && byte_len(s) <= MAX_TARGET_LEN && (s == seq!['*'] || ((s[0] == '/' || s[0]
        == '?' || s[0] == '#') && all_path_chars(path) && (query matches Some(q)
        ==> all_query_chars(q)))) {
        Some((
            if path.len() == 0 {
                seq!['/']
            } else {
                path
            },
            query,
        ))
    } else {
        None
    }
}

/// The path and the query of a target that is written in origin form, or as `*`.
pub open spec fn origin_target(s: Seq<char>) -> Option<(Seq<char>, Option<Seq<char>>)> {
    if s.len() > 0 && (s[0] == '/' || s == seq!['*']) {
        read_target(s)
    } else {
        None
    }
}

/// A path and a query with it that a request can have.
pub open spec fn is_target(path: Seq<char>, query: Option<Seq<char>>) -> bool {
    &&& path.len() > 0
    &&& path == seq!['*'] ==> query is None
    &&& path[0] == '/' || path == seq!['*']
    &&& all_path_chars(path)
    &&& match query {
        Some(q) => all_query_chars(q) && byte_len(path) + 1 + byte_len(q) <= MAX_TARGET_LEN,
        None => byte_len(path) <= MAX_TARGET_LEN,
    }
}

/// A query, where it is not empty.
pub open spec fn not_empty(query: Option<Seq<char>>) -> Option<Seq<char>> {
    match query {
        Some(q) => if q.len() == 0 {
            None
        } else {
            Some(q)
        },
        None => None,
    }
}

/// The target with the path `path` and the query `query`, written out.
pub open spec fn target_text(path: Seq<char>, query: Option<Seq<char>>) -> Seq<char> {
    match query {
        Some(q) => path.push('?') + q,
        None => path,
    }
}

/// The text of a target's URL at the upstream server with the base URL `base`.
pub open spec fn upstream_text(
    base: Seq<char>,
    path: Seq<char>,
    query: Option<Seq<char>>,
) -> Seq<char> {
    text::trimmed_end_of(base, '/') + target_text(path, query)
}

// --------------------------------------------------------------------- types

/// The target of a request.
#[derive(Debug, Clone, PartialEq, Eq)]
pub struct RequestTarget {
    /// The path, percent-encoded as the client sent it.
    pub path: String,
    /// What stands behind the question mark, if there is one.
    pub query: Option<String>,
}

/// A URL at the upstream server cannot be built.
#[derive(Debug, Clone, Copy, PartialEq, Eq, Structural)]
pub enum UpstreamUrlError {
    /// What the parts put together write is not an absolute URL.
    NotAUrl,
}

impl UpstreamUrlError {
    /// The text of the error.
    pub fn message(self) -> (r: &'static str)
        ensures
            r@ == "failed to build upstream URL"@,
    {
        "failed to build upstream URL"
    }
}

impl RequestTarget {
    /// The path and the query.
    pub open spec fn parts(self) -> (Seq<char>, Option<Seq<char>>) {
        (self.path@, query::optional_string_view(self.query))
    }

    /// A target that a request can have.
    pub open spec fn wf(self) -> bool {
        is_target(self.parts().0, self.parts().1)
    }
}

// -------------------------------------------------------------------- lemmas

/// The encoding of two texts one behind the other.
pub proof fn lemma_byte_len_of_two(a: Seq<char>, b: Seq<char>)
    ensures
        byte_len(a + b) == byte_len(a) + byte_len(b),
    decreases a.len(),
{
    if a.len() == 0 {
        assert(a + b == b);
    } else {
        assert((a + b).drop_first() == a.drop_first() + b);
        lemma_byte_len_of_two(a.drop_first(), b);
    }
}

/// An ASCII character takes one byte.
pub proof fn lemma_byte_len_of_ascii(c: char)
    requires
        c <= '\u{7f}',
    ensures
        byte_len(seq![c]) == 1,
{
    reveal_with_fuel(vstd::utf8::encode_utf8, 2);
    assert(seq![c].drop_first() == Seq::<char>::empty());
}

/// What a written target is read as.
proof fn lemma_target_is_read(path: Seq<char>, query: Option<Seq<char>>)
    requires
        is_target(path, query),
    ensures
        read_target(target_text(path, query)) == Some((path, query)),
{
    let s = target_text(path, query);
    text::lemma_first_place(s, '#');
    assert forall|i: int| 0 <= i < s.len() implies s[i] != '#' by {
        if i < path.len() {
            assert(is_path_char(path[i]));
        } else if i > path.len() {
            assert(is_query_char(query->0[i - path.len() - 1]));
        }
    }
    assert(text::before_first(s, '#') == s);
    text::lemma_first_place(s, '?');
    let p = text::first_place(s, '?');
    match query {
        Some(q) => {
            assert(s[path.len() as int] == '?');
            assert(p == path.len()) by {
                if p < path.len() {
                    assert(is_path_char(path[p]));
                }
                if p > path.len() {
                    assert(s[path.len() as int] != '?');
                }
            }
            assert(s.take(p) == path);
            assert(s.contains('?'));
            assert(s.skip(p + 1) == q);
            assert(path.push('?') == path + seq!['?']);
            lemma_byte_len_of_two(path, seq!['?']);
            lemma_byte_len_of_ascii('?');
            lemma_byte_len_of_two(path.push('?'), q);
            assert(s[0] == path[0]);
        },
        None => {
            assert(p == s.len()) by {
                if p < s.len() {
                    assert(is_path_char(path[p]));
                }
            }
            assert(s.take(p) == path);
        },
    }
}

/// A target written in origin form is one that a request can have.
proof fn lemma_written_target(s: Seq<char>)
    requires
        read_target(s) is Some,
        s[0] == '/' || s == seq!['*'],
    ensures
        is_target((read_target(s)->0).0, (read_target(s)->0).1),
{
    let body = text::before_first(s, '#');
    let path = written_path(s);
    text::lemma_first_place(s, '#');
    text::lemma_first_place(body, '?');
    let p = text::first_place(body, '?');
    let q = text::first_place(s, '#');
    assert(s[0] != '#');
    assert(q > 0);
    assert(body[0] == s[0]);
    assert(p > 0);
    assert(path[0] == s[0]);
    assert(s == body + s.skip(q));
    lemma_byte_len_of_two(body, s.skip(q));
    if body.contains('?') {
        let query = text::after_first(body, '?');
        assert(body == path + seq!['?'] + query);
        lemma_byte_len_of_two(path + seq!['?'], query);
        lemma_byte_len_of_two(path, seq!['?']);
        lemma_byte_len_of_ascii('?');
        if path == seq!['*'] {
            assert(s[0] == '*');
            assert(s.len() == 1);
            assert(body.len() >= 2);
        }
    } else {
        assert(path == body);
        if s == seq!['*'] {
            assert(path == s);
        }
    }
    if s == seq!['*'] {
        assert(is_path_char('*'));
        assert(path.len() <= 1);
        assert(path == s);
    }
}

/// A path and a query are those that a request can have exactly if they are
/// read back once they were written out.
proof fn lemma_target_reads_back(path: Seq<char>, query: Option<Seq<char>>)
    ensures
        is_target(path, query) <==> read_target(target_text(path, query)) == Some((path, query)),
{
    let s = target_text(path, query);
    if is_target(path, query) {
        lemma_target_is_read(path, query);
    }
    if read_target(s) == Some((path, query)) {
        text::lemma_first_place(s, '#');
        let body = text::before_first(s, '#');
        text::lemma_first_place(body, '?');
        assert(path.len() > 0);
        assert(s[0] == path[0]);
        if s[0] == '#' {
            assert(body.len() == 0);
            assert(path == seq!['/']);
        }
        if s[0] == '?' {
            assert(text::first_place(s, '#') > 0);
            assert(body[0] == s[0]);
            assert(written_path(s).len() == 0);
            assert(path == seq!['/']);
        }
        lemma_written_target(s);
    }
}

/// Pieces of a query hold nothing but characters that may stand in one.
proof fn lemma_pieces_of_query(raw: Seq<char>)
    requires
        all_query_chars(raw),
    ensures
        forall|i: int| #![trigger text::pieces(raw, '&')[i]]
            0 <= i < text::pieces(raw, '&').len() ==> all_query_chars(text::pieces(raw, '&')[i]),
    decreases raw.len(),
{
    if raw.len() > 0 {
        let front = raw.drop_last();
        assert(all_query_chars(front));
        lemma_pieces_of_query(front);
        text::lemma_pieces_are_free(front, '&');
        let init = text::pieces(front, '&');
        let all = text::pieces(raw, '&');
        assert(all_query_chars(init.last()));
        assert(is_query_char(raw.last()));
        assert forall|i: int| #![trigger all[i]] 0 <= i < all.len() implies all_query_chars(
            all[i],
        ) by {
            if i < init.len() - 1 {
                assert(all[i] == init[i]);
            } else if raw.last() == '&' && i == init.len() - 1 {
                assert(all[i] == init[i]);
            }
        }
    }
}

/// The pieces that remain of a query are pieces of it, and joined they are no
/// longer than all of them joined.
proof fn lemma_other_pieces_fit(parts: Seq<Seq<char>>)
    requires
        forall|i: int| 0 <= i < parts.len() ==> all_query_chars(#[trigger] parts[i]),
    ensures
        all_query_chars(text::joined(query::other_pieces(parts), '&')),
        byte_len(text::joined(query::other_pieces(parts), '&')) <= byte_len(
            text::joined(parts, '&'),
        ),
        query::other_pieces(parts).len() <= parts.len(),
    decreases parts.len(),
{
    if parts.len() > 0 {
        let front = parts.drop_last();
        let last = parts.last();
        assert forall|i: int| 0 <= i < front.len() implies all_query_chars(#[trigger] front[i]) by {
            assert(front[i] == parts[i]);
        }
        lemma_other_pieces_fit(front);
        let kept = query::other_pieces(front);
        let short = text::joined(kept, '&');
        let long = text::joined(front, '&');
        let mark = seq!['&'];
        assert(long.push('&') + last == long + mark + last);
        lemma_byte_len_of_two(long, mark);
        lemma_byte_len_of_two(long + mark, last);
        assert(short.push('&') + last == short + mark + last);
        lemma_byte_len_of_two(short, mark);
        lemma_byte_len_of_two(short + mark, last);
        assert(kept.push(last).drop_last() == kept);
        assert(all_query_chars(last));
        assert(all_query_chars(short.push('&') + last));
        if parts.len() == 1 {
            assert(front == Seq::<Seq<char>>::empty());
            assert(byte_len(Seq::<char>::empty()) == 0);
        }
    }
}

/// A stripped query can stand wherever the query can.
pub proof fn stripped_query_fits(path: Seq<char>, query: Option<Seq<char>>)
    requires
        is_target(path, query),
    ensures
        is_target(path, query::stripped(query)),
        is_target(path, not_empty(query::stripped(query))),
{
    if let Some(raw) = query {
        let parts = text::pieces(raw, '&');
        lemma_pieces_of_query(raw);
        lemma_other_pieces_fit(parts);
        text::lemma_joined_of_pieces(raw, '&');
    }
}

// ---------------------------------------------------------------- operations

/// Whether a string is the given text.
fn is_text_of(s: &String, expected: &str) -> (r: bool)
    ensures
        r == (s@ == expected@),
{
    let chars = text::chars_of(s.as_str());
    text::is_text(chars.as_slice(), expected)
}

/// Whether an optional string is the given text, or both are missing.
fn is_optional_text_of(s: &Option<String>, expected: Option<&str>) -> (r: bool)
    ensures
        r == (query::optional_string_view(*s) == query::optional_view(expected)),
{
    match (s, expected) {
        (Some(s), Some(expected)) => is_text_of(s, expected),
        (None, None) => true,
        _ => false,
    }
}

impl RequestTarget {
    /// The target with a path and a query, if a request can have it.
    pub fn new(path: &str, query: Option<&str>) -> (r: Option<RequestTarget>)
        ensures
            match r {
                Some(target) => target.wf() && target.parts() == (
                    path@,
                    query::optional_view(query),
                ),
                None => !is_target(path@, query::optional_view(query)),
            },
    {
        let mut written = path.to_owned();
        if let Some(q) = query {
            written.push('?');
            written.append(q);
        }
        let ghost wanted = (path@, query::optional_view(query));
        assert(written@ == target_text(wanted.0, wanted.1));
        proof {
            lemma_target_reads_back(wanted.0, wanted.1);
        }
        match parse_path_and_query(written.as_str()) {
            Ok(target) => if is_text_of(&target.path, path) && is_optional_text_of(
                &target.query,
                query,
            ) {
                Some(target)
            } else {
                None
            },
            Err(_) => None,
        }
    }

    /// The target that a request line writes in origin form, or `*`.
    pub fn parse(written: &str) -> (r: Option<RequestTarget>)
        ensures
            match r {
                Some(target) => target.wf() && read_target(written@) == Some(target.parts()),
                None => read_target(written@) is None || (written@[0] != '/' && written@ != seq!['*']),
            },
            origin_target(written@) == match r {
                Some(target) => Some(target.parts()),
                None => None,
            },
    {
        let chars = text::chars_of(written);
        let star = chars.len() == 1 && chars[0] == '*';
        if star {
            assert(written@ == seq!['*']);
        }
        if chars.len() == 0 || !(star || chars[0] == '/') {
            return None;
        }
        match parse_path_and_query(written) {
            Ok(target) => {
                proof {
                    lemma_written_target(written@);
                }
                Some(target)
            },
            Err(_) => None,
        }
    }
}

/// The target with another query; an empty one is left out.
pub fn uri_with_query(target: &RequestTarget, query: Option<&str>) -> (r: RequestTarget)
    requires
        target.wf(),
        is_target(target.path@, not_empty(query::optional_view(query))),
    ensures
        r.parts() == (target.path@, not_empty(query::optional_view(query))),
        r.wf(),
{
    let mut written = target.path.clone();
    if let Some(q) = query {
        if !q.is_empty() {
            written.push('?');
            written.append(q);
        }
    }
    assert(written@ == target_text(target.path@, not_empty(query::optional_view(query))));
    proof {
        lemma_target_is_read(target.path@, not_empty(query::optional_view(query)));
    }
    match parse_path_and_query(written.as_str()) {
        Ok(new) => new,
        Err(_) => {
            assert(false);
            RequestTarget { path: written, query: None }
        },
    }
}

/// The target without its `format` parameters: what the upstream server is
/// asked for.
pub fn without_format(target: &RequestTarget) -> (r: RequestTarget)
    requires
        target.wf(),
    ensures
        r.parts() == (target.path@, not_empty(query::stripped(target.parts().1))),
        r.wf(),
{
    let raw: Option<&str> = match &target.query {
        Some(raw) => Some(raw.as_str()),
        None => None,
    };
    let kept = query::strip_format_query_raw(raw);
    let kept_str: Option<&str> = match &kept {
        Some(s) => Some(s.as_str()),
        None => None,
    };
    proof {
        stripped_query_fits(target.parts().0, target.parts().1);
    }
    uri_with_query(target, kept_str)
}

/// The URL of a target at the upstream server.
pub fn build_upstream_url(base: &str, target: &RequestTarget) -> (r: Result<
    String,
    UpstreamUrlError,
>)
    ensures
        match r {
            Ok(serialised) => parsed_url(
                upstream_text(base@, target.parts().0, target.parts().1),
            ) == Some(serialised@),
            Err(UpstreamUrlError::NotAUrl) => parsed_url(
                upstream_text(base@, target.parts().0, target.parts().1),
            ) is None,
        },
{
    let chars = text::chars_of(base);
    let trimmed = text::trim_end_of(chars.as_slice(), '/');
    let mut upstream = text::string_of(trimmed.as_slice());
    upstream.append(target.path.as_str());
    if let Some(q) = &target.query {
        upstream.push('?');
        upstream.append(q.as_str());
    }
    assert(upstream@ == upstream_text(base@, target.parts().0, target.parts().1));
    match parse_url(upstream.as_str()) {
        Ok(serialised) => Ok(serialised),
        Err(_) => Err(UpstreamUrlError::NotAUrl),
    }
}

// ---------------------------------------------------------------------- laws

/// The text that is read as the URL of a target at the upstream server is the
/// base without the slashes at its end, then the whole path, and then, where
/// there is a query, a question mark and the query.
pub proof fn upstream_urls_are_base_path_and_query(
    base: Seq<char>,
    slashes: Seq<char>,
    path: Seq<char>,
    query: Seq<char>,
)
    requires
        text::all_same(slashes, '/'),
        base.len() > 0 ==> base.last() != '/',
    ensures
        upstream_text(base + slashes, path, None) == base + path,
        upstream_text(base + slashes, path, Some(query)) == base + path + seq!['?'] + query,
{
    text::run_at_the_end_is_trimmed(base, slashes, '/');
    assert(base + (path.push('?') + query) == base + path + seq!['?'] + query);
}

/// Whatever the query is, and whether there is one, the URL begins with the base
/// and the path.
pub proof fn upstream_urls_begin_with_the_path(
    base: Seq<char>,
    path: Seq<char>,
    query: Option<Seq<char>>,
)
    ensures
        (text::trimmed_end_of(base, '/') + path).is_prefix_of(upstream_text(base, path, query)),
{
    let front = text::trimmed_end_of(base, '/') + path;
    let all = upstream_text(base, path, query);
    assert(all.take(front.len() as int) == front);
    assert(all.subrange(0, front.len() as int) == front);
}

/// At one upstream server different targets have different URLs.
pub proof fn upstream_urls_tell_targets_apart(
    base: Seq<char>,
    path_a: Seq<char>,
    query_a: Option<Seq<char>>,
    path_b: Seq<char>,
    query_b: Option<Seq<char>>,
)
    requires
        text::free_of(path_a, '?'),
        text::free_of(path_b, '?'),
        upstream_text(base, path_a, query_a) == upstream_text(base, path_b, query_b),
    ensures
        path_a == path_b,
        query_a == query_b,
{
    let front = text::trimmed_end_of(base, '/');
    let a = target_text(path_a, query_a);
    let b = target_text(path_b, query_b);
    let n = front.len() as int;
    assert((front + a).skip(n) == a);
    assert((front + b).skip(n) == b);
    assert(a == b);
    lemma_target_text_comes_apart(path_a, query_a);
    lemma_target_text_comes_apart(path_b, query_b);
}

/// A target that is written out comes apart at its first question mark.
proof fn lemma_target_text_comes_apart(path: Seq<char>, query: Option<Seq<char>>)
    requires
        text::free_of(path, '?'),
    ensures
        text::before_first(target_text(path, query), '?') == path,
        query == if target_text(path, query).contains('?') {
            Some(text::after_first(target_text(path, query), '?'))
        } else {
            None
        },
{
    match query {
        Some(q) => {
            text::first_separator_divides(path, '?', q);
            assert(target_text(path, query)[path.len() as int] == '?');
        },
        None => {
            text::first_separator_divides(path, '?', path);
        },
    }
}

/// The path of a target holds no question mark.
pub proof fn paths_hold_no_question_mark(path: Seq<char>, query: Option<Seq<char>>)
    requires
        is_target(path, query),
    ensures
        text::free_of(path, '?'),
        text::free_of(path, '#'),
{
    assert forall|i: int| 0 <= i < path.len() implies path[i] != '?' && path[i] != '#' by {
        assert(is_path_char(path[i]));
    }
}

/// A target that is written out is read as it was.
pub proof fn targets_read_back(path: Seq<char>, query: Option<Seq<char>>)
    requires
        is_target(path, query),
    ensures
        query is None ==> read_target(path) == Some((path, None::<Seq<char>>)),
        query matches Some(q) ==> read_target(path + seq!['?'] + q) == Some((path, query)),
{
    lemma_target_is_read(path, query);
    if let Some(q) = query {
        assert(path.push('?') + q == path + seq!['?'] + q);
    }
}

/// Of a query that the upstream server is asked with nothing is left out, unless
/// it is empty: then the server is asked without one.
pub proof fn only_empty_queries_are_left_out(query: Seq<char>)
    ensures
        query.len() > 0 ==> not_empty(Some(query)) == Some(query),
        not_empty(Some(Seq::<char>::empty())) is None,
        not_empty(None) is None,
{
}

/// What stands behind a number sign is no part of a target.
pub proof fn fragments_are_left_out(written: Seq<char>, fragment: Seq<char>)
    requires
        text::free_of(written, '#'),
        byte_len(written.push('#') + fragment) <= 65534,
        written.len() > 0,
        written[0] == '/',
    ensures
        read_target(written.push('#') + fragment) == read_target(written),
{
    let s = written.push('#') + fragment;
    text::first_separator_divides(written, '#', fragment);
    assert(s == written + (seq!['#'] + fragment));
    lemma_byte_len_of_two(written, seq!['#'] + fragment);
    assert(s[0] == '/');
}

/// A path of letters, digits, slashes and the usual marks behind a first slash is
/// one that a request can have, and so is a query of such characters, as long as
/// both together take no more than 65534 bytes.
pub proof fn usual_targets_are_targets(path: Seq<char>, query: Seq<char>)
    requires
        path.len() > 0,
        path[0] == '/',
        forall|i: int| 0 <= i < path.len() ==> is_usual(#[trigger] path[i]),
        forall|i: int| 0 <= i < query.len() ==> is_usual(#[trigger] query[i]),
        byte_len(path) + 1 + byte_len(query) <= 65534,
    ensures
        is_target(path, Some(query)),
        is_target(path, None),
{
    assert forall|i: int| 0 <= i < path.len() implies is_path_char(#[trigger] path[i]) by {
        assert(is_usual(path[i]));
    }
    assert forall|i: int| 0 <= i < query.len() implies is_query_char(#[trigger] query[i]) by {
        assert(is_usual(query[i]));
    }
    assert(path != seq!['*']) by {
        assert(seq!['*'][0] == '*');
    }
}

/// A letter, a digit or one of the marks that URLs are written with, or any
/// character beyond ASCII.
pub open spec fn is_usual(c: char) -> bool {
    ||| 'a' <= c <= 'z'
    ||| 'A' <= c <= 'Z'
    ||| '0' <= c <= '9'
    ||| c == '/' || c == '-' || c == '.' || c == '_' || c == '~' || c == '%' || c == '!' || c == '$'
        || c == '&' || c == '\'' || c == '(' || c == ')' || c == '*' || c == '+' || c == ',' || c
        == ';' || c == '=' || c == ':' || c == '@'
    ||| c >= '\u{80}'
}

/// Every target that a request can have is parsed from how it is written: the
/// path, and behind a question mark the query. What does not begin with a slash
/// is none, unless it is an asterisk.
pub proof fn written_targets_are_parsed(path: Seq<char>, query: Option<Seq<char>>, other: Seq<char>)
    requires
        is_target(path, query),
        other.len() > 0 ==> other[0] != '/' && other != seq!['*'],
    ensures
        query is None ==> origin_target(path) == Some((path, None::<Seq<char>>)),
        query matches Some(q) ==> origin_target(path + seq!['?'] + q) == Some((path, query)),
        origin_target(other) is None,
{
    targets_read_back(path, query);
    if let Some(q) = query {
        assert((path + seq!['?'] + q)[0] == path[0]);
        assert(path[0] == '/') by {
            assert(path != seq!['*']);
        }
    }
}

} // verus!
