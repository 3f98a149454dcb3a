//! The decision whether the answer to a request is converted, and to what.
use crate::accept;
use crate::config::Config;
use crate::formats::TargetFormat;
use crate::headers;
use crate::paths;
use crate::paths::PathStyle;
use crate::query;
use crate::target::RequestTarget;
use crate::text;
use axum::http::HeaderMap;
use vstd::prelude::*;

verus! {

// --------------------------------------------------------------------- types

/// What a request's answer is converted to, and what is asked of the upstream
/// server for it.
#[derive(Debug)]
pub struct TransformDecision {
    /// The format to convert to.
    pub target: TargetFormat,
    /// The query without the parameters that name a format.
    pub upstream_query: Option<String>,
}

// ---------------------------------------------------------------- statements

/// The extension of an image that can be converted.
pub open spec fn is_image_extension(ext: Seq<char>) -> bool {
    let name = text::lowered(ext);
    name == "jpg"@ || name == "jpeg"@ || name == "png"@
}

/// The path of an image that can be converted.
pub open spec fn is_image_path(path: Seq<char>, style: PathStyle) -> bool {
    match paths::file_name(text::trimmed_end_of(path, '/'), style) {
        Some(name) => match paths::extension(name) {
            Some(ext) => is_image_extension(ext),
            None => false,
        },
        None => false,
    }
}

/// The format that is chosen: the one that the query asks for; failing that,
/// where it is enabled, the one that the `Accept` field allows.
pub open spec fn chosen_format(
    query: Option<Seq<char>>,
    accept: Option<Seq<u8>>,
    enable_accept_negotiation: bool,
) -> Option<TargetFormat> {
    match query::requested(query::query_pairs(query)) {
        Some(target) => Some(target),
        None => if enable_accept_negotiation {
            accept::negotiated(accept)
        } else {
            None
        },
    }
}

/// The format that the answer to a request is converted to, if it is converted:
/// it is not where a range is asked for, nor where the path is not that of an
/// image.
pub open spec fn transform_target(
    path: Seq<char>,
    query: Option<Seq<char>>,
    request: HeaderMap,
    enable_accept_negotiation: bool,
    style: PathStyle,
) -> Option<TargetFormat> {
    if headers::first_value(request, "range"@) is None && is_image_path(path, style) {
        chosen_format(
            query,
            headers::first_value(request, "accept"@),
            enable_accept_negotiation,
        )
    } else {
        None
    }
}

// ---------------------------------------------------------------------- laws

/// A request for a range is never converted, whatever else it asks for.
pub proof fn range_requests_are_not_converted(
    path: Seq<char>,
    query: Option<Seq<char>>,
    request: HeaderMap,
    enable_accept_negotiation: bool,
    style: PathStyle,
)
    requires
        headers::first_value(request, "range"@) is Some,
    ensures
        transform_target(path, query, request, enable_accept_negotiation, style) is None,
{
}

/// What is converted has the path of an image.
pub proof fn only_images_are_converted(
    path: Seq<char>,
    query: Option<Seq<char>>,
    request: HeaderMap,
    enable_accept_negotiation: bool,
    style: PathStyle,
)
    requires
        !is_image_path(path, style),
    ensures
        transform_target(path, query, request, enable_accept_negotiation, style) is None,
{
}

/// Where the query asks for a format, the `Accept` field and the setting for it
/// make no difference.
pub proof fn format_parameter_prevails(
    path: Seq<char>,
    query: Option<Seq<char>>,
    request: HeaderMap,
    enable_accept_negotiation: bool,
    style: PathStyle,
)
    requires
        query::requested(query::query_pairs(query)) is Some,
        headers::first_value(request, "range"@) is None,
        is_image_path(path, style),
    ensures
        transform_target(path, query, request, enable_accept_negotiation, style) == query::requested(
            query::query_pairs(query),
        ),
{
}

/// Unless it is enabled, the `Accept` field chooses no format.
pub proof fn accept_is_ignored_unless_enabled(
    path: Seq<char>,
    query: Option<Seq<char>>,
    request: HeaderMap,
    style: PathStyle,
)
    requires
        query::requested(query::query_pairs(query)) is None,
    ensures
        transform_target(path, query, request, false, style) is None,
{
}

/// Slashes at the end of a path make no difference.
pub proof fn trailing_slash_makes_no_difference(path: Seq<char>, style: PathStyle)
    ensures
        is_image_path(path.push('/'), style) == is_image_path(path, style),
{
    assert(path.push('/').drop_last() == path);
}

/// Slashes at the end of a path have no case.
proof fn lemma_trimmed_end_of_lowered(path: Seq<char>)
    ensures
        text::trimmed_end_of(text::lowered(path), '/') == text::lowered(
            text::trimmed_end_of(path, '/'),
        ),
    decreases path.len(),
{
    if path.len() > 0 {
        assert(text::lowered(path).last() == text::lower(path.last()));
        assert(text::lowered(path).drop_last() == text::lowered(path.drop_last()));
        lemma_trimmed_end_of_lowered(path.drop_last());
    }
}

/// The path with its letters in lower case is that of an image where the path is.
proof fn lemma_image_path_of_lowered(path: Seq<char>, style: PathStyle)
    ensures
        is_image_path(text::lowered(path), style) == is_image_path(path, style),
{
    let trimmed = text::trimmed_end_of(path, '/');
    lemma_trimmed_end_of_lowered(path);
    paths::file_name_keeps_its_case(trimmed, style);
    if let Some(name) = paths::file_name(trimmed, style) {
        paths::extension_keeps_its_case(name);
        if let Some(ext) = paths::extension(name) {
            assert(text::lowered(text::lowered(ext)) == text::lowered(ext));
        }
    }
}

/// The case of ASCII letters makes no difference to whether a path is that of an
/// image.
pub proof fn image_paths_have_no_case(p: Seq<char>, q: Seq<char>, style: PathStyle)
    requires
        text::lowered(p) == text::lowered(q),
    ensures
        is_image_path(p, style) == is_image_path(q, style),
{
    lemma_image_path_of_lowered(p, style);
    lemma_image_path_of_lowered(q, style);
}

/// A path that does not end with a slash is not trimmed.
proof fn lemma_not_trimmed(path: Seq<char>)
    requires
        path.len() > 0,
        path.last() != '/',
    ensures
        text::trimmed_end_of(path, '/') == path,
{
}

/// Wherever a file stands, and whatever it is called before its last dot, it is
/// an image exactly if behind that dot stands `jpg`, `jpeg` or `png`, in any
/// case.
pub proof fn extension_tells_an_image(
    dir: Seq<char>,
    stem: Seq<char>,
    ext: Seq<char>,
    style: PathStyle,
)
    requires
        stem.len() > 0,
        paths::has_no_separator(stem, style),
        paths::has_no_separator(ext, style),
        text::free_of(ext, '.'),
        !paths::begins_like_a_share(dir.push('/') + stem, style),
    ensures
        is_image_path(dir.push('/') + (stem.push('.') + ext), style) <==> (text::lowered(ext)
            == seq!['j', 'p', 'g'] || text::lowered(ext) == seq!['j', 'p', 'e', 'g']
            || text::lowered(ext) == seq!['p', 'n', 'g']),
{
    let name = stem.push('.') + ext;
    let path = dir.push('/') + name;
    reveal_strlit("jpg");
    reveal_strlit("jpeg");
    reveal_strlit("png");
    assert("jpg"@ == seq!['j', 'p', 'g']);
    assert("jpeg"@ == seq!['j', 'p', 'e', 'g']);
    assert("png"@ == seq!['p', 'n', 'g']);
    assert(paths::has_no_separator(name, style)) by {
        assert forall|i: int| 0 <= i < name.len() implies !paths::is_separator(
            #[trigger] name[i],
            style,
        ) by {
            if i < stem.len() {
                assert(name[i] == stem[i]);
            } else if i > stem.len() {
                assert(name[i] == ext[i - stem.len() - 1]);
            }
        }
    }
    assert(path.last() == name.last());
    assert(!paths::is_separator(name[name.len() - 1], style));
    lemma_not_trimmed(path);
    paths::last_dot_divides_a_name(stem, ext);
    assert(!paths::begins_like_a_share(path, style)) by {
        let front = dir.push('/') + stem;
        assert(path[0] == front[0] && path[1] == front[1]);
    }
    if name == seq!['.', '.'] {
        assert(ext == Seq::<char>::empty()) by {
            assert(stem.len() + 1 + ext.len() == 2);
        }
        assert(text::lowered(ext).len() == 0);
        lemma_parent_is_no_file(dir, style);
    } else {
        assert(name[stem.len() as int] == '.');
        assert(name != seq!['.']) by {
            assert(name.len() >= 2);
        }
        paths::file_name_stands_behind_the_last_separator(dir, '/', name, style);
    }
}

/// Two dots are no file.
proof fn lemma_parent_is_no_file(dir: Seq<char>, style: PathStyle)
    requires
        !paths::begins_like_a_share(dir.push('/') + seq!['.', '.'], style),
    ensures
        !is_image_path(dir.push('/') + seq!['.', '.'], style),
{
    let path = dir.push('/') + seq!['.', '.'];
    lemma_not_trimmed(path);
    assert(!paths::begins_like_a_share(dir.push('/'), style)) by {
        if dir.len() > 0 {
            assert(path[0] == dir.push('/')[0] && path[1] == dir.push('/')[1]);
        }
    }
    paths::empty_components_are_passed_over(dir, '/', style);
}

/// A file without a dot in its name, or with one in front only, is no image.
pub proof fn names_without_extension_are_no_images(
    dir: Seq<char>,
    word: Seq<char>,
    style: PathStyle,
)
    requires
        word.len() > 0,
        paths::has_no_separator(word, style),
        text::free_of(word, '.'),
        !paths::begins_like_a_share(dir.push('/') + word, style),
    ensures
        !is_image_path(dir.push('/') + word, style),
        !is_image_path(dir.push('/') + (seq!['.'] + word), style),
{
    let hidden = seq!['.'] + word;
    let a = dir.push('/') + word;
    let b = dir.push('/') + hidden;
    assert(word[0] != '.');
    assert(paths::has_no_separator(hidden, style)) by {
        assert forall|i: int| 0 <= i < hidden.len() implies !paths::is_separator(
            #[trigger] hidden[i],
            style,
        ) by {
            if i > 0 {
                assert(hidden[i] == word[i - 1]);
            }
        }
    }
    assert(hidden[1] == word[0]);
    assert(!paths::is_separator(word[word.len() - 1], style));
    assert(a.last() == word.last() && b.last() == word.last());
    lemma_not_trimmed(a);
    lemma_not_trimmed(b);
    assert(!paths::begins_like_a_share(b, style)) by {
        if dir.len() > 0 {
            assert(b[0] == a[0] && b[1] == a[1]);
        }
    }
    paths::file_name_stands_behind_the_last_separator(dir, '/', word, style);
    paths::file_name_stands_behind_the_last_separator(dir, '/', hidden, style);
    paths::last_dot_divides_a_name(word, word);
}

/// A request for an image with a parameter called `format`, in any case, behind
/// all others is answered in the format that the parameter names. Where it names
/// none, the `Accept` field decides if that is enabled, and otherwise nothing is
/// converted.
pub proof fn format_parameter_is_obeyed(
    path: Seq<char>,
    raw: Seq<char>,
    key: Seq<char>,
    value: Seq<char>,
    request: HeaderMap,
    enable_accept_negotiation: bool,
    style: PathStyle,
)
    requires
        is_image_path(path, style),
        headers::first_value(request, "range"@) is None,
        text::lowered(key) == seq!['f', 'o', 'r', 'm', 'a', 't'],
        text::free_of(value, '&'),
        !value.contains('+'),
        !value.contains('%'),
    ensures
        transform_target(
            path,
            Some(raw.push('&') + (key.push('=') + value)),
            request,
            enable_accept_negotiation,
            style,
        ) == match crate::formats::format_named(value) {
            Some(format) => Some(format),
            None => if enable_accept_negotiation {
                accept::negotiated(headers::first_value(request, "accept"@))
            } else {
                None
            },
        },
        transform_target(
            path,
            Some(key.push('=') + value),
            request,
            enable_accept_negotiation,
            style,
        ) == transform_target(
            path,
            Some(raw.push('&') + (key.push('=') + value)),
            request,
            enable_accept_negotiation,
            style,
        ),
{
    let piece = key.push('=') + value;
    assert forall|i: int| 0 <= i < key.len() implies 'a' <= text::lower(#[trigger] key[i])
        <= 'z' by {
        assert(text::lowered(key)[i] == text::lower(key[i]));
        assert(text::lowered(key).len() == 6);
    }
    assert(text::free_of(key, '=') && !key.contains('+') && !key.contains('%')) by {
        assert forall|i: int| 0 <= i < key.len() implies key[i] != '=' && key[i] != '+' && key[i]
            != '%' by {
            assert('a' <= text::lower(key[i]) <= 'z');
        }
    }
    assert(text::free_of(piece, '&')) by {
        assert forall|i: int| 0 <= i < piece.len() implies piece[i] != '&' by {
            if i < key.len() {
                assert(piece[i] == key[i]);
                assert('a' <= text::lower(key[i]) <= 'z');
            } else if i > key.len() {
                assert(piece[i] == value[i - key.len() - 1]);
            }
        }
    }
    query::parameters_read_back(key, value);
    query::every_piece_is_a_parameter(raw, piece);
    query::last_format_parameter_decides(query::query_pairs(Some(raw)), key, value);
    let none = Seq::<(Seq<char>, Seq<char>)>::empty();
    query::last_format_parameter_decides(none, key, value);
    assert(none.push((key, value)) == seq![(key, value)]);
}

/// A request for an image that asks for no format by a parameter is answered in
/// the one that its `Accept` field chooses, if that is enabled.
pub proof fn accept_decides_where_no_parameter_does(
    path: Seq<char>,
    query: Option<Seq<char>>,
    request: HeaderMap,
    style: PathStyle,
)
    requires
        is_image_path(path, style),
        headers::first_value(request, "range"@) is None,
        query::requested(query::query_pairs(query)) is None,
    ensures
        transform_target(path, query, request, true, style) == accept::negotiated(
            headers::first_value(request, "accept"@),
        ),
{
}

// ---------------------------------------------------------------- operations

/// Whether the path is that of an image that can be converted. Only a slash
/// separates the components of the path, and on Windows a backslash as well.
pub fn is_transformable_image_path(path: &str, style: PathStyle) -> (r: bool)
    ensures
        r == is_image_path(path@, style),
{
    let chars = text::chars_of(path);
    let trimmed = text::trim_end_of(chars.as_slice(), '/');
    let name = match paths::name_of(trimmed.as_slice(), style) {
        Some(name) => name,
        None => return false,
    };
    let ext = match paths::extension_of(name.as_slice()) {
        Some(ext) => ext,
        None => return false,
    };
    let lowered = text::to_lowered(ext.as_slice());
    text::is_text(lowered.as_slice(), "jpg") || text::is_text(lowered.as_slice(), "jpeg")
        || text::is_text(lowered.as_slice(), "png")
}

/// Decides whether the answer to a request is converted.
pub fn decide_transform(target: &RequestTarget, request: &HeaderMap, cfg: &Config) -> (r: Option<
    TransformDecision,
>)
    ensures
        match r {
            Some(decision) => transform_target(
                target.parts().0,
                target.parts().1,
                *request,
                cfg.enable_accept_negotiation,
                cfg.path_style,
            ) == Some(decision.target) && query::optional_string_view(decision.upstream_query)
                == query::stripped(target.parts().1),
            None => transform_target(
                target.parts().0,
                target.parts().1,
                *request,
                cfg.enable_accept_negotiation,
                cfg.path_style,
            ) is None,
        },
{
    proof {
        reveal_strlit("range");
        reveal_strlit("accept");
    }
    if headers::has_field(request, "range") {
        return None;
    }
    if !is_transformable_image_path(target.path.as_str(), cfg.path_style) {
        return None;
    }
    let raw = match &target.query {
        Some(raw) => Some(raw.as_str()),
        None => None,
    };
    let pairs = query::parse_query(raw);
    let chosen = match query::requested_format(&pairs) {
        Some(format) => Some(format),
        None => if cfg.enable_accept_negotiation {
            match headers::first_header(request, "accept") {
                Some(value) => accept::negotiate_accept(Some(value.as_slice())),
                None => accept::negotiate_accept(None),
            }
        } else {
            None
        },
    };
    match chosen {
        Some(format) => Some(
            TransformDecision { target: format, upstream_query: query::strip_format_query_raw(raw) },
        ),
        None => None,
    }
}

} // verus!
