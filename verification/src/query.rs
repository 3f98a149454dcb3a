//! The query of a request: its parameters, the format that they ask for, and
//! the query without them.
use crate::formats;
use crate::formats::TargetFormat;
use crate::text;
use url::form_urlencoded;
use vstd::prelude::*;

verus! {

// ------------------------------------------------------------- outside calls

/// What `form_urlencoded::parse` makes of a name or a value in which a plus
/// sign or a percent sign occurs: plus signs become spaces, percent-encoded
/// bytes are decoded, and the outcome is read as UTF-8, with a replacement
/// character for what is not.
pub uninterp spec fn form_decoded(encoded: Seq<char>) -> Seq<char>;

/// Calls `form_urlencoded::parse` on the bytes of `raw` and collects the pairs.
/// It is trusted to cut the text at every `&`, to skip empty pieces, to cut
/// each other piece at its first `=`, and to decode the two parts of it; a part
/// without a plus sign and a percent sign is left as it is.
#[verifier::external_body]
fn form_parse(raw: &str) -> (pairs: Vec<(String, String)>)
    ensures
        pairs@.len() == written_pieces(text::pieces(raw@, '&')).len(),
        forall|i: int|
            0 <= i < pairs@.len() ==> {
                let piece = written_pieces(text::pieces(raw@, '&'))[i];
                let key = text::before_first(piece, '=');
                let value = text::after_first(piece, '=');
                &&& (#[trigger] pairs@[i]).0@ == if is_plain(key) {
                    key
                } else {
                    form_decoded(key)
                }
                &&& pairs@[i].1@ == if is_plain(value) {
                    value
                } else {
                    form_decoded(value)
                }
            },
{
    form_urlencoded::parse(raw.as_bytes())
        .map(|(key, value)| (key.into_owned(), value.into_owned()))
        .collect()
}

// ---------------------------------------------------------------- statements

/// The views of a list of parameters.
pub open spec fn pair_views(pairs: Seq<(String, String)>) -> Seq<(Seq<char>, Seq<char>)> {
    pairs.map_values(|pair: (String, String)| (pair.0@, pair.1@))
}

/// A part of a form-encoded parameter that stands for itself.
pub open spec fn is_plain(part: Seq<char>) -> bool {
    !part.contains('+') && !part.contains('%')
}

/// A part of a form-encoded parameter, decoded.
pub open spec fn decoded(part: Seq<char>) -> Seq<char> {
    if is_plain(part) {
        part
    } else {
        form_decoded(part)
    }
}

/// The parameter that a piece of a query writes: what stands before its first
/// equals sign, and what stands behind it.
pub open spec fn pair_of(piece: Seq<char>) -> (Seq<char>, Seq<char>) {
    (decoded(text::before_first(piece, '=')), decoded(text::after_first(piece, '=')))
}

/// The pieces of a query that are not empty, in their order.
pub open spec fn written_pieces(parts: Seq<Seq<char>>) -> Seq<Seq<char>>
    decreases parts.len(),
{
    if parts.len() == 0 {
        Seq::empty()
    } else {
        let front = written_pieces(parts.drop_last());
        if parts.last().len() == 0 {
            front
        } else {
            front.push(parts.last())
        }
    }
}

/// The parameters that the pieces of a query write; empty pieces write none.
pub open spec fn pairs_of(parts: Seq<Seq<char>>) -> Seq<(Seq<char>, Seq<char>)> {
    written_pieces(parts).map_values(|piece: Seq<char>| pair_of(piece))
}

/// The parameters of a form-encoded query.
pub open spec fn form_pairs(raw: Seq<char>) -> Seq<(Seq<char>, Seq<char>)> {
    pairs_of(text::pieces(raw, '&'))
}

/// The key that a piece of a query writes is `expected`, in any case.
pub open spec fn has_key(piece: Seq<char>, expected: Seq<char>) -> bool {
    let pairs = form_pairs(text::before_first(piece, '=').push('='));
    pairs.len() > 0 && text::same_ignoring_case(pairs[0].0, expected)
}

/// The pieces of a query whose key is not `format`, in their order.
pub open spec fn other_pieces(parts: Seq<Seq<char>>) -> Seq<Seq<char>>
    decreases parts.len(),
{
    if parts.len() == 0 {
        Seq::empty()
    } else {
        let front = other_pieces(parts.drop_last());
        if has_key(parts.last(), "format"@) {
            front
        } else {
            front.push(parts.last())
        }
    }
}

/// A query without its `format` parameters: the other pieces, untouched and in
/// their order. A query that has no other piece has nothing left.
pub open spec fn stripped(query: Option<Seq<char>>) -> Option<Seq<char>> {
    match query {
        None => None,
        Some(raw) => {
            let kept = other_pieces(text::pieces(raw, '&'));
            if kept.len() == 0 {
                None
            } else {
                Some(text::joined(kept, '&'))
            }
        },
    }
}

/// The view of an optional string.
pub open spec fn optional_view(value: Option<&str>) -> Option<Seq<char>> {
    match value {
        Some(s) => Some(s@),
        None => None,
    }
}

/// The view of an optional owned string.
pub open spec fn optional_string_view(value: Option<String>) -> Option<Seq<char>> {
    match value {
        Some(s) => Some(s@),
        None => None,
    }
}

/// The parameter is called `format`, in any case.
pub open spec fn is_format_key(key: Seq<char>) -> bool {
    text::same_ignoring_case(key, "format"@)
}

/// The parameters that are not called `format`, in their order.
pub open spec fn other_pairs(pairs: Seq<(Seq<char>, Seq<char>)>) -> Seq<(Seq<char>, Seq<char>)>
    decreases pairs.len(),
{
    if pairs.len() == 0 {
        Seq::empty()
    } else {
        let front = other_pairs(pairs.drop_last());
        if is_format_key(pairs.last().0) {
            front
        } else {
            front.push(pairs.last())
        }
    }
}

/// The format that the parameters ask for: the one that the last `format`
/// parameter names, if it names one.
pub open spec fn requested(pairs: Seq<(Seq<char>, Seq<char>)>) -> Option<TargetFormat>
    decreases pairs.len(),
{
    if pairs.len() == 0 {
        None
    } else if is_format_key(pairs.last().0) {
        formats::format_named(pairs.last().1)
    } else {
        requested(pairs.drop_last())
    }
}

/// The parameters of a query that may be missing.
pub open spec fn query_pairs(query: Option<Seq<char>>) -> Seq<(Seq<char>, Seq<char>)> {
    match query {
        Some(raw) => form_pairs(raw),
        None => Seq::empty(),
    }
}

// ---------------------------------------------------------------- operations

/// The parameters of a query.
pub fn parse_query(query: Option<&str>) -> (pairs: Vec<(String, String)>)
    ensures
        pair_views(pairs@) == query_pairs(optional_view(query)),
{
    match query {
        Some(raw) => {
            let pairs = form_parse(raw);
            assert(pair_views(pairs@) == form_pairs(raw@));
            pairs
        },
        None => {
            let none: Vec<(String, String)> = Vec::new();
            assert(pair_views(none@) == Seq::<(Seq<char>, Seq<char>)>::empty());
            none
        },
    }
}

/// Whether the key that a piece of a query writes is `expected`, in any case.
pub fn query_pair_key_eq_ignore_ascii_case(pair: &str, expected: &str) -> (r: bool)
    ensures
        r == has_key(pair@, expected@),
{
    let chars = text::chars_of(pair);
    let mut key = text::stretch(chars.as_slice(), 0, text::find(chars.as_slice(), '='));
    assert(key@ == text::before_first(pair@, '='));
    key.push('=');
    let input = text::string_of(key.as_slice());
    let pairs = parse_query(Some(input.as_str()));
    if pairs.len() == 0 {
        return false;
    }
    assert(pair_views(pairs@)[0] == (pairs@[0].0@, pairs@[0].1@));
    let first = text::chars_of(pairs[0].0.as_str());
    text::is_text_ignoring_case(first.as_slice(), expected)
}

/// The query without its `format` parameters.
pub fn strip_format_query_raw(query: Option<&str>) -> (r: Option<String>)
    ensures
        optional_string_view(r) == stripped(optional_view(query)),
{
    let raw = match query {
        Some(raw) => raw,
        None => return None,
    };
    let chars = text::chars_of(raw);
    let parts = text::split(chars.as_slice(), '&');
    let ghost all = text::pieces(raw@, '&');
    let mut kept: Vec<char> = Vec::new();
    let mut any = false;
    let mut i: usize = 0;
    assert(all.take(0) == Seq::<Seq<char>>::empty());
    while i < parts.len()
        invariant
            i <= parts@.len(),
            all == text::views(parts@),
            all == text::pieces(raw@, '&'),
            any == (other_pieces(all.take(i as int)).len() > 0),
            kept@ == text::joined(other_pieces(all.take(i as int)), '&'),
        decreases parts@.len() - i,
    {
        let ghost before = other_pieces(all.take(i as int));
        assert(all.take(i + 1).drop_last() == all.take(i as int));
        assert(all.take(i + 1).last() == parts@[i as int]@);
        let piece = text::string_of(parts[i].as_slice());
        if !query_pair_key_eq_ignore_ascii_case(piece.as_str(), "format") {
            if any {
                kept.push('&');
            }
            let mut more = text::stretch(parts[i].as_slice(), 0, parts[i].len());
            assert(more@ == piece@);
            kept.append(&mut more);
            any = true;
            proof {
                let after = before.push(piece@);
                assert(after.drop_last() == before);
                assert(kept@ == text::joined(after, '&'));
            }
        }
        i = i + 1;
    }
    assert(all.take(i as int) == all);
    if any {
        Some(text::string_of(kept.as_slice()))
    } else {
        None
    }
}

/// The format that the parameters of a query ask for.
pub fn requested_format(pairs: &Vec<(String, String)>) -> (r: Option<TargetFormat>)
    ensures
        r == requested(pair_views(pairs@)),
{
    let ghost all = pair_views(pairs@);
    let mut i: usize = pairs.len();
    assert(all.take(i as int) == all);
    while i > 0
        invariant
            i <= pairs@.len(),
            all == pair_views(pairs@),
            requested(all) == requested(all.take(i as int)),
        decreases i,
    {
        i = i - 1;
        assert(all.take(i + 1).last() == (pairs@[i as int].0@, pairs@[i as int].1@));
        assert(all.take(i + 1).drop_last() == all.take(i as int));
        let key = text::chars_of(pairs[i].0.as_str());
        if text::is_text_ignoring_case(key.as_slice(), "format") {
            return formats::parse_target_format(pairs[i].1.as_str());
        }
    }
    None
}

// ---------------------------------------------------------------------- laws

/// The key of a piece that holds no `&` is what it writes before its first
/// equals sign.
proof fn lemma_key_of_piece(piece: Seq<char>, expected: Seq<char>)
    requires
        text::free_of(piece, '&'),
    ensures
        has_key(piece, expected) == text::same_ignoring_case(pair_of(piece).0, expected),
{
    let key = text::before_first(piece, '=');
    let input = key.push('=');
    text::lemma_first_place(piece, '=');
    text::lemma_first_place(input, '=');
    assert(input[key.len() as int] == '=');
    assert(input.contains('='));
    let p = text::first_place(input, '=');
    assert(p == key.len()) by {
        if p < key.len() {
            assert(input[p] == piece[p]);
        }
        if p > key.len() {
            assert(input[key.len() as int] != '=');
        }
    }
    assert(text::before_first(input, '=') == key);
    assert(text::free_of(input, '&')) by {
        assert forall|k: int| 0 <= k < input.len() implies input[k] != '&' by {
            if k < key.len() {
                assert(input[k] == piece[k]);
            }
        }
    }
    text::lemma_pieces_of_free(input, '&');
    let parts = seq![input];
    assert(parts.drop_last() == Seq::<Seq<char>>::empty());
    reveal_with_fuel(written_pieces, 2);
    assert(written_pieces(parts) == parts);
    assert(form_pairs(input)[0] == pair_of(input));
}

/// A list of pieces grows by one at its end.
proof fn lemma_pairs_of_push(parts: Seq<Seq<char>>, piece: Seq<char>)
    ensures
        pairs_of(parts.push(piece)) == if piece.len() == 0 {
            pairs_of(parts)
        } else {
            pairs_of(parts).push(pair_of(piece))
        },
{
    assert(parts.push(piece).drop_last() == parts);
    assert(pairs_of(parts.push(piece)) =~= if piece.len() == 0 {
        pairs_of(parts)
    } else {
        pairs_of(parts).push(pair_of(piece))
    });
}

/// Dropping the pieces whose key is `format` drops the parameters of that name.
proof fn lemma_other_pieces_write_other_pairs(parts: Seq<Seq<char>>)
    requires
        text::all_free_of(parts, '&'),
    ensures
        pairs_of(other_pieces(parts)) == other_pairs(pairs_of(parts)),
        text::all_free_of(other_pieces(parts), '&'),
    decreases parts.len(),
{
    if parts.len() == 0 {
        assert(pairs_of(parts) == Seq::<(Seq<char>, Seq<char>)>::empty());
    } else {
        let front = parts.drop_last();
        let last = parts.last();
        assert(text::all_free_of(front, '&'));
        assert(text::free_of(last, '&'));
        lemma_other_pieces_write_other_pairs(front);
        assert(front.push(last) == parts);
        lemma_pairs_of_push(front, last);
        lemma_pairs_of_push(other_pieces(front), last);
        lemma_key_of_piece(last, "format"@);
        if last.len() > 0 {
            assert(pairs_of(parts).drop_last() == pairs_of(front));
        }
    }
}

/// None of the other parameters is called `format`.
proof fn lemma_other_pairs(pairs: Seq<(Seq<char>, Seq<char>)>)
    ensures
        forall|i: int| #![trigger other_pairs(pairs)[i]]
            0 <= i < other_pairs(pairs).len() ==> !is_format_key(other_pairs(pairs)[i].0),
    decreases pairs.len(),
{
    if pairs.len() > 0 {
        let front = other_pairs(pairs.drop_last());
        lemma_other_pairs(pairs.drop_last());
        assert forall|i: int| #![trigger other_pairs(pairs)[i]]
            0 <= i < other_pairs(pairs).len() implies !is_format_key(other_pairs(pairs)[i].0) by {
            if i < front.len() {
                assert(other_pairs(pairs)[i] == front[i]);
            }
        }
    }
}

/// Parameters of which none is called `format` ask for no format.
proof fn lemma_nothing_requested(pairs: Seq<(Seq<char>, Seq<char>)>)
    requires
        forall|i: int| 0 <= i < pairs.len() ==> !is_format_key((#[trigger] pairs[i]).0),
    ensures
        requested(pairs) is None,
    decreases pairs.len(),
{
    if pairs.len() > 0 {
        assert forall|i: int| 0 <= i < pairs.drop_last().len() implies !is_format_key(
            (#[trigger] pairs.drop_last()[i]).0,
        ) by {
            assert(pairs.drop_last()[i] == pairs[i]);
        }
        lemma_nothing_requested(pairs.drop_last());
    }
}

/// Stripping a query takes away its `format` parameters and no other: the
/// parameters of the stripped query are those of the query that are not called
/// `format`, in their order.
pub proof fn stripping_keeps_the_other_parameters(query: Option<Seq<char>>)
    ensures
        query_pairs(stripped(query)) == other_pairs(query_pairs(query)),
{
    match query {
        None => {},
        Some(raw) => {
            let parts = text::pieces(raw, '&');
            let kept = other_pieces(parts);
            text::lemma_pieces_are_free(raw, '&');
            lemma_other_pieces_write_other_pairs(parts);
            if kept.len() > 0 {
                text::lemma_pieces_of_joined(kept, '&');
            } else {
                assert(pairs_of(kept) == Seq::<(Seq<char>, Seq<char>)>::empty());
            }
        },
    }
}

/// A stripped query has no `format` parameter left and asks for no format.
pub proof fn stripped_query_asks_for_no_format(query: Option<Seq<char>>)
    ensures
        forall|i: int| #![trigger query_pairs(stripped(query))[i]]
            0 <= i < query_pairs(stripped(query)).len() ==> !is_format_key(
                query_pairs(stripped(query))[i].0,
            ),
        requested(query_pairs(stripped(query))) is None,
{
    stripping_keeps_the_other_parameters(query);
    lemma_other_pairs(query_pairs(query));
    lemma_nothing_requested(query_pairs(stripped(query)));
}

/// Among the other pieces there is nothing to drop.
proof fn lemma_other_pieces_again(parts: Seq<Seq<char>>)
    ensures
        other_pieces(other_pieces(parts)) == other_pieces(parts),
    decreases parts.len(),
{
    if parts.len() > 0 {
        let front = other_pieces(parts.drop_last());
        lemma_other_pieces_again(parts.drop_last());
        assert(front.push(parts.last()).drop_last() == front);
    }
}

/// Stripping a stripped query changes nothing.
pub proof fn stripping_twice_is_stripping_once(query: Option<Seq<char>>)
    ensures
        stripped(stripped(query)) == stripped(query),
{
    match query {
        None => {},
        Some(raw) => {
            let parts = text::pieces(raw, '&');
            let kept = other_pieces(parts);
            text::lemma_pieces_are_free(raw, '&');
            lemma_other_pieces_write_other_pairs(parts);
            lemma_other_pieces_again(parts);
            if kept.len() > 0 {
                text::lemma_pieces_of_joined(kept, '&');
            }
        },
    }
}

/// A list without a piece whose key is `format` is kept whole.
proof fn lemma_no_format_piece(parts: Seq<Seq<char>>)
    requires
        forall|i: int| 0 <= i < parts.len() ==> !has_key(#[trigger] parts[i], "format"@),
    ensures
        other_pieces(parts) == parts,
    decreases parts.len(),
{
    if parts.len() > 0 {
        let front = parts.drop_last();
        assert forall|i: int| 0 <= i < front.len() implies !has_key(
            #[trigger] front[i],
            "format"@,
        ) by {
            assert(front[i] == parts[i]);
        }
        lemma_no_format_piece(front);
        assert(front.push(parts.last()) == parts);
    }
}

/// A query without a `format` piece is left as it is, character by character.
pub proof fn query_without_format_is_kept(raw: Seq<char>)
    requires
        forall|i: int| #![trigger text::pieces(raw, '&')[i]]
            0 <= i < text::pieces(raw, '&').len() ==> !has_key(
                text::pieces(raw, '&')[i],
                "format"@,
            ),
    ensures
        stripped(Some(raw)) == Some(raw),
{
    text::lemma_pieces_are_free(raw, '&');
    lemma_no_format_piece(text::pieces(raw, '&'));
    text::lemma_joined_of_pieces(raw, '&');
}

/// A parameter is written as its key, an equals sign and its value. Where
/// neither holds a plus sign or a percent sign, both are read as they stand; what
/// holds one is decoded.
pub proof fn parameters_read_back(key: Seq<char>, value: Seq<char>)
    requires
        text::free_of(key, '='),
    ensures
        !key.contains('+') && !key.contains('%') ==> pair_of(key.push('=') + value).0 == key
            && pair_of(key).0 == key,
        !value.contains('+') && !value.contains('%') ==> pair_of(key.push('=') + value).1
            == value,
        pair_of(key).1 == Seq::<char>::empty(),
        key.contains('+') || key.contains('%') ==> pair_of(key.push('=') + value).0
            == form_decoded(key),
        value.contains('+') || value.contains('%') ==> pair_of(key.push('=') + value).1
            == form_decoded(value),
{
    text::first_separator_divides(key, '=', value);
}

/// The parameters of a query are those of its pieces, in their order: each piece
/// between two ampersands is one, unless it is empty.
pub proof fn every_piece_is_a_parameter(raw: Seq<char>, piece: Seq<char>)
    requires
        text::free_of(piece, '&'),
        piece.len() > 0,
    ensures
        query_pairs(Some(raw.push('&') + piece)) == query_pairs(Some(raw)).push(pair_of(piece)),
        query_pairs(Some(piece)) == seq![pair_of(piece)],
        query_pairs(Some(raw.push('&'))) == query_pairs(Some(raw)),
        query_pairs(Some(Seq::<char>::empty())) == Seq::<(Seq<char>, Seq<char>)>::empty(),
        query_pairs(None) == Seq::<(Seq<char>, Seq<char>)>::empty(),
{
    let parts = text::pieces(raw, '&');
    let none = Seq::<char>::empty();
    text::lemma_pieces_of_two(raw, piece, '&');
    text::lemma_pieces_of_free(piece, '&');
    assert(parts + seq![piece] == parts.push(piece));
    lemma_pairs_of_push(parts, piece);
    let empty = Seq::<Seq<char>>::empty();
    lemma_pairs_of_push(empty, piece);
    lemma_pairs_of_push(empty, none);
    assert(empty.push(piece) == seq![piece]);
    assert(empty.push(none) == seq![none]);
    assert(pairs_of(empty) == Seq::<(Seq<char>, Seq<char>)>::empty());
    assert(pairs_of(empty).push(pair_of(piece)) == seq![pair_of(piece)]);
    text::lemma_pieces_of_free(none, '&');
    text::lemma_pieces_of_two(raw, none, '&');
    assert(raw.push('&') + none == raw.push('&'));
    assert(parts + seq![none] == parts.push(none));
    lemma_pairs_of_push(parts, none);
}

/// The `format` written out.
proof fn lemma_format_key(key: Seq<char>)
    ensures
        is_format_key(key) <==> text::lowered(key) == seq!['f', 'o', 'r', 'm', 'a', 't'],
{
    reveal_strlit("format");
    assert("format"@ == seq!['f', 'o', 'r', 'm', 'a', 't']);
    assert(text::lowered("format"@) == seq!['f', 'o', 'r', 'm', 'a', 't']);
}

/// Of all parameters the last one that is called `format`, in any case, decides:
/// whatever stands before it, the format is the one that it names, if it names
/// one. Any other parameter makes no difference.
pub proof fn last_format_parameter_decides(
    pairs: Seq<(Seq<char>, Seq<char>)>,
    key: Seq<char>,
    value: Seq<char>,
)
    ensures
        requested(pairs.push((key, value))) == if text::lowered(key) == seq![
            'f',
            'o',
            'r',
            'm',
            'a',
            't',
        ] {
            formats::format_named(value)
        } else {
            requested(pairs)
        },
        requested(Seq::<(Seq<char>, Seq<char>)>::empty()) is None,
{
    lemma_format_key(key);
    assert(pairs.push((key, value)).drop_last() == pairs);
}

/// Stripping goes through a query piece by piece: one whose key is `format`, in
/// any case, is left out, and any other is kept as it is written.
pub proof fn stripping_goes_piece_by_piece(raw: Seq<char>, piece: Seq<char>)
    requires
        text::free_of(piece, '&'),
    ensures
        stripped(Some(raw.push('&') + piece)) == if text::lowered(pair_of(piece).0) == seq![
            'f',
            'o',
            'r',
            'm',
            'a',
            't',
        ] {
            stripped(Some(raw))
        } else {
            match stripped(Some(raw)) {
                Some(kept) => Some(kept.push('&') + piece),
                None => Some(piece),
            }
        },
        stripped(Some(piece)) == if text::lowered(pair_of(piece).0) == seq![
            'f',
            'o',
            'r',
            'm',
            'a',
            't',
        ] {
            None
        } else {
            Some(piece)
        },
        stripped(None) is None,
{
    let parts = text::pieces(raw, '&');
    text::lemma_pieces_of_two(raw, piece, '&');
    text::lemma_pieces_of_free(piece, '&');
    assert(parts + seq![piece] == parts.push(piece));
    assert(parts.push(piece).drop_last() == parts);
    lemma_key_of_piece(piece, "format"@);
    lemma_format_key(pair_of(piece).0);
    let kept = other_pieces(parts);
    assert(kept.push(piece).drop_last() == kept);
    let empty = Seq::<Seq<char>>::empty();
    assert(seq![piece].drop_last() == empty);
    assert(empty.push(piece) == seq![piece]);
    assert(other_pieces(empty) == empty);
    if kept.len() == 0 {
        assert(kept.push(piece) == seq![piece]);
    }
}

} // verus!
