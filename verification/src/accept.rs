//! Negotiation of a target format from an `Accept` header.
use crate::formats::TargetFormat;
use crate::headers;
use crate::quality;
use crate::text;
use vstd::prelude::*;

verus! {

// ---------------------------------------------------------------- statements

/// What a media range's parameter says behind its equals sign.
pub open spec fn parameter_value(parameter: Seq<char>) -> Seq<char> {
    text::trimmed(text::after_first(text::trimmed(parameter), '='))
}

/// The parameter gives a quality: its name is `q` and its value is a number.
pub open spec fn gives_quality(parameter: Seq<char>) -> bool {
    let body = text::trimmed(parameter);
    &&& body.contains('=')
    &&& text::same_ignoring_case(text::trimmed(text::before_first(body, '=')), "q"@)
    &&& quality::is_number(parameter_value(parameter))
}

/// The first parameter that gives a quality gives one above zero; where none
/// does, the quality is one.
pub open spec fn quality_allows(parameters: Seq<Seq<char>>) -> bool
    decreases parameters.len(),
{
    if parameters.len() == 0 {
        true
    } else if gives_quality(parameters[0]) {
        quality::is_positive_number(parameter_value(parameters[0]))
    } else {
        quality_allows(parameters.drop_first())
    }
}

/// A media range of an `Accept` header admits the media type `wanted`: it
/// names the type, in any case, and its quality is above zero.
pub open spec fn range_admits(range: Seq<char>, wanted: Seq<char>) -> bool {
    let parts = text::pieces(range, ';');
    &&& text::same_ignoring_case(text::trimmed(parts[0]), wanted)
    &&& quality_allows(parts.skip(1))
}

/// One of the media ranges of an `Accept` header admits `wanted`.
pub open spec fn admits(accept: Seq<char>, wanted: Seq<char>) -> bool {
    exists|i: int|
        0 <= i < text::pieces(accept, ',').len() && #[trigger] range_admits(
            text::pieces(accept, ',')[i],
            wanted,
        )
}

/// The format that an `Accept` header asks for: AVIF where that is admitted,
/// else WebP where that is, else none.
pub open spec fn negotiated(value: Option<Seq<u8>>) -> Option<TargetFormat> {
    match value {
        None => None,
        Some(bytes) => match headers::header_text(bytes) {
            None => None,
            Some(accept) => if admits(accept, "image/avif"@) {
                Some(TargetFormat::Avif)
            } else if admits(accept, "image/webp"@) {
                Some(TargetFormat::Webp)
            } else {
                None
            },
        },
    }
}

// ---------------------------------------------------------------- operations

/// The quality that a parameter gives: whether it is above zero, if it gives
/// one.
fn quality_of(parameter: &[char]) -> (r: Option<bool>)
    ensures
        match r {
            Some(above) => gives_quality(parameter@) && above == quality::is_positive_number(
                parameter_value(parameter@),
            ),
            None => !gives_quality(parameter@),
        },
{
    let body = text::trim(parameter);
    let equals: usize = text::find(body.as_slice(), '=');
    if equals == body.len() {
        return None;
    }
    let before = text::stretch(body.as_slice(), 0, equals);
    let name = text::trim(before.as_slice());
    let after = text::stretch(body.as_slice(), equals + 1, body.len());
    let value = text::trim(after.as_slice());
    assert(before@ == text::before_first(body@, '='));
    assert(after@ == text::after_first(body@, '='));
    if text::is_text_ignoring_case(name.as_slice(), "q") && quality::number(value.as_slice()) {
        Some(quality::positive_number(value.as_slice()))
    } else {
        None
    }
}

/// Whether a media range admits `wanted`.
fn admits_range(range: &[char], wanted: &str) -> (r: bool)
    ensures
        r == range_admits(range@, wanted@),
{
    let parts = text::split(range, ';');
    assert(parts@[0]@ == text::pieces(range@, ';')[0]);
    let name = text::trim(parts[0].as_slice());
    if !text::is_text_ignoring_case(name.as_slice(), wanted) {
        return false;
    }
    let ghost all = text::pieces(range@, ';');
    let mut i: usize = 1;
    while i < parts.len()
        invariant
            1 <= i <= parts@.len(),
            all == text::views(parts@),
            all == text::pieces(range@, ';'),
            range_admits(range@, wanted@) == quality_allows(all.skip(i as int)),
        decreases parts@.len() - i,
    {
        assert(all[i as int] == parts@[i as int]@);
        assert(all.skip(i as int)[0] == all[i as int]);
        assert(all.skip(i as int).drop_first() == all.skip(i + 1));
        match quality_of(parts[i].as_slice()) {
            Some(above) => return above,
            None => {},
        }
        i = i + 1;
    }
    true
}

/// Whether an `Accept` header admits the media type `wanted`.
pub fn accepts_mime(accept: &str, wanted: &str) -> (r: bool)
    ensures
        r == admits(accept@, wanted@),
{
    let chars = text::chars_of(accept);
    let ranges = text::split(chars.as_slice(), ',');
    let ghost all = text::pieces(accept@, ',');
    let mut i: usize = 0;
    while i < ranges.len()
        invariant
            i <= ranges@.len(),
            all == text::views(ranges@),
            all == text::pieces(accept@, ','),
            forall|j: int| 0 <= j < i ==> !#[trigger] range_admits(all[j], wanted@),
        decreases ranges@.len() - i,
    {
        assert(all[i as int] == ranges@[i as int]@);
        if admits_range(ranges[i].as_slice(), wanted) {
            return true;
        }
        i = i + 1;
    }
    false
}

/// The format that the value of an `Accept` header asks for.
pub fn negotiate_accept(value: Option<&[u8]>) -> (r: Option<TargetFormat>)
    ensures
        r == negotiated(
            match value {
                Some(bytes) => Some(bytes@),
                None => None,
            },
        ),
{
    let bytes = match value {
        Some(bytes) => bytes,
        None => return None,
    };
    let accept = match headers::header_chars(bytes) {
        Some(chars) => text::string_of(chars.as_slice()),
        None => return None,
    };
    if accepts_mime(accept.as_str(), "image/avif") {
        Some(TargetFormat::Avif)
    } else if accepts_mime(accept.as_str(), "image/webp") {
        Some(TargetFormat::Webp)
    } else {
        None
    }
}

// ---------------------------------------------------------------------- laws

/// A format is chosen only where the header admits it.
pub proof fn negotiated_formats_are_admitted(value: Seq<u8>, format: TargetFormat)
    requires
        negotiated(Some(value)) == Some(format),
    ensures
        headers::header_text(value) matches Some(accept) && admits(accept, format.media_type()),
{
}

/// Where AVIF is admitted, it is chosen.
pub proof fn avif_is_preferred(value: Seq<u8>)
    requires
        headers::header_text(value) matches Some(accept) && admits(accept, "image/avif"@),
    ensures
        negotiated(Some(value)) == Some(TargetFormat::Avif),
{
}

/// A header without a media range for an image format chooses none.
pub proof fn nothing_is_chosen_unasked(value: Seq<u8>)
    requires
        headers::header_text(value) matches Some(accept) ==> forall|format: TargetFormat|
            !admits(accept, #[trigger] format.media_type()),
    ensures
        negotiated(Some(value)) is None,
{
    assert(TargetFormat::Avif.media_type() == "image/avif"@);
    assert(TargetFormat::Webp.media_type() == "image/webp"@);
}

/// Each media range of a header counts, wherever it stands: what two headers
/// admit, they admit with a comma between them, and nothing else.
pub proof fn every_media_range_counts(a: Seq<char>, b: Seq<char>, wanted: Seq<char>)
    ensures
        admits(a.push(',') + b, wanted) <==> admits(a, wanted) || admits(b, wanted),
{
    let left = text::pieces(a, ',');
    let right = text::pieces(b, ',');
    let both = text::pieces(a.push(',') + b, ',');
    text::lemma_pieces_of_two(a, b, ',');
    if admits(a, wanted) {
        let i = choose|i: int| 0 <= i < left.len() && #[trigger] range_admits(left[i], wanted);
        assert(both[i] == left[i]);
        assert(range_admits(both[i], wanted));
    }
    if admits(b, wanted) {
        let i = choose|i: int| 0 <= i < right.len() && #[trigger] range_admits(right[i], wanted);
        assert(both[left.len() + i] == right[i]);
        assert(range_admits(both[left.len() + i], wanted));
    }
    if admits(a.push(',') + b, wanted) {
        let i = choose|i: int| 0 <= i < both.len() && #[trigger] range_admits(both[i], wanted);
        if i < left.len() {
            assert(both[i] == left[i]);
        } else {
            assert(both[i] == right[i - left.len()]);
        }
    }
}

/// A header without a comma is one media range.
proof fn lemma_one_range(range: Seq<char>, wanted: Seq<char>)
    requires
        text::free_of(range, ','),
    ensures
        admits(range, wanted) == range_admits(range, wanted),
{
    text::lemma_pieces_of_free(range, ',');
    let all = text::pieces(range, ',');
    if range_admits(range, wanted) {
        assert(range_admits(all[0], wanted));
    }
}

/// A media range without parameters admits the media type that it is, in any
/// case and with any white space around it, and no other.
pub proof fn media_range_admits_its_type(
    lead: Seq<char>,
    name: Seq<char>,
    trail: Seq<char>,
    wanted: Seq<char>,
)
    requires
        text::all_white(lead),
        text::all_white(trail),
        text::free_of(name, ','),
        text::free_of(name, ';'),
        name.len() > 0 ==> !text::is_white(name[0]) && !text::is_white(name.last()),
    ensures
        admits(lead + name + trail, wanted) <==> text::lowered(name) == text::lowered(wanted),
{
    let range = lead + name + trail;
    assert forall|i: int| 0 <= i < range.len() implies range[i] != ',' && range[i] != ';' by {
        if i < lead.len() {
            assert(text::is_white(lead[i]));
        } else if i < lead.len() + name.len() {
            assert(range[i] == name[i - lead.len()]);
        } else {
            assert(text::is_white(trail[i - lead.len() - name.len()]));
        }
    }
    assert(text::free_of(range, ',') && text::free_of(range, ';'));
    lemma_one_range(range, wanted);
    text::lemma_pieces_of_free(range, ';');
    text::trimming_leaves_what_stands_between(lead, name, trail);
    assert(seq![range].skip(1) == Seq::<Seq<char>>::empty());
}

/// What the parts of a media range with one more parameter in front are.
proof fn lemma_first_parameter(
    name: Seq<char>,
    parameter: Seq<char>,
    rest: Seq<Seq<char>>,
    range: Seq<char>,
)
    requires
        text::pieces(range, ';') == seq![name, parameter] + rest,
    ensures
        text::pieces(range, ';')[0] == name,
        text::pieces(range, ';').skip(1) == seq![parameter] + rest,
        (seq![parameter] + rest)[0] == parameter,
        (seq![parameter] + rest).drop_first() == rest,
{
    assert((seq![name, parameter] + rest).skip(1) == seq![parameter] + rest);
    assert((seq![parameter] + rest).drop_first() == rest);
}

/// A parameter of a media range, with white space around its name and its value,
/// that is called `q` in either case and has a number for a value decides: the
/// type is admitted exactly if that number is above zero, whatever parameters
/// stand behind.
pub proof fn first_quality_decides(
    name: Seq<char>,
    margins: Seq<Seq<char>>,
    q: char,
    value: Seq<char>,
    rest: Seq<char>,
    wanted: Seq<char>,
)
    requires
        text::free_of(name, ','),
        text::free_of(name, ';'),
        text::free_of(rest, ','),
        margins.len() == 4,
        forall|i: int| 0 <= i < 4 ==> text::all_white(#[trigger] margins[i]),
        q == 'q' || q == 'Q',
        quality::is_number(value),
    ensures
        ({
            let parameter = margins[0].push(q) + margins[1] + seq!['='] + margins[2] + value
                + margins[3];
            &&& admits(name.push(';') + parameter, wanted) <==> (admits(name, wanted)
                && quality::is_positive_number(value))
            &&& admits(name.push(';') + (parameter.push(';') + rest), wanted) <==> (admits(
                name,
                wanted,
            ) && quality::is_positive_number(value))
        }),
{
    let parameter = margins[0].push(q) + margins[1] + seq!['='] + margins[2] + value + margins[3];
    lemma_quality_parameter(margins[0], q, margins[1], margins[2], value, margins[3]);
    let short = name.push(';') + parameter;
    let long = name.push(';') + (parameter.push(';') + rest);
    assert(text::free_of(short, ',')) by {
        assert forall|i: int| 0 <= i < short.len() implies short[i] != ',' by {
            if i < name.len() {
                assert(short[i] == name[i]);
            } else if i > name.len() {
                assert(short[i] == parameter[i - name.len() - 1]);
            }
        }
    }
    assert(text::free_of(long, ',')) by {
        assert forall|i: int| 0 <= i < long.len() implies long[i] != ',' by {
            let n = name.len() + 1;
            if i < name.len() {
                assert(long[i] == name[i]);
            } else if n <= i < n + parameter.len() {
                assert(long[i] == parameter[i - n]);
            } else if i > n + parameter.len() {
                assert(long[i] == rest[i - n - parameter.len() - 1]);
            }
        }
    }
    lemma_one_range(short, wanted);
    lemma_one_range(long, wanted);
    lemma_one_range(name, wanted);
    text::lemma_pieces_of_free(name, ';');
    text::lemma_pieces_of_free(parameter, ';');
    text::lemma_pieces_of_two(name, parameter, ';');
    text::lemma_pieces_of_two(name, parameter.push(';') + rest, ';');
    text::lemma_pieces_of_two(parameter, rest, ';');
    assert(seq![name].skip(1) == Seq::<Seq<char>>::empty());
    let none = Seq::<Seq<char>>::empty();
    let behind = text::pieces(rest, ';');
    assert(seq![name] + seq![parameter] == seq![name, parameter] + none);
    assert(seq![name] + (seq![parameter] + behind) == seq![name, parameter] + behind);
    lemma_first_parameter(name, parameter, none, short);
    lemma_first_parameter(name, parameter, behind, long);
}

/// What a parameter that gives a quality gives.
proof fn lemma_quality_parameter(
    m0: Seq<char>,
    q: char,
    m1: Seq<char>,
    m2: Seq<char>,
    value: Seq<char>,
    m3: Seq<char>,
)
    requires
        text::all_white(m0),
        text::all_white(m1),
        text::all_white(m2),
        text::all_white(m3),
        q == 'q' || q == 'Q',
        quality::is_number(value),
    ensures
        gives_quality(m0.push(q) + m1 + seq!['='] + m2 + value + m3),
        parameter_value(m0.push(q) + m1 + seq!['='] + m2 + value + m3) == value,
        text::free_of(m0.push(q) + m1 + seq!['='] + m2 + value + m3, ','),
        text::free_of(m0.push(q) + m1 + seq!['='] + m2 + value + m3, ';'),
{
    let parameter = m0.push(q) + m1 + seq!['='] + m2 + value + m3;
    let name = seq![q];
    let body = name + m1 + seq!['='] + m2 + value;
    quality::lemma_number_chars(value);
    quality::lemma_number_is_written(value);
    let none = Seq::<char>::empty();
    assert(parameter == m0 + body + m3);
    assert(body.last() == value.last());
    assert(quality::is_number_char(value[0]) && quality::is_number_char(value[value.len() - 1]));
    text::trimming_leaves_what_stands_between(m0, body, m3);
    let before = name + m1;
    let after = m2 + value;
    assert(body == before.push('=') + after);
    assert(text::free_of(before, '=')) by {
        assert forall|i: int| 0 <= i < before.len() implies before[i] != '=' by {
            if i > 0 {
                assert(text::is_white(m1[i - 1]));
            }
        }
    }
    text::first_separator_divides(before, '=', after);
    assert(body[before.len() as int] == '=');
    assert(body.contains('='));
    assert(none + name + m1 == before);
    text::trimming_leaves_what_stands_between(none, name, m1);
    assert(m2 + value + none == after);
    text::trimming_leaves_what_stands_between(m2, value, none);
    reveal_strlit("q");
    assert(text::lowered(name) == seq!['q']);
    assert(text::lowered("q"@) == seq!['q']);
    assert forall|i: int| 0 <= i < parameter.len() implies parameter[i] != ',' && parameter[i]
        != ';' by {
        let a = m0.len() as int;
        let b = a + 1 + m1.len();
        let c = b + 1 + m2.len();
        let d = c + value.len();
        if i < a {
            assert(parameter[i] == m0[i]);
            assert(text::is_white(m0[i]));
        } else if i == a {
            assert(parameter[i] == q);
        } else if i < b {
            assert(parameter[i] == m1[i - a - 1]);
            assert(text::is_white(m1[i - a - 1]));
        } else if i == b {
            assert(parameter[i] == '=');
        } else if i < c {
            assert(parameter[i] == m2[i - b - 1]);
            assert(text::is_white(m2[i - b - 1]));
        } else if i < d {
            assert(parameter[i] == value[i - c]);
            assert(quality::is_number_char(value[i - c]));
        } else {
            assert(parameter[i] == m3[i - d]);
            assert(text::is_white(m3[i - d]));
        }
    }
}

/// A parameter that gives no quality makes no difference: one without an equals
/// sign, one that is not called `q`, and one whose value is no number.
pub proof fn other_parameters_make_no_difference(
    name: Seq<char>,
    parameter: Seq<char>,
    rest: Seq<char>,
    wanted: Seq<char>,
)
    requires
        text::free_of(name, ','),
        text::free_of(name, ';'),
        text::free_of(parameter, ','),
        text::free_of(parameter, ';'),
        text::free_of(rest, ','),
        ({
            let body = text::trimmed(parameter);
            let key = text::trimmed(text::before_first(body, '='));
            let value = text::trimmed(text::after_first(body, '='));
            text::free_of(body, '=') || text::lowered(key) != seq!['q'] || !quality::is_number(
                value,
            )
        }),
    ensures
        admits(name.push(';') + parameter, wanted) == admits(name, wanted),
        admits(name.push(';') + (parameter.push(';') + rest), wanted) == admits(
            name.push(';') + rest,
            wanted,
        ),
{
    reveal_strlit("q");
    assert("q"@ == seq!['q']);
    assert(text::lowered("q"@) == seq!['q']);
    assert(!gives_quality(parameter));
    let short = name.push(';') + parameter;
    let long = name.push(';') + (parameter.push(';') + rest);
    let other = name.push(';') + rest;
    assert forall|i: int| 0 <= i < short.len() implies short[i] != ',' by {
        if i < name.len() {
            assert(short[i] == name[i]);
        } else if i > name.len() {
            assert(short[i] == parameter[i - name.len() - 1]);
        }
    }
    assert forall|i: int| 0 <= i < other.len() implies other[i] != ',' by {
        if i < name.len() {
            assert(other[i] == name[i]);
        } else if i > name.len() {
            assert(other[i] == rest[i - name.len() - 1]);
        }
    }
    assert forall|i: int| 0 <= i < long.len() implies long[i] != ',' by {
        let n = name.len() + 1;
        if i < name.len() {
            assert(long[i] == name[i]);
        } else if n <= i < n + parameter.len() {
            assert(long[i] == parameter[i - n]);
        } else if i > n + parameter.len() {
            assert(long[i] == rest[i - n - parameter.len() - 1]);
        }
    }
    lemma_one_range(short, wanted);
    lemma_one_range(long, wanted);
    lemma_one_range(other, wanted);
    lemma_one_range(name, wanted);
    text::lemma_pieces_of_free(name, ';');
    text::lemma_pieces_of_free(parameter, ';');
    text::lemma_pieces_of_two(name, parameter, ';');
    text::lemma_pieces_of_two(name, rest, ';');
    text::lemma_pieces_of_two(name, parameter.push(';') + rest, ';');
    text::lemma_pieces_of_two(parameter, rest, ';');
    let none = Seq::<Seq<char>>::empty();
    let behind = text::pieces(rest, ';');
    assert(seq![name].skip(1) == none);
    assert((seq![name] + behind).skip(1) == behind);
    assert(seq![name] + seq![parameter] == seq![name, parameter] + none);
    assert(seq![name] + (seq![parameter] + behind) == seq![name, parameter] + behind);
    lemma_first_parameter(name, parameter, none, short);
    lemma_first_parameter(name, parameter, behind, long);
}

/// AVIF is chosen where it is admitted, WebP where only that is, and otherwise
/// nothing. A field that is missing, or that is not visible text, chooses
/// nothing either.
pub proof fn preference_is_avif_then_webp(value: Seq<u8>)
    ensures
        negotiated(None) is None,
        headers::header_text(value) is None ==> negotiated(Some(value)) is None,
        headers::header_text(value) matches Some(accept) ==> {
            let avif = admits(accept, seq!['i', 'm', 'a', 'g', 'e', '/', 'a', 'v', 'i', 'f']);
            let webp = admits(accept, seq!['i', 'm', 'a', 'g', 'e', '/', 'w', 'e', 'b', 'p']);
            &&& negotiated(Some(value)) == Some(TargetFormat::Avif) <==> avif
            &&& negotiated(Some(value)) == Some(TargetFormat::Webp) <==> webp && !avif
        },
{
    reveal_strlit("image/avif");
    reveal_strlit("image/webp");
    assert("image/avif"@ == seq!['i', 'm', 'a', 'g', 'e', '/', 'a', 'v', 'i', 'f']);
    assert("image/webp"@ == seq!['i', 'm', 'a', 'g', 'e', '/', 'w', 'e', 'b', 'p']);
}

} // verus!
