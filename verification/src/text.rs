//! Text as a sequence of characters: splitting, trimming, joining and
//! ASCII case folding, each with a statement of what it computes.
use vstd::prelude::*;

verus! {

/// `String::push` of the standard library: the character is appended to the
/// end of the string, which is otherwise left as it is.
pub assume_specification[ String::push ](s: &mut String, c: char)
    ensures
        final(s)@ == old(s)@.push(c),
;

// ---------------------------------------------------------------- statements

/// The lower-case form of an ASCII letter; every other character is itself.
pub open spec fn lower(c: char) -> char {
    if 'A' <= c <= 'Z' {
        (c as u32 + 32) as char
    } else {
        c
    }
}

/// `text` with every ASCII letter in lower case.
pub open spec fn lowered(text: Seq<char>) -> Seq<char> {
    text.map_values(|c: char| lower(c))
}

/// Equality up to the case of ASCII letters.
pub open spec fn same_ignoring_case(a: Seq<char>, b: Seq<char>) -> bool {
    lowered(a) == lowered(b)
}

/// The characters with the Unicode property `White_Space`.
pub open spec fn is_white(c: char) -> bool {
    ||| '\u{9}' <= c <= '\u{d}'
    ||| c == ' '
    ||| c == '\u{85}'
    ||| c == '\u{a0}'
    ||| c == '\u{1680}'
    ||| '\u{2000}' <= c <= '\u{200a}'
    ||| c == '\u{2028}'
    ||| c == '\u{2029}'
    ||| c == '\u{202f}'
    ||| c == '\u{205f}'
    ||| c == '\u{3000}'
}

/// `text` without its leading white space.
pub open spec fn trimmed_start(text: Seq<char>) -> Seq<char>
    decreases text.len(),
{
    if text.len() > 0 && is_white(text[0]) {
        trimmed_start(text.drop_first())
    } else {
        text
    }
}

/// `text` without its trailing white space.
pub open spec fn trimmed_end(text: Seq<char>) -> Seq<char>
    decreases text.len(),
{
    if text.len() > 0 && is_white(text.last()) {
        trimmed_end(text.drop_last())
    } else {
        text
    }
}

/// `text` without the white space at its two ends.
pub open spec fn trimmed(text: Seq<char>) -> Seq<char> {
    trimmed_end(trimmed_start(text))
}

/// `text` without the run of `c` at its end.
pub open spec fn trimmed_end_of(text: Seq<char>, c: char) -> Seq<char>
    decreases text.len(),
{
    if text.len() > 0 && text.last() == c {
        trimmed_end_of(text.drop_last(), c)
    } else {
        text
    }
}

/// The place of the first `c` in `text`, or its length where there is none.
pub open spec fn first_place(text: Seq<char>, c: char) -> int
    decreases text.len(),
{
    if text.len() == 0 || text[0] == c {
        0
    } else {
        1 + first_place(text.drop_first(), c)
    }
}

/// What stands before the first `c` of `text`; all of it where there is none.
pub open spec fn before_first(text: Seq<char>, c: char) -> Seq<char> {
    text.take(first_place(text, c))
}

/// What stands after the first `c` of `text`; nothing where there is none.
pub open spec fn after_first(text: Seq<char>, c: char) -> Seq<char> {
    if text.contains(c) {
        text.skip(first_place(text, c) + 1)
    } else {
        Seq::empty()
    }
}

/// The pieces of `text` between the occurrences of `sep`, in order. There is
/// always at least one; two neighbouring separators have an empty one between
/// them.
pub open spec fn pieces(text: Seq<char>, sep: char) -> Seq<Seq<char>>
    decreases text.len(),
{
    if text.len() == 0 {
        seq![Seq::<char>::empty()]
    } else {
        let init = pieces(text.drop_last(), sep);
        if text.last() == sep {
            init.push(Seq::empty())
        } else {
            init.drop_last().push(init.last().push(text.last()))
        }
    }
}

/// The given pieces in order, with one `sep` between each two neighbours.
pub open spec fn joined(parts: Seq<Seq<char>>, sep: char) -> Seq<char>
    decreases parts.len(),
{
    if parts.len() == 0 {
        Seq::empty()
    } else if parts.len() == 1 {
        parts[0]
    } else {
        joined(parts.drop_last(), sep).push(sep) + parts.last()
    }
}

/// `part` occurs in `text` from the place `at` on.
pub open spec fn occurs_at(text: Seq<char>, part: Seq<char>, at: int) -> bool {
    0 <= at && at + part.len() <= text.len() && text.subrange(at, at + part.len()) == part
}

/// `part` occurs somewhere in `text`.
pub open spec fn occurs_in(text: Seq<char>, part: Seq<char>) -> bool {
    exists|at: int| #[trigger] occurs_at(text, part, at)
}

/// The bytes of an ASCII text.
pub open spec fn ascii_bytes(text: Seq<char>) -> Seq<u8> {
    text.map_values(|c: char| c as u8)
}

/// The views of a list of character vectors.
pub open spec fn views(parts: Seq<Vec<char>>) -> Seq<Seq<char>> {
    parts.map_values(|part: Vec<char>| part@)
}

// -------------------------------------------------------------------- lemmas

/// `text` holds no `sep`.
pub open spec fn free_of(text: Seq<char>, sep: char) -> bool {
    !text.contains(sep)
}

/// No part holds `sep`.
pub open spec fn all_free_of(parts: Seq<Seq<char>>, sep: char) -> bool {
    forall|i: int| 0 <= i < parts.len() ==> free_of(#[trigger] parts[i], sep)
}

/// The pieces of a text hold no separator, and there is at least one.
pub proof fn lemma_pieces_are_free(text: Seq<char>, sep: char)
    ensures
        pieces(text, sep).len() >= 1,
        all_free_of(pieces(text, sep), sep),
    decreases text.len(),
{
    if text.len() > 0 {
        let init = pieces(text.drop_last(), sep);
        lemma_pieces_are_free(text.drop_last(), sep);
        assert(free_of(init.last(), sep));
        if text.last() != sep {
            let last = init.last().push(text.last());
            assert(free_of(last, sep)) by {
                assert forall|k: int| 0 <= k < last.len() implies last[k] != sep by {
                    if k < init.last().len() {
                        assert(init.last()[k] == last[k]);
                    }
                }
            }
        }
    }
}

/// Joining the pieces of a text gives the text back.
pub proof fn lemma_joined_of_pieces(text: Seq<char>, sep: char)
    ensures
        joined(pieces(text, sep), sep) == text,
    decreases text.len(),
{
    lemma_pieces_are_free(text, sep);
    if text.len() > 0 {
        let head = text.drop_last();
        let init = pieces(head, sep);
        lemma_joined_of_pieces(head, sep);
        lemma_pieces_are_free(head, sep);
        let all = pieces(text, sep);
        if text.last() == sep {
            assert(all.drop_last() == init);
            assert(joined(all, sep) == head.push(sep) + Seq::<char>::empty());
        } else {
            assert(all.drop_last() == init.drop_last());
            if init.len() > 1 {
                let front = joined(init.drop_last(), sep).push(sep);
                assert(front + init.last().push(text.last()) == (front + init.last()).push(
                    text.last(),
                ));
            }
        }
        assert(head.push(text.last()) == text);
        assert(joined(all, sep) == text);
    }
}

/// The pieces of two texts with a separator between them are those of the
/// first, then those of the second.
pub proof fn lemma_pieces_of_two(a: Seq<char>, b: Seq<char>, sep: char)
    ensures
        pieces(a.push(sep) + b, sep) == pieces(a, sep) + pieces(b, sep),
    decreases b.len(),
{
    let both = a.push(sep) + b;
    if b.len() == 0 {
        assert(both.drop_last() == a);
        assert(pieces(b, sep) == seq![Seq::<char>::empty()]);
        assert(pieces(both, sep) == pieces(a, sep) + pieces(b, sep));
    } else {
        assert(both.drop_last() == a.push(sep) + b.drop_last());
        lemma_pieces_of_two(a, b.drop_last(), sep);
        lemma_pieces_are_free(b.drop_last(), sep);
        let left = pieces(a, sep);
        let right = pieces(b.drop_last(), sep);
        assert((left + right).last() == right.last());
        assert((left + right).drop_last() == left + right.drop_last());
        assert(pieces(both, sep) == left + pieces(b, sep));
    }
}

/// A text without a separator is its own only piece.
pub proof fn lemma_pieces_of_free(text: Seq<char>, sep: char)
    requires
        free_of(text, sep),
    ensures
        pieces(text, sep) == seq![text],
    decreases text.len(),
{
    if text.len() > 0 {
        assert(text.last() != sep);
        let head = text.drop_last();
        assert(free_of(head, sep)) by {
            assert forall|k: int| 0 <= k < head.len() implies head[k] != sep by {
                assert(text[k] == head[k]);
            }
        }
        lemma_pieces_of_free(head, sep);
        assert(head.push(text.last()) == text);
        assert(pieces(text, sep) == seq![text]);
    } else {
        assert(text == Seq::<char>::empty());
    }
}

/// Splitting joined parts gives the parts back, where none of them holds the
/// separator and there is at least one.
pub proof fn lemma_pieces_of_joined(parts: Seq<Seq<char>>, sep: char)
    requires
        parts.len() >= 1,
        all_free_of(parts, sep),
    ensures
        pieces(joined(parts, sep), sep) == parts,
    decreases parts.len(),
{
    if parts.len() == 1 {
        lemma_pieces_of_free(parts[0], sep);
        assert(seq![parts[0]] == parts);
    } else {
        let front = parts.drop_last();
        assert(all_free_of(front, sep));
        lemma_pieces_of_joined(front, sep);
        lemma_pieces_of_two(joined(front, sep), parts.last(), sep);
        lemma_pieces_of_free(parts.last(), sep);
        assert(front + seq![parts.last()] == parts);
    }
}

/// Where the first `c` stands.
pub proof fn lemma_first_place(text: Seq<char>, c: char)
    ensures
        0 <= first_place(text, c) <= text.len(),
        first_place(text, c) < text.len() <==> text.contains(c),
        first_place(text, c) < text.len() ==> text[first_place(text, c)] == c,
        forall|i: int| 0 <= i < first_place(text, c) ==> #[trigger] text[i] != c,
    decreases text.len(),
{
    if text.len() > 0 && text[0] != c {
        let rest = text.drop_first();
        lemma_first_place(rest, c);
        assert forall|i: int| 0 <= i < first_place(text, c) implies #[trigger] text[i] != c by {
            if i > 0 {
                assert(rest[i - 1] == text[i]);
            }
        }
        if text.contains(c) {
            let k = choose|k: int| 0 <= k < text.len() && text[k] == c;
            assert(rest[k - 1] == c);
        }
        if rest.contains(c) {
            let k = choose|k: int| 0 <= k < rest.len() && rest[k] == c;
            assert(text[k + 1] == c);
        }
    }
}

// ---------------------------------------------------------------- operations

/// The characters of a string.
pub fn chars_of(text: &str) -> (chars: Vec<char>)
    ensures
        chars@ == text@,
{
    let mut chars: Vec<char> = Vec::new();
    for c in walk: text.chars()
        invariant
            chars@ == text@.take(walk.index() as int),
            walk.seq() == text@,
    {
        chars.push(c);
        assert(text@.take(walk.index() + 1) == text@.take(walk.index() as int).push(c));
    }
    assert(text@.take(text@.len() as int) == text@);
    chars
}

/// The string with the given characters.
pub fn string_of(chars: &[char]) -> (text: String)
    ensures
        text@ == chars@,
{
    let mut text = String::new();
    let mut i: usize = 0;
    while i < chars.len()
        invariant
            i <= chars@.len(),
            text@ == chars@.take(i as int),
        decreases chars@.len() - i,
    {
        text.push(chars[i]);
        assert(chars@.take(i + 1) == chars@.take(i as int).push(chars@[i as int]));
        i = i + 1;
    }
    assert(chars@.take(i as int) == chars@);
    text
}

/// Whether two character sequences are equal.
pub fn same(a: &[char], b: &[char]) -> (equal: bool)
    ensures
        equal == (a@ == b@),
{
    if a.len() != b.len() {
        return false;
    }
    let mut i: usize = 0;
    while i < a.len()
        invariant
            i <= a@.len(),
            a@.len() == b@.len(),
            forall|j: int| 0 <= j < i ==> a@[j] == b@[j],
        decreases a@.len() - i,
    {
        if a[i] != b[i] {
            return false;
        }
        i = i + 1;
    }
    assert(a@ == b@);
    true
}

/// Whether the characters are those of `text`.
pub fn is_text(chars: &[char], text: &str) -> (equal: bool)
    ensures
        equal == (chars@ == text@),
{
    let other = chars_of(text);
    same(chars, other.as_slice())
}

/// The lower-case form of an ASCII letter; every other character is itself.
pub fn to_lower(c: char) -> (r: char)
    ensures
        r == lower(c),
{
    if 'A' <= c && c <= 'Z' {
        ((c as u8) + 32) as char
    } else {
        c
    }
}

/// The characters with every ASCII letter in lower case.
pub fn to_lowered(chars: &[char]) -> (r: Vec<char>)
    ensures
        r@ == lowered(chars@),
{
    let mut r: Vec<char> = Vec::new();
    let mut i: usize = 0;
    while i < chars.len()
        invariant
            i <= chars@.len(),
            r@ == lowered(chars@.take(i as int)),
        decreases chars@.len() - i,
    {
        r.push(to_lower(chars[i]));
        assert(lowered(chars@.take(i + 1)) == lowered(chars@.take(i as int)).push(
            lower(chars@[i as int]),
        ));
        i = i + 1;
    }
    assert(chars@.take(i as int) == chars@);
    r
}

/// Whether the characters are those of `text`, up to the case of ASCII letters.
pub fn is_text_ignoring_case(chars: &[char], text: &str) -> (equal: bool)
    ensures
        equal == same_ignoring_case(chars@, text@),
{
    let a = to_lowered(chars);
    let other = chars_of(text);
    let b = to_lowered(other.as_slice());
    same(a.as_slice(), b.as_slice())
}

/// Whether a character is white space.
pub fn white(c: char) -> (r: bool)
    ensures
        r == is_white(c),
{
    ('\u{9}' <= c && c <= '\u{d}') || c == ' ' || c == '\u{85}' || c == '\u{a0}' || c == '\u{1680}'
        || ('\u{2000}' <= c && c <= '\u{200a}') || c == '\u{2028}' || c == '\u{2029}'
        || c == '\u{202f}' || c == '\u{205f}' || c == '\u{3000}'
}

/// A stretch of the characters, from `from` up to `to`.
pub fn stretch(chars: &[char], from: usize, to: usize) -> (r: Vec<char>)
    requires
        from <= to <= chars@.len(),
    ensures
        r@ == chars@.subrange(from as int, to as int),
{
    let mut r: Vec<char> = Vec::new();
    let mut i: usize = from;
    while i < to
        invariant
            from <= i <= to <= chars@.len(),
            r@ == chars@.subrange(from as int, i as int),
        decreases to - i,
    {
        r.push(chars[i]);
        assert(chars@.subrange(from as int, i + 1) == chars@.subrange(from as int, i as int).push(
            chars@[i as int],
        ));
        i = i + 1;
    }
    r
}

/// The characters without the white space at their two ends.
pub fn trim(chars: &[char]) -> (r: Vec<char>)
    ensures
        r@ == trimmed(chars@),
{
    let mut from: usize = 0;
    assert(chars@.skip(0) == chars@);
    while from < chars.len() && white(chars[from])
        invariant
            from <= chars@.len(),
            trimmed_start(chars@) == trimmed_start(chars@.skip(from as int)),
        decreases chars@.len() - from,
    {
        assert(chars@.skip(from as int).drop_first() == chars@.skip(from + 1));
        from = from + 1;
    }
    let ghost rest = chars@.skip(from as int);
    assert(trimmed_start(chars@) == rest);
    let mut to: usize = chars.len();
    assert(chars@.subrange(from as int, to as int) == rest);
    while from < to && white(chars[to - 1])
        invariant
            from <= to <= chars@.len(),
            trimmed_end(rest) == trimmed_end(chars@.subrange(from as int, to as int)),
        decreases to,
    {
        assert(chars@.subrange(from as int, to as int).drop_last() == chars@.subrange(
            from as int,
            to - 1,
        ));
        to = to - 1;
    }
    stretch(chars, from, to)
}

/// The characters without the run of `c` at their end.
pub fn trim_end_of(chars: &[char], c: char) -> (r: Vec<char>)
    ensures
        r@ == trimmed_end_of(chars@, c),
{
    let mut to: usize = chars.len();
    assert(chars@.subrange(0, to as int) == chars@);
    while 0 < to && chars[to - 1] == c
        invariant
            to <= chars@.len(),
            trimmed_end_of(chars@, c) == trimmed_end_of(chars@.subrange(0, to as int), c),
        decreases to,
    {
        assert(chars@.subrange(0, to as int).drop_last() == chars@.subrange(0, to - 1));
        to = to - 1;
    }
    stretch(chars, 0, to)
}

/// The place of the first `c`, or the length where there is none.
pub fn find(chars: &[char], c: char) -> (at: usize)
    ensures
        at == first_place(chars@, c),
        at <= chars@.len(),
        at < chars@.len() <==> chars@.contains(c),
{
    let mut at: usize = 0;
    assert(chars@.skip(0) == chars@);
    while at < chars.len() && chars[at] != c
        invariant
            at <= chars@.len(),
            first_place(chars@, c) == at + first_place(chars@.skip(at as int), c),
            forall|j: int| 0 <= j < at ==> chars@[j] != c,
        decreases chars@.len() - at,
    {
        assert(chars@.skip(at as int).drop_first() == chars@.skip(at + 1));
        at = at + 1;
    }
    at
}

/// The pieces of the characters between the occurrences of `sep`.
pub fn split(chars: &[char], sep: char) -> (parts: Vec<Vec<char>>)
    ensures
        views(parts@) == pieces(chars@, sep),
        parts@.len() >= 1,
{
    let mut parts: Vec<Vec<char>> = Vec::new();
    let mut last: Vec<char> = Vec::new();
    let mut i: usize = 0;
    assert(views(parts@).push(last@) == pieces(chars@.take(0), sep));
    while i < chars.len()
        invariant
            i <= chars@.len(),
            views(parts@).push(last@) == pieces(chars@.take(i as int), sep),
        decreases chars@.len() - i,
    {
        let c = chars[i];
        let ghost before = views(parts@);
        assert(chars@.take(i + 1).drop_last() == chars@.take(i as int));
        assert(before.push(last@).drop_last() == before);
        if c == sep {
            let ghost done = last@;
            parts.push(last);
            last = Vec::new();
            assert(views(parts@) == before.push(done));
        } else {
            last.push(c);
        }
        assert(views(parts@).push(last@) == pieces(chars@.take(i + 1), sep));
        i = i + 1;
    }
    assert(chars@.take(i as int) == chars@);
    let ghost before = views(parts@);
    let ghost done = last@;
    parts.push(last);
    assert(views(parts@) == before.push(done));
    parts
}

/// Whether `part` occurs from the place `at` on.
pub fn has_at(chars: &[char], part: &[char], at: usize) -> (r: bool)
    ensures
        r == occurs_at(chars@, part@, at as int),
{
    let len: usize = chars.len();
    if at > len || part.len() > len - at {
        return false;
    }
    let mut i: usize = 0;
    while i < part.len()
        invariant
            i <= part@.len(),
            len == chars@.len(),
            at + part@.len() <= len,
            forall|j: int| 0 <= j < i ==> chars@[at + j] == part@[j],
        decreases part@.len() - i,
    {
        if chars[at + i] != part[i] {
            assert(chars@.subrange(at as int, at + part@.len())[i as int] != part@[i as int]);
            return false;
        }
        i = i + 1;
    }
    assert(chars@.subrange(at as int, at + part@.len()) == part@);
    true
}

/// Whether `part` occurs somewhere.
pub fn has(chars: &[char], part: &[char]) -> (r: bool)
    ensures
        r == occurs_in(chars@, part@),
{
    let mut at: usize = 0;
    loop
        invariant
            at <= chars@.len(),
            forall|j: int| 0 <= j < at ==> !#[trigger] occurs_at(chars@, part@, j),
        decreases chars@.len() - at,
    {
        if has_at(chars, part, at) {
            assert(occurs_at(chars@, part@, at as int));
            return true;
        }
        if at == chars.len() {
            assert forall|j: int| !#[trigger] occurs_at(chars@, part@, j) by {}
            return false;
        }
        at = at + 1;
    }
}

/// Whether `part` stands at the end.
pub fn has_at_end(chars: &[char], part: &[char]) -> (r: bool)
    ensures
        r == occurs_at(chars@, part@, chars@.len() - part@.len()),
{
    if part.len() > chars.len() {
        return false;
    }
    has_at(chars, part, chars.len() - part.len())
}

// ---------------------------------------------------------------------- laws

/// Nothing but white space.
pub open spec fn all_white(text: Seq<char>) -> bool {
    forall|i: int| 0 <= i < text.len() ==> is_white(#[trigger] text[i])
}

/// Nothing but the character `c`.
pub open spec fn all_same(text: Seq<char>, c: char) -> bool {
    forall|i: int| 0 <= i < text.len() ==> #[trigger] text[i] == c
}

/// Each capital of the ASCII alphabet folds to its small letter, and nothing
/// else changes.
pub proof fn capitals_fold_to_small_letters(c: char)
    ensures
        'a' <= c <= 'z' ==> lower(c) == c && lower((c as int - 32) as char) == c,
        !('A' <= c <= 'Z') ==> lower(c) == c,
{
}

/// Case is folded character by character, and only once.
pub proof fn case_folds_character_by_character(a: Seq<char>, b: Seq<char>, c: char)
    ensures
        lowered(Seq::<char>::empty()) == Seq::<char>::empty(),
        lowered(a.push(c)) == lowered(a).push(lower(c)),
        lowered(a + b) == lowered(a) + lowered(b),
        lowered(a).len() == a.len(),
        lowered(lowered(a)) == lowered(a),
{
    assert(lowered(Seq::<char>::empty()) == Seq::<char>::empty());
    assert(lowered(a.push(c)) == lowered(a).push(lower(c)));
    assert(lowered(a + b) == lowered(a) + lowered(b));
    assert(lowered(lowered(a)) == lowered(a));
}

/// White space in front of a text is no part of it.
proof fn lemma_trimmed_start(lead: Seq<char>, rest: Seq<char>)
    requires
        all_white(lead),
    ensures
        trimmed_start(lead + rest) == trimmed_start(rest),
    decreases lead.len(),
{
    if lead.len() > 0 {
        assert(is_white(lead[0]));
        assert((lead + rest).drop_first() == lead.drop_first() + rest);
        assert forall|i: int| 0 <= i < lead.drop_first().len() implies is_white(
            #[trigger] lead.drop_first()[i],
        ) by {
            assert(is_white(lead[i + 1]));
        }
        lemma_trimmed_start(lead.drop_first(), rest);
    } else {
        assert(lead + rest == rest);
    }
}

/// White space behind a text is no part of it.
proof fn lemma_trimmed_end(rest: Seq<char>, trail: Seq<char>)
    requires
        all_white(trail),
    ensures
        trimmed_end(rest + trail) == trimmed_end(rest),
    decreases trail.len(),
{
    if trail.len() > 0 {
        assert(is_white(trail[trail.len() - 1]));
        assert((rest + trail).drop_last() == rest + trail.drop_last());
        assert forall|i: int| 0 <= i < trail.drop_last().len() implies is_white(
            #[trigger] trail.drop_last()[i],
        ) by {
            assert(is_white(trail[i]));
        }
        lemma_trimmed_end(rest, trail.drop_last());
    } else {
        assert(rest + trail == rest);
    }
}

/// Trimming takes away the white space in front of a text and behind it, however
/// much there is, and leaves what stands between.
pub proof fn trimming_leaves_what_stands_between(lead: Seq<char>, body: Seq<char>, trail: Seq<char>)
    requires
        all_white(lead),
        all_white(trail),
        body.len() > 0 ==> !is_white(body[0]) && !is_white(body.last()),
    ensures
        trimmed(lead + body + trail) == body,
{
    assert(lead + body + trail == lead + (body + trail));
    lemma_trimmed_start(lead, body + trail);
    if body.len() > 0 {
        assert((body + trail)[0] == body[0]);
        assert(trimmed_start(body + trail) == body + trail);
        lemma_trimmed_end(body, trail);
    } else {
        assert(body + trail == trail);
        assert(trail + Seq::<char>::empty() == trail);
        lemma_trimmed_start(trail, Seq::<char>::empty());
        assert(trimmed_start(trail) == Seq::<char>::empty());
    }
}

/// What is taken away from the end of a text is the whole run of a character,
/// and nothing else.
pub proof fn run_at_the_end_is_trimmed(body: Seq<char>, run: Seq<char>, c: char)
    requires
        all_same(run, c),
        body.len() > 0 ==> body.last() != c,
    ensures
        trimmed_end_of(body + run, c) == body,
    decreases run.len(),
{
    if run.len() > 0 {
        assert(run[run.len() - 1] == c);
        assert((body + run).drop_last() == body + run.drop_last());
        assert forall|i: int| 0 <= i < run.drop_last().len() implies #[trigger] run.drop_last()[i]
            == c by {
            assert(run[i] == c);
        }
        run_at_the_end_is_trimmed(body, run.drop_last(), c);
    } else {
        assert(body + run == body);
    }
}

/// A text is divided at the first separator: what stands before it holds none,
/// and what stands behind it may.
pub proof fn first_separator_divides(a: Seq<char>, sep: char, b: Seq<char>)
    requires
        free_of(a, sep),
    ensures
        before_first(a.push(sep) + b, sep) == a,
        after_first(a.push(sep) + b, sep) == b,
        before_first(a, sep) == a,
        after_first(a, sep) == Seq::<char>::empty(),
{
    let both = a.push(sep) + b;
    lemma_first_place(both, sep);
    lemma_first_place(a, sep);
    assert(both[a.len() as int] == sep);
    assert(both.contains(sep));
    let p = first_place(both, sep);
    assert(p == a.len()) by {
        if p < a.len() {
            assert(both[p] == a[p]);
        }
        if p > a.len() {
            assert(both[a.len() as int] != sep);
        }
    }
    assert(both.take(p) == a);
    assert(both.skip(p + 1) == b);
    assert(a.take(a.len() as int) == a);
}

/// Folding the case of a text folds that of its pieces.
pub proof fn lemma_pieces_of_lowered(text: Seq<char>, sep: char)
    requires
        !('a' <= sep <= 'z'),
        !('A' <= sep <= 'Z'),
    ensures
        pieces(lowered(text), sep) == pieces(text, sep).map_values(|p: Seq<char>| lowered(p)),
    decreases text.len(),
{
    let fold = |p: Seq<char>| lowered(p);
    if text.len() > 0 {
        let front = text.drop_last();
        lemma_pieces_of_lowered(front, sep);
        lemma_pieces_are_free(front, sep);
        assert(lowered(text).drop_last() == lowered(front));
        assert(lowered(text).last() == lower(text.last()));
        let init = pieces(front, sep);
        if text.last() == sep {
            assert(lowered(Seq::<char>::empty()) == Seq::<char>::empty());
            assert(init.push(Seq::empty()).map_values(fold) == init.map_values(fold).push(
                Seq::empty(),
            ));
        } else {
            assert(lower(text.last()) != sep);
            assert(lowered(init.last().push(text.last())) == lowered(init.last()).push(
                lower(text.last()),
            ));
            assert(init.drop_last().push(init.last().push(text.last())).map_values(fold)
                == init.map_values(fold).drop_last().push(
                init.map_values(fold).last().push(lower(text.last())),
            ));
        }
    } else {
        assert(lowered(text) == Seq::<char>::empty());
        assert(lowered(Seq::<char>::empty()) == Seq::<char>::empty());
        assert(seq![Seq::<char>::empty()].map_values(fold) == seq![Seq::<char>::empty()]);
    }
}

} // verus!
