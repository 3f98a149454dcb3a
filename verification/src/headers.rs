//! Header fields: what a header map holds, which fields are passed on in each
//! direction, and what the length of a body is declared to be.
use crate::numbers;
use crate::text;
use axum::http::{HeaderMap, HeaderName, HeaderValue};
use vstd::prelude::*;

verus! {

// ------------------------------------------------------------- outside calls

#[verifier::external_type_specification]
#[verifier::external_body]
pub struct ExHeaderValue(HeaderValue);

#[verifier::external_type_specification]
#[verifier::external_body]
#[verifier::reject_recursive_types(T)]
pub struct ExHeaderMap<T>(HeaderMap<T>);

/// The fields of a header map as `HeaderMap::iter` walks them: name and value,
/// a name once for each of its values, and these in the order in which they
/// were added.
pub uninterp spec fn header_entries(map: HeaderMap) -> Seq<(Seq<char>, Seq<u8>)>;

/// Calls `HeaderMap::new`: a header map without a field.
#[verifier::external_body]
pub(crate) fn no_headers() -> (map: HeaderMap)
    ensures
        header_entries(map) == Seq::<(Seq<char>, Seq<u8>)>::empty(),
{
    HeaderMap::new()
}

/// Calls `HeaderMap::iter` and collects the names and the bytes of the values.
#[verifier::external_body]
pub(crate) fn list_headers(map: &HeaderMap) -> (fields: Vec<(String, Vec<u8>)>)
    ensures
        field_views(fields@) == header_entries(*map),
{
    map.iter().map(|(name, value)| (name.as_str().to_string(), value.as_bytes().to_vec())).collect()
}

/// Calls `HeaderMap::get`: the first value of a field, if the map has the
/// field. The names that this is called with are the same in lower case.
#[verifier::external_body]
pub(crate) fn first_header(map: &HeaderMap, name: &str) -> (value: Option<Vec<u8>>)
    requires
        is_field_name(name@),
    ensures
        bytes_view(value) == first_value(*map, name@),
{
    map.get(name).map(|value| value.as_bytes().to_vec())
}

/// Calls `HeaderMap::try_insert` with a name and a value of one's own, and tells
/// whether the map took them. Where it did, all earlier values of the field are
/// replaced by the one given, and no other field changes; where it did not,
/// nothing changes. A map with no more than `MAX_FIELDS` fields takes them, and
/// one with `MOST_FIELDS` does not. What one between the two does is left open:
/// it rests on how the hashes of the names fall.
#[verifier::external_body]
pub(crate) fn set_header(map: &mut HeaderMap, name: &str, value: &str) -> (taken: bool)
    requires
        is_field_name(name@),
        is_visible_text(value@),
    ensures
        field_names(header_entries(*old(map))).len() <= MAX_FIELDS ==> taken,
        field_names(header_entries(*old(map))).len() >= MOST_FIELDS ==> !taken,
        forall|other: Seq<char>| #[trigger]
            header_values(*final(map), other) == if taken && other == name@ {
                seq![text::ascii_bytes(value@)]
            } else {
                header_values(*old(map), other)
            },
{
    map.try_insert(
        HeaderName::from_lowercase(name.as_bytes()).expect("a field name"),
        HeaderValue::from_str(value).expect("visible text"),
    ).is_ok()
}

/// Calls `HeaderMap::try_insert` on `target` with clones of the name and the
/// value that `HeaderMap::iter` yields at the place `index` of `source`, and
/// tells whether the map took them. What holds of `set_header` holds here.
#[verifier::external_body]
pub(crate) fn copy_header(target: &mut HeaderMap, source: &HeaderMap, index: usize) -> (taken: bool)
    requires
        index < header_entries(*source).len(),
    ensures
        field_names(header_entries(*old(target))).len() <= MAX_FIELDS ==> taken,
        field_names(header_entries(*old(target))).len() >= MOST_FIELDS ==> !taken,
        forall|other: Seq<char>| #[trigger]
            header_values(*final(target), other) == if taken && other == header_entries(
                *source,
            )[index as int].0 {
                seq![header_entries(*source)[index as int].1]
            } else {
                header_values(*old(target), other)
            },
{
    let (name, value) = source.iter().nth(index).expect("an entry");
    target.try_insert(name.clone(), value.clone()).is_ok()
}

// ---------------------------------------------------------------- statements

/// A header map with so many fields takes one more, whatever they are called:
/// its hash table never has more than 32768 places, and insertion may ask for a
/// larger one only once a fifth of them is taken.
pub const MAX_FIELDS: usize = 6553;

/// A header map with so many fields takes none any more: three quarters of the
/// places in its hash table may be taken.
pub const MOST_FIELDS: usize = 24576;

/// The views of a list of fields.
pub open spec fn field_views(fields: Seq<(String, Vec<u8>)>) -> Seq<(Seq<char>, Seq<u8>)> {
    fields.map_values(|field: (String, Vec<u8>)| (field.0@, field.1@))
}

/// The view of an optional byte vector.
pub open spec fn bytes_view(value: Option<Vec<u8>>) -> Option<Seq<u8>> {
    match value {
        Some(bytes) => Some(bytes@),
        None => None,
    }
}

/// The values of a field among the given entries, in their order.
pub open spec fn values_of(entries: Seq<(Seq<char>, Seq<u8>)>, name: Seq<char>) -> Seq<Seq<u8>>
    decreases entries.len(),
{
    if entries.len() == 0 {
        Seq::empty()
    } else {
        let front = values_of(entries.drop_last(), name);
        if entries.last().0 == name {
            front.push(entries.last().1)
        } else {
            front
        }
    }
}

/// The names among the given entries.
pub open spec fn field_names(entries: Seq<(Seq<char>, Seq<u8>)>) -> Set<Seq<char>>
    decreases entries.len(),
{
    if entries.len() == 0 {
        Set::empty()
    } else {
        field_names(entries.drop_last()).insert(entries.last().0)
    }
}

/// The values of a field in a header map, in their order.
pub open spec fn header_values(map: HeaderMap, name: Seq<char>) -> Seq<Seq<u8>> {
    values_of(header_entries(map), name)
}

/// The first value of a field, if the map has the field.
pub open spec fn first_value(map: HeaderMap, name: Seq<char>) -> Option<Seq<u8>> {
    let values = header_values(map, name);
    if values.len() > 0 {
        Some(values[0])
    } else {
        None
    }
}

/// A plain field name: lower-case letters and hyphens, no more than 64.
pub open spec fn is_field_name(name: Seq<char>) -> bool {
    &&& 0 < name.len() <= 64
    &&& forall|i: int| 0 <= i < name.len() ==> 'a' <= #[trigger] name[i] <= 'z' || name[i] == '-'
}

/// The length of a body, as a field writes it.
pub open spec fn length_bytes(len: nat) -> Seq<u8> {
    text::ascii_bytes(numbers::decimal(len))
}

/// Nothing but visible ASCII characters and spaces.
pub open spec fn is_visible_text(s: Seq<char>) -> bool {
    forall|i: int| 0 <= i < s.len() ==> ' ' <= #[trigger] s[i] <= '~'
}

/// A byte that stands for itself in the text of a header value.
pub open spec fn is_visible(b: u8) -> bool {
    32 <= b < 127 || b == 9
}

/// The text of a header value, where every byte of it is visible ASCII or a
/// tab; otherwise it has none.
pub open spec fn header_text(value: Seq<u8>) -> Option<Seq<char>> {
    if forall|i: int| 0 <= i < value.len() ==> is_visible(#[trigger] value[i]) {
        Some(value.map_values(|b: u8| b as char))
    } else {
        None
    }
}

/// A field that concerns one connection only and is never passed on.
pub open spec fn is_hop_by_hop(name: Seq<char>) -> bool {
    ||| name == "connection"@
    ||| name == "keep-alive"@
    ||| name == "proxy-authenticate"@
    ||| name == "proxy-authorization"@
    ||| name == "te"@
    ||| name == "trailer"@
    ||| name == "transfer-encoding"@
    ||| name == "upgrade"@
}

/// A field of an upstream response that is passed on to the client.
pub open spec fn is_passed_on(name: Seq<char>, include_length: bool) -> bool {
    !is_hop_by_hop(name) && (include_length || name != "content-length"@)
}

/// The values of a field once the fields of `source` have been copied over
/// those that were there: the last value of `source`, where the field is passed
/// on and `source` has it; otherwise the values from before.
pub open spec fn copied_values(
    before: Seq<Seq<u8>>,
    source: Seq<Seq<u8>>,
    passed_on: bool,
) -> Seq<Seq<u8>> {
    if passed_on && source.len() > 0 {
        seq![source.last()]
    } else {
        before
    }
}

/// The map `after` is the map `before` once the fields of `source` that are passed
/// on were copied into it.
pub open spec fn is_copied_into(
    source: HeaderMap,
    include_length: bool,
    before: HeaderMap,
    after: HeaderMap,
) -> bool {
    forall|name: Seq<char>| #[trigger]
        header_values(after, name) == copied_values(
            header_values(before, name),
            header_values(source, name),
            is_passed_on(name, include_length),
        )
}

/// The names among the given entries of fields that are passed on.
pub open spec fn passed_names(entries: Seq<(Seq<char>, Seq<u8>)>, include_length: bool) -> Set<
    Seq<char>,
>
    decreases entries.len(),
{
    if entries.len() == 0 {
        Set::empty()
    } else {
        let front = passed_names(entries.drop_last(), include_length);
        if is_passed_on(entries.last().0, include_length) {
            front.insert(entries.last().0)
        } else {
            front
        }
    }
}

/// The names that a map has once the first `n` entries were copied, where it had
/// the names `had`.
pub open spec fn names_with(
    had: Set<Seq<char>>,
    entries: Seq<(Seq<char>, Seq<u8>)>,
    n: int,
    include_length: bool,
) -> Set<Seq<char>> {
    had.union(passed_names(entries.take(n), include_length))
}

/// The entries can be copied into a map that has the names `had` without more
/// than `limit` fields in it whenever one is put in.
pub open spec fn has_room(
    had: Set<Seq<char>>,
    entries: Seq<(Seq<char>, Seq<u8>)>,
    include_length: bool,
    limit: int,
) -> bool {
    forall|i: int|
        0 <= i < entries.len() && is_passed_on(entries[i].0, include_length) ==> #[trigger]
            names_with(had, entries, i, include_length).len() <= limit
}

/// The fields of a request that are passed on to the upstream server.
pub open spec fn forwarded_names() -> Seq<Seq<char>> {
    seq![
        "accept"@,
        "accept-encoding"@,
        "if-none-match"@,
        "if-modified-since"@,
        "range"@,
        "if-range"@,
        "user-agent"@,
    ]
}

/// Those of the named fields that the map has, each with its first value.
pub open spec fn present_fields(map: HeaderMap, names: Seq<Seq<char>>) -> Seq<
    (Seq<char>, Seq<u8>),
>
    decreases names.len(),
{
    if names.len() == 0 {
        Seq::empty()
    } else {
        let front = present_fields(map, names.drop_last());
        match first_value(map, names.last()) {
            Some(value) => front.push((names.last(), value)),
            None => front,
        }
    }
}

/// The length that the fields of a response declare for its body, if they
/// declare one that can be read.
pub open spec fn declared_length(map: HeaderMap) -> Option<nat> {
    match first_value(map, "content-length"@) {
        None => None,
        Some(value) => match header_text(value) {
            None => None,
            Some(s) => numbers::unsigned_value(s, u64::MAX as nat),
        },
    }
}

// -------------------------------------------------------------------- lemmas

/// A name is among the entries exactly if it has a value there.
pub proof fn lemma_field_names(entries: Seq<(Seq<char>, Seq<u8>)>)
    ensures
        field_names(entries).finite(),
        forall|name: Seq<char>| #[trigger]
            field_names(entries).contains(name) <==> values_of(entries, name).len() > 0,
    decreases entries.len(),
{
    if entries.len() > 0 {
        lemma_field_names(entries.drop_last());
    }
}

/// A name is among those that are passed on exactly if it is passed on and has a
/// value.
proof fn lemma_passed_names(entries: Seq<(Seq<char>, Seq<u8>)>, include_length: bool)
    ensures
        forall|name: Seq<char>| #[trigger]
            passed_names(entries, include_length).contains(name) <==> is_passed_on(
                name,
                include_length,
            ) && values_of(entries, name).len() > 0,
    decreases entries.len(),
{
    if entries.len() > 0 {
        let front = entries.drop_last();
        lemma_passed_names(front, include_length);
        assert forall|name: Seq<char>| #[trigger] passed_names(entries, include_length).contains(
            name,
        ) <==> is_passed_on(name, include_length) && values_of(entries, name).len() > 0 by {
            assert(passed_names(front, include_length).contains(name) <==> is_passed_on(
                name,
                include_length,
            ) && values_of(front, name).len() > 0);
        }
    }
}

/// The names that a map has once fields were copied into it.
proof fn lemma_names_with(
    before: HeaderMap,
    entries: Seq<(Seq<char>, Seq<u8>)>,
    target: HeaderMap,
    n: int,
    include_length: bool,
)
    requires
        0 <= n <= entries.len(),
        forall|name: Seq<char>| #[trigger]
            header_values(target, name) == copied_values(
                header_values(before, name),
                values_of(entries.take(n), name),
                is_passed_on(name, include_length),
            ),
    ensures
        field_names(header_entries(target)) == names_with(
            field_names(header_entries(before)),
            entries,
            n,
            include_length,
        ),
{
    let had = field_names(header_entries(before));
    let has = field_names(header_entries(target));
    lemma_field_names(header_entries(before));
    lemma_field_names(header_entries(target));
    lemma_passed_names(entries.take(n), include_length);
    assert forall|name: Seq<char>| #[trigger] has.contains(name) <==> names_with(
        had,
        entries,
        n,
        include_length,
    ).contains(name) by {
        assert(has.contains(name) <==> header_values(target, name).len() > 0);
        assert(had.contains(name) <==> header_values(before, name).len() > 0);
    }
}

// ---------------------------------------------------------------- operations

/// The text of a header value.
pub fn header_chars(value: &[u8]) -> (r: Option<Vec<char>>)
    ensures
        match r {
            Some(chars) => header_text(value@) == Some(chars@),
            None => header_text(value@) is None,
        },
{
    let mut chars: Vec<char> = Vec::new();
    let mut i: usize = 0;
    while i < value.len()
        invariant
            i <= value@.len(),
            chars@ == value@.take(i as int).map_values(|b: u8| b as char),
            forall|j: int| 0 <= j < i ==> is_visible(#[trigger] value@[j]),
        decreases value@.len() - i,
    {
        let b: u8 = value[i];
        if !((32 <= b && b < 127) || b == 9) {
            assert(!is_visible(value@[i as int]));
            return None;
        }
        chars.push(b as char);
        assert(value@.take(i + 1) == value@.take(i as int).push(b));
        assert(chars@ == value@.take(i + 1).map_values(|b: u8| b as char));
        i = i + 1;
    }
    assert(value@.take(i as int) == value@);
    Some(chars)
}

/// Sets a field to one value.
pub(crate) fn put_header(map: &mut HeaderMap, name: &str, value: &str)
    requires
        is_field_name(name@),
        is_visible_text(value@),
        field_names(header_entries(*old(map))).len() <= MAX_FIELDS,
    ensures
        forall|other: Seq<char>| #[trigger]
            header_values(*final(map), other) == if other == name@ {
                seq![text::ascii_bytes(value@)]
            } else {
                header_values(*old(map), other)
            },
        field_names(header_entries(*final(map))).len() <= field_names(
            header_entries(*old(map)),
        ).len() + 1,
{
    let ghost before = *map;
    let _ = set_header(map, name, value);
    proof {
        let had = field_names(header_entries(before));
        let has = field_names(header_entries(*map));
        lemma_field_names(header_entries(before));
        lemma_field_names(header_entries(*map));
        assert forall|other: Seq<char>| #[trigger] has.contains(other) implies had.insert(
            name@,
        ).contains(other) by {
            assert(header_values(*map, other).len() > 0);
            assert(had.contains(other) <==> header_values(before, other).len() > 0);
        }
        vstd::set_lib::lemma_len_subset(has, had.insert(name@));
    }
}

/// Whether a field is never passed on.
fn hop_by_hop(name: &[char]) -> (r: bool)
    ensures
        r == is_hop_by_hop(name@),
{
    text::is_text(name, "connection") || text::is_text(name, "keep-alive") || text::is_text(
        name,
        "proxy-authenticate",
    ) || text::is_text(name, "proxy-authorization") || text::is_text(name, "te") || text::is_text(
        name,
        "trailer",
    ) || text::is_text(name, "transfer-encoding") || text::is_text(name, "upgrade")
}

/// Copies the fields of an upstream response that are passed on, as long as
/// the map takes them. Whether it took all is returned.
pub(crate) fn copy_while_room(target: &mut HeaderMap, source: &HeaderMap, include_length: bool) -> (r:
    bool)
    ensures
        has_room(
            field_names(header_entries(*old(target))),
            header_entries(*source),
            include_length,
            MAX_FIELDS as int,
        ) ==> r,
        r ==> has_room(
            field_names(header_entries(*old(target))),
            header_entries(*source),
            include_length,
            MOST_FIELDS - 1,
        ),
        r ==> forall|name: Seq<char>| #[trigger]
            header_values(*final(target), name) == copied_values(
                header_values(*old(target), name),
                header_values(*source, name),
                is_passed_on(name, include_length),
            ),
        r ==> field_names(header_entries(*final(target))) == field_names(
            header_entries(*old(target)),
        ).union(passed_names(header_entries(*source), include_length)),
{
    let fields = list_headers(source);
    let ghost entries = header_entries(*source);
    let ghost before = *target;
    let ghost had = field_names(header_entries(before));
    let mut i: usize = 0;
    assert(entries.take(0) == Seq::<(Seq<char>, Seq<u8>)>::empty());
    while i < fields.len()
        invariant
            i <= fields@.len(),
            before == *old(target),
            had == field_names(header_entries(before)),
            entries == header_entries(*source),
            entries == field_views(fields@),
            forall|j: int|
                0 <= j < i && is_passed_on(entries[j].0, include_length) ==> #[trigger]
                    names_with(had, entries, j, include_length).len() < MOST_FIELDS,
            forall|name: Seq<char>| #[trigger]
                header_values(*target, name) == copied_values(
                    header_values(before, name),
                    values_of(entries.take(i as int), name),
                    is_passed_on(name, include_length),
                ),
        decreases fields@.len() - i,
    {
        assert(entries[i as int] == (fields@[i as int].0@, fields@[i as int].1@));
        assert(entries.take(i + 1).drop_last() == entries.take(i as int));
        assert(entries.take(i + 1).last() == entries[i as int]);
        let name = text::chars_of(fields[i].0.as_str());
        if !hop_by_hop(name.as_slice()) && (include_length || !text::is_text(
            name.as_slice(),
            "content-length",
        )) {
            proof {
                lemma_names_with(before, entries, *target, i as int, include_length);
            }
            assert(is_passed_on(entries[i as int].0, include_length));
            if !copy_header(target, source, i) {
                return false;
            }
        }
        i = i + 1;
    }
    assert(entries.take(i as int) == entries);
    proof {
        lemma_names_with(before, entries, *target, i as int, include_length);
    }
    true
}

/// Copies the fields of an upstream response that are passed on. Of a field
/// with several values the last one is kept.
pub fn copy_response_headers(target: &mut HeaderMap, source: &HeaderMap, include_length: bool)
    requires
        has_room(
            field_names(header_entries(*old(target))),
            header_entries(*source),
            include_length,
            MAX_FIELDS as int,
        ),
    ensures
        forall|name: Seq<char>| #[trigger]
            header_values(*final(target), name) == copied_values(
                header_values(*old(target), name),
                header_values(*source, name),
                is_passed_on(name, include_length),
            ),
        is_copied_into(*source, include_length, *old(target), *final(target)),
{
    let _ = copy_while_room(target, source, include_length);
}

/// The names of the fields of a request that are passed on to the upstream
/// server.
pub fn forwarded_request_headers() -> (names: Vec<&'static str>)
    ensures
        names@.map_values(|name: &'static str| name@) == forwarded_names(),
{
    let names: Vec<&'static str> = vec![
        "accept",
        "accept-encoding",
        "if-none-match",
        "if-modified-since",
        "range",
        "if-range",
        "user-agent",
    ];
    assert(names@.map_values(|name: &'static str| name@) =~= forwarded_names());
    names
}

/// Every forwarded field has a plain name.
proof fn lemma_forwarded_names()
    ensures
        forall|i: int| 0 <= i < forwarded_names().len() ==> is_field_name(
            #[trigger] forwarded_names()[i],
        ),
{
    reveal_strlit("accept");
    reveal_strlit("accept-encoding");
    reveal_strlit("if-none-match");
    reveal_strlit("if-modified-since");
    reveal_strlit("range");
    reveal_strlit("if-range");
    reveal_strlit("user-agent");
}

/// The fields of a request that are passed on to the upstream server.
pub fn forwarded_headers(headers: &HeaderMap) -> (fields: Vec<(String, Vec<u8>)>)
    ensures
        field_views(fields@) == present_fields(*headers, forwarded_names()),
{
    let names = forwarded_request_headers();
    let ghost all = forwarded_names();
    let mut fields: Vec<(String, Vec<u8>)> = Vec::new();
    let mut i: usize = 0;
    proof {
        lemma_forwarded_names();
        assert(all.take(0) == Seq::<Seq<char>>::empty());
        assert(field_views(fields@) == Seq::<(Seq<char>, Seq<u8>)>::empty());
    }
    while i < names.len()
        invariant
            i <= names@.len(),
            all == forwarded_names(),
            all == names@.map_values(|name: &'static str| name@),
            forall|j: int| 0 <= j < all.len() ==> is_field_name(#[trigger] all[j]),
            field_views(fields@) == present_fields(*headers, all.take(i as int)),
        decreases names@.len() - i,
    {
        let name = names[i];
        assert(all[i as int] == name@);
        assert(all.take(i + 1).drop_last() == all.take(i as int));
        if let Some(value) = first_header(headers, name) {
            let ghost before = field_views(fields@);
            let ghost bytes = value@;
            fields.push((name.to_owned(), value));
            assert(field_views(fields@) == before.push((name@, bytes)));
        }
        i = i + 1;
    }
    assert(all.take(i as int) == all);
    fields
}

/// Whether a request has the field.
pub fn has_field(headers: &HeaderMap, name: &str) -> (r: bool)
    requires
        is_field_name(name@),
    ensures
        r == (first_value(*headers, name@) is Some),
{
    first_header(headers, name).is_some()
}

/// Whether the fields of a response declare a body of more than `max_bytes`.
pub fn should_skip_for_size(headers: &HeaderMap, max_bytes: u64) -> (r: bool)
    ensures
        r == (declared_length(*headers) matches Some(len) && len > max_bytes),
{
    proof {
        reveal_strlit("content-length");
    }
    let value = match first_header(headers, "content-length") {
        Some(value) => value,
        None => return false,
    };
    let chars = match header_chars(value.as_slice()) {
        Some(chars) => chars,
        None => return false,
    };
    match numbers::parse_unsigned(chars.as_slice(), u64::MAX) {
        Some(len) => len > max_bytes,
        None => false,
    }
}

// ---------------------------------------------------------------------- laws

/// Visible text reads back as it was written.
pub proof fn visible_text_reads_back(s: Seq<char>)
    requires
        is_visible_text(s),
    ensures
        header_text(text::ascii_bytes(s)) == Some(s),
{
    let bytes = text::ascii_bytes(s);
    assert forall|i: int| 0 <= i < bytes.len() implies is_visible(#[trigger] bytes[i]) && bytes[i]
        as char == s[i] by {
        assert(' ' <= s[i] <= '~');
    }
    assert(bytes.map_values(|b: u8| b as char) == s);
}

/// A declared length is the one that was written.
pub proof fn declared_length_reads_back(map: HeaderMap, len: nat)
    requires
        len <= u64::MAX,
        first_value(map, "content-length"@) == Some(length_bytes(len)),
    ensures
        declared_length(map) == Some(len),
{
    lemma_decimal_is_visible(len);
    visible_text_reads_back(numbers::decimal(len));
    numbers::decimal_reads_back(len, u64::MAX as nat);
}

/// A number is visible text.
pub proof fn lemma_decimal_is_visible(n: nat)
    ensures
        is_visible_text(numbers::decimal(n)),
{
    numbers::lemma_decimal_writes(n);
    let s = numbers::decimal(n);
    assert forall|i: int| 0 <= i < s.len() implies ' ' <= #[trigger] s[i] <= '~' by {
        assert(numbers::is_digit(s[i]));
    }
}

/// What concerns one connection only is never passed on.
pub proof fn hop_by_hop_fields_are_not_passed_on(
    name: Seq<char>,
    before: Seq<Seq<u8>>,
    source: Seq<Seq<u8>>,
    include_length: bool,
)
    requires
        is_hop_by_hop(name),
    ensures
        copied_values(before, source, is_passed_on(name, include_length)) == before,
{
}

/// Copying the same fields a second time changes nothing.
pub proof fn copying_twice_is_copying_once(
    before: Seq<Seq<u8>>,
    source: Seq<Seq<u8>>,
    passed_on: bool,
)
    ensures
        copied_values(copied_values(before, source, passed_on), source, passed_on)
            == copied_values(before, source, passed_on),
{
}

/// The values of a field are those under its name, in the order in which they
/// come, and the first of them is the one that is asked for.
pub proof fn values_come_in_their_order(
    entries: Seq<(Seq<char>, Seq<u8>)>,
    name: Seq<char>,
    value: Seq<u8>,
    other: Seq<char>,
)
    ensures
        values_of(Seq::<(Seq<char>, Seq<u8>)>::empty(), name) == Seq::<Seq<u8>>::empty(),
        values_of(entries.push((name, value)), name) == values_of(entries, name).push(value),
        other != name ==> values_of(entries.push((name, value)), other) == values_of(
            entries,
            other,
        ),
{
    assert(entries.push((name, value)).drop_last() == entries);
}

/// The first value of a field is asked for, and there is one exactly if the
/// field has a value.
pub proof fn first_values_are_first(map: HeaderMap, name: Seq<char>)
    ensures
        header_values(map, name).len() == 0 ==> first_value(map, name) is None,
        header_values(map, name).len() > 0 ==> first_value(map, name) == Some(
            header_values(map, name)[0],
        ),
{
}

/// Every field of an upstream response but those that concern one connection and
/// the length gets through: of its values the last one is kept, and it takes the
/// place of what was there. So does the length where it is asked for. Those
/// others change nothing.
pub proof fn every_other_field_gets_through(
    name: Seq<char>,
    before: Seq<Seq<u8>>,
    source: Seq<Seq<u8>>,
    include_length: bool,
)
    ensures
        name != "connection"@ && name != "keep-alive"@ && name != "proxy-authenticate"@ && name
            != "proxy-authorization"@ && name != "te"@ && name != "trailer"@ && name
            != "transfer-encoding"@ && name != "upgrade"@ && name != "content-length"@
            && source.len() > 0 ==> copied_values(
            before,
            source,
            is_passed_on(name, include_length),
        ) == seq![source[source.len() - 1]],
        source.len() > 0 ==> copied_values(before, source, is_passed_on("content-length"@, true))
            == seq![source[source.len() - 1]],
        copied_values(before, source, is_passed_on("content-length"@, false)) == before,
        source.len() == 0 ==> copied_values(before, source, is_passed_on(name, include_length))
            == before,
        name == "connection"@ || name == "keep-alive"@ || name == "proxy-authenticate"@ || name
            == "proxy-authorization"@ || name == "te"@ || name == "trailer"@ || name
            == "transfer-encoding"@ || name == "upgrade"@ ==> copied_values(
            before,
            source,
            is_passed_on(name, include_length),
        ) == before,
{
    lemma_length_is_no_hop();
}

/// The length does not concern one connection only.
proof fn lemma_length_is_no_hop()
    ensures
        !is_hop_by_hop("content-length"@),
{
    reveal_strlit("content-length");
    reveal_strlit("connection");
    reveal_strlit("keep-alive");
    reveal_strlit("proxy-authenticate");
    reveal_strlit("proxy-authorization");
    reveal_strlit("te");
    reveal_strlit("trailer");
    reveal_strlit("transfer-encoding");
    reveal_strlit("upgrade");
    assert("content-length"@.len() == 14);
    assert("connection"@.len() == 10 && "keep-alive"@.len() == 10 && "proxy-authenticate"@.len()
        == 18 && "proxy-authorization"@.len() == 19 && "te"@.len() == 2 && "trailer"@.len() == 7
        && "transfer-encoding"@.len() == 17 && "upgrade"@.len() == 7);
}

/// A header map with no more than 6553 fields in it at the end took all that
/// was copied into it.
pub proof fn few_fields_have_room(
    had: Set<Seq<char>>,
    entries: Seq<(Seq<char>, Seq<u8>)>,
    include_length: bool,
)
    requires
        had.finite(),
        had.union(field_names(entries)).len() <= 6553,
    ensures
        has_room(had, entries, include_length, MAX_FIELDS as int),
        had.union(passed_names(entries, include_length)).len() <= 6553,
{
    let all = had.union(field_names(entries));
    lemma_field_names(entries);
    lemma_passed_names(entries, include_length);
    assert forall|i: int|
        0 <= i < entries.len() && is_passed_on(entries[i].0, include_length) implies #[trigger]
        names_with(had, entries, i, include_length).len() <= MAX_FIELDS by {
        lemma_passed_names(entries.take(i), include_length);
        lemma_values_of_prefix(entries, i);
        let some = names_with(had, entries, i, include_length);
        assert(some.subset_of(all)) by {
            assert forall|name: Seq<char>| #[trigger] some.contains(name) implies all.contains(
                name,
            ) by {
                if !had.contains(name) {
                    assert(passed_names(entries.take(i), include_length).contains(name));
                    assert(values_of(entries.take(i), name).len() <= values_of(entries, name).len());
                    assert(field_names(entries).contains(name));
                }
            }
        }
        vstd::set_lib::lemma_len_subset(some, all);
    }
    let passed = had.union(passed_names(entries, include_length));
    assert(passed.subset_of(all)) by {
        assert forall|name: Seq<char>| #[trigger] passed.contains(name) implies all.contains(
            name,
        ) by {
            if !had.contains(name) {
                assert(passed_names(entries, include_length).contains(name));
                assert(field_names(entries).contains(name));
            }
        }
    }
    vstd::set_lib::lemma_len_subset(passed, all);
}

/// The first entries have no more values of a field than all of them.
proof fn lemma_values_of_prefix(entries: Seq<(Seq<char>, Seq<u8>)>, n: int)
    requires
        0 <= n <= entries.len(),
    ensures
        forall|name: Seq<char>| #[trigger]
            values_of(entries.take(n), name).len() <= values_of(entries, name).len(),
    decreases entries.len(),
{
    if n < entries.len() {
        let front = entries.drop_last();
        lemma_values_of_prefix(front, n);
        assert(front.take(n) == entries.take(n));
        assert forall|name: Seq<char>| #[trigger]
            values_of(entries.take(n), name).len() <= values_of(entries, name).len() by {
            assert(values_of(front.take(n), name).len() <= values_of(front, name).len());
        }
    } else {
        assert(entries.take(n) == entries);
    }
}

/// The fields that a map has among the named ones.
proof fn lemma_present_fields(map: HeaderMap, names: Seq<Seq<char>>)
    ensures
        forall|name: Seq<char>, value: Seq<u8>| #[trigger]
            present_fields(map, names).contains((name, value)) <==> names.contains(name)
                && first_value(map, name) == Some(value),
    decreases names.len(),
{
    let all = present_fields(map, names);
    if names.len() > 0 {
        let rest = names.drop_last();
        let front = present_fields(map, rest);
        let last = names.last();
        lemma_present_fields(map, rest);
        assert(rest.push(last) == names);
        assert forall|name: Seq<char>, value: Seq<u8>| #[trigger]
            all.contains((name, value)) <==> names.contains(name) && first_value(map, name)
                == Some(value) by {
            let field = (name, value);
            assert(front.contains(field) <==> rest.contains(name) && first_value(map, name)
                == Some(value));
            if all.contains(field) {
                let k = choose|k: int| 0 <= k < all.len() && all[k] == field;
                if k < front.len() {
                    assert(front[k] == field);
                    let j = choose|j: int| 0 <= j < rest.len() && rest[j] == name;
                    assert(names[j] == name);
                } else {
                    assert(names[names.len() - 1] == name);
                }
            }
            if names.contains(name) && first_value(map, name) == Some(value) {
                let j = choose|j: int| 0 <= j < names.len() && names[j] == name;
                if j < rest.len() {
                    assert(rest[j] == name);
                    let k = choose|k: int| 0 <= k < front.len() && front[k] == field;
                    assert(all[k] == field);
                } else {
                    assert(all[all.len() - 1] == field);
                }
            }
        }
    }
}

/// Of the fields of a request seven are passed on to the upstream server, each
/// with its first value, and no other.
pub proof fn seven_fields_are_forwarded(map: HeaderMap, name: Seq<char>, value: Seq<u8>)
    ensures
        present_fields(map, forwarded_names()).contains((name, value)) <==> ((name == "accept"@
            || name == "accept-encoding"@ || name == "if-none-match"@ || name
            == "if-modified-since"@ || name == "range"@ || name == "if-range"@ || name
            == "user-agent"@) && header_values(map, name).len() > 0 && value == header_values(
            map,
            name,
        )[0]),
{
    let names = forwarded_names();
    lemma_present_fields(map, names);
    assert(present_fields(map, names).contains((name, value)) <==> names.contains(name)
        && first_value(map, name) == Some(value));
    assert(names[0] == "accept"@ && names[1] == "accept-encoding"@ && names[2]
        == "if-none-match"@ && names[3] == "if-modified-since"@ && names[4] == "range"@ && names[5]
        == "if-range"@ && names[6] == "user-agent"@);
    if names.contains(name) {
        let k = choose|k: int| 0 <= k < names.len() && names[k] == name;
        assert(k == 0 || k == 1 || k == 2 || k == 3 || k == 4 || k == 5 || k == 6);
    }
}

/// Names that differ make fields that differ.
proof fn lemma_present_fields_differ(map: HeaderMap, names: Seq<Seq<char>>)
    requires
        names.no_duplicates(),
    ensures
        forall|i: int, j: int|
            0 <= i < j < present_fields(map, names).len() ==> (#[trigger] present_fields(
                map,
                names,
            )[i]).0 != (#[trigger] present_fields(map, names)[j]).0,
    decreases names.len(),
{
    let all = present_fields(map, names);
    if names.len() > 0 {
        let rest = names.drop_last();
        let front = present_fields(map, rest);
        lemma_present_fields_differ(map, rest);
        lemma_present_fields(map, rest);
        assert forall|i: int, j: int| 0 <= i < j < all.len() implies (#[trigger] all[i]).0 != (
        #[trigger] all[j]).0 by {
            assert(all[i] == front[i]);
            assert(front.contains(front[i]));
            assert(front.contains((front[i].0, front[i].1)));
            assert(rest.contains(front[i].0));
            if j < front.len() {
                assert(all[j] == front[j]);
            } else {
                let k = choose|k: int| 0 <= k < rest.len() && rest[k] == front[i].0;
                assert(names[k] == front[i].0);
                assert(all[j].0 == names[names.len() - 1]);
            }
        }
    }
}

/// No field is passed on to the upstream server more than once.
pub proof fn forwarded_fields_differ(map: HeaderMap, i: int, j: int)
    requires
        0 <= i < j < present_fields(map, forwarded_names()).len(),
    ensures
        present_fields(map, forwarded_names())[i].0 != present_fields(map, forwarded_names())[j].0,
{
    reveal_strlit("accept");
    reveal_strlit("accept-encoding");
    reveal_strlit("if-none-match");
    reveal_strlit("if-modified-since");
    reveal_strlit("range");
    reveal_strlit("if-range");
    reveal_strlit("user-agent");
    let names = forwarded_names();
    assert(names[0].len() == 6 && names[1].len() == 15 && names[2].len() == 13 && names[3].len()
        == 17 && names[4].len() == 5 && names[5].len() == 8 && names[6].len() == 10);
    lemma_present_fields_differ(map, names);
}

/// The length of a body is declared by digits, with a plus sign in front or not,
/// and is the number that they write; a number beyond 64 bits, a missing field
/// and anything else declare none.
pub proof fn lengths_are_declared_in_digits(map: HeaderMap, digits: Seq<char>)
    ensures
        digits.len() > 0 && (forall|i: int|
            0 <= i < digits.len() ==> '0' <= #[trigger] digits[i] <= '9') && (first_value(
            map,
            "content-length"@,
        ) == Some(text::ascii_bytes(digits)) || first_value(map, "content-length"@) == Some(
            text::ascii_bytes(seq!['+'] + digits),
        )) ==> declared_length(map) == if numbers::digits_value(digits)
            <= 18446744073709551615int {
            Some(numbers::digits_value(digits) as nat)
        } else {
            None
        },
        first_value(map, "content-length"@) is None ==> declared_length(map) is None,
        first_value(map, "content-length"@) matches Some(value) && header_text(value) is None
            ==> declared_length(map) is None,
        first_value(map, "content-length"@) matches Some(value) && (header_text(value) matches
            Some(s) && numbers::unsigned_value(s, u64::MAX as nat) is None) ==> declared_length(
            map,
        ) is None,
{
    if digits.len() > 0 && (forall|i: int|
        0 <= i < digits.len() ==> '0' <= #[trigger] digits[i] <= '9') {
        numbers::digits_are_read(digits, u64::MAX as nat);
        assert(is_visible_text(digits));
        visible_text_reads_back(digits);
        let signed = seq!['+'] + digits;
        assert(is_visible_text(signed)) by {
            assert forall|i: int| 0 <= i < signed.len() implies ' ' <= #[trigger] signed[i]
                <= '~' by {
                if i > 0 {
                    assert(signed[i] == digits[i - 1]);
                }
            }
        }
        visible_text_reads_back(signed);
    }
}

/// A header value is text exactly if every byte of it is a tab or stands between
/// the space and the tilde, and then it is read byte by byte.
pub proof fn header_text_is_visible_ascii(value: Seq<u8>)
    ensures
        header_text(value) is Some <==> forall|i: int|
            0 <= i < value.len() ==> #[trigger] value[i] == 9 || 32 <= value[i] <= 126,
        header_text(value) matches Some(s) ==> s.len() == value.len() && forall|i: int|
            0 <= i < s.len() ==> #[trigger] s[i] as int == value[i] as int,
{
    if header_text(value) is Some {
        assert forall|i: int| 0 <= i < value.len() implies #[trigger] value[i] == 9 || 32
            <= value[i] <= 126 by {
            assert(is_visible(value[i]));
        }
    }
}

/// Once fields were copied, a map has the last value of every field of the source
/// that is none of the eight which concern one connection, but for the length
/// where that is not asked for; everything else is as it was.
pub proof fn copies_have_every_other_field(
    source: HeaderMap,
    include_length: bool,
    before: HeaderMap,
    after: HeaderMap,
    name: Seq<char>,
)
    requires
        is_copied_into(source, include_length, before, after),
    ensures
        ({
            let values = header_values(source, name);
            let is_hop = name == "connection"@ || name == "keep-alive"@ || name
                == "proxy-authenticate"@ || name == "proxy-authorization"@ || name == "te"@ || name
                == "trailer"@ || name == "transfer-encoding"@ || name == "upgrade"@;
            let is_left_out = name == "content-length"@ && !include_length;
            &&& values.len() > 0 && !is_hop && !is_left_out ==> header_values(after, name) == seq![
                values[values.len() - 1],
            ]
            &&& values.len() == 0 || is_hop || is_left_out ==> header_values(after, name)
                == header_values(before, name)
        }),
{
    every_other_field_gets_through(
        name,
        header_values(before, name),
        header_values(source, name),
        include_length,
    );
    assert(header_values(after, name) == copied_values(
        header_values(before, name),
        header_values(source, name),
        is_passed_on(name, include_length),
    ));
}

} // verus!
