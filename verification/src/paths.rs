//! File names: the last component of a path, its stem and its extension.
use crate::text;
use vstd::prelude::*;

verus! {

// --------------------------------------------------------------------- types

/// How the system that the server runs on writes paths.
#[derive(Debug, Clone, Copy, PartialEq, Eq, Structural)]
pub enum PathStyle {
    /// Slashes separate the components of a path.
    Unix,
    /// Slashes and backslashes do. A path can begin with the name of a server
    /// and that of a share on it, behind two separators.
    Windows,
}

// ---------------------------------------------------------------- statements

/// The last of the given components that is not empty and not a single dot, if
/// it is a name: two dots are none.
pub open spec fn last_name(components: Seq<Seq<char>>) -> Option<Seq<char>>
    decreases components.len(),
{
    if components.len() == 0 {
        None
    } else {
        let last = components.last();
        if last.len() == 0 || last == "."@ {
            last_name(components.drop_last())
        } else if last == ".."@ {
            None
        } else {
            Some(last)
        }
    }
}

/// A path with a slash for every separator.
pub open spec fn with_slashes(path: Seq<char>, style: PathStyle) -> Seq<char> {
    path.map_values(
        |c: char|
            if style == PathStyle::Windows && c == '\\' {
                '/'
            } else {
                c
            },
    )
}

/// How many of the components of a path are the name of a share: two empty ones
/// before two separators, the server and the share.
pub open spec fn share_len(components: Seq<Seq<char>>, style: PathStyle) -> int {
    if style == PathStyle::Windows && components.len() >= 4 && components[0].len() == 0
        && components[1].len() == 0 && components[2].len() > 0 && components[3].len() > 0 {
        4
    } else {
        0
    }
}

/// The file name of a path: its last component, behind the name of a share. Only
/// a slash separates components, and on Windows a backslash as well. Drive
/// letters are not looked for: the path of a request begins with a slash.
pub open spec fn file_name(path: Seq<char>, style: PathStyle) -> Option<Seq<char>> {
    let components = text::pieces(with_slashes(path, style), '/');
    last_name(components.skip(share_len(components, style)))
}

/// The place of the last `c` in `s`, or -1 where there is none.
pub open spec fn last_place(s: Seq<char>, c: char) -> int
    decreases s.len(),
{
    if s.len() == 0 || s.last() == c {
        s.len() - 1
    } else {
        last_place(s.drop_last(), c)
    }
}

/// The extension of a file name: what stands behind its last dot, unless that
/// dot is the name's first character.
pub open spec fn extension(name: Seq<char>) -> Option<Seq<char>> {
    let at = last_place(name, '.');
    if at > 0 {
        Some(name.skip(at + 1))
    } else {
        None
    }
}

/// A file name without its extension and the dot before it.
pub open spec fn stem(name: Seq<char>) -> Seq<char> {
    let at = last_place(name, '.');
    if at > 0 {
        name.take(at)
    } else {
        name
    }
}

/// A name that a file can have.
pub open spec fn is_file_name(name: Seq<char>) -> bool {
    name.len() > 0 && name != "."@ && name != ".."@ && text::free_of(name, '/')
}

// -------------------------------------------------------------------- lemmas

/// Where the last `c` stands.
pub proof fn lemma_last_place(s: Seq<char>, c: char)
    ensures
        -1 <= last_place(s, c) < s.len(),
        last_place(s, c) >= 0 ==> s[last_place(s, c)] == c,
        forall|i: int| last_place(s, c) < i < s.len() ==> #[trigger] s[i] != c,
    decreases s.len(),
{
    if s.len() > 0 && s.last() != c {
        let front = s.drop_last();
        lemma_last_place(front, c);
        assert forall|i: int| last_place(s, c) < i < s.len() implies #[trigger] s[i] != c by {
            if i < front.len() {
                assert(front[i] == s[i]);
            }
        }
    }
}

// ---------------------------------------------------------------- operations

/// The path with a slash for every separator.
fn to_slashes(path: &[char], style: PathStyle) -> (r: Vec<char>)
    ensures
        r@ == with_slashes(path@, style),
{
    let mut r: Vec<char> = Vec::new();
    let mut i: usize = 0;
    while i < path.len()
        invariant
            i <= path@.len(),
            r@ == with_slashes(path@.take(i as int), style),
        decreases path@.len() - i,
    {
        let c = path[i];
        r.push(
            if style == PathStyle::Windows && c == '\\' {
                '/'
            } else {
                c
            },
        );
        assert(path@.take(i + 1) == path@.take(i as int).push(c));
        assert(r@ == with_slashes(path@.take(i + 1), style));
        i = i + 1;
    }
    assert(path@.take(i as int) == path@);
    r
}

/// The file name of a path.
pub fn name_of(path: &[char], style: PathStyle) -> (r: Option<Vec<char>>)
    ensures
        match r {
            Some(name) => file_name(path@, style) == Some(name@),
            None => file_name(path@, style) is None,
        },
{
    let slashed = to_slashes(path, style);
    let parts = text::split(slashed.as_slice(), '/');
    let ghost components = text::pieces(with_slashes(path@, style), '/');
    assert(forall|j: int| 0 <= j < components.len() ==> #[trigger] components[j] == parts@[j]@);
    let from: usize = if style == PathStyle::Windows && parts.len() >= 4 && parts[0].len() == 0
        && parts[1].len() == 0 && parts[2].len() > 0 && parts[3].len() > 0 {
        4
    } else {
        0
    };
    let ghost all = components.skip(from as int);
    let mut i: usize = parts.len();
    assert(all.take(i - from) == all);
    while i > from
        invariant
            from <= i <= parts@.len(),
            components == text::views(parts@),
            components == text::pieces(with_slashes(path@, style), '/'),
            from == share_len(components, style),
            all == components.skip(from as int),
            last_name(all) == last_name(all.take(i - from)),
        decreases i,
    {
        let last = parts[i - 1].as_slice();
        assert(all.take(i - from).last() == last@);
        assert(all.take(i - from).drop_last() == all.take(i - from - 1));
        if last.len() != 0 && !text::is_text(last, ".") {
            if text::is_text(last, "..") {
                return None;
            }
            return Some(text::stretch(last, 0, last.len()));
        }
        i = i - 1;
    }
    None
}

/// The place of the last dot, if it divides a file name.
fn dividing_dot(name: &[char]) -> (r: Option<usize>)
    ensures
        match r {
            Some(at) => 0 < at < name@.len() && at == last_place(name@, '.'),
            None => last_place(name@, '.') <= 0,
        },
{
    let mut i: usize = name.len();
    assert(name@.take(i as int) == name@);
    while i > 0
        invariant
            i <= name@.len(),
            last_place(name@, '.') == last_place(name@.take(i as int), '.'),
        decreases i,
    {
        assert(name@.take(i as int).drop_last() == name@.take(i - 1));
        if name[i - 1] == '.' {
            return if i > 1 {
                Some(i - 1)
            } else {
                None
            };
        }
        i = i - 1;
    }
    None
}

/// The extension of a file name.
pub fn extension_of(name: &[char]) -> (r: Option<Vec<char>>)
    ensures
        match r {
            Some(ext) => extension(name@) == Some(ext@),
            None => extension(name@) is None,
        },
{
    let len: usize = name.len();
    match dividing_dot(name) {
        Some(at) => Some(text::stretch(name, at + 1, len)),
        None => None,
    }
}

/// A file name without its extension.
pub fn stem_of(name: &[char]) -> (r: Vec<char>)
    ensures
        r@ == stem(name@),
{
    let to: usize = match dividing_dot(name) {
        Some(at) => at,
        None => name.len(),
    };
    text::stretch(name, 0, to)
}

// ---------------------------------------------------------------------- laws

/// A character that separates the components of a path.
pub open spec fn is_separator(c: char, style: PathStyle) -> bool {
    c == '/' || (c == '\\' && style == PathStyle::Windows)
}

/// Nothing in the text separates components.
pub open spec fn has_no_separator(s: Seq<char>, style: PathStyle) -> bool {
    forall|i: int| 0 <= i < s.len() ==> !is_separator(#[trigger] s[i], style)
}

/// The path begins with two separators, as the name of a share does.
pub open spec fn begins_like_a_share(path: Seq<char>, style: PathStyle) -> bool {
    style == PathStyle::Windows && path.len() >= 2 && is_separator(path[0], style) && is_separator(
        path[1],
        style,
    )
}

/// A component that names a file or a directory.
pub open spec fn is_name(s: Seq<char>) -> bool {
    s.len() > 0 && s != seq!['.'] && s != seq!['.', '.']
}

/// The dots as they are written.
proof fn lemma_dots()
    ensures
        "."@ == seq!['.'],
        ".."@ == seq!['.', '.'],
{
    reveal_strlit(".");
    reveal_strlit("..");
    assert("."@ == seq!['.']);
    assert(".."@ == seq!['.', '.']);
}

/// A text without separators keeps its characters and is one component.
proof fn lemma_one_component(s: Seq<char>, style: PathStyle)
    requires
        has_no_separator(s, style),
    ensures
        with_slashes(s, style) == s,
        text::free_of(s, '/'),
        text::pieces(s, '/') == seq![s],
{
    assert forall|i: int| 0 <= i < s.len() implies with_slashes(s, style)[i] == s[i] && s[i]
        != '/' by {
        assert(!is_separator(s[i], style));
    }
    assert(with_slashes(s, style) == s);
    text::lemma_pieces_of_free(s, '/');
}

/// The components of two paths with a separator between them.
proof fn lemma_components_of_two(a: Seq<char>, sep: char, b: Seq<char>, style: PathStyle)
    requires
        is_separator(sep, style),
    ensures
        text::pieces(with_slashes(a.push(sep) + b, style), '/') == text::pieces(
            with_slashes(a, style),
            '/',
        ) + text::pieces(with_slashes(b, style), '/'),
{
    assert(with_slashes(a.push(sep) + b, style) == with_slashes(a, style).push('/')
        + with_slashes(b, style));
    text::lemma_pieces_of_two(with_slashes(a, style), with_slashes(b, style), '/');
}

/// A path that does not begin with two separators has no share in it.
proof fn lemma_no_share(path: Seq<char>, style: PathStyle)
    requires
        !begins_like_a_share(path, style),
    ensures
        share_len(text::pieces(with_slashes(path, style), '/'), style) == 0,
{
    let s = with_slashes(path, style);
    let components = text::pieces(s, '/');
    if share_len(components, style) != 0 {
        text::lemma_joined_of_pieces(s, '/');
        text::lemma_pieces_are_free(s, '/');
        assert(components.len() >= 4);
        let rest = components.skip(2);
        let front = components.take(2);
        assert(front + rest == components);
        assert(text::all_free_of(rest, '/'));
        text::lemma_pieces_of_joined(rest, '/');
        let tail = text::joined(rest, '/');
        assert(components[0] == Seq::<char>::empty() && components[1] == Seq::<char>::empty());
        assert(front == seq![Seq::<char>::empty(), Seq::<char>::empty()]);
        text::lemma_pieces_of_free(Seq::<char>::empty(), '/');
        text::lemma_pieces_of_two(Seq::<char>::empty(), Seq::<char>::empty(), '/');
        let head = Seq::<char>::empty().push('/') + Seq::<char>::empty();
        text::lemma_pieces_of_two(head, tail, '/');
        assert(text::pieces(head.push('/') + tail, '/') == components);
        text::lemma_joined_of_pieces(head.push('/') + tail, '/');
        assert(s == head.push('/') + tail);
        assert(s[0] == '/' && s[1] == '/');
        assert(s[0] == with_slashes(path, style)[0] && s[1] == with_slashes(path, style)[1]);
        assert(is_separator(path[0], style) && is_separator(path[1], style));
    }
}

/// The file name of a path is what stands behind its last separator, wherever
/// the file stands.
pub proof fn file_name_stands_behind_the_last_separator(
    dir: Seq<char>,
    sep: char,
    name: Seq<char>,
    style: PathStyle,
)
    requires
        is_separator(sep, style),
        has_no_separator(name, style),
        is_name(name),
        !begins_like_a_share(dir.push(sep) + name, style),
    ensures
        file_name(dir.push(sep) + name, style) == Some(name),
        file_name(name, style) == Some(name),
{
    let path = dir.push(sep) + name;
    lemma_dots();
    lemma_one_component(name, style);
    lemma_components_of_two(dir, sep, name, style);
    lemma_no_share(path, style);
    let components = text::pieces(with_slashes(path, style), '/');
    assert(components.last() == name);
    assert(components.skip(0) == components);
    assert(!begins_like_a_share(name, style)) by {
        if name.len() >= 2 {
            assert(!is_separator(name[0], style));
        }
    }
    lemma_no_share(name, style);
    assert(seq![name].skip(0) == seq![name]);
    assert(seq![name].last() == name);
}

/// Separators at the end of a path and a single dot behind one make no
/// difference; two dots leave the path without a file name.
pub proof fn empty_components_are_passed_over(path: Seq<char>, sep: char, style: PathStyle)
    requires
        is_separator(sep, style),
        !begins_like_a_share(path.push(sep), style),
    ensures
        file_name(path.push(sep), style) == file_name(path, style),
        file_name(path.push(sep).push('.'), style) == file_name(path, style),
        file_name(path.push(sep) + seq!['.', '.'], style) is None,
{
    lemma_dots();
    let none = Seq::<char>::empty();
    let components = text::pieces(with_slashes(path, style), '/');
    lemma_no_share(path, style);
    assert(components.skip(0) == components);
    assert(path.push(sep) == path.push(sep) + none);
    assert(path.push(sep).push('.') == path.push(sep) + seq!['.']);
    lemma_one_component(none, style);
    lemma_one_component(seq!['.'], style);
    lemma_one_component(seq!['.', '.'], style);
    lemma_components_of_two(path, sep, none, style);
    lemma_components_of_two(path, sep, seq!['.'], style);
    lemma_components_of_two(path, sep, seq!['.', '.'], style);
    lemma_no_share(path.push(sep), style);
    lemma_no_share(path.push(sep).push('.'), style);
    lemma_no_share(path.push(sep) + seq!['.', '.'], style);
    let a = components + seq![none];
    let b = components + seq![seq!['.']];
    let c = components + seq![seq!['.', '.']];
    assert(a.skip(0) == a && b.skip(0) == b && c.skip(0) == c);
    assert(a.drop_last() == components && b.drop_last() == components);
    assert(c.last() == seq!['.', '.']);
}

/// A path without a component has no file name.
pub proof fn root_has_no_file_name(style: PathStyle)
    ensures
        file_name(Seq::<char>::empty(), style) is None,
        file_name(seq!['/'], style) is None,
{
    let none = Seq::<char>::empty();
    lemma_one_component(none, style);
    lemma_components_of_two(none, '/', none, style);
    assert(none.push('/') + none == seq!['/']);
    lemma_no_share(none, style);
    lemma_no_share(seq!['/'], style);
    let one = seq![none];
    let two = one + one;
    assert(one.skip(0) == one && two.skip(0) == two);
    assert(two.drop_last() == one);
    assert(one.drop_last() == Seq::<Seq<char>>::empty());
    reveal_with_fuel(last_name, 4);
}

/// On Windows the names of a server and of a share on it are no file name, and
/// what stands behind them is looked at as if it stood alone.
pub proof fn shares_are_passed_over(server: Seq<char>, share: Seq<char>, rest: Seq<char>)
    requires
        server.len() > 0,
        share.len() > 0,
        has_no_separator(server, PathStyle::Windows),
        has_no_separator(share, PathStyle::Windows),
        !begins_like_a_share(rest, PathStyle::Windows),
    ensures
        file_name(
            seq!['/', '/'] + server + seq!['/'] + share,
            PathStyle::Windows,
        ) is None,
        file_name(
            seq!['/', '/'] + server + seq!['/'] + share + seq!['/'] + rest,
            PathStyle::Windows,
        ) == file_name(rest, PathStyle::Windows),
{
    let style = PathStyle::Windows;
    let none = Seq::<char>::empty();
    let a = seq!['/', '/'] + server + seq!['/'] + share;
    lemma_one_component(none, style);
    lemma_one_component(server, style);
    lemma_one_component(share, style);
    let root = none.push('/') + none;
    assert(root == seq!['/']);
    lemma_components_of_two(none, '/', none, style);
    let host = root.push('/') + server;
    lemma_components_of_two(root, '/', server, style);
    assert(a == host.push('/') + share);
    lemma_components_of_two(host, '/', share, style);
    let components = text::pieces(with_slashes(a, style), '/');
    assert(components == seq![none, none, server, share]);
    assert(components.skip(4) == Seq::<Seq<char>>::empty());
    let b = a + seq!['/'] + rest;
    assert(b == a.push('/') + rest);
    lemma_components_of_two(a, '/', rest, style);
    let below = text::pieces(with_slashes(rest, style), '/');
    let all = components + below;
    assert(all.skip(4) == below);
    assert(all[0] == none && all[1] == none && all[2] == server && all[3] == share);
    lemma_no_share(rest, style);
    assert(below.skip(0) == below);
}

/// Without a server or without a share on it there is nothing to pass over: the
/// file name is then what stands behind the last separator, as it is elsewhere.
pub proof fn shares_have_two_names(server: Seq<char>, dir: Seq<char>, name: Seq<char>)
    requires
        has_no_separator(server, PathStyle::Windows),
        has_no_separator(name, PathStyle::Windows),
        is_name(name),
    ensures
        file_name(seq!['/', '/'] + name, PathStyle::Windows) == Some(name),
        file_name(seq!['/', '/', '/'] + (dir.push('/') + name), PathStyle::Windows) == Some(name),
        file_name(
            seq!['/', '/'] + server + seq!['/', '/'] + (dir.push('/') + name),
            PathStyle::Windows,
        ) == Some(name),
{
    let style = PathStyle::Windows;
    let none = Seq::<char>::empty();
    lemma_dots();
    lemma_one_component(none, style);
    lemma_one_component(server, style);
    lemma_one_component(name, style);
    let root = none.push('/') + none;
    lemma_components_of_two(none, '/', none, style);
    assert(seq!['/', '/'] + name == root.push('/') + name);
    lemma_components_of_two(root, '/', name, style);
    let short = seq![none, none] + seq![name];
    assert(short.skip(0) == short);
    assert(short.last() == name);

    let rest = dir.push('/') + name;
    lemma_components_of_two(dir, '/', name, style);
    let below = text::pieces(with_slashes(rest, style), '/');
    assert(below.last() == name);
    text::lemma_pieces_are_free(with_slashes(dir, style), '/');

    let root_again = root.push('/') + none;
    lemma_components_of_two(root, '/', none, style);
    assert(seq!['/', '/', '/'] + rest == root_again.push('/') + rest);
    lemma_components_of_two(root_again, '/', rest, style);
    let a = seq![none, none] + seq![none] + below;
    assert(a[0] == none && a[1] == none && a[2] == none);
    assert(a.skip(0) == a);
    assert(a.last() == name);

    let host = root.push('/') + server;
    lemma_components_of_two(root, '/', server, style);
    let host_again = host.push('/') + none;
    lemma_components_of_two(host, '/', none, style);
    assert(seq!['/', '/'] + server + seq!['/', '/'] + rest == host_again.push('/') + rest);
    lemma_components_of_two(host_again, '/', rest, style);
    let b = seq![none, none] + seq![server] + seq![none] + below;
    assert(b[0] == none && b[1] == none && b[2] == server && b[3] == none);
    assert(b.skip(0) == b);
    assert(b.last() == name);
}

/// The extension of a file name is what stands behind its last dot; a dot in
/// front of the name makes none, and without a dot there is none.
pub proof fn last_dot_divides_a_name(stem_part: Seq<char>, ext: Seq<char>)
    requires
        text::free_of(ext, '.'),
    ensures
        stem_part.len() > 0 ==> extension(stem_part.push('.') + ext) == Some(ext) && stem(
            stem_part.push('.') + ext,
        ) == stem_part,
        extension(seq!['.'] + ext) is None,
        stem(seq!['.'] + ext) == seq!['.'] + ext,
        extension(ext) is None,
        stem(ext) == ext,
{
    let name = stem_part.push('.') + ext;
    lemma_place_before(stem_part, ext);
    lemma_place_before(Seq::<char>::empty(), ext);
    assert(Seq::<char>::empty().push('.') + ext == seq!['.'] + ext);
    lemma_last_place(ext, '.');
    assert(last_place(ext, '.') < 0) by {
        if last_place(ext, '.') >= 0 {
            assert(ext[last_place(ext, '.')] == '.');
        }
    }
    assert(name.skip(stem_part.len() as int + 1) == ext);
    assert(name.take(stem_part.len() as int) == stem_part);
}

/// Where the last dot stands before a text that has none.
proof fn lemma_place_before(a: Seq<char>, b: Seq<char>)
    requires
        text::free_of(b, '.'),
    ensures
        last_place(a.push('.') + b, '.') == a.len(),
{
    let both = a.push('.') + b;
    lemma_last_place(both, '.');
    let p = last_place(both, '.');
    assert(both[a.len() as int] == '.');
    if p > a.len() {
        assert(both[p] == b[p - a.len() - 1]);
    }
}

/// Folding the case of components folds that of the name.
proof fn lemma_last_name_of_lowered(components: Seq<Seq<char>>)
    ensures
        last_name(components.map_values(|p: Seq<char>| text::lowered(p))) == match last_name(
            components,
        ) {
            Some(name) => Some(text::lowered(name)),
            None => None,
        },
    decreases components.len(),
{
    let fold = |p: Seq<char>| text::lowered(p);
    if components.len() > 0 {
        lemma_dots();
        lemma_last_name_of_lowered(components.drop_last());
        let last = components.last();
        assert(components.map_values(fold).drop_last() == components.drop_last().map_values(fold));
        assert(components.map_values(fold).last() == text::lowered(last));
        lemma_same_dots(last);
    }
}

/// Dots have no case.
proof fn lemma_same_dots(s: Seq<char>)
    ensures
        text::lowered(s) == seq!['.'] <==> s == seq!['.'],
        text::lowered(s) == seq!['.', '.'] <==> s == seq!['.', '.'],
{
    let folded = text::lowered(s);
    assert(folded.len() == s.len());
    assert forall|i: int| 0 <= i < s.len() implies (folded[i] == '.') == (s[i] == '.') by {
        assert(folded[i] == text::lower(s[i]));
    }
    if s == seq!['.'] {
        assert(folded[0] == '.');
        assert(folded == seq!['.']);
    }
    if folded == seq!['.'] {
        assert(folded[0] == '.');
        assert(s == seq!['.']);
    }
    if s == seq!['.', '.'] {
        assert(folded[0] == '.' && folded[1] == '.');
        assert(folded == seq!['.', '.']);
    }
    if folded == seq!['.', '.'] {
        assert(folded[0] == '.' && folded[1] == '.');
        assert(s == seq!['.', '.']);
    }
}

/// The case of the letters of a path makes no difference to where its file name
/// stands.
pub proof fn file_name_keeps_its_case(path: Seq<char>, style: PathStyle)
    ensures
        file_name(text::lowered(path), style) == match file_name(path, style) {
            Some(name) => Some(text::lowered(name)),
            None => None,
        },
{
    let fold = |p: Seq<char>| text::lowered(p);
    let s = with_slashes(path, style);
    assert(with_slashes(text::lowered(path), style) == text::lowered(s)) by {
        assert forall|i: int| 0 <= i < path.len() implies with_slashes(text::lowered(path), style)[i]
            == text::lowered(s)[i] by {
            assert(text::lowered(path)[i] == text::lower(path[i]));
        }
    }
    text::lemma_pieces_of_lowered(s, '/');
    let components = text::pieces(s, '/');
    let folded = components.map_values(fold);
    assert(folded.len() == components.len());
    assert(forall|i: int|
        0 <= i < components.len() ==> (#[trigger] folded[i]).len() == components[i].len());
    assert(share_len(folded, style) == share_len(components, style));
    let n = share_len(components, style);
    assert(folded.skip(n) == components.skip(n).map_values(fold));
    lemma_last_name_of_lowered(components.skip(n));
}

/// The case of the letters of a file name makes no difference to where its
/// extension stands.
pub proof fn extension_keeps_its_case(name: Seq<char>)
    ensures
        extension(text::lowered(name)) == match extension(name) {
            Some(ext) => Some(text::lowered(ext)),
            None => None,
        },
{
    lemma_last_dot_of_lowered(name);
    let at = last_place(name, '.');
    lemma_last_place(name, '.');
    if at > 0 {
        assert(text::lowered(name).skip(at + 1) == text::lowered(name.skip(at + 1)));
    }
}

/// Dots stand where they stood.
proof fn lemma_last_dot_of_lowered(name: Seq<char>)
    ensures
        last_place(text::lowered(name), '.') == last_place(name, '.'),
    decreases name.len(),
{
    if name.len() > 0 {
        assert(text::lowered(name).last() == text::lower(name.last()));
        assert(text::lowered(name).drop_last() == text::lowered(name.drop_last()));
        lemma_last_dot_of_lowered(name.drop_last());
    }
}

} // verus!
