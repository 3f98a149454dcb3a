//! The image formats that a response can be converted to.
use crate::text;
use vstd::prelude::*;

verus! {

/// A format that an image can be converted to.
#[derive(Debug, Clone, Copy, PartialEq, Eq, Structural)]
pub enum TargetFormat {
    Avif,
    Webp,
}

impl TargetFormat {
    /// The file name extension of the format.
    pub open spec fn extension_text(self) -> Seq<char> {
        match self {
            TargetFormat::Avif => "avif"@,
            TargetFormat::Webp => "webp"@,
        }
    }

    /// The media type of the format.
    pub open spec fn media_type(self) -> Seq<char> {
        match self {
            TargetFormat::Avif => "image/avif"@,
            TargetFormat::Webp => "image/webp"@,
        }
    }

    /// The file name extension of the format.
    pub fn extension(self) -> (r: &'static str)
        ensures
            r@ == self.extension_text(),
    {
        match self {
            TargetFormat::Avif => "avif",
            TargetFormat::Webp => "webp",
        }
    }

    /// The media type of the format.
    pub fn content_type(self) -> (r: &'static str)
        ensures
            r@ == self.media_type(),
    {
        match self {
            TargetFormat::Avif => "image/avif",
            TargetFormat::Webp => "image/webp",
        }
    }
}

/// The format that a text names: its extension, in any case, with white space
/// around it or not.
pub open spec fn format_named(value: Seq<char>) -> Option<TargetFormat> {
    let name = text::lowered(text::trimmed(value));
    if name == "avif"@ {
        Some(TargetFormat::Avif)
    } else if name == "webp"@ {
        Some(TargetFormat::Webp)
    } else {
        None
    }
}

/// The format that a text names.
pub fn parse_target_format(value: &str) -> (r: Option<TargetFormat>)
    ensures
        r == format_named(value@),
{
    let chars = text::chars_of(value);
    let trimmed = text::trim(chars.as_slice());
    let name = text::to_lowered(trimmed.as_slice());
    if text::is_text(name.as_slice(), "avif") {
        Some(TargetFormat::Avif)
    } else if text::is_text(name.as_slice(), "webp") {
        Some(TargetFormat::Webp)
    } else {
        None
    }
}

/// Every format is named by its own extension.
pub proof fn extension_names_its_format(format: TargetFormat)
    ensures
        format_named(format.extension_text()) == Some(format),
{
    reveal_strlit("avif");
    reveal_strlit("webp");
    let name = format.extension_text();
    assert(text::trimmed(name) == name);
    assert(text::lowered(name) == name);
    assert("avif"@[0] != "webp"@[0]);
}

/// No two formats share an extension.
pub proof fn extensions_differ(a: TargetFormat, b: TargetFormat)
    requires
        a.extension_text() == b.extension_text(),
    ensures
        a == b,
{
    extension_names_its_format(a);
    extension_names_its_format(b);
}

/// A text names a format exactly if it is `avif` or `webp` in any case, with any
/// white space around it.
pub proof fn format_names_have_no_case_and_no_margin(
    lead: Seq<char>,
    word: Seq<char>,
    trail: Seq<char>,
)
    requires
        text::all_white(lead),
        text::all_white(trail),
        word.len() > 0 ==> !text::is_white(word[0]) && !text::is_white(word.last()),
    ensures
        format_named(lead + word + trail) == Some(TargetFormat::Avif) <==> text::lowered(word)
            == seq!['a', 'v', 'i', 'f'],
        format_named(lead + word + trail) == Some(TargetFormat::Webp) <==> text::lowered(word)
            == seq!['w', 'e', 'b', 'p'],
{
    text::trimming_leaves_what_stands_between(lead, word, trail);
    reveal_strlit("avif");
    reveal_strlit("webp");
    assert("avif"@ == seq!['a', 'v', 'i', 'f']);
    assert("webp"@ == seq!['w', 'e', 'b', 'p']);
    assert("avif"@[0] != "webp"@[0]);
}

/// The extension of a format is its name, and its media type is that name among
/// the images.
pub proof fn media_types_are_named_after_extensions(format: TargetFormat)
    ensures
        format.media_type() == seq!['i', 'm', 'a', 'g', 'e', '/'] + format.extension_text(),
        TargetFormat::Avif.extension_text() == seq!['a', 'v', 'i', 'f'],
        TargetFormat::Webp.extension_text() == seq!['w', 'e', 'b', 'p'],
{
    reveal_strlit("avif");
    reveal_strlit("webp");
    reveal_strlit("image/avif");
    reveal_strlit("image/webp");
    assert(TargetFormat::Avif.extension_text() == seq!['a', 'v', 'i', 'f']);
    assert(TargetFormat::Webp.extension_text() == seq!['w', 'e', 'b', 'p']);
    assert(format.media_type() == seq!['i', 'm', 'a', 'g', 'e', '/'] + format.extension_text());
}

} // verus!
