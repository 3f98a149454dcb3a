//! Source images: what they are told by, how large they may be, and what the
//! encoders are given of them.
use crate::formats::TargetFormat;
use crate::numbers;
use crate::text;
use image::{DynamicImage, GenericImageView, ImageError, ImageFormat};
use vstd::prelude::*;

verus! {

// ------------------------------------------------------------- outside calls

#[verifier::external_type_specification]
#[verifier::external_body]
pub struct ExDynamicImage(DynamicImage);

#[verifier::external_type_specification]
#[verifier::external_body]
pub struct ExImageError(ImageError);

/// The width and the height of an image.
pub uninterp spec fn image_size(image: DynamicImage) -> (u32, u32);

/// The pixels of an image, row by row, each as the four bytes red, green, blue
/// and alpha.
pub uninterp spec fn rgba_bytes(image: DynamicImage) -> Seq<u8>;

/// The size of the image that bytes decode to, if they decode.
pub uninterp spec fn decoded_size(source: Seq<u8>, codec: Codec) -> Option<(u32, u32)>;

/// The decoder can make this image of the bytes.
pub uninterp spec fn decodes_to(source: Seq<u8>, codec: Codec, image: DynamicImage) -> bool;

/// Calls `image::guess_format` and writes out the format that it guesses. The
/// guess goes by the first bytes alone, as `signature_of` says.
#[verifier::external_body]
fn guess_format(source: &[u8]) -> (r: Result<String, ImageError>)
    ensures
        match r {
            Ok(name) => signature_of(source@) == Some(name@),
            Err(_) => signature_of(source@) is None,
        },
{
    Ok(format!("{:?}", image::guess_format(source)?))
}

/// Calls `image::load_from_memory_with_format`. Whether bytes decode, and to an
/// image of what size, depends on the bytes and on the format alone. Of the
/// pixels it is said only that they are some that the decoder makes of these
/// bytes: it works on them with whatever instructions the machine has. Nor is it
/// said that the decoders behind it never panic: the server runs this in a task
/// of its own and takes a panic there for a failure.
#[verifier::external_body]
fn decode(source: &[u8], codec: Codec) -> (r: Result<DynamicImage, ImageError>)
    ensures
        r matches Ok(image) ==> decodes_to(source@, codec, image),
        decoded_size(source@, codec) == match r {
            Ok(image) => Some(image_size(image)),
            Err(_) => None,
        },
{
    let format = match codec {
        Codec::Png => ImageFormat::Png,
        Codec::Jpeg => ImageFormat::Jpeg,
    };
    image::load_from_memory_with_format(source, format)
}

/// Calls `DynamicImage::dimensions`: the width and the height.
#[verifier::external_body]
fn dimensions(image: &DynamicImage) -> (size: (u32, u32))
    ensures
        size == image_size(*image),
{
    image.dimensions()
}

/// Calls `DynamicImage::to_rgba8` and takes the bytes out of the outcome: four
/// for each pixel at least. Where so many are more than a vector can hold, it
/// panics.
#[verifier::external_body]
fn to_rgba(image: &DynamicImage) -> (rgba: Vec<u8>)
    requires
        fits_in_memory(image_size(*image)),
    ensures
        rgba@ == rgba_bytes(*image),
        rgba@.len() >= 4 * pixels_of(image_size(*image)),
{
    image.to_rgba8().into_raw()
}

// --------------------------------------------------------------------- types

/// The formats that a source image is decoded from.
#[derive(Debug, Clone, Copy, PartialEq, Eq, Structural)]
pub enum Codec {
    Png,
    Jpeg,
}

/// An image has more pixels than it may have.
#[derive(Debug, Clone, Copy, PartialEq, Eq, Structural)]
pub struct TooManyPixels {
    pub width: u32,
    pub height: u32,
    pub pixels: u64,
    pub max_pixels: u64,
}

/// Why a source image cannot be converted.
#[derive(Debug)]
pub enum EncodeError {
    /// Nothing tells what image it is.
    Unrecognised,
    /// It is an image that is not converted.
    Unsupported(String),
    /// It cannot be decoded.
    Undecodable,
    /// It has too many pixels.
    TooManyPixels(TooManyPixels),
    /// Its pixels do not fit in memory.
    OutOfMemory,
}

/// What an encoder is given.
#[derive(Debug)]
pub struct EncodeInput {
    pub target: TargetFormat,
    pub width: u32,
    pub height: u32,
    /// The pixels, row by row, each as the four bytes red, green, blue and
    /// alpha.
    pub rgba: Vec<u8>,
}

/// Why a source image cannot be converted.
pub enum EncodeFault {
    Unrecognised,
    Unsupported(Seq<char>),
    Undecodable,
    TooManyPixels(TooManyPixels),
    OutOfMemory,
}

// ---------------------------------------------------------------- statements

/// The bytes begin with those of `prefix`.
pub open spec fn begins_with(bytes: Seq<u8>, prefix: Seq<u8>) -> bool {
    prefix.len() <= bytes.len() && bytes.take(prefix.len() as int) == prefix
}

/// The bytes begin with an ASCII text.
pub open spec fn begins_with_text(bytes: Seq<u8>, prefix: Seq<char>) -> bool {
    begins_with(bytes, text::ascii_bytes(prefix))
}

/// The bytes hold an ASCII text from the place `at` on.
pub open spec fn holds_text_at(bytes: Seq<u8>, part: Seq<char>, at: int) -> bool {
    at + part.len() <= bytes.len() && bytes.subrange(at, at + part.len()) == text::ascii_bytes(part)
}

/// The signature of a PNG image.
pub open spec fn png_signature() -> Seq<u8> {
    seq![0x89, 0x50, 0x4e, 0x47, 0x0d, 0x0a, 0x1a, 0x0a]
}

/// The signature of a JPEG image.
pub open spec fn jpeg_signature() -> Seq<u8> {
    seq![0xff, 0xd8, 0xff]
}

/// The name of the format that the first bytes tell, if they tell one.
pub open spec fn signature_of(bytes: Seq<u8>) -> Option<Seq<char>> {
    if begins_with(bytes, png_signature()) {
        Some("Png"@)
    } else if begins_with(bytes, jpeg_signature()) {
        Some("Jpeg"@)
    } else {
        other_signature_of(bytes)
    }
}

/// The name of a format other than PNG and JPEG that the first bytes tell.
pub open spec fn other_signature_of(bytes: Seq<u8>) -> Option<Seq<char>> {
    if begins_with_text(bytes, "GIF89a"@) || begins_with_text(bytes, "GIF87a"@) {
        Some("Gif"@)
    } else if begins_with_text(bytes, "RIFF"@) && holds_text_at(bytes, "WEBP"@, 8) {
        Some("WebP"@)
    } else if begins_with(bytes, seq![0x4d, 0x4d, 0x00, 0x2a]) || begins_with(
        bytes,
        seq![0x49, 0x49, 0x2a, 0x00],
    ) {
        Some("Tiff"@)
    } else if begins_with_text(bytes, "DDS "@) {
        Some("Dds"@)
    } else if begins_with_text(bytes, "BM"@) {
        Some("Bmp"@)
    } else if begins_with(bytes, seq![0x00, 0x00, 0x01, 0x00]) {
        Some("Ico"@)
    } else if begins_with_text(bytes, "#?RADIANCE"@) {
        Some("Hdr"@)
    } else if begins_with(bytes, seq![0x00, 0x00]) && holds_text_at(bytes, "ftypavif"@, 4) {
        Some("Avif"@)
    } else if begins_with(bytes, seq![0x76, 0x2f, 0x31, 0x01]) {
        Some("OpenExr"@)
    } else if begins_with_text(bytes, "qoif"@) {
        Some("Qoi"@)
    } else if bytes.len() >= 2 && bytes[0] == 0x50 && 0x31 <= bytes[1] <= 0x37 {
        Some("Pnm"@)
    } else if begins_with_text(bytes, "farbfeld"@) {
        Some("Farbfeld"@)
    } else {
        None
    }
}

/// The format with this name, if source images are decoded from it.
pub open spec fn codec_with_name(name: Seq<char>) -> Option<Codec> {
    if name == "Jpeg"@ {
        Some(Codec::Jpeg)
    } else if name == "Png"@ {
        Some(Codec::Png)
    } else {
        None
    }
}

/// How many pixels an image of this size has.
pub open spec fn pixels_of(size: (u32, u32)) -> int {
    size.0 * size.1
}

/// A vector can hold four bytes for each pixel.
pub open spec fn fits_in_memory(size: (u32, u32)) -> bool {
    4 * pixels_of(size) <= usize::MAX / 2
}

/// What is wrong with an image of this size, if anything is.
pub open spec fn size_fault(size: (u32, u32), max_pixels: u64) -> Option<EncodeFault> {
    if pixels_of(size) > max_pixels {
        Some(
            EncodeFault::TooManyPixels(
                TooManyPixels {
                    width: size.0,
                    height: size.1,
                    pixels: pixels_of(size) as u64,
                    max_pixels,
                },
            ),
        )
    } else if !fits_in_memory(size) {
        Some(EncodeFault::OutOfMemory)
    } else {
        None
    }
}

/// The format that a source image is decoded from, if it is one of those.
pub open spec fn source_codec(source: Seq<u8>) -> Option<Codec> {
    match signature_of(source) {
        Some(name) => codec_with_name(name),
        None => None,
    }
}

/// The size of a source image, if it can be decoded.
pub open spec fn source_size(source: Seq<u8>) -> Option<(u32, u32)> {
    match source_codec(source) {
        Some(codec) => decoded_size(source, codec),
        None => None,
    }
}

/// What is wrong with a source image, if anything is.
pub open spec fn source_fault(source: Seq<u8>, max_pixels: u64) -> Option<EncodeFault> {
    match signature_of(source) {
        None => Some(EncodeFault::Unrecognised),
        Some(name) => if source_codec(source) is None {
            Some(EncodeFault::Unsupported(name))
        } else {
            match source_size(source) {
                None => Some(EncodeFault::Undecodable),
                Some(size) => size_fault(size, max_pixels),
            }
        },
    }
}

impl EncodeInput {
    /// There are pixels enough for the size.
    pub open spec fn wf(self) -> bool {
        self.rgba@.len() >= 4 * pixels_of((self.width, self.height))
    }

    /// The input is the image `image`.
    pub open spec fn shows(self, image: DynamicImage) -> bool {
        (self.width, self.height) == image_size(image) && self.rgba@ == rgba_bytes(image)
    }

    /// The input is for the encoder of this format.
    pub open spec fn is_for(self, target: TargetFormat) -> bool {
        self.target == target
    }

    /// The input is an image that the decoder makes of the source.
    pub open spec fn comes_from(self, source: Seq<u8>) -> bool {
        source_codec(source) matches Some(codec) && exists|image: DynamicImage| #[trigger]
            decodes_to(source, codec, image) && self.shows(image)
    }
}

impl EncodeError {
    /// The error, with its text as a sequence of characters.
    pub open spec fn fault(self) -> EncodeFault {
        match self {
            EncodeError::Unrecognised => EncodeFault::Unrecognised,
            EncodeError::Unsupported(name) => EncodeFault::Unsupported(name@),
            EncodeError::Undecodable => EncodeFault::Undecodable,
            EncodeError::TooManyPixels(e) => EncodeFault::TooManyPixels(e),
            EncodeError::OutOfMemory => EncodeFault::OutOfMemory,
        }
    }

    /// The text of the error.
    pub open spec fn text(self) -> Seq<char> {
        match self {
            EncodeError::Unrecognised => "failed to detect image format"@,
            EncodeError::Unsupported(name) => "unsupported source image format: "@ + name@,
            EncodeError::Undecodable => "failed to decode source image"@,
            EncodeError::TooManyPixels(e) => e.text(),
            EncodeError::OutOfMemory => "image does not fit in memory"@,
        }
    }

    /// The text of the error.
    pub fn message(&self) -> (r: String)
        ensures
            r@ == self.text(),
    {
        match self {
            EncodeError::Unrecognised => "failed to detect image format".to_owned(),
            EncodeError::Unsupported(name) => {
                let mut r = "unsupported source image format: ".to_owned();
                r.append(name.as_str());
                r
            },
            EncodeError::Undecodable => "failed to decode source image".to_owned(),
            EncodeError::TooManyPixels(e) => e.message(),
            EncodeError::OutOfMemory => "image does not fit in memory".to_owned(),
        }
    }
}

impl TooManyPixels {
    /// The text of the error.
    pub open spec fn text(self) -> Seq<char> {
        "image dimensions exceed MAX_PIXELS: "@ + numbers::decimal(self.width as nat) + "x"@
            + numbers::decimal(self.height as nat) + "="@ + numbers::decimal(self.pixels as nat)
            + " > "@ + numbers::decimal(self.max_pixels as nat)
    }

    /// The text of the error.
    pub fn message(&self) -> (r: String)
        ensures
            r@ == self.text(),
    {
        let width = numbers::to_decimal(self.width as u64);
        let height = numbers::to_decimal(self.height as u64);
        let pixels = numbers::to_decimal(self.pixels);
        let max_pixels = numbers::to_decimal(self.max_pixels);
        let mut r = "image dimensions exceed MAX_PIXELS: ".to_owned();
        r.append(width.as_str());
        r.append("x");
        r.append(height.as_str());
        r.append("=");
        r.append(pixels.as_str());
        r.append(" > ");
        r.append(max_pixels.as_str());
        r
    }
}

// ---------------------------------------------------------------- operations

/// Refuses an image with more pixels than it may have.
pub fn ensure_pixel_limit(width: u32, height: u32, max_pixels: u64) -> (r: Result<
    (),
    TooManyPixels,
>)
    ensures
        match r {
            Ok(_) => width * height <= max_pixels,
            Err(e) => width * height > max_pixels && e == (TooManyPixels {
                width,
                height,
                pixels: (width * height) as u64,
                max_pixels,
            }),
        },
{
    assert(width * height <= u32::MAX * u32::MAX) by (nonlinear_arith)
        requires
            width <= u32::MAX,
            height <= u32::MAX,
    ;
    let pixels: u64 = width as u64 * height as u64;
    if pixels > max_pixels {
        Err(TooManyPixels { width, height, pixels, max_pixels })
    } else {
        Ok(())
    }
}

/// The format with this name, if source images are decoded from it.
pub fn codec_named(name: &str) -> (r: Option<Codec>)
    ensures
        r == codec_with_name(name@),
{
    let chars = text::chars_of(name);
    if text::is_text(chars.as_slice(), "Jpeg") {
        Some(Codec::Jpeg)
    } else if text::is_text(chars.as_slice(), "Png") {
        Some(Codec::Png)
    } else {
        None
    }
}

/// What an encoder is given of a decoded image, unless the image is too large.
pub fn input_from(image: &DynamicImage, target: TargetFormat, max_pixels: u64) -> (r: Result<
    EncodeInput,
    EncodeError,
>)
    ensures
        match r {
            Ok(input) => size_fault(image_size(*image), max_pixels) is None && input.wf()
                && input.target == target && input.shows(*image),
            Err(e) => size_fault(image_size(*image), max_pixels) == Some(e.fault()),
        },
        r matches Ok(input) ==> input.is_for(target),
{
    let (width, height) = dimensions(image);
    if let Err(e) = ensure_pixel_limit(width, height, max_pixels) {
        return Err(EncodeError::TooManyPixels(e));
    }
    assert(width * height <= u32::MAX * u32::MAX) by (nonlinear_arith)
        requires
            width <= u32::MAX,
            height <= u32::MAX,
    ;
    if 4 * (width as u128 * height as u128) > (usize::MAX / 2) as u128 {
        return Err(EncodeError::OutOfMemory);
    }
    Ok(EncodeInput { target, width, height, rgba: to_rgba(image) })
}

/// What the encoder for a format is given of a source image, unless the image
/// cannot be converted. That the decoders of the `image` crate never panic is
/// not known; where one does, so does this function.
pub fn encode_input(source: &[u8], target: TargetFormat, max_pixels: u64) -> (r: Result<
    EncodeInput,
    EncodeError,
>)
    ensures
        match r {
            Ok(input) => source_fault(source@, max_pixels) is None && source_size(source@) == Some(
                (input.width, input.height),
            ) && input.wf() && input.target == target && input.comes_from(source@),
            Err(e) => source_fault(source@, max_pixels) == Some(e.fault()),
        },
        r matches Ok(input) ==> input.is_for(target),
        forall|codec: Codec|
            (codec == Codec::Png ==> begins_like_png(source@)) && (codec == Codec::Jpeg
                ==> begins_like_jpeg(source@)) && (#[trigger] decoded_size(source@, codec) matches
                Some(size) && size.0 * size.1 <= max_pixels && 4 * (size.0 * size.1) <= usize::MAX
                / 2) ==> (r matches Ok(input) && (input.width, input.height) == decoded_size(
                source@,
                codec,
            )->0),
{
    proof {
        assert forall|codec: Codec|
            (codec == Codec::Png ==> begins_like_png(source@)) && (codec == Codec::Jpeg
                ==> begins_like_jpeg(source@)) && (#[trigger] decoded_size(source@, codec) matches
                Some(size) && size.0 * size.1 <= max_pixels && 4 * (size.0 * size.1) <= usize::MAX
                / 2) implies source_fault(source@, max_pixels) is None && source_size(source@)
            == decoded_size(source@, codec) by {
            let size = decoded_size(source@, codec)->0;
            images_within_the_limits_are_converted(source@, codec, size.0, size.1, max_pixels);
        }
    }
    let name = match guess_format(source) {
        Ok(name) => name,
        Err(_) => return Err(EncodeError::Unrecognised),
    };
    let codec = match codec_named(name.as_str()) {
        Some(codec) => codec,
        None => return Err(EncodeError::Unsupported(name)),
    };
    let image = match decode(source, codec) {
        Ok(image) => image,
        Err(_) => return Err(EncodeError::Undecodable),
    };
    input_from(&image, target, max_pixels)
}

// ---------------------------------------------------------------------- laws

/// Nothing but a PNG or a JPEG image is ever converted.
pub proof fn only_png_and_jpeg_are_converted(source: Seq<u8>, max_pixels: u64)
    requires
        source_fault(source, max_pixels) is None,
    ensures
        begins_with(source, png_signature()) || begins_with(source, jpeg_signature()),
{
    reveal_strlit("Png");
    reveal_strlit("Jpeg");
    reveal_strlit("Gif");
    reveal_strlit("WebP");
    reveal_strlit("Tiff");
    reveal_strlit("Dds");
    reveal_strlit("Bmp");
    reveal_strlit("Ico");
    reveal_strlit("Hdr");
    reveal_strlit("Avif");
    reveal_strlit("OpenExr");
    reveal_strlit("Qoi");
    reveal_strlit("Pnm");
    reveal_strlit("Farbfeld");
    let name = signature_of(source)->0;
    if !begins_with(source, png_signature()) && !begins_with(source, jpeg_signature()) {
        assert(name[0] != 'J');
        assert("Jpeg"@[0] == 'J');
        assert(name[1] != 'n' || name.len() == 3 && name[2] == 'm');
        assert("Png"@[2] == 'g' && "Png"@[1] == 'n');
    }
}

/// No image is converted that has more pixels than it may have.
pub proof fn pixel_limit_holds(source: Seq<u8>, max_pixels: u64)
    requires
        source_fault(source, max_pixels) is None,
    ensures
        source_size(source) is Some,
        pixels_of(source_size(source)->0) <= max_pixels,
{
}

/// The bytes begin with the eight bytes that a PNG image begins with.
pub open spec fn begins_like_png(source: Seq<u8>) -> bool {
    source.len() >= 8 && source[0] == 137 && source[1] == 80 && source[2] == 78 && source[3] == 71
        && source[4] == 13 && source[5] == 10 && source[6] == 26 && source[7] == 10
}

/// The bytes begin with the three bytes that a JPEG image begins with.
pub open spec fn begins_like_jpeg(source: Seq<u8>) -> bool {
    source.len() >= 3 && source[0] == 255 && source[1] == 216 && source[2] == 255
}

/// The first bytes tell a PNG image and a JPEG image.
proof fn lemma_source_codec(source: Seq<u8>)
    ensures
        begins_like_png(source) ==> source_codec(source) == Some(Codec::Png),
        begins_like_jpeg(source) ==> source_codec(source) == Some(Codec::Jpeg),
        begins_with(source, png_signature()) <==> begins_like_png(source),
        begins_with(source, jpeg_signature()) <==> begins_like_jpeg(source),
{
    let png = png_signature();
    let jpeg = jpeg_signature();
    if source.len() >= 8 {
        let head = source.take(8);
        if begins_like_png(source) {
            assert forall|i: int| 0 <= i < 8 implies head[i] == png[i] by {
                assert(i == 0 || i == 1 || i == 2 || i == 3 || i == 4 || i == 5 || i == 6 || i
                    == 7);
            }
            assert(head == png);
        }
        if head == png {
            assert(head[0] == source[0] && head[1] == source[1] && head[2] == source[2] && head[3]
                == source[3] && head[4] == source[4] && head[5] == source[5] && head[6]
                == source[6] && head[7] == source[7]);
        }
    }
    if source.len() >= 3 {
        let head = source.take(3);
        if begins_like_jpeg(source) {
            assert(head == jpeg);
        }
        if head == jpeg {
            assert(head[0] == source[0] && head[1] == source[1] && head[2] == source[2]);
        }
    }
    reveal_strlit("Png");
    reveal_strlit("Jpeg");
    assert("Png"@[0] == 'P' && "Jpeg"@[0] == 'J');
}

/// Every PNG image and every JPEG image that decodes, has no more pixels than it
/// may have and whose pixels a vector can hold is converted, in its own size;
/// one with more pixels is refused with its size and the limit, and one that
/// does not decode is refused as such.
pub proof fn images_within_the_limits_are_converted(
    source: Seq<u8>,
    codec: Codec,
    width: u32,
    height: u32,
    max_pixels: u64,
)
    requires
        codec == Codec::Png ==> begins_like_png(source),
        codec == Codec::Jpeg ==> begins_like_jpeg(source),
    ensures
        decoded_size(source, codec) == Some((width, height)) && width * height <= max_pixels && 4
            * (width * height) <= usize::MAX / 2 ==> source_fault(source, max_pixels) is None
            && source_size(source) == Some((width, height)),
        decoded_size(source, codec) == Some((width, height)) && width * height > max_pixels
            ==> source_fault(source, max_pixels) == Some(
            EncodeFault::TooManyPixels(
                TooManyPixels { width, height, pixels: (width * height) as u64, max_pixels },
            ),
        ),
        decoded_size(source, codec) == Some((width, height)) && width * height <= max_pixels && 4
            * (width * height) > usize::MAX / 2 ==> source_fault(source, max_pixels) == Some(
            EncodeFault::OutOfMemory,
        ),
        decoded_size(source, codec) is None ==> source_fault(source, max_pixels) == Some(
            EncodeFault::Undecodable,
        ),
{
    lemma_source_codec(source);
}

/// What is neither a PNG image nor a JPEG image is refused: as of a format that
/// is not converted where the first bytes tell one, and as unknown otherwise.
pub proof fn other_sources_are_refused(source: Seq<u8>, max_pixels: u64)
    requires
        !begins_like_png(source),
        !begins_like_jpeg(source),
    ensures
        match other_signature_of(source) {
            Some(name) => source_fault(source, max_pixels) == Some(EncodeFault::Unsupported(name)),
            None => source_fault(source, max_pixels) == Some(EncodeFault::Unrecognised),
        },
{
    lemma_source_codec(source);
    if source_fault(source, max_pixels) is None {
        only_png_and_jpeg_are_converted(source, max_pixels);
    }
    lemma_other_names(source);
}

/// No other format has the name of one that is converted.
proof fn lemma_other_names(source: Seq<u8>)
    ensures
        other_signature_of(source) matches Some(name) ==> codec_with_name(name) is None,
{
    reveal_strlit("Png");
    reveal_strlit("Jpeg");
    reveal_strlit("Gif");
    reveal_strlit("WebP");
    reveal_strlit("Tiff");
    reveal_strlit("Dds");
    reveal_strlit("Bmp");
    reveal_strlit("Ico");
    reveal_strlit("Hdr");
    reveal_strlit("Avif");
    reveal_strlit("OpenExr");
    reveal_strlit("Qoi");
    reveal_strlit("Pnm");
    reveal_strlit("Farbfeld");
    if let Some(name) = other_signature_of(source) {
        assert(name[0] != 'J');
        assert("Jpeg"@[0] == 'J');
        assert(name[0] != 'P' || name[2] == 'm');
        assert("Png"@[0] == 'P' && "Png"@[2] == 'g');
    }
}

/// The encoder is given an image in its own size, all its pixels and nothing
/// else.
pub proof fn encoders_get_the_whole_image(input: EncodeInput, image: DynamicImage)
    requires
        input.shows(image),
    ensures
        input.width == image_size(image).0,
        input.height == image_size(image).1,
        input.rgba@ == rgba_bytes(image),
{
}

/// An image is encoded in one format only.
pub proof fn images_have_one_format(input: EncodeInput, a: TargetFormat, b: TargetFormat)
    requires
        input.is_for(a),
        input.is_for(b),
    ensures
        a == b,
        input.target == a,
{
}

/// What the encoder is given of a source is an image that the decoder for the
/// source's own format makes of it.
pub proof fn encoders_get_what_was_decoded(input: EncodeInput, source: Seq<u8>, codec: Codec)
    requires
        input.comes_from(source),
        codec == Codec::Png ==> begins_like_png(source),
        codec == Codec::Jpeg ==> begins_like_jpeg(source),
    ensures
        exists|image: DynamicImage| #[trigger]
            decodes_to(source, codec, image) && image_size(image) == (input.width, input.height)
                && rgba_bytes(image) == input.rgba@,
{
    lemma_source_codec(source);
    let image = choose|image: DynamicImage| #[trigger]
        decodes_to(source, codec, image) && input.shows(image);
    assert(decodes_to(source, codec, image));
}

/// An error says what is wrong, and where an image has too many pixels also its
/// width, its height, how many pixels these make and how many it may have.
pub proof fn errors_say_what_is_wrong(e: TooManyPixels, name: String)
    ensures
        EncodeError::TooManyPixels(e).text() == "image dimensions exceed MAX_PIXELS: "@ + (
        numbers::decimal(e.width as nat) + (seq!['x'] + (numbers::decimal(e.height as nat) + (seq![
            '=',
        ] + (numbers::decimal(e.pixels as nat) + (seq![' ', '>', ' '] + numbers::decimal(
            e.max_pixels as nat,
        ))))))),
        EncodeError::Unsupported(name).text() == "unsupported source image format: "@ + name@,
        EncodeError::Unrecognised.text() == "failed to detect image format"@,
        EncodeError::Undecodable.text() == "failed to decode source image"@,
{
    reveal_strlit("x");
    reveal_strlit("=");
    reveal_strlit(" > ");
    assert("x"@ == seq!['x'] && "="@ == seq!['='] && " > "@ == seq![' ', '>', ' ']);
    let w = numbers::decimal(e.width as nat);
    let h = numbers::decimal(e.height as nat);
    let p = numbers::decimal(e.pixels as nat);
    let m = numbers::decimal(e.max_pixels as nat);
    let front = "image dimensions exceed MAX_PIXELS: "@;
    assert(front + w + seq!['x'] + h + seq!['='] + p + seq![' ', '>', ' '] + m == front + (w + (
    seq!['x'] + (h + (seq!['='] + (p + (seq![' ', '>', ' '] + m)))))));
}

} // verus!
