//! Frames as they travel between the capture side, the converter and the
//! files the user exports: base64 text (optionally a `data:` URL), PNG
//! bytes, decoded images.
use base64::Engine;
use vstd::prelude::*;
use vstd::string::StringSliceAdditionalSpecFns;
use crate::grid::{LumaImage, LumaView};
use crate::text::{best_resolution, best_resolution_spec, BestSettings};

verus! {


/// The character of the standard base64 alphabet for the 6-bit value `v`:
/// `A`-`Z`, `a`-`z`, `0`-`9`, `+`, `/`.
pub open spec fn base64_symbol(v: int) -> char {
    if v < 26 {
        ('A' as int + v) as char
    } else if v < 52 {
        ('a' as int + (v - 26)) as char
    } else if v < 62 {
        ('0' as int + (v - 52)) as char
    } else if v == 62 {
        '+'
    } else {
        '/'
    }
}

/// Padded standard base64 text of `data` (RFC 4648): every group of three
/// bytes becomes four characters of six bits each; a last group of one or
/// two bytes becomes two or three characters and `=` up to four.
pub open spec fn base64_encoded(data: Seq<u8>) -> Seq<char>
    decreases data.len(),
{
    if data.len() == 0 {
        Seq::empty()
    } else if data.len() == 1 {
        seq![base64_symbol((data[0] as int) / 4), base64_symbol(((data[0] as int) % 4) * 16), '=', '=']
    } else if data.len() == 2 {
        seq![
            base64_symbol((data[0] as int) / 4),
            base64_symbol(((data[0] as int) % 4) * 16 + (data[1] as int) / 16),
            base64_symbol(((data[1] as int) % 16) * 4),
            '=',
        ]
    } else {
        seq![
            base64_symbol((data[0] as int) / 4),
            base64_symbol(((data[0] as int) % 4) * 16 + (data[1] as int) / 16),
            base64_symbol(((data[1] as int) % 16) * 4 + (data[2] as int) / 64),
            base64_symbol((data[2] as int) % 64),
        ] + base64_encoded(data.subrange(3, data.len() as int))
    }
}

/// Whether the image crate, guessing the format from the content, decodes
/// `bytes` as an image file.
pub uninterp spec fn image_loads(bytes: Seq<u8>) -> bool;

/// The grayscale image that the image crate decodes from `bytes` (format
/// guessed from the content).
pub uninterp spec fn decoded_luma(bytes: Seq<u8>) -> LumaView;

/// The grayscale pixels of the image decoded from `bytes` (format guessed
/// from the content), resized to `columns` by `rows` with the triangle filter.
pub uninterp spec fn resized_luma(bytes: Seq<u8>, columns: u32, rows: u32) -> Seq<u8>;

/// Whether the image crate decodes `bytes` as an image file in the format
/// that the file name extension `extension` names.
pub uninterp spec fn file_decodes(bytes: Seq<u8>, extension: Seq<char>) -> bool;

/// The grayscale image decoded from a file in the format that its
/// extension names.
pub uninterp spec fn file_luma(bytes: Seq<u8>, extension: Seq<char>) -> LumaView;

/// The grayscale pixels of the image decoded from a file in the format that
/// its extension names, resized to `columns` by `rows` with the triangle filter.
pub uninterp spec fn file_resized_luma(
    bytes: Seq<u8>,
    extension: Seq<char>,
    columns: u32,
    rows: u32,
) -> Seq<u8>;

/// The width that the image crate reads from the header of a file, its
/// format guessed from the content or else named by the extension; `None`
/// where it reports an error.
pub uninterp spec fn header_width(bytes: Seq<u8>, extension: Seq<char>) -> Option<u32>;

/// The PNG file that the image crate writes for an RGBA image of the given size.
pub uninterp spec fn png_of_rgba(width: u32, height: u32, pixels: Seq<u8>) -> Seq<u8>;

/// The byte of the ASCII comma.
pub open spec fn comma() -> u8 {
    44u8
}

/// Whether `i` is the position of the first comma of `bytes`.
pub open spec fn is_first_comma(bytes: Seq<u8>, i: int) -> bool {
    &&& 0 <= i < bytes.len()
    &&& bytes[i] == comma()
    &&& forall|j: int| 0 <= j < i ==> bytes[j] != comma()
}

/// Whether `bytes` holds a comma.
pub open spec fn has_comma(bytes: Seq<u8>) -> bool {
    exists|i: int| 0 <= i < bytes.len() && bytes[i] == comma()
}

/// What follows the first comma of `bytes` (the payload of a `data:` URL),
/// or `None` when there is no comma.
pub open spec fn after_first_comma(bytes: Seq<u8>) -> Option<Seq<u8>> {
    if has_comma(bytes) {
        let i = choose|i: int| is_first_comma(bytes, i);
        Some(bytes.subrange(i + 1, bytes.len() as int))
    } else {
        None
    }
}

/// The base64 text of a frame: what follows the first comma, or everything
/// when there is no comma.
pub open spec fn frame_payload(bytes: Seq<u8>) -> Seq<u8> {
    match after_first_comma(bytes) {
        Some(rest) => rest,
        None => bytes,
    }
}

/// The bytes of a text made of ASCII characters.
pub open spec fn ascii_bytes(text: Seq<char>) -> Seq<u8> {
    text.map_values(|c: char| c as u8)
}

/// Whether `text` is the padded standard base64 text of some bytes.
pub open spec fn is_base64_text(text: Seq<u8>) -> bool {
    exists|data: Seq<u8>| ascii_bytes(base64_encoded(data)) == text
}

/// What the standard base64 engine (canonical padding, no trailing bits)
/// decodes `text` to: the bytes whose padded base64 text it is, or `None`
/// where it reports an error.
pub open spec fn base64_decoded(text: Seq<u8>) -> Option<Seq<u8>> {
    if is_base64_text(text) {
        Some(choose|data: Seq<u8>| ascii_bytes(base64_encoded(data)) == text)
    } else {
        None
    }
}

/// The eight bytes that open every PNG file.
pub open spec fn png_signature() -> Seq<u8> {
    seq![137u8, 80u8, 78u8, 71u8, 13u8, 10u8, 26u8, 10u8]
}

/// Whether `bytes` opens with the PNG signature.
pub open spec fn has_png_signature(bytes: Seq<u8>) -> bool {
    bytes.len() >= 8 && bytes.subrange(0, 8) == png_signature()
}

/// `text` with its ASCII capitals in lower case.
pub open spec fn ascii_lowercase(text: Seq<char>) -> Seq<char> {
    text.map_values(|c: char| if 'A' <= c <= 'Z' { ((c as int) + 32) as char } else { c })
}

/// Whether a file name extension names the PNG format (`png` or `apng`,
/// in any case).
pub open spec fn names_png(extension: Seq<char>) -> bool {
    ascii_lowercase(extension) == "png"@ || ascii_lowercase(extension) == "apng"@
}

/// Whether the image crate's resampling can allocate its buffers for a
/// target of `columns` by `rows`: the output takes up to 8 bytes a pixel,
/// and the vertical pass keeps 16 bytes a pixel for a source at most
/// `2^29` pixels wide (a decoded image holds at most 512 MiB).
pub open spec fn resize_fits(columns: u32, rows: u32) -> bool {
    &&& (columns as int) * (rows as int) * 8 <= isize::MAX
    &&& (rows as int) * 0x2_0000_0000 <= isize::MAX
}

/// A character of the standard base64 alphabet, or the padding `=`.
pub open spec fn is_base64_char(c: char) -> bool {
    ('A' <= c <= 'Z') || ('a' <= c <= 'z') || ('0' <= c <= '9') || c == '+' || c == '/' || c == '='
}

/// Length of the padded base64 text of `n` bytes.
pub open spec fn base64_len(n: int) -> int {
    if n % 3 == 0 {
        n / 3 * 4
    } else {
        n / 3 * 4 + 4
    }
}

/// An RGBA frame: four bytes per pixel, row by row.
pub struct RgbaFrame {
    width: u32,
    height: u32,
    pixels: Vec<u8>,
}

impl RgbaFrame {
    #[verifier::type_invariant]
    closed spec fn pixels_fill_frame(&self) -> bool {
        self.pixels@.len() == 4 * (self.width as int) * (self.height as int)
    }

    pub closed spec fn spec_width(&self) -> u32 {
        self.width
    }

    pub closed spec fn spec_height(&self) -> u32 {
        self.height
    }

    pub closed spec fn spec_pixels(&self) -> Seq<u8> {
        self.pixels@
    }

    /// A frame of the given size from its RGBA bytes; `None` when there are
    /// not exactly four bytes per pixel.
    pub fn new(width: u32, height: u32, pixels: Vec<u8>) -> (r: Option<RgbaFrame>)
        ensures
            match r {
                Some(f) => f.spec_width() == width && f.spec_height() == height && f.spec_pixels()
                    == pixels@ && pixels@.len() == 4 * (width as int) * (height as int),
                None => pixels@.len() != 4 * (width as int) * (height as int),
            },
    {
        proof {
            assert((width as int) * (height as int) <= u32::MAX * u32::MAX) by (nonlinear_arith);
            assert((width as int) * (height as int) * 4 == 4 * (width as int) * (height as int))
                by (nonlinear_arith);
        }
        let area = (width as u128) * (height as u128);
        if area * 4 == pixels.len() as u128 {
            Some(RgbaFrame { width, height, pixels })
        } else {
            None
        }
    }
}

/// The standard (padded) base64 decoding of `input`, with the error turned
/// into its message.
///
/// Calls `Engine::decode` of `base64::engine::general_purpose::STANDARD`,
/// whose configuration requires canonical padding and refuses trailing
/// bits. Claimed: it succeeds exactly on the padded standard base64 text of
/// some bytes (written out in `base64_encoded`), and gives those bytes.
#[verifier::external_body]
fn base64_decode(input: &[u8]) -> (r: Result<Vec<u8>, String>)
    ensures
        r is Ok <==> is_base64_text(input@),
        r matches Ok(v) ==> ascii_bytes(base64_encoded(v@)) == input@,
{
    base64::engine::general_purpose::STANDARD.decode(input).map_err(|error| error.to_string())
}

/// The standard (padded) base64 text of `data`.
///
/// Calls `Engine::encode` of `base64::engine::general_purpose::STANDARD`.
/// Claimed, as the crate documents its padded standard (RFC 4648) engine:
/// the text is the padded standard encoding written out in
/// `base64_encoded`. It panics when its length overflows `usize`;
/// `requires` leaves that out.
#[verifier::external_body]
fn base64_encode(data: &[u8]) -> (r: String)
    requires
        base64_len(data@.len() as int) <= usize::MAX,
    ensures
        r@ == base64_encoded(data@),
{
    base64::engine::general_purpose::STANDARD.encode(data)
}

/// Decodes an image file held in memory, guessing its format from its
/// content, and converts it to 8-bit grayscale; the error is turned into
/// its message.
///
/// Calls `image::load_from_memory`, then `DynamicImage::to_luma8`,
/// `ImageBuffer::dimensions` and `ImageBuffer::into_raw`. Claimed: it
/// succeeds exactly on the inputs named loadable, and then gives the named
/// grayscale image, one byte per pixel.
///
/// The image crate is built with its `png` format alone, so PNG is the one
/// format decoded; content in any other format is refused with an error.
/// Read for panics: `ImageReader::with_guessed_format` and `decode`,
/// `decoder_to_vec`, `PngDecoder::with_limits` and `read_image` of image
/// 0.25.10, and the `panic!`, `unreachable!`, `assert!`, `unwrap` and
/// `expect` on the decoding path of png 0.18.1 (`decoder/mod.rs`,
/// `stream.rs`, `unfiltering_buffer.rs`, `zlib.rs`, `transform.rs`): each
/// guards a state that the decoder itself has set up, none a property of
/// the input. The default limits cap the decoded image at 512 MiB and
/// report a larger one as an error. What is left unsaid: not every slice
/// index of the png decoder was followed; the png crate describes itself
/// as fuzzed on OSS-Fuzz.
#[verifier::external_body]
fn load_luma(bytes: &[u8]) -> (r: Result<(u32, u32, Vec<u8>), String>)
    ensures
        r is Ok <==> image_loads(bytes@),
        r matches Ok((w, h, pixels)) ==> decoded_luma(bytes@) == (LumaView {
            width: w as nat,
            height: h as nat,
            pixels: pixels@,
        }) && pixels@.len() == w * h,
{
    let luma = image::load_from_memory(bytes).map_err(|error| error.to_string())?.to_luma8();
    let (width, height) = luma.dimensions();
    Ok((width, height, luma.into_raw()))
}

/// Decodes an image file held in memory (format guessed from the content),
/// resizes it to `columns` by `rows` and converts it to 8-bit grayscale.
///
/// Calls `image::load_from_memory`, then `DynamicImage::resize_exact` with
/// `FilterType::Triangle`, `DynamicImage::to_luma8` and
/// `ImageBuffer::into_raw`. Claimed: it succeeds exactly on the inputs named
/// loadable, and then gives the named resized pixels, `columns * rows` of
/// them. Decoding is read for panics as for `load_luma`. The resampling
/// (`imageops::resize`, `vertical_sample`, `horizontal_sample`) panics only
/// where `ImageBuffer::new` finds a buffer length that overflows, which
/// `resize_fits` in `requires` leaves out.
#[verifier::external_body]
fn load_resized_luma(bytes: &[u8], columns: u32, rows: u32) -> (r: Result<Vec<u8>, String>)
    requires
        resize_fits(columns, rows),
    ensures
        r is Ok <==> image_loads(bytes@),
        r matches Ok(pixels) ==> pixels@ == resized_luma(bytes@, columns, rows) && pixels@.len()
            == columns * rows,
{
    let image = image::load_from_memory(bytes).map_err(|error| error.to_string())?;
    let resized = image.resize_exact(columns, rows, image::imageops::FilterType::Triangle);
    Ok(resized.to_luma8().into_raw())
}

/// Decodes an image file in the format that its extension names, as
/// `ImageReader::open(path)` followed by `decode` does, and converts it to
/// 8-bit grayscale.
///
/// Calls `ImageFormat::from_extension`, `ImageReader::new` over a cursor,
/// `ImageReader::set_format` when the extension names a format,
/// `ImageReader::decode`, `DynamicImage::to_luma8`, `dimensions` and
/// `into_raw`. Claimed: it succeeds exactly on the inputs named decodable,
/// and then gives the named grayscale image, one byte per pixel. For a file
/// that opens with the PNG signature and whose extension names PNG, the
/// reader decodes with the PNG decoder and the default limits exactly as
/// `load_from_memory` does after guessing PNG from the signature, so the
/// outcome is that of `load_luma`. Read for panics as `load_luma`.
#[verifier::external_body]
fn load_file_luma(bytes: &[u8], extension: &str) -> (r: Result<(u32, u32, Vec<u8>), String>)
    ensures
        r is Ok <==> file_decodes(bytes@, extension@),
        r matches Ok((w, h, pixels)) ==> file_luma(bytes@, extension@) == (LumaView {
            width: w as nat,
            height: h as nat,
            pixels: pixels@,
        }) && pixels@.len() == w * h,
        has_png_signature(bytes@) && names_png(extension@) ==> (r is Ok <==> image_loads(bytes@)),
        has_png_signature(bytes@) && names_png(extension@) ==> (r matches Ok((w, h, pixels))
            ==> decoded_luma(bytes@) == (LumaView {
            width: w as nat,
            height: h as nat,
            pixels: pixels@,
        })),
{
    let mut reader = image::ImageReader::new(std::io::Cursor::new(bytes));
    if let Some(format) = image::ImageFormat::from_extension(extension) {
        reader.set_format(format);
    }
    let luma = reader.decode().map_err(|error| error.to_string())?.to_luma8();
    let (width, height) = luma.dimensions();
    Ok((width, height, luma.into_raw()))
}

/// Decodes an image file in the format that its extension names, resizes
/// it to `columns` by `rows` and converts it to 8-bit grayscale.
///
/// Calls what `load_file_luma` calls, with `DynamicImage::resize_exact`
/// (`FilterType::Triangle`) before `to_luma8`. Claimed: it succeeds exactly
/// on the inputs named decodable, and then gives the named resized pixels,
/// `columns * rows` of them; for a PNG file named as one, the outcome is
/// that of `load_resized_luma`, as for `load_file_luma`. Read for panics as
/// `load_resized_luma`.
#[verifier::external_body]
fn load_file_resized_luma(bytes: &[u8], extension: &str, columns: u32, rows: u32) -> (r: Result<
    Vec<u8>,
    String,
>)
    requires
        resize_fits(columns, rows),
    ensures
        r is Ok <==> file_decodes(bytes@, extension@),
        r matches Ok(pixels) ==> pixels@ == file_resized_luma(bytes@, extension@, columns, rows)
            && pixels@.len() == columns * rows,
        has_png_signature(bytes@) && names_png(extension@) ==> (r is Ok <==> image_loads(bytes@)),
        has_png_signature(bytes@) && names_png(extension@) ==> (r matches Ok(pixels) ==> pixels@
            == resized_luma(bytes@, columns, rows)),
{
    let mut reader = image::ImageReader::new(std::io::Cursor::new(bytes));
    if let Some(format) = image::ImageFormat::from_extension(extension) {
        reader.set_format(format);
    }
    let image = reader.decode().map_err(|error| error.to_string())?;
    let resized = image.resize_exact(columns, rows, image::imageops::FilterType::Triangle);
    Ok(resized.to_luma8().into_raw())
}

/// The width in the header of an image file, as `ImageReader::open(path)`,
/// `with_guessed_format` and `into_dimensions` read it.
///
/// Calls `ImageFormat::from_extension`, `ImageReader::new` over a cursor,
/// `set_format` when the extension names a format, `with_guessed_format`
/// and `into_dimensions`. Claimed: the result is the named header width,
/// an error exactly where that is `None`. Only the PNG header reader is
/// built (`PngDecoder::with_limits`, which reads up to the image data);
/// read for panics as `load_luma`.
#[verifier::external_body]
fn read_header_width(bytes: &[u8], extension: &str) -> (r: Result<u32, String>)
    ensures
        match r {
            Ok(width) => header_width(bytes@, extension@) == Some(width),
            Err(_) => header_width(bytes@, extension@) is None,
        },
{
    let mut reader = image::ImageReader::new(std::io::Cursor::new(bytes));
    if let Some(format) = image::ImageFormat::from_extension(extension) {
        reader.set_format(format);
    }
    let reader = reader.with_guessed_format().map_err(|error| error.to_string())?;
    reader.into_dimensions().map(|(width, _height)| width).map_err(|error| error.to_string())
}

/// The PNG file of an RGBA image.
///
/// Calls `image::RgbaImage::from_raw` and `DynamicImage::write_to` with
/// `ImageFormat::Png` into a cursor over a vector. With four bytes per
/// pixel `from_raw` always succeeds, and writing into a vector cannot fail,
/// so the outcome is the encoder's alone. Claimed: the png encoder
/// (`Writer::init` of png 0.18.1) refuses exactly an image of zero width
/// or zero height, and a successful result is the named PNG of the
/// arguments.
#[verifier::external_body]
fn write_png(width: u32, height: u32, pixels: Vec<u8>) -> (r: Result<Vec<u8>, String>)
    requires
        pixels@.len() == 4 * (width as int) * (height as int),
    ensures
        r is Ok <==> (0 < width && 0 < height),
        r matches Ok(png) ==> png@ == png_of_rgba(width, height, pixels@),
{
    let frame = image::RgbaImage::from_raw(width, height, pixels).ok_or_else(String::new)?;
    let mut png: Vec<u8> = Vec::new();
    image::DynamicImage::ImageRgba8(frame)
        .write_to(&mut std::io::Cursor::new(&mut png), image::ImageFormat::Png)
        .map_err(|error| error.to_string())?;
    Ok(png)
}

/// What follows the first comma of `bytes`, or `None` when there is none.
pub fn payload_after_comma(bytes: &[u8]) -> (r: Option<Vec<u8>>)
    ensures
        match r {
            Some(v) => after_first_comma(bytes@) == Some(v@),
            None => after_first_comma(bytes@) is None,
        },
{
    let mut i: usize = 0;
    while i < bytes.len()
        invariant
            i <= bytes@.len(),
            forall|j: int| 0 <= j < i ==> bytes@[j] != comma(),
        decreases bytes@.len() - i,
    {
        if bytes[i] == 44u8 {
            let mut rest: Vec<u8> = Vec::new();
            let mut k: usize = i + 1;
            while k < bytes.len()
                invariant
                    i < k <= bytes@.len(),
                    rest@ =~= bytes@.subrange(i + 1, k as int),
                decreases bytes@.len() - k,
            {
                rest.push(bytes[k]);
                k = k + 1;
            }
            proof {
                assert(is_first_comma(bytes@, i as int));
                assert(has_comma(bytes@));
                let c = choose|c: int| is_first_comma(bytes@, c);
                assert(c == i) by {
                    if c < i {
                        assert(bytes@[c] != comma());
                    } else if c > i {
                        assert(bytes@[i as int] != comma());
                    }
                }
            }
            return Some(rest);
        }
        i = i + 1;
    }
    None
}

/// The bytes of the image file carried by a frame's base64 text (a bare
/// base64 text, or a `data:` URL whose payload follows the first comma).
pub fn decode_frame_bytes(frame_base64: &str) -> (r: Result<Vec<u8>, String>)
    ensures
        match r {
            Ok(v) => base64_decoded(frame_payload(frame_base64.spec_bytes())) == Some(v@),
            Err(_) => base64_decoded(frame_payload(frame_base64.spec_bytes())) is None,
        },
{
    let bytes = frame_base64.as_bytes();
    let r = match payload_after_comma(bytes) {
        Some(payload) => base64_decode(payload.as_slice()),
        None => base64_decode(bytes),
    };
    proof {
        if r is Ok {
            lemma_decoded_of_encoding(r->Ok_0@, frame_payload(frame_base64.spec_bytes()));
        }
    }
    r
}

/// The grayscale image carried by a frame's base64 text (bare, or the
/// payload of a `data:` URL).
pub fn decode_frame_luma(frame_base64: &str) -> (r: Result<LumaImage, String>)
    ensures
        match base64_decoded(frame_payload(frame_base64.spec_bytes())) {
            Some(file) => (r is Ok <==> image_loads(file)) && (r matches Ok(luma) ==> luma@
                == decoded_luma(file)),
            None => r is Err,
        },
{
    let file = decode_frame_bytes(frame_base64)?;
    let (width, height, pixels) = load_luma(file.as_slice())?;
    Ok(LumaImage::from_pixels(width, height, pixels))
}

/// The grayscale image carried by a frame's base64 text, resized to
/// `columns` by `rows`.
pub fn decode_frame_resized_luma(frame_base64: &str, columns: u32, rows: u32) -> (r: Result<
    LumaImage,
    String,
>)
    requires
        resize_fits(columns, rows),
    ensures
        match base64_decoded(frame_payload(frame_base64.spec_bytes())) {
            Some(file) => (r is Ok <==> image_loads(file)) && (r matches Ok(luma) ==> luma@
                == (LumaView {
                width: columns as nat,
                height: rows as nat,
                pixels: resized_luma(file, columns, rows),
            })),
            None => r is Err,
        },
{
    let file = decode_frame_bytes(frame_base64)?;
    let pixels = load_resized_luma(file.as_slice(), columns, rows)?;
    Ok(LumaImage::from_pixels(columns, rows, pixels))
}

/// The grayscale image of an image file, in the format that its file name
/// extension names. A PNG file named as one decodes as the same bytes sent
/// as a frame do (see `decode_frame_luma`).
pub fn decode_file_luma(bytes: &[u8], extension: &str) -> (r: Result<LumaImage, String>)
    ensures
        r is Ok <==> file_decodes(bytes@, extension@),
        r matches Ok(luma) ==> luma@ == file_luma(bytes@, extension@),
        has_png_signature(bytes@) && names_png(extension@) ==> (r is Ok <==> image_loads(bytes@))
            && (r matches Ok(luma) ==> luma@ == decoded_luma(bytes@)),
{
    let (width, height, pixels) = load_file_luma(bytes, extension)?;
    Ok(LumaImage::from_pixels(width, height, pixels))
}

/// The grayscale image of an image file, in the format that its file name
/// extension names, resized to `columns` by `rows`. A PNG file named as one
/// gives what the same bytes sent as a frame give (see
/// `decode_frame_resized_luma`).
pub fn decode_file_resized_luma(bytes: &[u8], extension: &str, columns: u32, rows: u32) -> (r:
    Result<LumaImage, String>)
    requires
        resize_fits(columns, rows),
    ensures
        r is Ok <==> file_decodes(bytes@, extension@),
        r matches Ok(luma) ==> luma@ == (LumaView {
            width: columns as nat,
            height: rows as nat,
            pixels: file_resized_luma(bytes@, extension@, columns, rows),
        }),
        has_png_signature(bytes@) && names_png(extension@) ==> (r is Ok <==> image_loads(bytes@))
            && (r matches Ok(luma) ==> luma@ == (LumaView {
            width: columns as nat,
            height: rows as nat,
            pixels: resized_luma(bytes@, columns, rows),
        })),
{
    let pixels = load_file_resized_luma(bytes, extension, columns, rows)?;
    Ok(LumaImage::from_pixels(columns, rows, pixels))
}

/// Good settings for an image file: the resolution that its width calls
/// for, read from the file's header.
pub fn best_settings_for(bytes: &[u8], extension: &str) -> (r: Result<BestSettings, String>)
    ensures
        r is Ok <==> header_width(bytes@, extension@) is Some,
        r matches Ok(settings) ==> settings.resolution == best_resolution_spec(
            header_width(bytes@, extension@)->0,
        ),
{
    let width = read_header_width(bytes, extension)?;
    Ok(BestSettings { resolution: best_resolution(width) })
}

/// The bytes to write for an export: the text itself, or for a binary
/// export the file carried by the `data:` URL in `content`.
pub fn export_bytes(content: &str, binary: bool) -> (r: Result<Vec<u8>, String>)
    ensures
        !binary ==> (r matches Ok(v) && v@ == content.spec_bytes()),
        binary ==> match after_first_comma(content.spec_bytes()) {
            None => r matches Err(e) && e@ == "Invalid image data"@,
            Some(payload) => match r {
                Ok(v) => base64_decoded(payload) == Some(v@),
                Err(_) => base64_decoded(payload) is None,
            },
        },
{
    if !binary {
        return Ok(content.as_bytes_vec());
    }
    match payload_after_comma(content.as_bytes()) {
        Some(payload) => {
            let r = base64_decode(payload.as_slice());
            proof {
                if r is Ok {
                    lemma_decoded_of_encoding(r->Ok_0@, payload@);
                }
            }
            r
        },
        None => Err(String::from_str("Invalid image data")),
    }
}

/// Standard base64 text of `bytes`.
pub fn bytes_to_base64(bytes: &[u8]) -> (r: String)
    requires
        base64_len(bytes@.len() as int) <= usize::MAX,
    ensures
        r@ == base64_encoded(bytes@),
{
    base64_encode(bytes)
}

/// A captured RGBA frame as base64 text of its PNG file.
pub fn encode_rgba_as_base64_png(frame: RgbaFrame) -> (r: Result<String, String>)
    ensures
        r is Ok <==> frame.spec_width() > 0 && frame.spec_height() > 0 && base64_len(
            png_of_rgba(frame.spec_width(), frame.spec_height(), frame.spec_pixels()).len() as int,
        ) <= usize::MAX,
        r matches Ok(text) ==> text@ == base64_encoded(
            png_of_rgba(frame.spec_width(), frame.spec_height(), frame.spec_pixels()),
        ),
{
    proof {
        use_type_invariant(&frame);
    }
    let RgbaFrame { width, height, pixels } = frame;
    let png = write_png(width, height, pixels)?;
    if !base64_fits(png.len()) {
        return Err(String::from_str("PNG too large for base64"));
    }
    Ok(base64_encode(png.as_slice()))
}

/// Whether the base64 text of `n` bytes has a length that fits in `usize`.
fn base64_fits(n: usize) -> (r: bool)
    ensures
        r == (base64_len(n as int) <= usize::MAX),
{
    let chunks = n / 3;
    if n % 3 == 0 {
        chunks <= usize::MAX / 4
    } else {
        chunks <= (usize::MAX - 4) / 4
    }
}

/// A base64 text holds no comma, so a frame sent as bare base64 text is
/// decoded whole: whatever the text decodes to, the frame decodes to.
pub proof fn law_bare_base64_frame(text: Seq<char>, data: Seq<u8>)
    requires
        forall|i: int| 0 <= i < text.len() ==> is_base64_char(#[trigger] text[i]),
        base64_decoded(ascii_bytes(text)) == Some(data),
    ensures
        base64_decoded(frame_payload(ascii_bytes(text))) == Some(data),
{
    let bytes = ascii_bytes(text);
    assert forall|i: int| 0 <= i < bytes.len() implies bytes[i] != comma() by {
        assert(is_base64_char(text[i]));
    }
}

/// A `data:` URL whose header holds no comma carries exactly the text after
/// the header's comma.
pub proof fn law_data_url_frame(header: Seq<u8>, text: Seq<u8>)
    requires
        !has_comma(header),
    ensures
        frame_payload(header + seq![comma()] + text) == text,
{
    let url = header + seq![comma()] + text;
    let n = header.len() as int;
    assert(url[n] == comma());
    assert forall|j: int| 0 <= j < n implies url[j] != comma() by {
        assert(url[j] == header[j]);
    }
    assert(is_first_comma(url, n));
    let c = choose|c: int| is_first_comma(url, c);
    assert(c == n) by {
        if c < n {
            assert(url[c] != comma());
        } else if c > n {
            assert(url[n] != comma());
        }
    }
    assert(url.subrange(n + 1, url.len() as int) =~= text);
}

/// The padded base64 text of `n` bytes has `base64_len(n)` characters, all
/// of the standard alphabet or `=`.
pub proof fn law_base64_text_shape(data: Seq<u8>)
    ensures
        base64_encoded(data).len() == base64_len(data.len() as int),
        forall|i: int|
            0 <= i < base64_encoded(data).len() ==> is_base64_char(#[trigger] base64_encoded(data)[i]),
    decreases data.len(),
{
    let t = base64_encoded(data);
    if data.len() >= 3 {
        let rest = data.subrange(3, data.len() as int);
        law_base64_text_shape(rest);
        let head = seq![
            base64_symbol((data[0] as int) / 4),
            base64_symbol(((data[0] as int) % 4) * 16 + (data[1] as int) / 16),
            base64_symbol(((data[1] as int) % 16) * 4 + (data[2] as int) / 64),
            base64_symbol((data[2] as int) % 64),
        ];
        lemma_symbols_are_base64();
        assert forall|i: int| 0 <= i < t.len() implies is_base64_char(#[trigger] t[i]) by {
            if i < 4 {
                assert(t[i] == head[i]);
            } else {
                assert(t[i] == base64_encoded(rest)[i - 4]);
            }
        }
    } else {
        lemma_symbols_are_base64();
    }
}

/// Decoding gives back what was encoded: the padded standard base64 text
/// of `data` decodes to `data`, and to nothing else.
pub proof fn law_base64_round_trip(data: Seq<u8>)
    ensures
        base64_decoded(ascii_bytes(base64_encoded(data))) == Some(data),
{
    lemma_decoded_of_encoding(data, ascii_bytes(base64_encoded(data)));
}

/// Bytes whose base64 text is `text` are what `text` decodes to.
proof fn lemma_decoded_of_encoding(data: Seq<u8>, text: Seq<u8>)
    requires
        ascii_bytes(base64_encoded(data)) == text,
    ensures
        base64_decoded(text) == Some(data),
{
    assert(is_base64_text(text));
    let other = choose|d: Seq<u8>| ascii_bytes(base64_encoded(d)) == text;
    lemma_ascii_bytes_of_encoding_injective(other, data);
}

/// Two texts of base64 characters with the same bytes are the same text.
proof fn lemma_ascii_bytes_injective(t1: Seq<char>, t2: Seq<char>)
    requires
        ascii_bytes(t1) == ascii_bytes(t2),
        forall|i: int| 0 <= i < t1.len() ==> is_base64_char(#[trigger] t1[i]),
        forall|i: int| 0 <= i < t2.len() ==> is_base64_char(#[trigger] t2[i]),
    ensures
        t1 == t2,
{
    assert(t1.len() == ascii_bytes(t1).len());
    assert(t2.len() == ascii_bytes(t2).len());
    assert forall|i: int| 0 <= i < t1.len() implies t1[i] == t2[i] by {
        assert(ascii_bytes(t1)[i] == ascii_bytes(t2)[i]);
        assert(ascii_bytes(t1)[i] == t1[i] as u8);
        assert(ascii_bytes(t2)[i] == t2[i] as u8);
        assert(is_base64_char(t1[i]));
        assert(is_base64_char(t2[i]));
        let c1 = t1[i] as int;
        let c2 = t2[i] as int;
        assert(0 <= c1 < 128 && 0 <= c2 < 128);
        assert((t1[i] as u8) as int == c1);
        assert((t2[i] as u8) as int == c2);
        assert(c1 == c2);
        assert(t1[i] == (c1 as char));
        assert(t2[i] == (c2 as char));
    }
    assert(t1 =~= t2);
}

proof fn lemma_ascii_bytes_of_encoding_injective(d1: Seq<u8>, d2: Seq<u8>)
    requires
        ascii_bytes(base64_encoded(d1)) == ascii_bytes(base64_encoded(d2)),
    ensures
        d1 == d2,
{
    law_base64_text_shape(d1);
    law_base64_text_shape(d2);
    lemma_ascii_bytes_injective(base64_encoded(d1), base64_encoded(d2));
    lemma_encoded_injective(d1, d2);
}

/// Different 6-bit values have different symbols, none of them `=`.
proof fn lemma_symbol_injective(a: int, b: int)
    requires
        0 <= a < 64,
        0 <= b < 64,
    ensures
        base64_symbol(a) == base64_symbol(b) ==> a == b,
        base64_symbol(a) != '=',
{
}

/// Four symbols determine the three bytes of a full group.
proof fn lemma_group_injective(a0: u8, a1: u8, a2: u8, b0: u8, b1: u8, b2: u8)
    requires
        base64_symbol((a0 as int) / 4) == base64_symbol((b0 as int) / 4),
        base64_symbol(((a0 as int) % 4) * 16 + (a1 as int) / 16) == base64_symbol(
            ((b0 as int) % 4) * 16 + (b1 as int) / 16,
        ),
        base64_symbol(((a1 as int) % 16) * 4 + (a2 as int) / 64) == base64_symbol(
            ((b1 as int) % 16) * 4 + (b2 as int) / 64,
        ),
        base64_symbol((a2 as int) % 64) == base64_symbol((b2 as int) % 64),
    ensures
        a0 == b0 && a1 == b1 && a2 == b2,
{
    lemma_symbol_injective((a0 as int) / 4, (b0 as int) / 4);
    lemma_symbol_injective(
        ((a0 as int) % 4) * 16 + (a1 as int) / 16,
        ((b0 as int) % 4) * 16 + (b1 as int) / 16,
    );
    lemma_symbol_injective(
        ((a1 as int) % 16) * 4 + (a2 as int) / 64,
        ((b1 as int) % 16) * 4 + (b2 as int) / 64,
    );
    lemma_symbol_injective((a2 as int) % 64, (b2 as int) % 64);
    lemma_split_eq(a0 as int, b0 as int, 4, a1 as int / 16, b1 as int / 16, 16);
    lemma_split_eq(a1 as int, b1 as int, 16, a2 as int / 64, b2 as int / 64, 4);
    assert(a0 == b0) by (nonlinear_arith)
        requires
            (a0 as int) / 4 == (b0 as int) / 4,
            (a0 as int) % 4 == (b0 as int) % 4,
    ;
    assert(a1 == b1) by (nonlinear_arith)
        requires
            (a1 as int) / 16 == (b1 as int) / 16,
            (a1 as int) % 16 == (b1 as int) % 16,
    ;
    assert(a2 == b2) by (nonlinear_arith)
        requires
            (a2 as int) / 64 == (b2 as int) / 64,
            (a2 as int) % 64 == (b2 as int) % 64,
    ;
}

/// `(x % m) * k + u == (y % m) * k + v` with `u, v < k` splits into equal
/// remainders and equal low parts.
proof fn lemma_split_eq(x: int, y: int, m: int, u: int, v: int, k: int)
    requires
        0 <= x,
        0 <= y,
        0 < m,
        0 <= u < k,
        0 <= v < k,
        (x % m) * k + u == (y % m) * k + v,
    ensures
        x % m == y % m,
        u == v,
{
    assert(x % m == y % m && u == v) by (nonlinear_arith)
        requires
            0 <= x,
            0 <= y,
            0 < m,
            0 <= u < k,
            0 <= v < k,
            (x % m) * k + u == (y % m) * k + v,
    {
        assert(0 <= x % m);
        assert(0 <= y % m);
        if x % m < y % m {
            assert((x % m) * k + u < (y % m) * k);
        } else if x % m > y % m {
            assert((y % m) * k + v < (x % m) * k);
        }
    }
}

/// Different bytes have different padded base64 texts.
proof fn lemma_encoded_injective(d1: Seq<u8>, d2: Seq<u8>)
    requires
        base64_encoded(d1) == base64_encoded(d2),
    ensures
        d1 == d2,
    decreases d1.len(),
{
    let e = base64_encoded(d1);
    if d1.len() == 0 {
        if d2.len() > 0 {
            assert(base64_encoded(d2).len() > 0);
        }
        assert(d1 =~= d2);
    } else if d1.len() == 1 {
        lemma_symbol_injective(((d1[0] as int) % 4) * 16, ((d1[0] as int) % 4) * 16);
        if d2.len() == 1 {
            lemma_symbol_injective((d1[0] as int) / 4, (d2[0] as int) / 4);
            lemma_symbol_injective(((d1[0] as int) % 4) * 16, ((d2[0] as int) % 4) * 16);
            lemma_split_eq(d1[0] as int, d2[0] as int, 4, 0, 0, 16);
            assert(d1[0] == d2[0]) by (nonlinear_arith)
                requires
                    (d1[0] as int) / 4 == (d2[0] as int) / 4,
                    (d1[0] as int) % 4 == (d2[0] as int) % 4,
            ;
            assert(d1 =~= d2);
        } else if d2.len() == 2 {
            lemma_symbol_injective(((d2[1] as int) % 16) * 4, 0);
            assert(e[2] == '=');
        } else if d2.len() >= 3 {
            lemma_symbol_injective(((d2[1] as int) % 16) * 4 + (d2[2] as int) / 64, 0);
            assert(e[2] == '=');
        }
    } else if d1.len() == 2 {
        if d2.len() == 1 {
            lemma_symbol_injective(((d1[1] as int) % 16) * 4, 0);
            assert(e[2] != '=');
        } else if d2.len() == 2 {
            lemma_symbol_injective((d1[0] as int) / 4, (d2[0] as int) / 4);
            lemma_symbol_injective(
                ((d1[0] as int) % 4) * 16 + (d1[1] as int) / 16,
                ((d2[0] as int) % 4) * 16 + (d2[1] as int) / 16,
            );
            lemma_symbol_injective(((d1[1] as int) % 16) * 4, ((d2[1] as int) % 16) * 4);
            lemma_split_eq(d1[0] as int, d2[0] as int, 4, d1[1] as int / 16, d2[1] as int / 16, 16);
            lemma_split_eq(d1[1] as int, d2[1] as int, 16, 0, 0, 4);
            assert(d1[0] == d2[0]) by (nonlinear_arith)
                requires
                    (d1[0] as int) / 4 == (d2[0] as int) / 4,
                    (d1[0] as int) % 4 == (d2[0] as int) % 4,
            ;
            assert(d1[1] == d2[1]) by (nonlinear_arith)
                requires
                    (d1[1] as int) / 16 == (d2[1] as int) / 16,
                    (d1[1] as int) % 16 == (d2[1] as int) % 16,
            ;
            assert(d1 =~= d2);
        } else if d2.len() >= 3 {
            lemma_symbol_injective((d2[2] as int) % 64, 0);
            assert(e[3] == '=');
        }
    } else {
        lemma_symbol_injective(((d1[1] as int) % 16) * 4 + (d1[2] as int) / 64, 0);
        lemma_symbol_injective((d1[2] as int) % 64, 0);
        if d2.len() == 1 {
            assert(e[2] != '=');
        } else if d2.len() == 2 {
            assert(e[3] != '=');
        } else if d2.len() >= 3 {
            let r1 = d1.subrange(3, d1.len() as int);
            let r2 = d2.subrange(3, d2.len() as int);
            let h1 = seq![
                base64_symbol((d1[0] as int) / 4),
                base64_symbol(((d1[0] as int) % 4) * 16 + (d1[1] as int) / 16),
                base64_symbol(((d1[1] as int) % 16) * 4 + (d1[2] as int) / 64),
                base64_symbol((d1[2] as int) % 64),
            ];
            let h2 = seq![
                base64_symbol((d2[0] as int) / 4),
                base64_symbol(((d2[0] as int) % 4) * 16 + (d2[1] as int) / 16),
                base64_symbol(((d2[1] as int) % 16) * 4 + (d2[2] as int) / 64),
                base64_symbol((d2[2] as int) % 64),
            ];
            assert(e == h1 + base64_encoded(r1));
            assert(e == h2 + base64_encoded(r2));
            assert(e[0] == h1[0] && e[0] == h2[0]);
            assert(e[1] == h1[1] && e[1] == h2[1]);
            assert(e[2] == h1[2] && e[2] == h2[2]);
            assert(e[3] == h1[3] && e[3] == h2[3]);
            lemma_group_injective(d1[0], d1[1], d1[2], d2[0], d2[1], d2[2]);
            assert(base64_encoded(r1) =~= e.subrange(4, e.len() as int));
            assert(base64_encoded(r2) =~= e.subrange(4, e.len() as int));
            lemma_encoded_injective(r1, r2);
            assert(d1 =~= d2) by {
                assert forall|i: int| 0 <= i < d1.len() implies d1[i] == d2[i] by {
                    if i >= 3 {
                        assert(d1[i] == r1[i - 3]);
                        assert(d2[i] == r2[i - 3]);
                    }
                }
            }
        }
    }
}

proof fn lemma_symbols_are_base64()
    ensures
        forall|v: int| 0 <= v < 64 ==> is_base64_char(#[trigger] base64_symbol(v)),
{
}

} // verus!
