//! Image formats and decoding, kept behind an extension → format → decoder
//! indirection.
//!
//! Only PNG and JPEG are supported. Adding a format means adding an
//! [`ImageFormat`] variant; every `match` on it here is exhaustive, so the
//! compiler points at each place that still needs work.
use vstd::prelude::*;

use crate::text::{
    chars_of, last_name, last_segment, name_extension, occurs_in, option_chars, plain_path, segment_path,
};

verus! {

/// An image format the viewer can display.
#[derive(Clone, Copy, Debug, PartialEq, Eq, Structural)]
pub enum ImageFormat {
    Png,
    Jpeg,
}

/// `c` with an ASCII uppercase letter turned into its lowercase letter.
pub open spec fn ascii_lower_char(c: char) -> char {
    if 'A' <= c && c <= 'Z' {
        ((c as u8) + 32) as char
    } else {
        c
    }
}

/// `s` with its ASCII uppercase letters lowercased.
pub open spec fn ascii_lower(s: Seq<char>) -> Seq<char> {
    s.map_values(|c: char| ascii_lower_char(c))
}

/// The lowercase extensions that map to `format`.
pub open spec fn extensions_of(format: ImageFormat) -> Seq<Seq<char>> {
    match format {
        ImageFormat::Png => seq!["png"@],
        ImageFormat::Jpeg => seq!["jpg"@, "jpeg"@],
    }
}

/// The format the extension of the file name `name` selects, if any.
pub open spec fn format_of_name(name: Seq<char>) -> Option<ImageFormat> {
    match name_extension(name) {
        Some(e) => format_for_extension(e),
        None => None,
    }
}

/// The format of `path` where every platform agrees on it: for plain names
/// joined by `/`, that of the last name; for segment names joined by `/` or
/// `\\` (a drive allowed in front), that of the last segment, unless the
/// segment starts with a dot. `None` where the platforms may differ.
pub open spec fn agreed_format(path: Seq<char>) -> Option<Option<ImageFormat>> {
    if plain_path(path) {
        Some(format_of_name(last_name(path)))
    } else if segment_path(path) && last_segment(path)[0] != '.' {
        Some(format_of_name(last_segment(path)))
    } else {
        None
    }
}

/// An extension holding a backslash selects no format.
proof fn lemma_backslash_selects_nothing(e: Seq<char>)
    requires
        e.contains('\\'),
    ensures
        format_for_extension(e) is None,
{
    reveal_strlit("png");
    reveal_strlit("jpg");
    reveal_strlit("jpeg");
    let k = choose|k: int| 0 <= k < e.len() && e[k] == '\\';
    let lowered = ascii_lower(e);
    assert(lowered[k] == '\\');
    assert(extensions_of(ImageFormat::Png) =~= seq!["png"@]);
    assert(extensions_of(ImageFormat::Jpeg) =~= seq!["jpg"@, "jpeg"@]);
    assert("png"@ =~= seq!['p', 'n', 'g']);
    assert("jpg"@ =~= seq!['j', 'p', 'g']);
    assert("jpeg"@ =~= seq!['j', 'p', 'e', 'g']);
    assert(lowered.len() == e.len());
    assert(lowered != "png"@ && lowered != "jpg"@ && lowered != "jpeg"@) by {
        if lowered == "png"@ || lowered == "jpg"@ || lowered == "jpeg"@ {
            assert(lowered[k] != '\\');
        }
    }
}

/// The format an extension selects, ignoring ASCII case.
pub open spec fn format_for_extension(extension: Seq<char>) -> Option<ImageFormat> {
    let lowered = ascii_lower(extension);
    if extensions_of(ImageFormat::Png).contains(lowered) {
        Some(ImageFormat::Png)
    } else if extensions_of(ImageFormat::Jpeg).contains(lowered) {
        Some(ImageFormat::Jpeg)
    } else {
        None
    }
}

fn lower_ascii(c: char) -> (r: char)
    ensures
        r == ascii_lower_char(c),
{
    if 'A' <= c && c <= 'Z' {
        ((c as u8) + 32) as char
    } else {
        c
    }
}

/// Whether the characters `a` spell `b`.
fn spells(a: &Vec<char>, b: &str) -> (r: bool)
    ensures
        r == (a@ == b@),
{
    let target = chars_of(b);
    if a.len() != target.len() {
        return false;
    }
    let mut k: usize = 0;
    while k < a.len()
        invariant
            k <= a.len(),
            a.len() == target.len(),
            target@ == b@,
            forall|m: int| 0 <= m < k ==> a@[m] == target@[m],
        decreases a.len() - k,
    {
        if a[k] != target[k] {
            return false;
        }
        k = k + 1;
    }
    assert(a@ =~= target@);
    true
}

impl ImageFormat {
    /// Every supported format. Extend together with the enum.
    pub const ALL: [ImageFormat; 2] = [ImageFormat::Png, ImageFormat::Jpeg];

    /// Lower-case extensions that map to this format.
    pub fn extensions(self) -> (r: Vec<&'static str>)
        ensures
            r@.map_values(|e: &str| e@) == extensions_of(self),
    {
        match self {
            ImageFormat::Png => {
                let r = vec!["png"];
                assert(r@.map_values(|e: &str| e@) =~= extensions_of(self));
                r
            },
            ImageFormat::Jpeg => {
                let r = vec!["jpg", "jpeg"];
                assert(r@.map_values(|e: &str| e@) =~= extensions_of(self));
                r
            },
        }
    }

    /// The format an extension selects, ignoring ASCII case.
    pub fn from_extension(extension: &str) -> (r: Option<Self>)
        ensures
            r == format_for_extension(extension@),
    {
        let chars = chars_of(extension);
        let mut lowered: Vec<char> = Vec::new();
        let mut k: usize = 0;
        while k < chars.len()
            invariant
                k <= chars.len(),
                lowered@ == ascii_lower(chars@.take(k as int)),
            decreases chars.len() - k,
        {
            lowered.push(lower_ascii(chars[k]));
            proof {
                assert(ascii_lower(chars@.take(k + 1)) =~= ascii_lower(chars@.take(k as int)).push(
                    ascii_lower_char(chars@[k as int]),
                ));
            }
            k = k + 1;
        }
        proof {
            assert(chars@.take(chars.len() as int) =~= chars@);
            assert(extensions_of(ImageFormat::Png) =~= seq!["png"@]);
            assert(extensions_of(ImageFormat::Jpeg) =~= seq!["jpg"@, "jpeg"@]);
        }
        if spells(&lowered, "png") {
            proof {
                assert(extensions_of(ImageFormat::Png)[0] == lowered@);
            }
            Some(ImageFormat::Png)
        } else if spells(&lowered, "jpg") {
            proof {
                assert(extensions_of(ImageFormat::Jpeg)[0] == lowered@);
            }
            Some(ImageFormat::Jpeg)
        } else if spells(&lowered, "jpeg") {
            proof {
                assert(extensions_of(ImageFormat::Jpeg)[1] == lowered@);
            }
            Some(ImageFormat::Jpeg)
        } else {
            None
        }
    }

    /// The format a path's extension selects. Which part of the path is its
    /// extension is the platform's business (see [`path_extension`]); the
    /// format is the one that extension selects.
    pub fn from_path(path: &str) -> (r: Option<Self>)
        ensures
            agreed_format(path@) matches Some(f) ==> r == f,
            r is Some ==> exists|e: Seq<char>| occurs_in(e, path@) && r == #[trigger] format_for_extension(e),
    {
        match path_extension(path) {
            Some(extension) => {
                let r = Self::from_extension(extension.as_str());
                proof {
                    assert(occurs_in(extension@, path@) && r == format_for_extension(extension@));
                    if !plain_path(path@) && segment_path(path@) && last_segment(path@)[0] != '.'
                        && name_extension(last_segment(path@)) is None {
                        lemma_backslash_selects_nothing(extension@);
                    }
                }
                r
            },
            None => None,
        }
    }

    /// The decoder responsible for this format.
    pub fn decoder(self) -> (d: Decoder)
        ensures
            d.handles() == self,
    {
        match self {
            ImageFormat::Png => Decoder::Png(PngDecoder),
            ImageFormat::Jpeg => Decoder::Jpeg(JpegDecoder),
        }
    }
}

/// Calls `Path::extension` on `path` and converts the extension to a `String`.
/// What counts as the file name depends on the platform's separators, so in
/// general only this is stated: an extension it returns is a piece of the
/// path's text. For plain names joined by `/` (which separates on every
/// platform) the file name is the last of them, and its extension is the one
/// `Path::extension` documents. For segment names joined by `/` or `\\`
/// (Windows separates at both, and reads a leading drive; elsewhere the file
/// name is what follows the last `/`), a last segment with a dot past its
/// start gives the same extension everywhere; a last segment with no dot at
/// all gives none on Windows, and elsewhere at most one that holds the `\\`
/// before the segment.
#[verifier::external_body]
fn path_extension(path: &str) -> (r: Option<String>)
    ensures
        r matches Some(e) ==> occurs_in(e@, path@),
        plain_path(path@) ==> option_chars(r) == name_extension(last_name(path@)),
        segment_path(path@) && name_extension(last_segment(path@)) is Some ==> option_chars(r) == name_extension(
            last_segment(path@),
        ),
        segment_path(path@) && name_extension(last_segment(path@)) is None && last_segment(path@)[0] != '.'
            ==> (r matches Some(e) ==> e@.contains('\\')),
{
    std::path::Path::new(path).extension().and_then(|e| e.to_str()).map(String::from)
}

/// Whether `path` has an extension the viewer can display.
pub fn is_supported(path: &str) -> (r: bool)
    ensures
        agreed_format(path@) matches Some(f) ==> (r <==> f is Some),
        r ==> exists|e: Seq<char>| occurs_in(e, path@) && (#[trigger] format_for_extension(e)) is Some,
{
    ImageFormat::from_path(path).is_some()
}

// ---------------------------------------------------------------------------
// Decoded pixels
// ---------------------------------------------------------------------------

/// What decoding `bytes` as `format` with the `image` crate yields: width,
/// height and RGBA bytes, row by row, with EXIF orientation applied; `None`
/// when the bytes are not a decodable image of that format.
pub uninterp spec fn decoded_rgba(bytes: Seq<u8>, format: ImageFormat) -> Option<(u32, u32, Seq<u8>)>;

#[verifier::external_type_specification]
#[verifier::external_body]
pub struct ExImageError(image::ImageError);

/// Decodes `bytes` as `format` with the `image` crate (`ImageReader::with_format`,
/// `into_decoder`, the decoder's `orientation`, `DynamicImage::from_decoder`,
/// `apply_orientation`, `into_rgba8`) and hands back width, height and raw
/// RGBA bytes. The contents are never sniffed: the format is the one given.
/// Stated: the result is `decoded_rgba`, and the buffer holds at least four
/// bytes per pixel (what `ImageBuffer` checks when it is built).
#[verifier::external_body]
fn decode_rgba(bytes: &[u8], format: ImageFormat) -> (r: Result<(u32, u32, Vec<u8>), image::ImageError>)
    ensures
        match r {
            Ok((w, h, px)) => decoded_rgba(bytes@, format) == Some((w, h, px@)) && px@.len() >= 4 * w * h,
            Err(_) => decoded_rgba(bytes@, format) is None,
        },
{
    let image_format = match format {
        ImageFormat::Png => image::ImageFormat::Png,
        ImageFormat::Jpeg => image::ImageFormat::Jpeg,
    };
    let reader = image::ImageReader::with_format(std::io::Cursor::new(bytes), image_format);
    let mut decoder = reader.into_decoder()?;
    let orientation = image::ImageDecoder::orientation(&mut decoder)?;
    let mut image = image::DynamicImage::from_decoder(decoder)?;
    image.apply_orientation(orientation);
    let rgba = image.into_rgba8();
    Ok((rgba.width(), rgba.height(), rgba.into_raw()))
}

/// `rgba` with red and blue swapped in every complete 4-byte pixel: the BGRA
/// layout the renderer uploads directly.
pub open spec fn bgra_of(rgba: Seq<u8>) -> Seq<u8> {
    Seq::new(
        rgba.len(),
        |k: int|
            if (k / 4) * 4 + 4 <= rgba.len() && k % 4 == 0 {
                rgba[k + 2]
            } else if (k / 4) * 4 + 4 <= rgba.len() && k % 4 == 2 {
                rgba[k - 2]
            } else {
                rgba[k]
            },
    )
}

/// A decoded frame in BGRA layout.
pub struct DecodedImage {
    width: u32,
    height: u32,
    bgra: Vec<u8>,
}

impl DecodedImage {
    #[verifier::type_invariant]
    spec fn holds_every_pixel(self) -> bool {
        self.bgra@.len() >= 4 * self.width * self.height
    }

    pub closed spec fn spec_width(self) -> u32 {
        self.width
    }

    pub closed spec fn spec_height(self) -> u32 {
        self.height
    }

    /// The BGRA bytes, row by row.
    pub closed spec fn bytes(self) -> Seq<u8> {
        self.bgra@
    }

    /// Converts RGBA pixels into the BGRA layout.
    pub fn from_rgba(width: u32, height: u32, rgba: Vec<u8>) -> (img: DecodedImage)
        requires
            rgba@.len() >= 4 * width * height,
        ensures
            img.spec_width() == width,
            img.spec_height() == height,
            img.bytes() == bgra_of(rgba@),
    {
        let mut bgra = rgba;
        let len = bgra.len();
        let chunks = len / 4;
        let mut i: usize = 0;
        while i < chunks
            invariant
                chunks == rgba@.len() / 4,
                len == rgba@.len(),
                bgra@.len() == rgba@.len(),
                i <= chunks,
                forall|k: int|
                    0 <= k < bgra@.len() ==> #[trigger] bgra@[k] == if k / 4 < i && k % 4 == 0 {
                        rgba@[k + 2]
                    } else if k / 4 < i && k % 4 == 2 {
                        rgba@[k - 2]
                    } else {
                        rgba@[k]
                    },
            decreases chunks - i,
        {
            assert(4 * i + 4 <= len) by (nonlinear_arith)
                requires
                    i < chunks,
                    chunks == len / 4,
            ;
            let first = bgra[4 * i];
            let third = bgra[4 * i + 2];
            bgra.set(4 * i, third);
            bgra.set(4 * i + 2, first);
            i = i + 1;
        }
        assert forall|k: int| 0 <= k < bgra@.len() implies #[trigger] bgra@[k] == bgra_of(rgba@)[k] by {
            assert((k / 4 < chunks) == ((k / 4) * 4 + 4 <= rgba@.len()));
        }
        assert(bgra@ =~= bgra_of(rgba@));
        DecodedImage { width, height, bgra }
    }

    pub fn width(&self) -> (w: u32)
        ensures
            w == self.spec_width(),
    {
        self.width
    }

    pub fn height(&self) -> (h: u32)
        ensures
            h == self.spec_height(),
    {
        self.height
    }

    /// The raw BGRA bytes of the pixel in column `x` of row `y`.
    pub fn pixel(&self, x: u32, y: u32) -> (p: [u8; 4])
        requires
            x < self.spec_width(),
            y < self.spec_height(),
        ensures
            p@ == self.bytes().subrange(4 * (y * self.spec_width() + x), 4 * (y * self.spec_width() + x) + 4),
    {
        proof {
            use_type_invariant(self);
            assert(4 * (y * self.width + x) + 4 <= 4 * self.width * self.height) by (nonlinear_arith)
                requires
                    x < self.width,
                    y < self.height,
            ;
            assert(y * self.width <= y * self.width + x);
        }
        let n = self.bgra.len();
        let base = 4 * ((y as usize) * (self.width as usize) + (x as usize));
        let p = [self.bgra[base], self.bgra[base + 1], self.bgra[base + 2], self.bgra[base + 3]];
        assert(p@ =~= self.bytes().subrange(base as int, base + 4));
        p
    }

    /// The bytes of the frame, consumed, for handing to the renderer.
    pub fn into_bgra(self) -> (parts: (u32, u32, Vec<u8>))
        ensures
            parts.0 == self.spec_width(),
            parts.1 == self.spec_height(),
            parts.2@ == self.bytes(),
    {
        (self.width, self.height, self.bgra)
    }
}

/// Why an image could not be decoded.
#[derive(Clone, Copy, Debug, PartialEq, Eq, Structural)]
pub enum DecodeError {
    /// The path has no extension the viewer supports.
    UnsupportedExtension,
    /// The contents are not a decodable image of the format the extension names.
    Undecodable,
}

/// What decoding `bytes` as `format` makes of them: the decoded frame in BGRA
/// layout, or `None`.
pub open spec fn decoded_bgra(bytes: Seq<u8>, format: ImageFormat) -> Option<(u32, u32, Seq<u8>)> {
    match decoded_rgba(bytes, format) {
        Some((w, h, px)) => Some((w, h, bgra_of(px))),
        None => None,
    }
}

/// Whether `r` is what decoding `bytes` as `format` gives.
pub open spec fn decodes_to(r: Result<DecodedImage, DecodeError>, bytes: Seq<u8>, format: ImageFormat) -> bool {
    match r {
        Ok(img) => decoded_bgra(bytes, format) == Some((img.spec_width(), img.spec_height(), img.bytes())),
        Err(e) => e == DecodeError::Undecodable && decoded_bgra(bytes, format) is None,
    }
}

fn decode_as(contents: &[u8], format: ImageFormat) -> (r: Result<DecodedImage, DecodeError>)
    ensures
        decodes_to(r, contents@, format),
{
    match decode_rgba(contents, format) {
        Ok((width, height, rgba)) => Ok(DecodedImage::from_rgba(width, height, rgba)),
        Err(_) => Err(DecodeError::Undecodable),
    }
}

/// Decodes PNG files.
#[derive(Clone, Copy, Debug)]
pub struct PngDecoder;

/// Decodes JPEG files.
#[derive(Clone, Copy, Debug)]
pub struct JpegDecoder;

impl PngDecoder {
    pub fn format(&self) -> (f: ImageFormat)
        ensures
            f == ImageFormat::Png,
    {
        ImageFormat::Png
    }

    /// Decodes the contents of a PNG file.
    pub fn decode(&self, contents: &[u8]) -> (r: Result<DecodedImage, DecodeError>)
        ensures
            decodes_to(r, contents@, ImageFormat::Png),
    {
        decode_as(contents, ImageFormat::Png)
    }
}

impl JpegDecoder {
    pub fn format(&self) -> (f: ImageFormat)
        ensures
            f == ImageFormat::Jpeg,
    {
        ImageFormat::Jpeg
    }

    /// Decodes the contents of a JPEG file.
    pub fn decode(&self, contents: &[u8]) -> (r: Result<DecodedImage, DecodeError>)
        ensures
            decodes_to(r, contents@, ImageFormat::Jpeg),
    {
        decode_as(contents, ImageFormat::Jpeg)
    }
}

/// The decoder a format maps to.
pub enum Decoder {
    Png(PngDecoder),
    Jpeg(JpegDecoder),
}

impl Decoder {
    /// The format this decoder is for.
    pub open spec fn handles(self) -> ImageFormat {
        match self {
            Decoder::Png(_) => ImageFormat::Png,
            Decoder::Jpeg(_) => ImageFormat::Jpeg,
        }
    }

    /// The format this decoder handles.
    pub fn format(&self) -> (f: ImageFormat)
        ensures
            f == self.handles(),
    {
        match self {
            Decoder::Png(d) => d.format(),
            Decoder::Jpeg(d) => d.format(),
        }
    }

    /// Decodes file contents in this decoder's format.
    pub fn decode(&self, contents: &[u8]) -> (r: Result<DecodedImage, DecodeError>)
        ensures
            decodes_to(r, contents@, self.handles()),
    {
        match self {
            Decoder::Png(d) => d.decode(contents),
            Decoder::Jpeg(d) => d.decode(contents),
        }
    }
}

/// Whether `e` selects a format and `r` is what decoding `bytes` in it gives.
pub open spec fn decodes_as_extension(r: Result<DecodedImage, DecodeError>, bytes: Seq<u8>, e: Seq<char>) -> bool {
    format_for_extension(e) matches Some(f) && decodes_to(r, bytes, f)
}

/// Decodes the contents of the file at `path` with the decoder its extension
/// selects. The contents are never sniffed past the extension, so a
/// mislabelled file fails rather than being displayed.
pub fn decode(path: &str, contents: &[u8]) -> (r: Result<DecodedImage, DecodeError>)
    ensures
        agreed_format(path@) matches Some(f) ==> (match f {
            Some(format) => decodes_to(r, contents@, format),
            None => r matches Err(DecodeError::UnsupportedExtension),
        }),
        !(r matches Err(DecodeError::UnsupportedExtension)) ==> exists|e: Seq<char>|
            occurs_in(e, path@) && #[trigger] decodes_as_extension(r, contents@, e),
{
    let format = match ImageFormat::from_path(path) {
        Some(format) => format,
        None => {
            return Err(DecodeError::UnsupportedExtension);
        },
    };
    let decoder = format.decoder();
    let r = decoder.decode(contents);
    proof {
        let e = choose|e: Seq<char>| occurs_in(e, path@) && #[trigger] format_for_extension(e) == Some(format);
        assert(decodes_as_extension(r, contents@, e));
    }
    r
}

// ---------------------------------------------------------------------------
// Laws
// ---------------------------------------------------------------------------

/// Every extension a format lists selects that very format, in any ASCII case
/// of its lowercase spelling: the extension table and the lookup agree.
pub proof fn extensions_select_their_format(format: ImageFormat, k: int)
    requires
        0 <= k < extensions_of(format).len(),
    ensures
        format_for_extension(extensions_of(format)[k]) == Some(format),
{
    reveal_strlit("png");
    reveal_strlit("jpg");
    reveal_strlit("jpeg");
    let e = extensions_of(format)[k];
    assert(ascii_lower(e) =~= e);
    assert(extensions_of(ImageFormat::Png).contains(extensions_of(ImageFormat::Png)[0]));
    assert(extensions_of(ImageFormat::Jpeg).contains(extensions_of(ImageFormat::Jpeg)[0]));
    assert(extensions_of(ImageFormat::Jpeg).contains(extensions_of(ImageFormat::Jpeg)[1]));
    if format == ImageFormat::Jpeg {
        assert(!extensions_of(ImageFormat::Png).contains(e)) by {
            if extensions_of(ImageFormat::Png).contains(e) {
                assert(extensions_of(ImageFormat::Png)[0] == e);
                assert("png"@[0] == 'p');
                assert(e[0] == 'j');
            }
        }
    }
}

/// The decoder a format maps to decodes that format.
pub proof fn every_format_has_its_own_decoder(format: ImageFormat)
    ensures
        (match format {
            ImageFormat::Png => Decoder::Png(PngDecoder),
            ImageFormat::Jpeg => Decoder::Jpeg(JpegDecoder),
        }).handles() == format,
{
}

/// Converting to BGRA swaps red and blue and keeps green and alpha: pixel `p`
/// of the result holds `[b, g, r, a]` where the input held `[r, g, b, a]`.
pub proof fn bgra_swaps_red_and_blue(rgba: Seq<u8>, p: int)
    requires
        0 <= p,
        4 * p + 4 <= rgba.len(),
    ensures
        bgra_of(rgba)[4 * p] == rgba[4 * p + 2],
        bgra_of(rgba)[4 * p + 1] == rgba[4 * p + 1],
        bgra_of(rgba)[4 * p + 2] == rgba[4 * p],
        bgra_of(rgba)[4 * p + 3] == rgba[4 * p + 3],
{
    assert((4 * p) / 4 == p && (4 * p) % 4 == 0);
    assert((4 * p + 1) / 4 == p && (4 * p + 1) % 4 == 1);
    assert((4 * p + 2) / 4 == p && (4 * p + 2) % 4 == 2);
    assert((4 * p + 3) / 4 == p && (4 * p + 3) % 4 == 3);
}

} // verus!
