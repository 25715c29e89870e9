//! Pixel data embedded in SVG files as `data:image/png;base64,...` URIs.

use vstd::prelude::*;
use base64::Engine;
use image::ImageEncoder;
use crate::text::{attr_chars, chars_of, copy_range, spec_attr, string_from_chars};

verus! {

/// The character of the standard base64 alphabet for the 6-bit value `v`:
/// `A`-`Z`, `a`-`z`, `0`-`9`, `+`, `/`.
pub open spec fn base64_digit(v: int) -> char {
    if v < 26 {
        ('A' as int + v) as char
    } else if v < 52 {
        ('a' as int + (v - 26)) as char
    } else if v < 62 {
        ('0' as int + (v - 52)) as char
    } else if v == 62 {
        '+'
    } else {
        '/'
    }
}

/// The base64 text (standard alphabet, with `=` padding, RFC 4648) of
/// `bytes`: every 3 bytes give 4 characters of 6 bits each, and a last group
/// of 1 or 2 bytes gives 2 or 3 characters and `==` or `=`.
pub open spec fn base64_standard_encoding(bytes: Seq<u8>) -> Seq<char>
    decreases bytes.len(),
{
    if bytes.len() == 0 {
        Seq::empty()
    } else if bytes.len() == 1 {
        let a = bytes[0] as int;
        seq![base64_digit(a / 4), base64_digit((a % 4) * 16), '=', '=']
    } else if bytes.len() == 2 {
        let a = bytes[0] as int;
        let b = bytes[1] as int;
        seq![base64_digit(a / 4), base64_digit((a % 4) * 16 + b / 16), base64_digit((b % 16) * 4), '=']
    } else {
        let a = bytes[0] as int;
        let b = bytes[1] as int;
        let c = bytes[2] as int;
        seq![
            base64_digit(a / 4),
            base64_digit((a % 4) * 16 + b / 16),
            base64_digit((b % 16) * 4 + c / 64),
            base64_digit(c % 64),
        ] + base64_standard_encoding(bytes.skip(3))
    }
}

/// The bytes that a standard base64 text stands for, if it is valid.
pub uninterp spec fn base64_standard_decoding(text: Seq<char>) -> Option<Seq<u8>>;

/// The PNG file that `image`'s PNG encoder writes for RGBA8 pixels, if it succeeds.
pub uninterp spec fn png_rgba8_encoding(pixels: Seq<u8>, width: u32, height: u32) -> Option<Seq<u8>>;

/// The RGBA8 pixels, width and height of the image file `bytes`, as `image` decodes it.
pub uninterp spec fn decoded_rgba8_image(bytes: Seq<u8>) -> Option<(Seq<u8>, u32, u32)>;

/// A character of standard base64 text: the standard alphabet or the `=` padding.
pub open spec fn base64_char(c: char) -> bool {
    ('A' <= c <= 'Z') || ('a' <= c <= 'z') || ('0' <= c <= '9') || c == '+' || c == '/' || c == '='
}

/// Whether a data URI can stand in an SVG attribute next to the keys read
/// back: it holds no `"` and no `-`.
pub open spec fn uri_plain(s: Seq<char>) -> bool {
    forall|i: int| 0 <= i < s.len() ==> s[i] != '"' && s[i] != '-'
}

/// Whether base64 encoding `n` bytes cannot overflow the output length.
pub open spec fn base64_length_fits(n: nat) -> bool {
    (n / 3) * 4 + (if n % 3 > 0 { 4int } else { 0int }) <= usize::MAX
}

/// Every character of standard base64 text is in the alphabet or `=`.
pub proof fn lemma_base64_chars(bytes: Seq<u8>)
    ensures
        forall|i: int| 0 <= i < base64_standard_encoding(bytes).len() ==> base64_char(
            #[trigger] base64_standard_encoding(bytes)[i],
        ),
    decreases bytes.len(),
{
    assert forall|v: int| 0 <= v < 64 implies #[trigger] base64_char(base64_digit(v)) by {}
    if bytes.len() >= 3 {
        lemma_base64_chars(bytes.skip(3));
        let a = bytes[0] as int;
        let b = bytes[1] as int;
        let c = bytes[2] as int;
        assert(0 <= (a % 4) * 16 + b / 16 < 64);
        assert(0 <= (b % 16) * 4 + c / 64 < 64);
        let head = seq![
            base64_digit(a / 4),
            base64_digit((a % 4) * 16 + b / 16),
            base64_digit((b % 16) * 4 + c / 64),
            base64_digit(c % 64),
        ];
        let rest = base64_standard_encoding(bytes.skip(3));
        assert forall|i: int| 0 <= i < (head + rest).len() implies base64_char(#[trigger] (head + rest)[i]) by {
            if i >= 4 {
                assert((head + rest)[i] == rest[i - 4]);
            }
        }
    } else if bytes.len() == 2 {
        let a = bytes[0] as int;
        let b = bytes[1] as int;
        assert(0 <= (a % 4) * 16 + b / 16 < 64);
    }
}

/// Encodes `bytes` as standard base64 with padding.
///
/// Trusted: calls `base64::engine::general_purpose::STANDARD.encode`, which
/// writes the standard alphabet with `=` padding (`PAD` config), as
/// `base64_standard_encoding` states. `encode` panics when the output length
/// overflows `usize`, which `requires` rules out.
#[verifier::external_body]
fn base64_encode(bytes: &[u8]) -> (s: String)
    requires
        base64_length_fits(bytes@.len()),
    ensures
        s@ == base64_standard_encoding(bytes@),
{
    base64::engine::general_purpose::STANDARD.encode(bytes)
}

/// Decodes standard base64 text.
///
/// Trusted: calls `base64::engine::general_purpose::STANDARD.decode` on the text's
/// bytes; its result (`None` for an error) is named `base64_standard_decoding`.
#[verifier::external_body]
fn base64_decode(text: &[char]) -> (r: Option<Vec<u8>>)
    ensures
        r matches Some(v) ==> base64_standard_decoding(text@) == Some(v@),
        r is None ==> base64_standard_decoding(text@) is None,
{
    let s: String = text.iter().collect();
    match base64::engine::general_purpose::STANDARD.decode(s) {
        Ok(v) => Some(v),
        Err(_) => None,
    }
}

/// Encodes RGBA8 pixels as a PNG file.
///
/// Trusted: writes with `image::codecs::png::PngEncoder::write_image` into a
/// vector; its result (`None` for an error) is named `png_rgba8_encoding`.
/// `write_image` panics when the buffer length is not `width * height * 4`,
/// which `requires` rules out. The PNG bytes are a `Vec<u8>`, which std never
/// lets grow past `isize::MAX` bytes.
#[verifier::external_body]
fn png_encode_rgba8(pixels: &[u8], width: u32, height: u32) -> (r: Option<Vec<u8>>)
    requires
        pixels@.len() == width as int * height as int * 4,
    ensures
        r matches Some(v) ==> png_rgba8_encoding(pixels@, width, height) == Some(v@),
        r matches Some(v) ==> v@.len() <= isize::MAX,
        r is None ==> png_rgba8_encoding(pixels@, width, height) is None,
{
    let mut png: Vec<u8> = Vec::new();
    let encoder = image::codecs::png::PngEncoder::new(std::io::Cursor::new(&mut png));
    match encoder.write_image(pixels, width, height, image::ExtendedColorType::Rgba8) {
        Ok(()) => Some(png),
        Err(_) => None,
    }
}

/// Decodes an image file to RGBA8 pixels.
///
/// Trusted: calls `image::load_from_memory`, then `to_rgba8`, `dimensions` and
/// `into_raw`; its result (`None` for an error) is named `decoded_rgba8_image`.
#[verifier::external_body]
fn decode_image_rgba8(bytes: &[u8]) -> (r: Option<(Vec<u8>, u32, u32)>)
    ensures
        r matches Some(img) ==> decoded_rgba8_image(bytes@) == Some((img.0@, img.1, img.2)),
        r is None ==> decoded_rgba8_image(bytes@) is None,
{
    match image::load_from_memory(bytes) {
        Ok(img) => {
            let rgba = img.to_rgba8();
            let (width, height) = rgba.dimensions();
            Some((rgba.into_raw(), width, height))
        },
        Err(_) => None,
    }
}

/// `data:image/png;base64,`
pub open spec fn png_data_prefix() -> Seq<char> {
    seq!['d', 'a', 't', 'a', ':', 'i', 'm', 'a', 'g', 'e', '/', 'p', 'n', 'g', ';', 'b', 'a', 's', 'e', '6', '4', ',']
}

/// `data:image/*;base64,`
pub open spec fn any_image_data_prefix() -> Seq<char> {
    seq!['d', 'a', 't', 'a', ':', 'i', 'm', 'a', 'g', 'e', '/', '*', ';', 'b', 'a', 's', 'e', '6', '4', ',']
}

/// The data URI of an RGBA8 raster: `None` for an empty size, for a pixel
/// buffer of the wrong length, or when PNG encoding fails.
pub open spec fn spec_rgba_to_png_data_uri(pixels: Seq<u8>, width: u32, height: u32) -> Option<Seq<char>> {
    if width == 0 || height == 0 {
        None
    } else if width as int * height as int * 4 > usize::MAX as int {
        None
    } else if pixels.len() != width as int * height as int * 4 {
        None
    } else {
        match png_rgba8_encoding(pixels, width, height) {
            None => None,
            Some(png) => Some(png_data_prefix() + base64_standard_encoding(png)),
        }
    }
}

/// The `data:image/png;base64,...` URI of RGBA8 pixels.
pub fn rgba_to_png_data_uri(pixels: &[u8], width: u32, height: u32) -> (r: Option<String>)
    ensures
        r matches Some(s) ==> spec_rgba_to_png_data_uri(pixels@, width, height) == Some(s@),
        r matches Some(s) ==> uri_plain(s@),
        r is None ==> spec_rgba_to_png_data_uri(pixels@, width, height) is None,
{
    if width == 0 || height == 0 {
        return None;
    }
    let w: u128 = width as u128;
    let h: u128 = height as u128;
    assert(w * h <= 0xffff_ffff_u128 * 0xffff_ffff_u128) by (nonlinear_arith)
        requires
            w <= 0xffff_ffff,
            h <= 0xffff_ffff,
    ;
    let expected: u128 = w * h * 4;
    if expected > usize::MAX as u128 {
        return None;
    }
    if pixels.len() as u128 != expected {
        return None;
    }
    let png = match png_encode_rgba8(pixels, width, height) {
        Some(png) => png,
        None => {
            return None;
        },
    };
    let encoded = base64_encode(png.as_slice());
    let mut out: Vec<char> = vec![
        'd', 'a', 't', 'a', ':', 'i', 'm', 'a', 'g', 'e', '/', 'p', 'n', 'g', ';', 'b', 'a', 's', 'e', '6', '4', ',',
    ];
    assert(out@ =~= png_data_prefix());
    let tail = chars_of(encoded.as_str());
    let mut i: usize = 0;
    while i < tail.len()
        invariant
            0 <= i <= tail@.len(),
            out@ == png_data_prefix() + tail@.take(i as int),
        decreases tail@.len() - i,
    {
        out.push(tail[i]);
        i = i + 1;
        assert(out@ =~= png_data_prefix() + tail@.take(i as int));
    }
    assert(tail@.take(tail@.len() as int) =~= tail@);
    assert(uri_plain(out@)) by {
        assert forall|k: int| 0 <= k < out@.len() implies out@[k] != '"' && out@[k] != '-' by {
            if k >= 22 {
                assert(out@[k] == tail@[k - 22]);
                lemma_base64_chars(png@);
                assert(base64_char(tail@[k - 22]));
            }
        }
    }
    Some(string_from_chars(out.as_slice()))
}

/// `s` without the leading `prefix`, if it starts with it.
pub open spec fn strip_prefix(s: Seq<char>, prefix: Seq<char>) -> Option<Seq<char>> {
    if prefix.len() <= s.len() && s.take(prefix.len() as int) == prefix {
        Some(s.skip(prefix.len() as int))
    } else {
        None
    }
}

fn strip_prefix_chars(s: &Vec<char>, prefix: &Vec<char>) -> (r: Option<Vec<char>>)
    ensures
        r matches Some(v) ==> strip_prefix(s@, prefix@) == Some(v@),
        r is None ==> strip_prefix(s@, prefix@) is None,
{
    if prefix.len() > s.len() {
        return None;
    }
    let mut k: usize = 0;
    while k < prefix.len()
        invariant
            prefix@.len() <= s@.len(),
            0 <= k <= prefix@.len(),
            forall|j: int| 0 <= j < k ==> s@[j] == prefix@[j],
        decreases prefix@.len() - k,
    {
        if s[k] != prefix[k] {
            proof {
                assert(s@.take(prefix@.len() as int)[k as int] != prefix@[k as int]);
            }
            return None;
        }
        k = k + 1;
    }
    assert(s@.take(prefix@.len() as int) =~= prefix@);
    let rest = copy_range(s, prefix.len(), s.len());
    assert(rest@ =~= s@.skip(prefix@.len() as int));
    Some(rest)
}

/// The base64 payload of an image's `href` (or `xlink:href`) data URI on an SVG line.
pub open spec fn spec_data_uri_payload(line: Seq<char>) -> Option<Seq<char>> {
    let href = match spec_attr(line, seq!['h', 'r', 'e', 'f']) {
        Some(v) => Some(v),
        None => spec_attr(line, seq!['x', 'l', 'i', 'n', 'k', ':', 'h', 'r', 'e', 'f']),
    };
    match href {
        None => None,
        Some(h) => match strip_prefix(h, png_data_prefix()) {
            Some(d) => Some(d),
            None => strip_prefix(h, any_image_data_prefix()),
        },
    }
}

/// The RGBA8 pixels, width and height of the image embedded in an SVG line.
pub open spec fn spec_image_from_data_uri_attr(line: Seq<char>) -> Option<(Seq<u8>, u32, u32)> {
    match spec_data_uri_payload(line) {
        None => None,
        Some(data) => match base64_standard_decoding(data) {
            None => None,
            Some(bytes) => decoded_rgba8_image(bytes),
        },
    }
}

/// Reads the image embedded as a base64 data URI in the `href` (or
/// `xlink:href`) attribute of an SVG line.
pub fn image_from_data_uri_attr(line: &str) -> (r: Option<(Vec<u8>, u32, u32)>)
    ensures
        r matches Some(img) ==> spec_image_from_data_uri_attr(line@) == Some((img.0@, img.1, img.2)),
        r is None ==> spec_image_from_data_uri_attr(line@) is None,
{
    let l = chars_of(line);
    let href_name: Vec<char> = vec!['h', 'r', 'e', 'f'];
    let xlink_name: Vec<char> = vec!['x', 'l', 'i', 'n', 'k', ':', 'h', 'r', 'e', 'f'];
    assert(href_name@ =~= seq!['h', 'r', 'e', 'f']);
    assert(xlink_name@ =~= seq!['x', 'l', 'i', 'n', 'k', ':', 'h', 'r', 'e', 'f']);
    let href = match attr_chars(&l, &href_name) {
        Some(v) => v,
        None => match attr_chars(&l, &xlink_name) {
            Some(v) => v,
            None => {
                return None;
            },
        },
    };
    let png_prefix: Vec<char> = vec![
        'd', 'a', 't', 'a', ':', 'i', 'm', 'a', 'g', 'e', '/', 'p', 'n', 'g', ';', 'b', 'a', 's', 'e', '6', '4', ',',
    ];
    let any_prefix: Vec<char> = vec![
        'd', 'a', 't', 'a', ':', 'i', 'm', 'a', 'g', 'e', '/', '*', ';', 'b', 'a', 's', 'e', '6', '4', ',',
    ];
    assert(png_prefix@ =~= png_data_prefix());
    assert(any_prefix@ =~= any_image_data_prefix());
    let data = match strip_prefix_chars(&href, &png_prefix) {
        Some(d) => d,
        None => match strip_prefix_chars(&href, &any_prefix) {
            Some(d) => d,
            None => {
                return None;
            },
        },
    };
    let bytes = match base64_decode(data.as_slice()) {
        Some(b) => b,
        None => {
            return None;
        },
    };
    decode_image_rgba8(bytes.as_slice())
}

/// Why an image file cannot be placed.
#[derive(Debug, Clone, Copy, PartialEq, Eq, Structural)]
pub enum ImageLoadError {
    /// The bytes are no image that `image` can decode.
    Undecodable,
    /// The decoded image has no pixels (zero width or height).
    Empty,
}

/// Decodes the bytes of an image file (PNG or JPEG) into RGBA8 pixels, width
/// and height, for placing on a layer: `Undecodable` when `image` cannot decode
/// them, `Empty` when the image has zero width or height.
pub fn image_for_placement(bytes: &[u8]) -> (r: Result<(Vec<u8>, u32, u32), ImageLoadError>)
    ensures
        match decoded_rgba8_image(bytes@) {
            None => r == Err::<(Vec<u8>, u32, u32), ImageLoadError>(ImageLoadError::Undecodable),
            Some(img) => if img.1 > 0 && img.2 > 0 {
                r matches Ok(out) && (out.0@, out.1, out.2) == img
            } else {
                r == Err::<(Vec<u8>, u32, u32), ImageLoadError>(ImageLoadError::Empty)
            },
        },
{
    match decode_image_rgba8(bytes) {
        None => Err(ImageLoadError::Undecodable),
        Some((pixels, width, height)) => {
            if width == 0 || height == 0 {
                Err(ImageLoadError::Empty)
            } else {
                Ok((pixels, width, height))
            }
        },
    }
}

} // verus!
