//! Images for embedding: decoding JPEG and PNG data (JPEG kept as is, everything else
//! converted to 8-bit RGB and zlib-compressed), Base64 input, and the image XObject.
use vstd::prelude::*;
use crate::fmt::{decimal, push_all, spec_decimal};
use crate::pdf::writer::{bytes_of, zlib_compress, zlib_compressed, PdfWriter, WriterModel};
use crate::strings::{lowercase, string_from_chars, to_lowercase, trim, trimmed, chars_of};

verus! {

#[verifier::external_type_specification]
#[verifier::external_body]
pub struct ExImageError(::image::ImageError);

#[verifier::external_type_specification]
#[verifier::external_body]
pub struct ExDecodeError(base64::DecodeError);

/// Whether `bytes` decode as an image (`image::load_from_memory` succeeds).
pub uninterp spec fn image_decodes(bytes: Seq<u8>) -> bool;

/// Width and height of the image decoded from `bytes`.
pub uninterp spec fn decoded_size(bytes: Seq<u8>) -> (u32, u32);

/// The pixels of the image decoded from `bytes`, converted to 8-bit RGB, row by row
/// (`DynamicImage::to_rgb8`, then the raw buffer).
pub uninterp spec fn rgb8_pixels(bytes: Seq<u8>) -> Seq<u8>;

/// The bytes that standard Base64 (`base64::engine::general_purpose::STANDARD`) decodes
/// `text` to; `None` when it rejects the text.
pub uninterp spec fn base64_decoded(text: Seq<char>) -> Option<Seq<u8>>;

/// Decodes `bytes` as an image (`image::load_from_memory`) and returns its width and height
/// (`GenericImageView::width`, `height`).
#[verifier::external_body]
fn image_size(bytes: &[u8]) -> (r: Result<(u32, u32), ::image::ImageError>)
    ensures
        r is Ok <==> image_decodes(bytes@),
        r matches Ok(s) ==> s == decoded_size(bytes@),
{
    let img = ::image::load_from_memory(bytes)?;
    Ok((::image::GenericImageView::width(&img), ::image::GenericImageView::height(&img)))
}

/// Decodes `bytes` as an image (`image::load_from_memory`), converts it to 8-bit RGB
/// (`DynamicImage::to_rgb8`) and returns the width, height and raw pixel bytes of the
/// converted image; the conversion keeps the size.
#[verifier::external_body]
fn image_rgb8(bytes: &[u8]) -> (r: Result<(u32, u32, Vec<u8>), ::image::ImageError>)
    ensures
        r is Ok <==> image_decodes(bytes@),
        r matches Ok((w, h, px)) ==> (w, h) == decoded_size(bytes@) && px@ == rgb8_pixels(bytes@),
{
    let rgb = ::image::load_from_memory(bytes)?.to_rgb8();
    Ok((rgb.width(), rgb.height(), rgb.into_raw()))
}

/// Decodes `text` with standard Base64 (`general_purpose::STANDARD.decode`).
#[verifier::external_body]
fn base64_decode(text: &str) -> (r: Result<Vec<u8>, base64::DecodeError>)
    ensures
        r is Ok <==> base64_decoded(text@) is Some,
        r matches Ok(v) ==> base64_decoded(text@) == Some(v@),
{
    base64::Engine::decode(&base64::engine::general_purpose::STANDARD, text)
}

/// An image ready to be embedded: its name, size, the stream data (the JPEG file itself, or
/// zlib-compressed RGB pixels) and whether the data is JPEG.
#[derive(Clone, Debug)]
pub struct Image {
    pub name: String,
    pub width: u32,
    pub height: u32,
    pub compressed_data: Vec<u8>,
    pub is_jpeg: bool,
}

/// Why an image could not be made.
#[derive(Clone, Copy, PartialEq, Eq, Debug, Structural)]
pub enum ImageLoadError {
    /// The bytes are not an image the decoder knows.
    Decode,
    /// The text is not valid Base64.
    Base64,
}

/// What `from_bytes` makes of `bytes`: the decoded size, and the bytes themselves for JPEG
/// or the compressed RGB pixels otherwise.
pub open spec fn image_from(img: Image, name: Seq<char>, bytes: Seq<u8>, is_jpeg: bool) -> bool {
    &&& img.name@ == name
    &&& img.is_jpeg == is_jpeg
    &&& (img.width, img.height) == decoded_size(bytes)
    &&& img.compressed_data@ == (if is_jpeg { bytes } else { zlib_compressed(rgb8_pixels(bytes)) })
}

/// Whether `bytes` begin with the JPEG start-of-image marker followed by a segment marker,
/// and hold more than three bytes.
pub open spec fn jpeg_magic(bytes: Seq<u8>) -> bool {
    bytes.len() > 3 && bytes[0] == 0xFFu8 && bytes[1] == 0xD8u8 && bytes[2] == 0xFFu8
}

/// The position of the first occurrence of `pat` in `s`.
pub open spec fn first_occurrence(s: Seq<char>, pat: Seq<char>) -> Option<int> {
    if exists|i: int| 0 <= i && i + pat.len() <= s.len() && #[trigger] s.subrange(i, i + pat.len()) == pat {
        let i = choose|i: int|
            0 <= i && i + pat.len() <= s.len() && #[trigger] s.subrange(i, i + pat.len()) == pat
                && forall|j: int| 0 <= j < i ==> #[trigger] s.subrange(j, j + pat.len()) != pat;
        Some(i)
    } else {
        None
    }
}

/// The Base64 payload of a text: after trimming, what follows the first `;base64,`, or the
/// whole trimmed text when it holds none.
pub open spec fn base64_payload(t: Seq<char>) -> Seq<char> {
    match first_occurrence(t, ";base64,"@) {
        Some(i) => t.subrange(i + 8, t.len() as int),
        None => t,
    }
}

/// The extension of a path: what follows its last '.', or the whole path without one.
pub open spec fn path_extension(p: Seq<char>) -> Seq<char> {
    if exists|i: int| 0 <= i < p.len() && p[i] == '.' {
        let i = choose|i: int| 0 <= i < p.len() && p[i] == '.' && forall|j: int| i < j < p.len() ==> p[j] != '.';
        p.subrange(i + 1, p.len() as int)
    } else {
        p
    }
}

/// Whether a path names a JPEG file: its extension is `jpg` or `jpeg` in any letter case.
pub open spec fn is_jpeg_path(p: Seq<char>) -> bool {
    lowercase(path_extension(p)) == "jpg"@ || lowercase(path_extension(p)) == "jpeg"@
}

fn matches_at(t: &[char], pat: &[char], i: usize) -> (r: bool)
    requires
        i + pat@.len() <= t@.len(),
    ensures
        r == (t@.subrange(i as int, i + pat@.len()) == pat@),
{
    let n: usize = t.len();
    let mut k: usize = 0;
    while k < pat.len()
        invariant
            k <= pat@.len(),
            n == t@.len(),
            i + pat@.len() <= t@.len(),
            t@.subrange(i as int, i + k) == pat@.subrange(0, k as int),
        decreases pat@.len() - k,
    {
        if t[i + k] != pat[k] {
            assert(t@.subrange(i as int, i + pat@.len())[k as int] != pat@[k as int]);
            return false;
        }
        k = k + 1;
        assert(t@.subrange(i as int, i + k) =~= pat@.subrange(0, k as int));
    }
    assert(pat@.subrange(0, pat@.len() as int) =~= pat@);
    true
}

/// Position of the first `;base64,` in `t`.
fn find_base64_marker(t: &[char]) -> (r: Option<usize>)
    ensures
        r matches Some(i) ==> first_occurrence(t@, ";base64,"@) == Some(i as int) && i + 8 <= t@.len(),
        r is None ==> first_occurrence(t@, ";base64,"@) is None,
{
    let pat = chars_of(";base64,");
    proof {
        reveal_strlit(";base64,");
    }
    assert(pat@.len() == 8);
    let mut i: usize = 0;
    while i < t.len() && t.len() - i >= 8
        invariant
            i <= t@.len(),
            pat@ == ";base64,"@,
            pat@.len() == 8,
            forall|j: int| 0 <= j < i && j + 8 <= t@.len() ==> #[trigger] t@.subrange(j, j + 8) != pat@,
        decreases t@.len() - i,
    {
        let hit = matches_at(t, pat.as_slice(), i);
        if hit {
            proof {
                let s = t@;
                assert(exists|x: int| 0 <= x && x + 8 <= s.len() && #[trigger] s.subrange(x, x + 8) == pat@);
                let c = choose|x: int|
                    0 <= x && x + 8 <= s.len() && #[trigger] s.subrange(x, x + 8) == pat@
                        && forall|j: int| 0 <= j < x ==> #[trigger] s.subrange(j, j + 8) != pat@;
                assert(exists|x: int|
                    0 <= x && x + 8 <= s.len() && #[trigger] s.subrange(x, x + 8) == pat@
                        && forall|j: int| 0 <= j < x ==> #[trigger] s.subrange(j, j + 8) != pat@) by {
                    assert(forall|j: int| 0 <= j < i ==> #[trigger] s.subrange(j, j + 8) != pat@);
                }
                if c < i {
                    assert(s.subrange(c, c + 8) != pat@);
                } else if c > i {
                }
                assert(c == i);
            }
            return Some(i);
        }
        i = i + 1;
    }
    proof {
        let s = t@;
        if exists|x: int| 0 <= x && x + 8 <= s.len() && #[trigger] s.subrange(x, x + 8) == pat@ {
            let x = choose|x: int| 0 <= x && x + 8 <= s.len() && #[trigger] s.subrange(x, x + 8) == pat@;
            assert(s.subrange(x, x + 8) != pat@);
        }
    }
    None
}

impl Image {
    /// Makes an image from file bytes: JPEG data is kept as it is (after checking that it
    /// decodes); anything else is decoded, converted to 8-bit RGB and zlib-compressed.
    pub fn from_bytes(name: &str, bytes: &[u8], is_jpeg: bool) -> (r: Result<Image, ImageLoadError>)
        ensures
            match r {
                Ok(img) => image_decodes(bytes@) && image_from(img, name@, bytes@, is_jpeg),
                Err(ImageLoadError::Decode) => !image_decodes(bytes@),
                Err(ImageLoadError::Base64) => false,
            },
            r is Ok <==> image_decodes(bytes@),
    {
        if is_jpeg {
            match image_size(bytes) {
                Ok((w, h)) => {
                    let mut data: Vec<u8> = Vec::new();
                    push_all(&mut data, bytes);
                    Ok(Image { name: name.to_owned(), width: w, height: h, compressed_data: data, is_jpeg })
                },
                Err(_) => Err(ImageLoadError::Decode),
            }
        } else {
            match image_rgb8(bytes) {
                Ok((w, h, px)) => match zlib_compress(px.as_slice()) {
                    Ok(data) => Ok(Image { name: name.to_owned(), width: w, height: h, compressed_data: data, is_jpeg }),
                    // Compressing into memory does not fail (see `zlib_compress`).
                    Err(_) => Err(ImageLoadError::Decode),
                },
                Err(_) => Err(ImageLoadError::Decode),
            }
        }
    }

    /// Makes an image from file bytes, treating them as JPEG when the path's extension is
    /// `jpg` or `jpeg` in any letter case.
    pub fn load(name: &str, path: &str, bytes: &[u8]) -> (r: Result<Image, ImageLoadError>)
        ensures
            match r {
                Ok(img) => image_decodes(bytes@) && image_from(img, name@, bytes@, is_jpeg_path(path@)),
                Err(ImageLoadError::Decode) => !image_decodes(bytes@),
                Err(ImageLoadError::Base64) => false,
            },
            r is Ok <==> image_decodes(bytes@),
    {
        let p = chars_of(path);
        let mut start: usize = p.len();
        while start > 0 && p[start - 1] != '.'
            invariant
                start <= p@.len(),
                p@ == path@,
                forall|j: int| start <= j < p@.len() ==> p@[j] != '.',
            decreases start,
        {
            start = start - 1;
        }
        let found = start > 0;
        let ext_start: usize = if found { start } else { 0 };
        let mut ext: Vec<char> = Vec::new();
        let mut k: usize = ext_start;
        while k < p.len()
            invariant
                ext_start <= k <= p@.len(),
                ext@ == p@.subrange(ext_start as int, k as int),
            decreases p@.len() - k,
        {
            ext.push(p[k]);
            k = k + 1;
            assert(ext@ =~= p@.subrange(ext_start as int, k as int));
        }
        proof {
            if found {
                let i = (start - 1) as int;
                assert(p@[i] == '.' && forall|j: int| i < j < p@.len() ==> p@[j] != '.');
                let c = choose|c: int| 0 <= c < p@.len() && p@[c] == '.' && forall|j: int| c < j < p@.len() ==> p@[j] != '.';
                assert(c == i) by {
                    if c < i {
                        assert(p@[i] != '.');
                    } else if c > i {
                        assert(p@[c] != '.');
                    }
                }
                assert(ext@ == path_extension(path@));
            } else {
                assert(ext@ =~= p@);
                assert(!exists|i: int| 0 <= i < p@.len() && p@[i] == '.');
            }
        }
        let ext_string = string_from_chars(ext.as_slice());
        let lower = to_lowercase(ext_string.as_str());
        let jpg = String::from_str("jpg");
        let jpeg = String::from_str("jpeg");
        let is_jpeg = lower == jpg || lower == jpeg;
        Image::from_bytes(name, bytes, is_jpeg)
    }

    /// Makes an image from Base64 text, optionally in a data URL (`...;base64,<payload>`);
    /// surrounding whitespace is ignored. The data is treated as JPEG when it starts with the
    /// JPEG markers.
    pub fn from_base64(name: &str, base64_str: &str) -> (r: Result<Image, ImageLoadError>)
        ensures
            match r {
                Ok(img) => base64_decoded(base64_payload(trimmed(base64_str@))) matches Some(bytes)
                    && image_decodes(bytes) && image_from(img, name@, bytes, jpeg_magic(bytes)),
                Err(ImageLoadError::Base64) => base64_decoded(base64_payload(trimmed(base64_str@))) is None,
                Err(ImageLoadError::Decode) => base64_decoded(base64_payload(trimmed(base64_str@))) matches Some(bytes)
                    && !image_decodes(bytes),
            },
            r is Ok <==> (base64_decoded(base64_payload(trimmed(base64_str@))) matches Some(bytes) && image_decodes(bytes)),
    {
        let raw = trim(base64_str);
        let payload: Vec<char> = match find_base64_marker(raw.as_slice()) {
            Some(i) => {
                let n: usize = raw.len();
                assert(i + 8 <= n);
                let mut v: Vec<char> = Vec::new();
                let mut k: usize = i + 8;
                while k < raw.len()
                    invariant
                        i + 8 <= k <= raw@.len(),
                        v@ == raw@.subrange(i + 8, k as int),
                    decreases raw@.len() - k,
                {
                    v.push(raw[k]);
                    k = k + 1;
                    assert(v@ =~= raw@.subrange(i + 8, k as int));
                }
                v
            },
            None => raw.clone(),
        };
        assert(payload@ == base64_payload(raw@));
        let text = string_from_chars(payload.as_slice());
        let bytes = match base64_decode(text.as_str()) {
            Ok(b) => b,
            Err(_) => {
                return Err(ImageLoadError::Base64);
            },
        };
        let is_jpeg = bytes.len() > 3 && bytes[0] == 0xFFu8 && bytes[1] == 0xD8u8 && bytes[2] == 0xFFu8;
        Image::from_bytes(name, bytes.as_slice(), is_jpeg)
    }
}

/// The dictionary and stream of an image object.
pub open spec fn image_object_body(img: Image) -> Seq<u8> {
    bytes_of("<< /Type /XObject\n   /Subtype /Image\n   /Width "@) + spec_decimal(img.width as nat)
        + bytes_of("\n   /Height "@) + spec_decimal(img.height as nat)
        + bytes_of("\n   /ColorSpace /DeviceRGB\n   /BitsPerComponent 8\n   /Filter "@)
        + (if img.is_jpeg { bytes_of("/DCTDecode"@) } else { bytes_of("/FlateDecode"@) })
        + bytes_of("\n   /Length "@) + spec_decimal(img.compressed_data@.len())
        + bytes_of(" >>\n"@) + bytes_of("stream\n"@) + img.compressed_data@ + bytes_of("\nendstream\n"@)
}

impl Image {
    /// Writes the image as an XObject and returns its object number.
    pub fn embed(&self, writer: &mut PdfWriter) -> (r: u32)
        requires
            old(writer).wf(),
            old(writer)@.next_id < u32::MAX,
        ensures
            final(writer).wf(),
            r == old(writer)@.next_id,
            final(writer)@ == old(writer)@.allocate().object(r, image_object_body(*self)),
    {
        proof {
            writer.lemma_wf();
        }
        let id = writer.alloc_id();
        let mut d: Vec<u8> = Vec::new();
        push_all(&mut d, "<< /Type /XObject\n   /Subtype /Image\n   /Width ".as_bytes());
        push_all(&mut d, decimal(self.width as u64).as_slice());
        push_all(&mut d, "\n   /Height ".as_bytes());
        push_all(&mut d, decimal(self.height as u64).as_slice());
        push_all(&mut d, "\n   /ColorSpace /DeviceRGB\n   /BitsPerComponent 8\n   /Filter ".as_bytes());
        if self.is_jpeg {
            push_all(&mut d, "/DCTDecode".as_bytes());
        } else {
            push_all(&mut d, "/FlateDecode".as_bytes());
        }
        push_all(&mut d, "\n   /Length ".as_bytes());
        push_all(&mut d, decimal(self.compressed_data.len() as u64).as_slice());
        push_all(&mut d, " >>\n".as_bytes());
        push_all(&mut d, "stream\n".as_bytes());
        push_all(&mut d, self.compressed_data.as_slice());
        push_all(&mut d, "\nendstream\n".as_bytes());
        assert(d@ == image_object_body(*self));
        writer.start_obj(id);
        writer.write_raw(d.as_slice());
        writer.end_obj();
        id
    }
}

} // verus!
