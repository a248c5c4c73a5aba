//! Registered TrueType fonts: registration and lookup by name, glyph-based text encoding
//! for content streams, advance widths and vertical metrics in font units.
use vstd::prelude::*;
use crate::fmt::{decimal, push_all, push_hex_padded, spec_decimal, spec_hex_padded};
use crate::pdf::writer::{ascii_chars, bytes_of, PdfWriter, WriterModel};
use crate::strings::{chars_of, push_char, push_str, string_eq};

verus! {

/// Whether `data` parses as a font face (`ttf_parser::Face::parse` with face index 0
/// succeeds).
pub uninterp spec fn face_parses(data: Seq<u8>) -> bool;

/// The glyph that the face parsed from `data` maps the character `c` to
/// (`ttf_parser::Face::glyph_index`), as a glyph number.
pub uninterp spec fn glyph_of(data: Seq<u8>, c: char) -> Option<u16>;

/// The horizontal advance of glyph `gid` in the face parsed from `data`
/// (`ttf_parser::Face::glyph_hor_advance`), in font units.
pub uninterp spec fn glyph_advance(data: Seq<u8>, gid: u16) -> Option<u16>;

/// Units per em of the face parsed from `data` (`ttf_parser::Face::units_per_em`).
pub uninterp spec fn units_per_em_of(data: Seq<u8>) -> u16;

/// Ascender of the face parsed from `data` (`ttf_parser::Face::ascender`), in font units.
pub uninterp spec fn ascender_of(data: Seq<u8>) -> i16;

/// Descender of the face parsed from `data` (`ttf_parser::Face::descender`), in font units.
pub uninterp spec fn descender_of(data: Seq<u8>) -> i16;

/// Parses `data` as a font face (`ttf_parser::Face::parse(data, 0)`) and looks up the glyph
/// of each character of `text` (`Face::glyph_index`). `None` exactly when the data does not
/// parse; otherwise one entry per character, the glyph number or `None` when the face has no
/// glyph for it.
#[verifier::external_body]
fn glyph_indices(data: &[u8], text: &str) -> (r: Option<Vec<Option<u16>>>)
    ensures
        r is Some <==> face_parses(data@),
        r matches Some(v) ==> v@.len() == text@.len() && forall|i: int|
            0 <= i < v@.len() ==> v@[i] == glyph_of(data@, #[trigger] text@[i]),
{
    let face = ttf_parser::Face::parse(data, 0).ok()?;
    Some(text.chars().map(|c| face.glyph_index(c).map(|g| g.0)).collect())
}

/// Parses `data` as a font face (`ttf_parser::Face::parse(data, 0)`) and reads the horizontal
/// advance of each glyph of `gids` (`Face::glyph_hor_advance`). `None` exactly when the data
/// does not parse.
#[verifier::external_body]
fn glyph_advances(data: &[u8], gids: &[u16]) -> (r: Option<Vec<Option<u16>>>)
    ensures
        r is Some <==> face_parses(data@),
        r matches Some(v) ==> v@.len() == gids@.len() && forall|i: int|
            0 <= i < v@.len() ==> v@[i] == glyph_advance(data@, #[trigger] gids@[i]),
{
    let face = ttf_parser::Face::parse(data, 0).ok()?;
    Some(gids.iter().map(|g| face.glyph_hor_advance(ttf_parser::GlyphId(*g))).collect())
}

/// Parses `data` as a font face (`ttf_parser::Face::parse(data, 0)`) and reads its units per
/// em, ascender and descender (`Face::units_per_em`, `Face::ascender`, `Face::descender`).
/// `None` exactly when the data does not parse.
#[verifier::external_body]
fn face_vertical_metrics(data: &[u8]) -> (r: Option<(u16, i16, i16)>)
    ensures
        r is Some <==> face_parses(data@),
        r matches Some((u, a, d)) ==> u == units_per_em_of(data@) && a == ascender_of(data@)
            && d == descender_of(data@),
{
    let face = ttf_parser::Face::parse(data, 0).ok()?;
    Some((face.units_per_em(), face.ascender(), face.descender()))
}

/// Global bounding box of the face parsed from `data` (`ttf_parser::Face::global_bounding_box`):
/// `x_min`, `y_min`, `x_max`, `y_max`, in font units.
pub uninterp spec fn bounding_box_of(data: Seq<u8>) -> (i16, i16, i16, i16);

/// Capital height of the face parsed from `data` (`ttf_parser::Face::capital_height`), in font
/// units; `None` when the face does not give one.
pub uninterp spec fn capital_height_of(data: Seq<u8>) -> Option<i16>;

/// Number of glyphs of the face parsed from `data` (`ttf_parser::Face::number_of_glyphs`).
pub uninterp spec fn glyph_count_of(data: Seq<u8>) -> u16;

/// Parses `data` as a font face (`ttf_parser::Face::parse(data, 0)`) and reads its global
/// bounding box, capital height and number of glyphs (`Face::global_bounding_box`,
/// `Face::capital_height`, `Face::number_of_glyphs`). `None` exactly when the data does not
/// parse.
#[verifier::external_body]
fn face_descriptor_metrics(data: &[u8]) -> (r: Option<((i16, i16, i16, i16), Option<i16>, u16)>)
    ensures
        r is Some <==> face_parses(data@),
        r matches Some((b, c, n)) ==> b == bounding_box_of(data@) && c == capital_height_of(data@)
            && n == glyph_count_of(data@),
{
    let face = ttf_parser::Face::parse(data, 0).ok()?;
    let b = face.global_bounding_box();
    Some(((b.x_min, b.y_min, b.x_max, b.y_max), face.capital_height(), face.number_of_glyphs()))
}

/// The integer numbers of a font descriptor, in font units: the bounding box (`x_min`,
/// `y_min`, `x_max`, `y_max`), the cap height (the ascender when the face gives none) and the
/// number of glyphs.
pub open spec fn descriptor_metrics_spec(data: Seq<u8>) -> (i16, i16, i16, i16, i16, u16) {
    let b = bounding_box_of(data);
    let cap = match capital_height_of(data) {
        Some(c) => c,
        None => ascender_of(data),
    };
    (b.0, b.1, b.2, b.3, cap, glyph_count_of(data))
}

/// The advance of glyph `g`, or zero when the face gives none.
pub open spec fn width_of_glyph(data: Seq<u8>, g: u16) -> u16 {
    match glyph_advance(data, g) {
        Some(w) => w,
        None => 0u16,
    }
}

/// Identifier of a registered font: its position in registration order.
#[derive(Clone, Copy, PartialEq, Eq, Debug, Hash, Structural)]
pub struct FontId(pub usize);

/// A registered font: the name it is used under, the file it came from and its bytes.
pub struct Font {
    pub name: String,
    pub path: String,
    pub raw_data: Vec<u8>,
}

/// The registered fonts, in registration order.
pub struct FontManager {
    fonts: Vec<Font>,
}

/// The position of the last font named `name` among `fonts`, if any.
pub open spec fn last_named(fonts: Seq<Font>, name: Seq<char>) -> Option<nat>
    decreases fonts.len(),
{
    if fonts.len() == 0 {
        None
    } else if fonts.last().name@ == name {
        Some((fonts.len() - 1) as nat)
    } else {
        last_named(fonts.drop_last(), name)
    }
}

/// The number that stands for character `c` in an encoded text: its glyph number (0 when the
/// face has none) when the font data parses, otherwise the character's code point.
pub open spec fn glyph_code(data: Seq<u8>, c: char) -> nat {
    if face_parses(data) {
        match glyph_of(data, c) {
            Some(g) => g as nat,
            None => 0,
        }
    } else {
        (c as u32) as nat
    }
}

/// The four-or-more uppercase hexadecimal digits of each character's glyph code.
pub open spec fn glyph_hex(data: Seq<u8>, text: Seq<char>) -> Seq<char>
    decreases text.len(),
{
    if text.len() == 0 {
        Seq::empty()
    } else {
        glyph_hex(data, text.drop_last()) + spec_hex_padded(glyph_code(data, text.last()), true, 4)
    }
}

/// A text as a hexadecimal string operand: `<`, the glyph codes, `>`.
pub open spec fn encoded_text(data: Seq<u8>, text: Seq<char>) -> Seq<char> {
    seq!['<'] + glyph_hex(data, text) + seq!['>']
}

/// Sum of the horizontal advances of the glyphs of `text` (a character without a glyph, or a
/// glyph without an advance, counts zero).
pub open spec fn advance_sum(data: Seq<u8>, text: Seq<char>) -> nat
    decreases text.len(),
{
    if text.len() == 0 {
        0
    } else {
        advance_sum(data, text.drop_last()) + match glyph_of(data, text.last()) {
            Some(g) => match glyph_advance(data, g) {
                Some(w) => w as nat,
                None => 0nat,
            },
            None => 0nat,
        }
    }
}

impl FontManager {
    /// The registered fonts, in registration order.
    pub closed spec fn fonts(&self) -> Seq<Font> {
        self.fonts@
    }

    /// No fonts registered.
    pub fn new() -> (r: Self)
        ensures
            r.fonts() == Seq::<Font>::empty(),
    {
        FontManager { fonts: Vec::new() }
    }

    /// Registers a font's bytes under `name` and returns its identifier. A later registration
    /// under the same name takes the name over.
    pub fn register_font(&mut self, name: &str, path: &str, raw_data: Vec<u8>) -> (r: FontId)
        ensures
            r.0 == old(self).fonts().len(),
            final(self).fonts().len() == old(self).fonts().len() + 1,
            final(self).fonts().drop_last() == old(self).fonts(),
            final(self).fonts().last().name@ == name@,
            final(self).fonts().last().path@ == path@,
            final(self).fonts().last().raw_data@ == raw_data@,
    {
        let id = FontId(self.fonts.len());
        self.fonts.push(Font { name: name.to_owned(), path: path.to_owned(), raw_data });
        proof {
            assert(self.fonts@.drop_last() =~= old(self).fonts@);
        }
        id
    }

    /// The identifier of the font last registered under `name`.
    pub fn get_font_id(&self, name: &str) -> (r: Option<FontId>)
        ensures
            r == (match last_named(self.fonts(), name@) {
                Some(i) => Some(FontId(i as usize)),
                None => None::<FontId>,
            }),
    {
        let mut k: usize = self.fonts.len();
        assert(self.fonts@.subrange(0, k as int) =~= self.fonts@);
        while k > 0
            invariant
                k <= self.fonts@.len(),
                last_named(self.fonts@, name@) == last_named(self.fonts@.subrange(0, k as int), name@),
            decreases k,
        {
            let ghost pre = self.fonts@.subrange(0, k as int);
            assert(pre.drop_last() =~= self.fonts@.subrange(0, k - 1));
            if string_eq(&self.fonts[k - 1].name, name) {
                return Some(FontId(k - 1));
            }
            k = k - 1;
        }
        None
    }

    /// Number of registered fonts.
    pub fn font_count(&self) -> (r: usize)
        ensures
            r == self.fonts().len(),
    {
        self.fonts.len()
    }

    /// The font with identifier `id`.
    pub fn get_font(&self, id: FontId) -> (r: &Font)
        requires
            id.0 < self.fonts().len(),
        ensures
            *r == self.fonts()[id.0 as int],
    {
        &self.fonts[id.0]
    }

    /// Encodes `text` as a hexadecimal string operand for the font's Type0 encoding: four
    /// (or more) uppercase hexadecimal digits per character, the glyph number when the font
    /// parses (0 for a character without a glyph), the code point otherwise.
    pub fn encode_text(&self, id: FontId, text: &str) -> (r: String)
        requires
            id.0 < self.fonts().len(),
        ensures
            r@ == encoded_text(self.fonts()[id.0 as int].raw_data@, text@),
    {
        let font = self.get_font(id);
        let data = font.raw_data.as_slice();
        let chars = chars_of(text);
        let glyphs = glyph_indices(data, text);
        let mut hex = String::new();
        push_char(&mut hex, '<');
        let mut k: usize = 0;
        while k < chars.len()
            invariant
                k <= chars@.len(),
                chars@ == text@,
                id.0 < self.fonts().len(),
                data@ == self.fonts()[id.0 as int].raw_data@,
                glyphs is Some <==> face_parses(data@),
                glyphs matches Some(v) ==> v@.len() == text@.len() && forall|i: int|
                    0 <= i < v@.len() ==> v@[i] == glyph_of(data@, #[trigger] text@[i]),
                hex@ == seq!['<'] + glyph_hex(data@, text@.subrange(0, k as int)),
            decreases chars@.len() - k,
        {
            let c = chars[k];
            let code: u128 = match &glyphs {
                Some(v) => {
                    assert(v@[k as int] == glyph_of(data@, text@[k as int]));
                    match v[k] {
                        Some(g) => g as u128,
                        None => 0,
                    }
                },
                None => {
                    (c as u32) as u128
                },
            };
            assert(code == glyph_code(data@, text@[k as int]));
            push_hex_padded(&mut hex, code, true, 4);
            assert(text@.subrange(0, k + 1).drop_last() =~= text@.subrange(0, k as int));
            k = k + 1;
        }
        push_char(&mut hex, '>');
        assert(text@.subrange(0, text@.len() as int) =~= text@);
        hex
    }

    /// Sum of the horizontal advances of the glyphs of `text`, in font units; `None` when
    /// the font's data does not parse.
    pub fn advance_units(&self, id: FontId, text: &str) -> (r: Option<u128>)
        requires
            id.0 < self.fonts().len(),
        ensures
            r is Some <==> face_parses(self.fonts()[id.0 as int].raw_data@),
            r matches Some(w) ==> w == advance_sum(self.fonts()[id.0 as int].raw_data@, text@),
    {
        let data = self.fonts[id.0].raw_data.as_slice();
        let glyphs = match glyph_indices(data, text) {
            Some(v) => v,
            None => {
                return None;
            },
        };
        let mut gids: Vec<u16> = Vec::new();
        let mut k: usize = 0;
        while k < glyphs.len()
            invariant
                k <= glyphs@.len(),
                gids@.len() == k,
                forall|i: int| 0 <= i < k ==> gids@[i] == match glyphs@[i] {
                    Some(g) => g,
                    None => 0u16,
                },
            decreases glyphs@.len() - k,
        {
            let g = match glyphs[k] {
                Some(g) => g,
                None => 0u16,
            };
            gids.push(g);
            k = k + 1;
        }
        let advances = match glyph_advances(data, gids.as_slice()) {
            Some(v) => v,
            None => {
                return None;
            },
        };
        let mut sum: u128 = 0;
        let mut i: usize = 0;
        while i < glyphs.len()
            invariant
                i <= glyphs@.len(),
                glyphs@.len() == text@.len(),
                gids@.len() == glyphs@.len(),
                advances@.len() == gids@.len(),
                forall|j: int| 0 <= j < glyphs@.len() ==> glyphs@[j] == glyph_of(data@, #[trigger] text@[j]),
                forall|j: int| 0 <= j < gids@.len() ==> gids@[j] == match glyphs@[j] {
                    Some(g) => g,
                    None => 0u16,
                },
                forall|j: int| 0 <= j < advances@.len() ==> advances@[j] == glyph_advance(data@, #[trigger] gids@[j]),
                sum == advance_sum(data@, text@.subrange(0, i as int)),
                sum <= 65535 * i,
            decreases glyphs@.len() - i,
        {
            let w: u128 = match glyphs[i] {
                Some(_) => match advances[i] {
                    Some(w) => w as u128,
                    None => 0,
                },
                None => 0,
            };
            assert(text@.subrange(0, i + 1).drop_last() =~= text@.subrange(0, i as int));
            assert(text@.subrange(0, i + 1).last() == text@[i as int]);
            assert(glyphs@[i as int] == glyph_of(data@, text@[i as int]));
            assert(advances@[i as int] == glyph_advance(data@, gids@[i as int]));
            assert(w == match glyph_of(data@, text@[i as int]) {
                Some(g) => match glyph_advance(data@, g) {
                    Some(w) => w as nat,
                    None => 0nat,
                },
                None => 0nat,
            });
            sum = sum + w;
            i = i + 1;
        }
        assert(text@.subrange(0, text@.len() as int) =~= text@);
        Some(sum)
    }

    /// Units per em, ascender and descender of the font, in font units; `None` when the
    /// font's data does not parse.
    pub fn vertical_metrics(&self, id: FontId) -> (r: Option<(u16, i16, i16)>)
        requires
            id.0 < self.fonts().len(),
        ensures
            r is Some <==> face_parses(self.fonts()[id.0 as int].raw_data@),
            r matches Some((u, a, d)) ==> u == units_per_em_of(self.fonts()[id.0 as int].raw_data@)
                && a == ascender_of(self.fonts()[id.0 as int].raw_data@)
                && d == descender_of(self.fonts()[id.0 as int].raw_data@),
    {
        face_vertical_metrics(self.fonts[id.0].raw_data.as_slice())
    }
}

impl FontManager {
    /// The descriptor numbers of the font in font units (see `descriptor_metrics_spec`);
    /// `None` when the font's data does not parse.
    pub fn descriptor_metrics(&self, id: FontId) -> (r: Option<(i16, i16, i16, i16, i16, u16)>)
        requires
            id.0 < self.fonts().len(),
        ensures
            r is Some <==> face_parses(self.fonts()[id.0 as int].raw_data@),
            r matches Some(m) ==> m == descriptor_metrics_spec(self.fonts()[id.0 as int].raw_data@),
    {
        let data = self.fonts[id.0].raw_data.as_slice();
        let (b, cap, n) = match face_descriptor_metrics(data) {
            Some(x) => x,
            None => {
                return None;
            },
        };
        let c = match cap {
            Some(c) => c,
            None => match face_vertical_metrics(data) {
                Some((_, a, _)) => a,
                None => {
                    return None;
                },
            },
        };
        Some((b.0, b.1, b.2, b.3, c, n))
    }

    /// The advance of every glyph of the font, in glyph order and font units (zero for a
    /// glyph without one); `None` when the font's data does not parse.
    pub fn glyph_widths(&self, id: FontId) -> (r: Option<Vec<u16>>)
        requires
            id.0 < self.fonts().len(),
        ensures
            r is Some <==> face_parses(self.fonts()[id.0 as int].raw_data@),
            r matches Some(v) ==> v@.len() == glyph_count_of(self.fonts()[id.0 as int].raw_data@)
                && forall|g: int| 0 <= g < v@.len() ==> #[trigger] v@[g]
                    == width_of_glyph(self.fonts()[id.0 as int].raw_data@, g as u16),
    {
        let data = self.fonts[id.0].raw_data.as_slice();
        let n = match face_descriptor_metrics(data) {
            Some((_, _, n)) => n,
            None => {
                return None;
            },
        };
        let mut gids: Vec<u16> = Vec::new();
        let mut g: u16 = 0;
        while g < n
            invariant
                g <= n,
                gids@.len() == g,
                forall|i: int| 0 <= i < g ==> gids@[i] == i as u16,
            decreases n - g,
        {
            gids.push(g);
            g = g + 1;
        }
        let advances = match glyph_advances(data, gids.as_slice()) {
            Some(v) => v,
            None => {
                return None;
            },
        };
        let mut widths: Vec<u16> = Vec::new();
        let mut k: usize = 0;
        while k < advances.len()
            invariant
                k <= advances@.len(),
                advances@.len() == gids@.len(),
                gids@.len() == n,
                n == glyph_count_of(data@),
                forall|i: int| 0 <= i < gids@.len() ==> gids@[i] == i as u16,
                forall|i: int| 0 <= i < advances@.len() ==> advances@[i] == glyph_advance(data@, #[trigger] gids@[i]),
                widths@.len() == k,
                forall|i: int| 0 <= i < k ==> #[trigger] widths@[i] == width_of_glyph(data@, i as u16),
            decreases advances@.len() - k,
        {
            let w = match advances[k] {
                Some(w) => w,
                None => 0u16,
            };
            assert(advances@[k as int] == glyph_advance(data@, gids@[k as int]));
            widths.push(w);
            k = k + 1;
        }
        Some(widths)
    }
}

impl Default for FontManager {
    fn default() -> (r: Self)
        ensures
            r.fonts() == Seq::<Font>::empty(),
    {
        FontManager::new()
    }
}

/// The numbers of an embedded font's descriptor and its glyph widths, already rendered as
/// text: the bounding box (four numbers separated by spaces), italic angle, ascent, descent,
/// cap height, and the widths as array items, each followed by a space. They are the numbers
/// of `vertical_metrics`, `descriptor_metrics` and `glyph_widths` scaled to 1000 units per
/// em, which takes floating-point arithmetic and is left to the caller.
pub struct FontNumbers {
    pub bbox: String,
    pub italic_angle: String,
    pub ascent: String,
    pub descent: String,
    pub cap_height: String,
    pub widths: String,
}

/// Why a font could not be embedded.
#[derive(Clone, Copy, PartialEq, Eq, Debug, Structural)]
pub enum FontError {
    /// The font's data does not parse as a TrueType face.
    InvalidFont,
}

/// Body of the font file stream object: the stream dictionary, the font bytes, the end.
#[verifier::opaque]
pub open spec fn font_file_body(data: Seq<u8>) -> Seq<u8> {
    bytes_of("<< /Length "@) + spec_decimal(data.len()) + bytes_of(" /Length1 "@)
        + spec_decimal(data.len()) + bytes_of(" >>\nstream\n"@) + data + bytes_of("\nendstream\n"@)
}

/// The font descriptor dictionary.
#[verifier::opaque]
pub open spec fn font_descriptor_dict(name: Seq<char>, n: FontNumbers, file_id: nat) -> Seq<u8> {
    bytes_of("<< /Type /FontDescriptor\n   /FontName /"@) + bytes_of(name)
        + bytes_of("\n   /Flags 32\n   /FontBBox ["@) + bytes_of(n.bbox@)
        + bytes_of("]\n   /ItalicAngle "@) + bytes_of(n.italic_angle@)
        + bytes_of("\n   /Ascent "@) + bytes_of(n.ascent@)
        + bytes_of("\n   /Descent "@) + bytes_of(n.descent@)
        + bytes_of("\n   /CapHeight "@) + bytes_of(n.cap_height@)
        + bytes_of("\n   /StemV 80\n   /FontFile2 "@) + spec_decimal(file_id) + bytes_of(" 0 R\n>>\n"@)
}

/// The CID font dictionary, with the glyph widths starting at glyph 0.
#[verifier::opaque]
pub open spec fn cid_font_dict(name: Seq<char>, descriptor_id: nat, widths: Seq<char>) -> Seq<u8> {
    bytes_of("<< /Type /Font\n   /Subtype /CIDFontType2\n   /BaseFont /"@) + bytes_of(name)
        + bytes_of("\n   /CIDSystemInfo << /Registry (Adobe) /Ordering (Identity) /Supplement 0 >>\n   /FontDescriptor "@)
        + spec_decimal(descriptor_id) + bytes_of(" 0 R\n   /W [ 0 [ "@) + bytes_of(widths)
        + bytes_of("] ]\n   /CIDToGIDMap /Identity\n>>\n"@)
}

/// The identity character map program.
pub open spec fn to_unicode_cmap() -> Seq<u8> {
    bytes_of("/CIDInit /ProcSet findresource begin\n12 dict begin\nbegincmap\n/CIDSystemInfo << /Registry (Adobe) /Ordering (UCS) /Supplement 0 >> def\n/CMapName /Adobe-Identity-UCS def\n/CMapType 2 def\n1 begincodespacerange\n<0000> <FFFF>\nendcodespacerange\nendcmap\nCMapName currentdict /CMap defineresource pop\nend\nend\n"@)
}

/// Body of the character map stream object.
#[verifier::opaque]
pub open spec fn to_unicode_body() -> Seq<u8> {
    bytes_of("<< /Length "@) + spec_decimal(to_unicode_cmap().len()) + bytes_of(" >>\nstream\n"@)
        + to_unicode_cmap() + bytes_of("\nendstream\n"@)
}

/// The Type0 font dictionary.
#[verifier::opaque]
pub open spec fn type0_dict(name: Seq<char>, cid_id: nat, to_unicode_id: nat) -> Seq<u8> {
    bytes_of("<< /Type /Font\n   /Subtype /Type0\n   /BaseFont /"@) + bytes_of(name)
        + bytes_of("\n   /Encoding /Identity-H\n   /DescendantFonts [ "@) + spec_decimal(cid_id)
        + bytes_of(" 0 R ]\n   /ToUnicode "@) + spec_decimal(to_unicode_id) + bytes_of(" 0 R\n>>\n"@)
}

/// Writer state after embedding a font: five new objects, numbered in the order font file,
/// CID font, descriptor, character map, Type0 font, and written in the order font file,
/// descriptor, CID font, character map, Type0 font.
pub open spec fn embed_font_model(m: WriterModel, name: Seq<char>, data: Seq<u8>, n: FontNumbers) -> WriterModel {
    font_objects_model(m.allocate().allocate().allocate().allocate().allocate(), m.next_id, name, data, n)
}

fn push_str_bytes(out: &mut Vec<u8>, s: &str)
    ensures
        final(out)@ == old(out)@ + bytes_of(s@),
{
    push_all(out, s.as_bytes());
}

fn push_decimal_bytes(out: &mut Vec<u8>, n: u64)
    ensures
        final(out)@ == old(out)@ + spec_decimal(n as nat),
{
    let d = decimal(n);
    push_all(out, d.as_slice());
}

fn write_object(writer: &mut PdfWriter, id: u32, body: &[u8])
    requires
        old(writer).wf(),
        0 < id < old(writer)@.next_id,
    ensures
        final(writer).wf(),
        final(writer)@ == old(writer)@.object(id, body@),
{
    writer.start_obj(id);
    writer.write_raw(body);
    writer.end_obj();
}

fn font_file_bytes(data: &[u8]) -> (b: Vec<u8>)
    ensures
        b@ == font_file_body(data@),
{
    reveal(font_file_body);
    let mut b: Vec<u8> = Vec::new();
    push_str_bytes(&mut b, "<< /Length ");
    push_decimal_bytes(&mut b, data.len() as u64);
    push_str_bytes(&mut b, " /Length1 ");
    push_decimal_bytes(&mut b, data.len() as u64);
    push_str_bytes(&mut b, " >>\nstream\n");
    push_all(&mut b, data);
    push_str_bytes(&mut b, "\nendstream\n");
    b
}

fn descriptor_bytes(name: &str, numbers: &FontNumbers, file_id: u32) -> (d: Vec<u8>)
    ensures
        d@ == font_descriptor_dict(name@, *numbers, file_id as nat),
{
    reveal(font_descriptor_dict);
    let mut d: Vec<u8> = Vec::new();
    push_str_bytes(&mut d, "<< /Type /FontDescriptor\n   /FontName /");
    push_str_bytes(&mut d, name);
    push_str_bytes(&mut d, "\n   /Flags 32\n   /FontBBox [");
    push_str_bytes(&mut d, numbers.bbox.as_str());
    push_str_bytes(&mut d, "]\n   /ItalicAngle ");
    push_str_bytes(&mut d, numbers.italic_angle.as_str());
    push_str_bytes(&mut d, "\n   /Ascent ");
    push_str_bytes(&mut d, numbers.ascent.as_str());
    push_str_bytes(&mut d, "\n   /Descent ");
    push_str_bytes(&mut d, numbers.descent.as_str());
    push_str_bytes(&mut d, "\n   /CapHeight ");
    push_str_bytes(&mut d, numbers.cap_height.as_str());
    push_str_bytes(&mut d, "\n   /StemV 80\n   /FontFile2 ");
    push_decimal_bytes(&mut d, file_id as u64);
    push_str_bytes(&mut d, " 0 R\n>>\n");
    d
}

fn cid_font_bytes(name: &str, descriptor_id: u32, widths: &str) -> (c: Vec<u8>)
    ensures
        c@ == cid_font_dict(name@, descriptor_id as nat, widths@),
{
    reveal(cid_font_dict);
    let mut c: Vec<u8> = Vec::new();
    push_str_bytes(&mut c, "<< /Type /Font\n   /Subtype /CIDFontType2\n   /BaseFont /");
    push_str_bytes(&mut c, name);
    push_str_bytes(&mut c, "\n   /CIDSystemInfo << /Registry (Adobe) /Ordering (Identity) /Supplement 0 >>\n   /FontDescriptor ");
    push_decimal_bytes(&mut c, descriptor_id as u64);
    push_str_bytes(&mut c, " 0 R\n   /W [ 0 [ ");
    push_str_bytes(&mut c, widths);
    push_str_bytes(&mut c, "] ]\n   /CIDToGIDMap /Identity\n>>\n");
    c
}

fn to_unicode_bytes() -> (u: Vec<u8>)
    ensures
        u@ == to_unicode_body(),
{
    reveal(to_unicode_body);
    let cmap = "/CIDInit /ProcSet findresource begin\n12 dict begin\nbegincmap\n/CIDSystemInfo << /Registry (Adobe) /Ordering (UCS) /Supplement 0 >> def\n/CMapName /Adobe-Identity-UCS def\n/CMapType 2 def\n1 begincodespacerange\n<0000> <FFFF>\nendcodespacerange\nendcmap\nCMapName currentdict /CMap defineresource pop\nend\nend\n";
    let cmap_bytes = cmap.as_bytes();
    let mut u: Vec<u8> = Vec::new();
    push_str_bytes(&mut u, "<< /Length ");
    push_decimal_bytes(&mut u, cmap_bytes.len() as u64);
    push_str_bytes(&mut u, " >>\nstream\n");
    push_all(&mut u, cmap_bytes);
    push_str_bytes(&mut u, "\nendstream\n");
    u
}

fn type0_bytes(name: &str, cid_id: u32, to_unicode_id: u32) -> (t: Vec<u8>)
    ensures
        t@ == type0_dict(name@, cid_id as nat, to_unicode_id as nat),
{
    reveal(type0_dict);
    let mut t: Vec<u8> = Vec::new();
    push_str_bytes(&mut t, "<< /Type /Font\n   /Subtype /Type0\n   /BaseFont /");
    push_str_bytes(&mut t, name);
    push_str_bytes(&mut t, "\n   /Encoding /Identity-H\n   /DescendantFonts [ ");
    push_decimal_bytes(&mut t, cid_id as u64);
    push_str_bytes(&mut t, " 0 R ]\n   /ToUnicode ");
    push_decimal_bytes(&mut t, to_unicode_id as u64);
    push_str_bytes(&mut t, " 0 R\n>>\n");
    t
}

fn alloc_five(writer: &mut PdfWriter) -> (id: u32)
    requires
        old(writer).wf(),
        old(writer)@.next_id + 5 < u32::MAX,
    ensures
        final(writer).wf(),
        id == old(writer)@.next_id,
        final(writer)@ == old(writer)@.allocate().allocate().allocate().allocate().allocate(),
{
    let id = writer.alloc_id();
    writer.alloc_id();
    writer.alloc_id();
    writer.alloc_id();
    writer.alloc_id();
    id
}

/// The objects of one font after the allocation of their five numbers.
#[verifier::opaque]
pub open spec fn font_objects_model(a: WriterModel, id: u32, name: Seq<char>, data: Seq<u8>, n: FontNumbers) -> WriterModel {
    a.object(id, font_file_body(data))
        .object((id + 2) as u32, font_descriptor_dict(name, n, (id as nat)))
        .object((id + 1) as u32, cid_font_dict(name, (id + 2) as nat, n.widths@))
        .object((id + 3) as u32, to_unicode_body())
        .object((id + 4) as u32, type0_dict(name, (id + 1) as nat, (id + 3) as nat))
}

fn write_font_objects(writer: &mut PdfWriter, id: u32, font: &Font, numbers: &FontNumbers)
    requires
        old(writer).wf(),
        0 < id,
        id + 4 < old(writer)@.next_id,
    ensures
        final(writer).wf(),
        final(writer)@ == font_objects_model(old(writer)@, id, font.name@, font.raw_data@, *numbers),
{
    reveal(font_objects_model);
    let name = font.name.as_str();
    let b = font_file_bytes(font.raw_data.as_slice());
    write_object(writer, id, b.as_slice());
    let d = descriptor_bytes(name, numbers, id);
    write_object(writer, id + 2, d.as_slice());
    let c = cid_font_bytes(name, id + 2, numbers.widths.as_str());
    write_object(writer, id + 1, c.as_slice());
    let u = to_unicode_bytes();
    write_object(writer, id + 3, u.as_slice());
    let t = type0_bytes(name, id + 1, id + 3);
    write_object(writer, id + 4, t.as_slice());
}

/// Writes the objects of a TrueType font (font file, descriptor, CID font, character map,
/// Type0 font) and returns the number of the Type0 font object. Fails, writing nothing,
/// when the font's data does not parse as a face.
pub fn embed_ttf(writer: &mut PdfWriter, font: &Font, numbers: &FontNumbers) -> (r: Result<u32, FontError>)
    requires
        old(writer).wf(),
        old(writer)@.next_id + 5 < u32::MAX,
    ensures
        final(writer).wf(),
        r is Ok <==> face_parses(font.raw_data@),
        r matches Ok(id) ==> id == old(writer)@.next_id + 4
            && final(writer)@ == embed_font_model(old(writer)@, font.name@, font.raw_data@, *numbers),
        r is Err ==> final(writer)@ == old(writer)@,
{
    if face_vertical_metrics(font.raw_data.as_slice()).is_none() {
        return Err(FontError::InvalidFont);
    }
    proof {
        writer.lemma_wf();
    }
    let id = alloc_five(writer);
    write_font_objects(writer, id, font, numbers);
    Ok(id + 4)
}
fn push_decimal_text(s: &mut String, n: u64)
    ensures
        final(s)@ == old(s)@ + ascii_chars(spec_decimal(n as nat)),
{
    let d = decimal(n);
    let mut k: usize = 0;
    while k < d.len()
        invariant
            k <= d@.len(),
            s@ == old(s)@ + ascii_chars(d@.subrange(0, k as int)),
        decreases d@.len() - k,
    {
        push_char(s, d[k] as char);
        k = k + 1;
        assert(ascii_chars(d@.subrange(0, k as int)) =~= ascii_chars(d@.subrange(0, k - 1)).push(d@[k - 1] as char));
    }
    assert(d@.subrange(0, d@.len() as int) == d@);
}

/// The resource entry of font `index` embedded as object `id`: `/F<index> <id> 0 R `.
pub open spec fn font_resource(index: nat, id: nat) -> Seq<char> {
    "/F"@ + ascii_chars(spec_decimal(index)) + " "@ + ascii_chars(spec_decimal(id)) + " 0 R "@
}

/// Writer state and font resources after embedding the first `k` fonts in order. The
/// resources are `None` from the first font whose data does not parse; the writer then keeps
/// what the fonts before it wrote.
pub open spec fn embed_fonts_model(m: WriterModel, fonts: Seq<Font>, nums: Seq<FontNumbers>, k: nat) -> (WriterModel, Option<Seq<char>>)
    decreases k,
{
    if k == 0 {
        (m, Some(Seq::empty()))
    } else {
        let (m1, res) = embed_fonts_model(m, fonts, nums, (k - 1) as nat);
        match res {
            None => (m1, None),
            Some(t) => {
                let f = fonts[k - 1];
                if face_parses(f.raw_data@) {
                    (
                        embed_font_model(m1, f.name@, f.raw_data@, nums[k - 1]),
                        Some(t + font_resource((k - 1) as nat, (m1.next_id + 4) as nat)),
                    )
                } else {
                    (m1, None)
                }
            },
        }
    }
}

proof fn lemma_embed_fonts_stays_none(m: WriterModel, fonts: Seq<Font>, nums: Seq<FontNumbers>, k: nat, n: nat)
    requires
        k <= n,
        embed_fonts_model(m, fonts, nums, k).1 is None,
    ensures
        embed_fonts_model(m, fonts, nums, n) == embed_fonts_model(m, fonts, nums, k),
    decreases n - k,
{
    if k < n {
        lemma_embed_fonts_stays_none(m, fonts, nums, k, (n - 1) as nat);
    }
}

proof fn lemma_embed_font_next(m: WriterModel, name: Seq<char>, data: Seq<u8>, n: FontNumbers)
    requires
        m.next_id + 5 <= u32::MAX,
    ensures
        embed_font_model(m, name, data, n).next_id == m.next_id + 5,
{
    reveal(font_objects_model);
}

impl FontManager {
    /// Embeds every registered font in registration order, with its rendered numbers, and
    /// returns the font resource entries (`/F<index> <object> 0 R ` each). Stops with an
    /// error at the first font whose data does not parse.
    pub fn embed_fonts(&self, writer: &mut PdfWriter, numbers: &[FontNumbers]) -> (r: Result<String, FontError>)
        requires
            old(writer).wf(),
            numbers@.len() == self.fonts().len(),
            old(writer)@.next_id + 5 * self.fonts().len() + 5 < u32::MAX,
        ensures
            final(writer).wf(),
            final(writer)@ == embed_fonts_model(old(writer)@, self.fonts(), numbers@, self.fonts().len()).0,
            match r {
                Ok(s) => embed_fonts_model(old(writer)@, self.fonts(), numbers@, self.fonts().len()).1 == Some(s@),
                Err(_) => embed_fonts_model(old(writer)@, self.fonts(), numbers@, self.fonts().len()).1 is None,
            },
    {
        let ghost m0 = writer@;
        let mut resources = String::new();
        let mut i: usize = 0;
        while i < self.fonts.len()
            invariant
                i <= self.fonts@.len(),
                numbers@.len() == self.fonts@.len(),
                writer.wf(),
                m0 == old(writer)@,
                m0.next_id + 5 * self.fonts@.len() + 5 < u32::MAX,
                embed_fonts_model(m0, self.fonts@, numbers@, i as nat) == (writer@, Some(resources@)),
                writer@.next_id == m0.next_id + 5 * i,
            decreases self.fonts@.len() - i,
        {
            let font = &self.fonts[i];
            let ghost before = resources@;
            let ghost wb = writer@;
            match embed_ttf(writer, font, &numbers[i]) {
                Ok(id) => {
                    push_str(&mut resources, "/F");
                    push_decimal_text(&mut resources, i as u64);
                    push_str(&mut resources, " ");
                    push_decimal_text(&mut resources, id as u64);
                    push_str(&mut resources, " 0 R ");
                    proof {
                        lemma_embed_font_next(wb, font.name@, font.raw_data@, numbers@[i as int]);
                        assert(resources@ =~= before + font_resource(i as nat, id as nat));
                    }
                },
                Err(e) => {
                    proof {
                        assert(embed_fonts_model(m0, self.fonts@, numbers@, (i + 1) as nat) == (wb, None::<Seq<char>>));
                        lemma_embed_fonts_stays_none(m0, self.fonts@, numbers@, (i + 1) as nat, self.fonts@.len());
                    }
                    return Err(e);
                },
            }
            i = i + 1;
        }
        Ok(resources)
    }
}

/// Looking a name up after registering a font under it gives that font; other names keep
/// the font they had.
pub proof fn lookup_after_register(fonts: Seq<Font>, f: Font, other: Seq<char>)
    ensures
        last_named(fonts.push(f), f.name@) == Some(fonts.len()),
        other != f.name@ ==> last_named(fonts.push(f), other) == last_named(fonts, other),
{
    assert(fonts.push(f).drop_last() =~= fonts);
}

} // verus!
