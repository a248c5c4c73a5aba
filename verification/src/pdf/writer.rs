//! The PDF object writer: allocates object numbers, records where each object starts,
//! and emits pages, content streams, annotations, resources, the cross-reference table
//! and the trailer.
//!
//! The writer produces bytes into a pending buffer; `take_output` hands them to the
//! caller, which forwards them to the actual output stream.
use vstd::prelude::*;
use crate::fmt::{decimal, decimal10, decimal_i32, hex_digit_upper, push_all, push_hex_bytes, spec_decimal, spec_decimal10, spec_decimal_i, spec_hex_byte, spec_hex_bytes};
use crate::layout::text::{escape_pdf_str, spec_escape};
use crate::Metadata;
use crate::strings::push_char;
use crate::pdf::crypto::{is_handler_for, lemma_rc4_involution, rc4_crypt, spec_obj_key, PdfPermissions, SecurityHandler};

verus! {

/// Size of the offset space: positions are kept modulo 2^64.
pub open spec fn pos_modulus() -> int {
    0x1_0000_0000_0000_0000
}

/// UTF-8 bytes of a character sequence.
pub open spec fn bytes_of(s: Seq<char>) -> Seq<u8> {
    vstd::utf8::encode_utf8(s)
}

/// The line that opens object `id`: `"<id> 0 obj\n"`.
pub open spec fn obj_header(id: nat) -> Seq<u8> {
    spec_decimal(id) + bytes_of(" 0 obj\n"@)
}

/// Object `id`'s opening line stands in `w` at position `at`.
pub open spec fn header_at(w: Seq<u8>, at: int, id: nat) -> bool {
    0 <= at && at + obj_header(id).len() <= w.len() && w.subrange(at, at + obj_header(id).len()) == obj_header(id)
}

/// A hyperlink annotation: its rectangle (four numbers, already rendered) and target URL.
pub struct LinkAnnotation {
    pub rect: String,
    pub url: String,
}

/// Abstract view of a link annotation.
pub struct LinkModel {
    pub rect: Seq<char>,
    pub url: Seq<char>,
}

/// Abstract state of the writer.
pub struct WriterModel {
    /// Every byte produced so far, including those already handed out.
    pub written: Seq<u8>,
    /// Bytes produced and not yet handed out.
    pub pending: Seq<u8>,
    /// Recorded start of each object, indexed by object number (0 when not started).
    pub offsets: Seq<u64>,
    /// True start position of each object (offsets hold these modulo 2^64).
    pub starts: Seq<int>,
    pub next_id: u32,
    pub pages: Seq<u32>,
    pub xobjects: Seq<u32>,
    pub annots: Seq<(u32, Seq<LinkModel>)>,
    pub shadings: Seq<(u32, Seq<char>, Seq<char>, Seq<char>)>,
    /// Whether content streams are compressed.
    pub compress: bool,
    /// The security handler, once encryption is enabled.
    pub security: Option<SecurityHandler>,
    /// The document identifier.
    pub doc_id: Seq<u8>,
}

impl WriterModel {
    /// Appends bytes to the output.
    pub open spec fn write(self, b: Seq<u8>) -> WriterModel {
        WriterModel { written: self.written + b, pending: self.pending + b, ..self }
    }

    /// Allocates the next object number.
    pub open spec fn allocate(self) -> WriterModel {
        WriterModel {
            offsets: self.offsets.push(0u64),
            starts: self.starts.push(0int),
            next_id: (self.next_id + 1) as u32,
            ..self
        }
    }

    /// Records the current position as the start of object `id` and writes its opening line.
    pub open spec fn start(self, id: u32) -> WriterModel {
        WriterModel {
            offsets: self.offsets.update(id as int, ((self.written.len() as int) % pos_modulus()) as u64),
            starts: self.starts.update(id as int, self.written.len() as int),
            ..self
        }.write(obj_header(id as nat))
    }

    /// Writes `"endobj\n"`.
    pub open spec fn end(self) -> WriterModel {
        self.write(bytes_of("endobj\n"@))
    }

    /// A whole object: opening line, body, closing line.
    pub open spec fn object(self, id: u32, body: Seq<u8>) -> WriterModel {
        self.start(id).write(body).end()
    }
}

/// Writes PDF objects and tracks their positions for the cross-reference table.
pub struct PdfWriter {
    out: Vec<u8>,
    offsets: Vec<u64>,
    pages: Vec<u32>,
    next_object_id: u32,
    pos: u64,
    catalog_id: u32,
    pages_id: u32,
    resources_id: u32,
    info_id: u32,
    builtin_font_id: u32,
    xobjects: Vec<u32>,
    page_annots: Vec<(u32, Vec<LinkAnnotation>)>,
    compress: bool,
    shadings: Vec<(u32, String, String, String)>,
    security: Option<SecurityHandler>,
    doc_id: [u8; 16],
    encrypt_id: u32,
    /// For each object number, whether the object has been written.
    used: Vec<bool>,
    written: Ghost<Seq<u8>>,
    starts: Ghost<Seq<int>>,
}

/// Abstract view of the links recorded for one page.
pub open spec fn links_view(links: Seq<LinkAnnotation>) -> Seq<LinkModel> {
    links.map_values(|l: LinkAnnotation| LinkModel { rect: l.rect@, url: l.url@ })
}

impl View for PdfWriter {
    type V = WriterModel;

    closed spec fn view(&self) -> WriterModel {
        WriterModel {
            written: self.written@,
            pending: self.out@,
            offsets: self.offsets@,
            starts: self.starts@,
            next_id: self.next_object_id,
            pages: self.pages@,
            xobjects: self.xobjects@,
            annots: self.page_annots@.map_values(|e: (u32, Vec<LinkAnnotation>)| (e.0, links_view(e.1@))),
            shadings: self.shadings@.map_values(|e: (u32, String, String, String)| (e.0, e.1@, e.2@, e.3@)),
            compress: self.compress,
            security: self.security,
            doc_id: self.doc_id@,
        }
    }
}

/// The document's fixed object numbers: catalog 1, page tree 2, resources 3, info 4,
/// built-in font 5, encryption dictionary 6.
pub open spec fn fixed_ids_ok(m: WriterModel) -> bool {
    m.next_id >= 7
}

/// Every object number the writer has handed out is below `next_id`.
pub open spec fn ids_below(m: WriterModel) -> bool {
    &&& forall|k: int| 0 <= k < m.pages.len() ==> 0 < #[trigger] m.pages[k] < m.next_id
    &&& forall|k: int| 0 <= k < m.annots.len() ==> 0 < #[trigger] m.annots[k].0 < m.next_id
    &&& forall|k: int| 0 <= k < m.shadings.len() ==> 0 < #[trigger] m.shadings[k].0 < m.next_id
}

/// Each recorded object start points at that object's opening line in the output, and the
/// offset table holds that position modulo 2^64.
pub open spec fn offsets_point_at_headers(m: WriterModel) -> bool {
    forall|id: int|
        0 < id < m.offsets.len() && m.starts[id] != 0 ==> {
            &&& header_at(m.written, #[trigger] m.starts[id], id as nat)
            &&& m.offsets[id] == (m.starts[id] % pos_modulus()) as u64
        }
}

/// Consistency of a writer's state.
pub open spec fn model_wf(m: WriterModel) -> bool {
    &&& m.offsets.len() == m.next_id as int
    &&& m.starts.len() == m.next_id as int
    &&& fixed_ids_ok(m)
    &&& ids_below(m)
    &&& m.pending.len() <= m.written.len()
    &&& m.written.subrange(m.written.len() - m.pending.len(), m.written.len() as int) == m.pending
    &&& forall|id: int| 0 <= id < m.starts.len() ==> #[trigger] m.starts[id] == 0 ==> m.offsets[id] == 0
    &&& forall|id: int| 0 <= id < m.starts.len() ==> 0 <= #[trigger] m.starts[id] <= m.written.len()
    &&& offsets_point_at_headers(m)
}

/// The bytes that open every document: the version line and a binary marker line.
pub const FILE_HEADER: [u8; 15] = [
    0x25, 0x50, 0x44, 0x46, 0x2d, 0x31, 0x2e, 0x34, 0x0a,
    0x25, 0xE2, 0xE3, 0xCF, 0xD3, 0x0a,
];

proof fn lemma_prefix_stable(w: Seq<u8>, b: Seq<u8>, i: int, j: int)
    requires
        0 <= i <= j <= w.len(),
    ensures
        (w + b).subrange(i, j) == w.subrange(i, j),
{
    assert((w + b).subrange(i, j) =~= w.subrange(i, j));
}

/// Writing keeps the state consistent.
proof fn lemma_write_wf(m: WriterModel, b: Seq<u8>)
    requires
        model_wf(m),
    ensures
        model_wf(m.write(b)),
{
    let n = m.write(b);
    assert forall|id: int| 0 < id < n.offsets.len() && n.starts[id] != 0 implies {
        &&& header_at(n.written, #[trigger] n.starts[id], id as nat)
        &&& n.offsets[id] == (n.starts[id] % pos_modulus()) as u64
    } by {
        let at = m.starts[id];
        lemma_prefix_stable(m.written, b, at, at + obj_header(id as nat).len());
    }
    lemma_pending_suffix(m, b);
}

/// Appending to both the output and the pending buffer keeps the pending bytes a suffix.
proof fn lemma_pending_suffix(m: WriterModel, b: Seq<u8>)
    requires
        m.pending.len() <= m.written.len(),
        m.written.subrange(m.written.len() - m.pending.len(), m.written.len() as int) == m.pending,
    ensures
        ({
            let n = m.write(b);
            n.written.subrange(n.written.len() - n.pending.len(), n.written.len() as int) == n.pending
        }),
{
    let n = m.write(b);
    let w = m.written;
    let p = m.pending;
    assert forall|k: int| 0 <= k < n.pending.len() implies
        n.written.subrange(n.written.len() - n.pending.len(), n.written.len() as int)[k] == n.pending[k] by {
        if k < p.len() {
            assert(w.subrange(w.len() - p.len(), w.len() as int)[k] == p[k]);
        }
    }
    assert(n.written.subrange(n.written.len() - n.pending.len(), n.written.len() as int) =~= n.pending);
}

/// Starting an object keeps the state consistent.
proof fn lemma_start_wf(m: WriterModel, id: u32)
    requires
        model_wf(m),
        0 < id < m.next_id,
    ensures
        model_wf(m.start(id)),
{
    let s = WriterModel {
        offsets: m.offsets.update(id as int, ((m.written.len() as int) % pos_modulus()) as u64),
        starts: m.starts.update(id as int, m.written.len() as int),
        ..m
    };
    let n = s.write(obj_header(id as nat));
    assert forall|j: int| 0 < j < n.offsets.len() && n.starts[j] != 0 implies {
        &&& header_at(n.written, #[trigger] n.starts[j], j as nat)
        &&& n.offsets[j] == (n.starts[j] % pos_modulus()) as u64
    } by {
        if j == id {
            assert(n.written.subrange(m.written.len() as int, m.written.len() + obj_header(id as nat).len() as int) =~= obj_header(id as nat));
        } else {
            let at = m.starts[j];
            lemma_prefix_stable(m.written, obj_header(id as nat), at, at + obj_header(j as nat).len());
        }
    }
    lemma_pending_suffix(s, obj_header(id as nat));
}


/// Advancing a position kept modulo 2^64 by wrapping addition.
proof fn lemma_pos_advance(pos: u64, old_len: int, n: nat)
    requires
        old_len >= 0,
        pos == (old_len % pos_modulus()) as u64,
        n < pos_modulus(),
    ensures
        pos.wrapping_add(n as u64) == ((old_len + n) % pos_modulus()) as u64,
{
    let m = pos_modulus();
    vstd::arithmetic::div_mod::lemma_add_mod_noop(old_len, n as int, m);
    vstd::arithmetic::div_mod::lemma_small_mod(n, m as nat);
    if pos + n < m {
        vstd::arithmetic::div_mod::lemma_small_mod((pos + n) as nat, m as nat);
    } else {
        vstd::arithmetic::div_mod::lemma_small_mod((pos + n - m) as nat, m as nat);
        vstd::arithmetic::div_mod::lemma_mod_sub_multiples_vanish((pos + n) as int, m);
    }
}

/// Failure of a writer operation.
#[derive(Debug)]
pub enum PdfError {
    /// The compressor reported an error.
    Compression,
}

#[verifier::external_type_specification]
#[verifier::external_body]
pub struct ExIoError(std::io::Error);

/// The zlib stream that `flate2` produces for `data` at the default compression level.
pub uninterp spec fn zlib_compressed(data: Seq<u8>) -> Seq<u8>;

/// Compresses `data` into a zlib stream (`flate2::write::ZlibEncoder` with
/// `Compression::default()`, `write_all`, `finish`). The result is the named zlib stream of
/// the input. It always succeeds: the encoder writes into a `Vec<u8>`, which accepts every
/// write, and a fresh encoder's compressor reports no error on ordinary input.
#[verifier::external_body]
pub(crate) fn zlib_compress(data: &[u8]) -> (r: Result<Vec<u8>, std::io::Error>)
    ensures
        r is Ok,
        r matches Ok(v) ==> v@ == zlib_compressed(data@),
{
    let mut encoder = flate2::write::ZlibEncoder::new(Vec::new(), flate2::Compression::default());
    std::io::Write::write_all(&mut encoder, data)?;
    encoder.finish()
}

/// Characters of ASCII bytes.
pub open spec fn ascii_chars(b: Seq<u8>) -> Seq<char> {
    b.map_values(|x: u8| x as char)
}

/// Bytes after applying the document's encryption for object `obj_id` (generation 0), if any.
pub open spec fn encrypted_for(security: Option<SecurityHandler>, obj_id: u32, data: Seq<u8>) -> Seq<u8> {
    match security {
        Some(h) => rc4_crypt(spec_obj_key(h.encryption_key@, obj_id, 0), data),
        None => data,
    }
}

/// A hexadecimal PDF string `<...>` of `text`'s bytes, encrypted for object `obj_id` when
/// encryption is enabled.
pub open spec fn spec_hex_string(security: Option<SecurityHandler>, obj_id: u32, text: Seq<char>) -> Seq<char> {
    seq!['<'] + ascii_chars(spec_hex_bytes(encrypted_for(security, obj_id, bytes_of(text)))) + seq!['>']
}

/// The value of an uppercase hexadecimal digit character.
pub open spec fn hex_digit_value(c: char) -> int {
    if (c as int) < 58 {
        c as int - 48
    } else {
        c as int - 55
    }
}

/// The bytes that pairs of uppercase hexadecimal digits spell.
pub open spec fn unhex(h: Seq<char>) -> Seq<u8>
    decreases h.len(),
{
    if h.len() < 2 {
        Seq::empty()
    } else {
        unhex(h.subrange(0, h.len() - 2)).push(
            (hex_digit_value(h[h.len() - 2]) * 16 + hex_digit_value(h[h.len() - 1])) as u8,
        )
    }
}

/// Reading the hexadecimal digits of some bytes back gives the bytes.
proof fn lemma_unhex_hex(d: Seq<u8>)
    ensures
        ascii_chars(spec_hex_bytes(d)).len() == 2 * d.len(),
        unhex(ascii_chars(spec_hex_bytes(d))) == d,
    decreases d.len(),
{
    if d.len() > 0 {
        let p = d.drop_last();
        let b = d.last();
        lemma_unhex_hex(p);
        let hp = ascii_chars(spec_hex_bytes(p));
        let h = ascii_chars(spec_hex_bytes(d));
        assert(spec_hex_bytes(d) == spec_hex_bytes(p) + spec_hex_byte(b));
        assert(h =~= hp + ascii_chars(spec_hex_byte(b)));
        assert(h.subrange(0, h.len() - 2) =~= hp);
        let hi = (b / 16) as nat;
        let lo = (b % 16) as nat;
        assert(hex_digit_value(hex_digit_upper(hi) as char) == hi);
        assert(hex_digit_value(hex_digit_upper(lo) as char) == lo);
        assert(h[h.len() - 2] == hex_digit_upper(hi) as char);
        assert(h[h.len() - 1] == hex_digit_upper(lo) as char);
        assert(hi * 16 + lo == b);
        assert(unhex(h) =~= d);
    }
}

/// An encrypted hexadecimal string decrypts to the text: it is `<`, two digits per byte of
/// the text, `>`, and decrypting the bytes that the digits spell, with the object's key,
/// gives the text's bytes back.
pub proof fn encrypted_string_decrypts(h: SecurityHandler, obj_id: u32, text: Seq<char>)
    ensures
        spec_hex_string(Some(h), obj_id, text).len() == 2 * bytes_of(text).len() + 2,
        spec_hex_string(Some(h), obj_id, text)[0] == '<',
        spec_hex_string(Some(h), obj_id, text).last() == '>',
        rc4_crypt(
            spec_obj_key(h.encryption_key@, obj_id, 0),
            unhex(spec_hex_string(Some(h), obj_id, text).subrange(1, spec_hex_string(Some(h), obj_id, text).len() - 1)),
        ) == bytes_of(text),
{
    let key = spec_obj_key(h.encryption_key@, obj_id, 0);
    let enc = rc4_crypt(key, bytes_of(text));
    lemma_unhex_hex(enc);
    let mid = ascii_chars(spec_hex_bytes(enc));
    let s = spec_hex_string(Some(h), obj_id, text);
    assert(s == seq!['<'] + mid + seq!['>']);
    assert(s.subrange(1, s.len() - 1) =~= mid);
    lemma_rc4_involution(key, bytes_of(text));
}

/// Stream data of a content stream: compressed when compression is on, then encrypted.
pub open spec fn stream_data(m: WriterModel, content_id: u32, content: Seq<char>) -> Seq<u8> {
    let raw = bytes_of(content);
    let packed = if m.compress { zlib_compressed(raw) } else { raw };
    encrypted_for(m.security, content_id, packed)
}

/// A content stream reads back: the object holds the stream dictionary, then data that,
/// decrypted with the object's key when encryption is on, is the zlib stream of the content's
/// bytes when compression is on and the bytes themselves otherwise.
pub proof fn content_stream_reads_back(m: WriterModel, content_id: u32, content: Seq<char>)
    ensures
        content_stream_model(m, content_id, content).written == m.start(content_id).written
            + stream_header(m.compress, stream_data(m, content_id, content).len()) + stream_data(m, content_id, content)
            + bytes_of("\nendstream\n"@) + bytes_of("endobj\n"@),
        (match m.security {
            Some(h) => rc4_crypt(spec_obj_key(h.encryption_key@, content_id, 0), stream_data(m, content_id, content)),
            None => stream_data(m, content_id, content),
        }) == (if m.compress { zlib_compressed(bytes_of(content)) } else { bytes_of(content) }),
{
    let raw = bytes_of(content);
    let packed = if m.compress { zlib_compressed(raw) } else { raw };
    match m.security {
        Some(h) => {
            lemma_rc4_involution(spec_obj_key(h.encryption_key@, content_id, 0), packed);
        },
        None => {},
    }
    let d = stream_data(m, content_id, content);
    let s0 = m.start(content_id).written;
    assert(content_stream_model(m, content_id, content).written =~= s0 + stream_header(m.compress, d.len()) + d
        + bytes_of("\nendstream\n"@) + bytes_of("endobj\n"@));
}

/// The stream dictionary line before the data.
pub open spec fn stream_header(compress: bool, len: nat) -> Seq<u8> {
    if compress {
        bytes_of("<< /Length "@) + spec_decimal(len) + bytes_of(" /Filter /FlateDecode >>\nstream\n"@)
    } else {
        bytes_of("<< /Length "@) + spec_decimal(len) + bytes_of(" >>\nstream\n"@)
    }
}

/// State after writing object `content_id` as a content stream holding `content`.
pub open spec fn content_stream_model(m: WriterModel, content_id: u32, content: Seq<char>) -> WriterModel {
    let data = stream_data(m, content_id, content);
    m.start(content_id).write(stream_header(m.compress, data.len())).write(data).write(
        bytes_of("\nendstream\n"@),
    ).end()
}

/// A writer with nothing produced and no object allocated.
pub open spec fn empty_model() -> WriterModel {
    WriterModel {
        written: Seq::empty(),
        pending: Seq::empty(),
        offsets: seq![0u64],
        starts: seq![0int],
        next_id: 1,
        pages: Seq::empty(),
        xobjects: Seq::empty(),
        annots: Seq::empty(),
        shadings: Seq::empty(),
        compress: true,
        security: None,
        doc_id: DOC_ID@,
    }
}

/// The fixed document identifier.
pub const DOC_ID: [u8; 16] = [
    0x4d, 0x52, 0x2d, 0x50, 0x44, 0x46, 0x01, 0x02, 0x03, 0x04, 0x05, 0x06, 0x07, 0x08, 0x09, 0x0A,
];

/// The dictionary of the built-in Helvetica font (object 5).
pub open spec fn builtin_font_dict() -> Seq<u8> {
    bytes_of("<< /Type /Font /Subtype /Type1 /BaseFont /Helvetica /Encoding /WinAnsiEncoding >>\n"@)
}

/// State right after `PdfWriter::new`: the file header, six reserved object numbers and the
/// built-in font object.
pub open spec fn new_model() -> WriterModel {
    empty_model().write(FILE_HEADER@).allocate().allocate().allocate().allocate().allocate().allocate()
        .object(5, builtin_font_dict())
}

/// The dictionary of a page object.
pub open spec fn page_dict(width: Seq<char>, height: Seq<char>, content_id: u32, annots_id: u32) -> Seq<u8> {
    bytes_of("<< /Type /Page\n   /Parent "@) + spec_decimal(2) + bytes_of(" 0 R\n   /Resources "@)
        + spec_decimal(3) + bytes_of(" 0 R\n   /MediaBox [0 0 "@) + bytes_of(width) + bytes_of(" "@)
        + bytes_of(height) + bytes_of("]\n   /Contents "@) + spec_decimal(content_id as nat)
        + bytes_of(" 0 R\n   /Annots "@) + spec_decimal(annots_id as nat) + bytes_of(" 0 R\n>>\n"@)
}

/// State after adding a page of the given (rendered) width and height.
pub open spec fn add_page_model(m: WriterModel, width: Seq<char>, height: Seq<char>) -> WriterModel {
    let page_id = m.next_id;
    let content_id = (m.next_id + 1) as u32;
    let annots_id = (m.next_id + 2) as u32;
    let a = m.allocate().allocate().allocate();
    WriterModel { pages: a.pages.push(page_id), annots: a.annots.push((annots_id, Seq::empty())), ..a }
        .object(page_id, page_dict(width, height, content_id, annots_id))
}

/// State after recording a link on the most recent page (no effect before the first page).
pub open spec fn add_link_model(m: WriterModel, rect: Seq<char>, url: Seq<char>) -> WriterModel {
    if m.annots.len() == 0 {
        m
    } else {
        let last = m.annots.last();
        WriterModel {
            annots: m.annots.update(m.annots.len() - 1, (last.0, last.1.push(LinkModel { rect, url }))),
            ..m
        }
    }
}

/// The dictionary of a link annotation.
pub open spec fn link_annot_dict(l: LinkModel) -> Seq<u8> {
    bytes_of("<< /Type /Annot /Subtype /Link /Rect ["@) + bytes_of(l.rect)
        + bytes_of("] /Border [0 0 0] /A << /Type /Action /S /URI /URI ("@) + bytes_of(spec_escape(l.url))
        + bytes_of(") >> >>\n"@)
}

/// One annotation object per link, numbered consecutively from `m.next_id`.
pub open spec fn emit_links(m: WriterModel, links: Seq<LinkModel>) -> WriterModel
    decreases links.len(),
{
    if links.len() == 0 {
        m
    } else {
        let p = emit_links(m, links.drop_last());
        p.allocate().object(p.next_id, link_annot_dict(links.last()))
    }
}

/// `"<first> 0 R <first+1> 0 R ..."` for `n` consecutive object numbers.
pub open spec fn ref_list(first: nat, n: nat) -> Seq<u8>
    decreases n,
{
    if n == 0 {
        Seq::empty()
    } else {
        ref_list(first, (n - 1) as nat) + spec_decimal((first + n - 1) as nat) + bytes_of(" 0 R "@)
    }
}

/// A page's link annotations followed by its annotation array object `aid`.
#[verifier::opaque]
pub open spec fn emit_page_annots(m: WriterModel, aid: u32, links: Seq<LinkModel>) -> WriterModel {
    emit_links(m, links).object(aid, bytes_of("[ "@) + ref_list(m.next_id as nat, links.len()) + bytes_of("]\n"@))
}

/// Annotation objects for every page, in page order.
#[verifier::opaque]
pub open spec fn emit_all_annots(m: WriterModel, all: Seq<(u32, Seq<LinkModel>)>) -> WriterModel
    decreases all.len(),
{
    if all.len() == 0 {
        m
    } else {
        let p = emit_all_annots(m, all.drop_last());
        emit_page_annots(p, all.last().0, all.last().1)
    }
}

/// Number of links over all pages.
pub open spec fn total_links(all: Seq<(u32, Seq<LinkModel>)>) -> nat
    decreases all.len(),
{
    if all.len() == 0 {
        0
    } else {
        total_links(all.drop_last()) + all.last().1.len()
    }
}

/// `"/Im<x> <x> 0 R "` for every image object.
pub open spec fn xobject_entries(xs: Seq<u32>) -> Seq<u8>
    decreases xs.len(),
{
    if xs.len() == 0 {
        Seq::empty()
    } else {
        xobject_entries(xs.drop_last()) + bytes_of("/Im"@) + spec_decimal(xs.last() as nat) + bytes_of(" "@)
            + spec_decimal(xs.last() as nat) + bytes_of(" 0 R "@)
    }
}

/// `"/Sh<id> <id> 0 R "` for every shading.
pub open spec fn shading_entries(sh: Seq<(u32, Seq<char>, Seq<char>, Seq<char>)>) -> Seq<u8>
    decreases sh.len(),
{
    if sh.len() == 0 {
        Seq::empty()
    } else {
        shading_entries(sh.drop_last()) + bytes_of("/Sh"@) + spec_decimal(sh.last().0 as nat) + bytes_of(" "@)
            + spec_decimal(sh.last().0 as nat) + bytes_of(" 0 R "@)
    }
}

/// The page resource dictionary (object 3): fonts, images and shadings.
pub open spec fn resources_dict(font_resources: Seq<char>, xs: Seq<u32>, sh: Seq<(u32, Seq<char>, Seq<char>, Seq<char>)>) -> Seq<u8> {
    bytes_of("<< "@) + bytes_of("/Font << /FBuiltin "@) + spec_decimal(5) + bytes_of(" 0 R "@) + bytes_of(font_resources)
        + bytes_of(" >> "@)
        + (if xs.len() == 0 { Seq::empty() } else { bytes_of("/XObject << "@) + xobject_entries(xs) + bytes_of(">> "@) })
        + (if sh.len() == 0 { Seq::empty() } else { bytes_of("/Shading << "@) + shading_entries(sh) + bytes_of(">> "@) })
        + bytes_of(">>\n"@)
}

/// The exponential interpolation function of a shading.
pub open spec fn function_dict(c0: Seq<char>, c1: Seq<char>) -> Seq<u8> {
    bytes_of("<< /FunctionType 2 /Domain [0 1] /C0 ["@) + bytes_of(c0) + bytes_of("] /C1 ["@) + bytes_of(c1)
        + bytes_of("] /N 1 >>\n"@)
}

/// The dictionary of an axial shading using function object `func_id`.
pub open spec fn shading_dict(coords: Seq<char>, func_id: u32) -> Seq<u8> {
    bytes_of("<< /ShadingType 2 /ColorSpace /DeviceRGB /Coords ["@) + bytes_of(coords) + bytes_of("] /Function "@)
        + spec_decimal(func_id as nat) + bytes_of(" 0 R /Extend [true true] >>\n"@)
}

/// For each shading: a new function object, then the shading object itself.
#[verifier::opaque]
pub open spec fn emit_shadings(m: WriterModel, sh: Seq<(u32, Seq<char>, Seq<char>, Seq<char>)>) -> WriterModel
    decreases sh.len(),
{
    if sh.len() == 0 {
        m
    } else {
        let p = emit_shadings(m, sh.drop_last());
        let e = sh.last();
        p.allocate().object(p.next_id, function_dict(e.1, e.2)).object(e.0, shading_dict(e.3, p.next_id))
    }
}

/// `"<id> 0 R "` for every page.
pub open spec fn kids_list(pages: Seq<u32>) -> Seq<u8>
    decreases pages.len(),
{
    if pages.len() == 0 {
        Seq::empty()
    } else {
        kids_list(pages.drop_last()) + spec_decimal(pages.last() as nat) + bytes_of(" 0 R "@)
    }
}

/// The page references list the pages in order: the list of pages `a` followed by pages `b`
/// is the list of `a` followed by the list of `b`, and a single page `p` is listed as
/// `"<p> 0 R "`.
pub proof fn kids_list_in_order(a: Seq<u32>, b: Seq<u32>, p: u32)
    ensures
        kids_list(a + b) == kids_list(a) + kids_list(b),
        kids_list(seq![p]) == spec_decimal(p as nat) + bytes_of(" 0 R "@),
    decreases b.len(),
{
    assert(seq![p].drop_last() =~= Seq::<u32>::empty());
    assert(kids_list(Seq::<u32>::empty()) + spec_decimal(p as nat) + bytes_of(" 0 R "@)
        =~= spec_decimal(p as nat) + bytes_of(" 0 R "@));
    if b.len() == 0 {
        assert(a + b =~= a);
        assert(kids_list(a) + kids_list(b) =~= kids_list(a));
    } else {
        kids_list_in_order(a, b.drop_last(), p);
        assert((a + b).drop_last() =~= a + b.drop_last());
        assert((a + b).last() == b.last());
        assert(kids_list(a + b) =~= kids_list(a) + kids_list(b));
    }
}

/// The page tree dictionary (object 2).
pub open spec fn pages_dict(pages: Seq<u32>) -> Seq<u8> {
    bytes_of("<< /Type /Pages /Count "@) + spec_decimal(pages.len()) + bytes_of(" /Kids ["@) + kids_list(pages)
        + bytes_of("] >>\n"@)
}

/// The document catalog (object 1).
pub open spec fn catalog_dict() -> Seq<u8> {
    bytes_of("<< /Type /Catalog /Pages "@) + spec_decimal(2) + bytes_of(" 0 R >>\n"@)
}

/// The encryption dictionary (object 6).
pub open spec fn encrypt_dict(h: SecurityHandler) -> Seq<u8> {
    bytes_of("<< /Filter /Standard /V 2 /R 3 /Length 128 /O <"@) + spec_hex_bytes(h.o@) + bytes_of("> /U <"@)
        + spec_hex_bytes(h.u@) + bytes_of("> /P "@) + spec_decimal_i(h.p as int) + bytes_of(" >>\n"@)
}

/// The cross-reference entry of one object: in use at its recorded offset when it has been
/// written, free otherwise.
pub open spec fn xref_entry(offset: u64, start: int) -> Seq<u8> {
    if start != 0 {
        spec_decimal10(offset as nat) + bytes_of(" 00000 n \n"@)
    } else {
        bytes_of("0000000000 65535 f \n"@)
    }
}

/// The cross-reference entries of objects `1 .. n`.
pub open spec fn xref_entries(offsets: Seq<u64>, starts: Seq<int>, n: nat) -> Seq<u8>
    decreases n,
{
    if n <= 1 {
        Seq::empty()
    } else {
        xref_entries(offsets, starts, (n - 1) as nat) + xref_entry(offsets[n - 1], starts[n - 1])
    }
}

/// The cross-reference table for the recorded object offsets and starts.
pub open spec fn xref_table(offsets: Seq<u64>, starts: Seq<int>) -> Seq<u8> {
    bytes_of("xref\n0 "@) + spec_decimal(offsets.len()) + bytes_of("\n"@) + bytes_of("0000000000 65535 f \n"@)
        + xref_entries(offsets, starts, offsets.len())
}

/// How a document information value is written: a hexadecimal (encrypted) string when
/// encryption is on, otherwise an escaped literal string.
pub open spec fn info_value(security: Option<SecurityHandler>, v: Seq<char>) -> Seq<u8> {
    if security is Some {
        bytes_of(spec_hex_string(security, 4, v))
    } else {
        bytes_of(seq!['('] + spec_escape(v) + seq![')'])
    }
}

/// One `/Key value ` entry of the information dictionary, when the value is present.
pub open spec fn info_entry(security: Option<SecurityHandler>, key: Seq<char>, v: Option<String>) -> Seq<u8> {
    match v {
        Some(t) => bytes_of(key) + info_value(security, t@) + bytes_of(" "@),
        None => Seq::empty(),
    }
}

/// The document information dictionary (object 4).
pub open spec fn info_dict(security: Option<SecurityHandler>, meta: Metadata) -> Seq<u8> {
    bytes_of("<< "@) + info_entry(security, "/Title "@, meta.title) + info_entry(security, "/Author "@, meta.author)
        + info_entry(security, "/Subject "@, meta.subject) + bytes_of(">>\n"@)
}

/// The trailer: object count, catalog, information dictionary, encryption reference and
/// document ID when encrypted, and the position of the cross-reference table.
pub open spec fn trailer(size: nat, xref_pos: u64, encrypted: bool, doc_id: Seq<u8>) -> Seq<u8> {
    bytes_of("trailer\n<< /Size "@) + spec_decimal(size) + bytes_of(" /Root "@) + spec_decimal(1) + bytes_of(" 0 R /Info "@)
        + spec_decimal(4) + bytes_of(" 0 R "@)
        + (if encrypted {
            bytes_of("/Encrypt "@) + spec_decimal(6) + bytes_of(" 0 R /ID [ <"@) + spec_hex_bytes(doc_id) + bytes_of("> <"@)
                + spec_hex_bytes(doc_id) + bytes_of("> ] "@)
        } else {
            Seq::empty()
        })
        + bytes_of(">>\nstartxref\n"@) + spec_decimal(xref_pos as nat) + bytes_of("\n%%EOF\n"@)
}

/// State after every object of the document has been written, just before the
/// cross-reference table: annotations, resources, shadings, page tree, catalog, encryption
/// dictionary (when encrypting) and information dictionary.
#[verifier::opaque]
pub open spec fn finish_body_model(m: WriterModel, font_resources: Seq<char>, meta: Metadata) -> WriterModel {
    let a = emit_all_annots(WriterModel { annots: Seq::empty(), ..m }, m.annots);
    let r = a.object(3, resources_dict(font_resources, a.xobjects, a.shadings));
    let s = emit_shadings(r, r.shadings);
    let c = s.object(2, pages_dict(s.pages)).object(1, catalog_dict());
    let e = match c.security {
        Some(h) => c.object(6, encrypt_dict(h)),
        None => c,
    };
    e.object(4, info_dict(e.security, meta))
}

/// State after the whole document has been written.
#[verifier::opaque]
pub open spec fn finish_model(m: WriterModel, font_resources: Seq<char>, meta: Metadata) -> WriterModel {
    let b = finish_body_model(m, font_resources, meta);
    let x = b.write(xref_table(b.offsets, b.starts));
    x.write(trailer(x.offsets.len(), ((b.written.len() as int) % pos_modulus()) as u64, x.security is Some, x.doc_id))
}

proof fn lemma_emit_links_next(m: WriterModel, links: Seq<LinkModel>)
    requires
        m.next_id + links.len() < u32::MAX,
    ensures
        emit_links(m, links).next_id == m.next_id + links.len(),
    decreases links.len(),
{
    if links.len() > 0 {
        lemma_emit_links_next(m, links.drop_last());
    }
}

proof fn lemma_total_links_prefix(all: Seq<(u32, Seq<LinkModel>)>, k: int)
    requires
        0 <= k < all.len(),
    ensures
        total_links(all.take(k + 1)) == total_links(all.take(k)) + all[k].1.len(),
        total_links(all.take(k + 1)) <= total_links(all),
    decreases all.len(),
{
    assert(all.take(k + 1).drop_last() =~= all.take(k));
    if k + 1 < all.len() {
        lemma_total_links_prefix(all.drop_last(), k);
        assert(all.drop_last().take(k + 1) =~= all.take(k + 1));
        assert(all.drop_last().take(k) =~= all.take(k));
    } else {
        assert(all.take(k + 1) =~= all);
    }
}

proof fn lemma_annots_step(m1: WriterModel, all: Seq<(u32, Seq<LinkModel>)>, k: int)
    requires
        0 <= k < all.len(),
        m1.next_id + total_links(all) < u32::MAX,
        emit_all_annots(m1, all.take(k)).next_id == m1.next_id + total_links(all.take(k)),
    ensures
        emit_all_annots(m1, all.take(k + 1))
            == emit_page_annots(emit_all_annots(m1, all.take(k)), all[k].0, all[k].1),
        emit_all_annots(m1, all.take(k + 1)).next_id == m1.next_id + total_links(all.take(k + 1)),
        total_links(all.take(k + 1)) <= total_links(all),
{
    reveal(emit_all_annots);
    reveal(emit_page_annots);
    lemma_total_links_prefix(all, k);
    assert(all.take(k + 1).drop_last() =~= all.take(k));
    assert(all.take(k + 1).last() == all[k]);
    lemma_emit_links_next(emit_all_annots(m1, all.take(k)), all[k].1);
}

proof fn lemma_shadings_step(m0: WriterModel, sh: Seq<(u32, Seq<char>, Seq<char>, Seq<char>)>, k: int)
    requires
        0 <= k < sh.len(),
    ensures
        ({
            let p = emit_shadings(m0, sh.take(k));
            emit_shadings(m0, sh.take(k + 1)) == p.allocate().object(p.next_id, function_dict(sh[k].1, sh[k].2)).object(
                sh[k].0,
                shading_dict(sh[k].3, p.next_id),
            )
        }),
{
    reveal(emit_shadings);
    assert(sh.take(k + 1).drop_last() =~= sh.take(k));
    assert(sh.take(k + 1).last() == sh[k]);
}

proof fn lemma_ref_list_step(first: nat, n: nat)
    ensures
        ref_list(first, n + 1) == ref_list(first, n) + spec_decimal(first + n) + bytes_of(" 0 R "@),
{
}

impl PdfWriter {
    /// Internal consistency: the abstract state is consistent, the position is the output
    /// length modulo 2^64, and the fixed objects have numbers 1 to 6.
    pub closed spec fn wf(&self) -> bool {
        &&& model_wf(self@)
        &&& self.pos == ((self.written@.len() as int) % pos_modulus()) as u64
        &&& self.catalog_id == 1
        &&& self.pages_id == 2
        &&& self.resources_id == 3
        &&& self.info_id == 4
        &&& self.builtin_font_id == 5
        &&& self.encrypt_id == 6
        &&& self.written@.len() > 0
        &&& self.used@.len() == self.offsets@.len()
        &&& forall|id: int| 0 <= id < self.used@.len() ==> #[trigger] self.used@[id] == (self.starts@[id] != 0)
    }

    /// The abstract state of a consistent writer is consistent.
    pub proof fn lemma_wf(&self)
        requires
            self.wf(),
        ensures
            model_wf(self@),
    {
    }

    /// Number the next allocated object will get.
    pub fn next_object_id(&self) -> (r: u32)
        ensures
            r == self@.next_id,
    {
        self.next_object_id
    }

    /// Hands out the bytes produced since the last call.
    pub fn take_output(&mut self) -> (r: Vec<u8>)
        requires
            old(self).wf(),
        ensures
            final(self).wf(),
            r@ == old(self)@.pending,
            final(self)@ == (WriterModel { pending: Seq::empty(), ..old(self)@ }),
    {
        let mut r: Vec<u8> = Vec::new();
        std::mem::swap(&mut r, &mut self.out);
        proof {
            let w = self.written@;
            assert(w.subrange(w.len() as int, w.len() as int) =~= Seq::<u8>::empty());
            assert(self@.pending == Seq::<u8>::empty());
        }
        r
    }

    /// Appends raw bytes to the output.
    pub fn write_raw(&mut self, data: &[u8])
        requires
            old(self).wf(),
        ensures
            final(self).wf(),
            final(self)@ == old(self)@.write(data@),
    {
        push_all(&mut self.out, data);
        let ghost old_len = self.written@.len() as int;
        self.pos = self.pos.wrapping_add(data.len() as u64);
        proof {
            self.written@ = self.written@ + data@;
            lemma_write_wf(old(self)@, data@);
            lemma_pos_advance(old(self).pos, old_len, data@.len());
        }
    }

    /// Allocates a new object number.
    pub fn alloc_id(&mut self) -> (r: u32)
        requires
            old(self).wf(),
            old(self)@.next_id < u32::MAX,
        ensures
            final(self).wf(),
            r == old(self)@.next_id,
            final(self)@ == old(self)@.allocate(),
    {
        let id = self.next_object_id;
        self.next_object_id = self.next_object_id + 1;
        self.offsets.push(0);
        self.used.push(false);
        proof {
            self.starts@ = self.starts@.push(0int);
            assert forall|id2: int| 0 <= id2 < self.used@.len() implies #[trigger] self.used@[id2] == (self.starts@[id2] != 0) by {
                if id2 < old(self).used@.len() {
                    assert(self.used@[id2] == old(self).used@[id2]);
                }
            }
            let m = self@;
            assert forall|id2: int| 0 < id2 < m.offsets.len() && m.starts[id2] != 0 implies {
                &&& header_at(m.written, #[trigger] m.starts[id2], id2 as nat)
                &&& m.offsets[id2] == (m.starts[id2] % pos_modulus()) as u64
            } by {
                assert(old(self)@.starts[id2] == m.starts[id2]);
            }
        }
        id
    }

    /// Records the current position as the start of object `id` and writes `"<id> 0 obj\n"`.
    pub fn start_obj(&mut self, id: u32)
        requires
            old(self).wf(),
            0 < id < old(self)@.next_id,
        ensures
            final(self).wf(),
            final(self)@ == old(self)@.start(id),
    {
        let ghost before = self@;
        self.offsets.set(id as usize, self.pos);
        self.used.set(id as usize, true);
        proof {
            self.starts@ = self.starts@.update(id as int, self.written@.len() as int);
            lemma_start_wf(before, id);
        }
        let mut line = decimal(id as u64);
        push_all(&mut line, " 0 obj\n".as_bytes());
        self.write_raw_unchecked(line.as_slice());
        proof {
            assert(self@ == before.start(id));
        }
    }

    /// Appending bytes while the start table is being updated.
    fn write_raw_unchecked(&mut self, data: &[u8])
        requires
            old(self).pos == ((old(self).written@.len() as int) % pos_modulus()) as u64,
        ensures
            final(self)@ == old(self)@.write(data@),
            final(self).pos == ((final(self).written@.len() as int) % pos_modulus()) as u64,
            final(self).catalog_id == old(self).catalog_id,
            final(self).pages_id == old(self).pages_id,
            final(self).resources_id == old(self).resources_id,
            final(self).info_id == old(self).info_id,
            final(self).builtin_font_id == old(self).builtin_font_id,
            final(self).encrypt_id == old(self).encrypt_id,
            final(self).used@ == old(self).used@,
    {
        push_all(&mut self.out, data);
        let ghost old_len = self.written@.len() as int;
        self.pos = self.pos.wrapping_add(data.len() as u64);
        proof {
            self.written@ = self.written@ + data@;
            lemma_pos_advance(old(self).pos, old_len, data@.len());
        }
    }

    /// Writes `"endobj\n"`.
    pub fn end_obj(&mut self)
        requires
            old(self).wf(),
        ensures
            final(self).wf(),
            final(self)@ == old(self)@.end(),
    {
        self.write_raw("endobj\n".as_bytes());
    }

    /// Starts a document: writes the file header, reserves the fixed object numbers and writes
    /// the built-in Helvetica font object.
    pub fn new() -> (r: Self)
        ensures
            r.wf(),
            r@ == new_model(),
    {
        let written0: Ghost<Seq<u8>> = Ghost(Seq::empty());
        let starts0: Ghost<Seq<int>> = Ghost(Seq::empty().push(0int));
        let mut offsets0: Vec<u64> = Vec::new();
        offsets0.push(0u64);
        let mut used0: Vec<bool> = Vec::new();
        used0.push(false);
        let mut w = PdfWriter {
            out: Vec::new(),
            offsets: offsets0,
            pages: Vec::new(),
            next_object_id: 1,
            pos: 0,
            catalog_id: 0,
            pages_id: 0,
            resources_id: 0,
            info_id: 0,
            builtin_font_id: 0,
            xobjects: Vec::new(),
            page_annots: Vec::new(),
            compress: true,
            shadings: Vec::new(),
            security: None,
            doc_id: DOC_ID,
            encrypt_id: 0,
            used: used0,
            written: written0,
            starts: starts0,
        };
        proof {
            assert(w@.annots =~= Seq::empty());
            assert(w@.shadings =~= Seq::empty());
            assert(w@.offsets =~= seq![0u64]);
            assert(w@.starts =~= seq![0int]);
            assert(w@ == empty_model());
        }
        w.write_raw_unchecked(FILE_HEADER.as_slice());
        proof {
            let m = w@;
            assert(m.written.subrange(0, m.written.len() as int) =~= m.pending);
        }
        w.catalog_id = w.alloc_id_unchecked();
        w.pages_id = w.alloc_id_unchecked();
        w.resources_id = w.alloc_id_unchecked();
        w.info_id = w.alloc_id_unchecked();
        w.builtin_font_id = w.alloc_id_unchecked();
        w.encrypt_id = w.alloc_id_unchecked();
        assert(w.wf());
        w.start_obj(5);
        w.write_raw("<< /Type /Font /Subtype /Type1 /BaseFont /Helvetica /Encoding /WinAnsiEncoding >>\n".as_bytes());
        w.end_obj();
        w
    }

    /// Allocation while the fixed object numbers are being reserved.
    fn alloc_id_unchecked(&mut self) -> (r: u32)
        requires
            model_wf(WriterModel { next_id: 7, ..old(self)@ }) || old(self)@.next_id < 7,
            old(self)@.offsets.len() == old(self)@.next_id,
            old(self)@.starts.len() == old(self)@.next_id,
            old(self)@.next_id < 7,
            old(self)@.pages.len() == 0,
            old(self)@.annots.len() == 0,
            old(self)@.shadings.len() == 0,
            forall|id: int| 0 <= id < old(self)@.starts.len() ==> #[trigger] old(self)@.starts[id] == 0,
            forall|id: int| 0 <= id < old(self)@.offsets.len() ==> #[trigger] old(self)@.offsets[id] == 0,
            old(self)@.pending.len() <= old(self)@.written.len(),
            old(self)@.written.subrange(old(self)@.written.len() - old(self)@.pending.len(), old(self)@.written.len() as int) == old(self)@.pending,
            old(self).pos == ((old(self).written@.len() as int) % pos_modulus()) as u64,
            old(self).catalog_id <= 1 && old(self).pages_id <= 2 && old(self).resources_id <= 3,
            old(self).info_id <= 4 && old(self).builtin_font_id <= 5 && old(self).encrypt_id == 0,
            old(self).used@.len() == old(self)@.next_id,
            forall|id: int| 0 <= id < old(self).used@.len() ==> !#[trigger] old(self).used@[id],
        ensures
            r == old(self)@.next_id,
            final(self).used@.len() == final(self)@.next_id,
            forall|id: int| 0 <= id < final(self).used@.len() ==> !#[trigger] final(self).used@[id],
            final(self)@ == old(self)@.allocate(),
            final(self).pos == old(self).pos,
            final(self).written == old(self).written,
            final(self).catalog_id == old(self).catalog_id,
            final(self).pages_id == old(self).pages_id,
            final(self).resources_id == old(self).resources_id,
            final(self).info_id == old(self).info_id,
            final(self).builtin_font_id == old(self).builtin_font_id,
            final(self).encrypt_id == old(self).encrypt_id,
    {
        let id = self.next_object_id;
        self.next_object_id = self.next_object_id + 1;
        self.offsets.push(0);
        self.used.push(false);
        proof {
            self.starts@ = self.starts@.push(0int);
            assert forall|id2: int| 0 <= id2 < self.used@.len() implies !#[trigger] self.used@[id2] by {
                if id2 < old(self).used@.len() {
                    assert(self.used@[id2] == old(self).used@[id2]);
                }
            }
        }
        id
    }

    /// Adds a page whose media box is `[0 0 width height]` (the two numbers already rendered);
    /// returns the page object number and the content stream object number.
    pub fn add_page(&mut self, width: &str, height: &str) -> (r: (u32, u32))
        requires
            old(self).wf(),
            old(self)@.next_id + 3 < u32::MAX,
        ensures
            final(self).wf(),
            r == (old(self)@.next_id, (old(self)@.next_id + 1) as u32),
            final(self)@ == add_page_model(old(self)@, width@, height@),
    {
        let page_id = self.alloc_id();
        let content_id = self.alloc_id();
        let annots_id = self.alloc_id();
        let ghost a = self@;
        self.pages.push(page_id);
        self.page_annots.push((annots_id, Vec::new()));
        proof {
            let m = self@;
            assert(links_view(Seq::<LinkAnnotation>::empty()) =~= Seq::<LinkModel>::empty());
            assert(m.annots =~= a.annots.push((annots_id, Seq::empty())));
            assert(m == WriterModel { pages: a.pages.push(page_id), annots: a.annots.push((annots_id, Seq::empty())), ..a });
            assert(ids_below(m)) by {
                assert forall|k: int| 0 <= k < m.annots.len() implies #[trigger] m.annots[k].0 < m.next_id by {
                    if k < m.annots.len() - 1 {
                        assert(m.annots[k] == old(self)@.annots[k]);
                    }
                }
                assert forall|k: int| 0 <= k < m.pages.len() implies 0 < #[trigger] m.pages[k] < m.next_id by {
                    if k < m.pages.len() - 1 {
                        assert(m.pages[k] == old(self)@.pages[k]);
                    }
                }
            }
        }
        self.start_obj(page_id);
        let mut d: Vec<u8> = Vec::new();
        push_all(&mut d, "<< /Type /Page\n   /Parent ".as_bytes());
        push_all(&mut d, decimal(self.pages_id as u64).as_slice());
        push_all(&mut d, " 0 R\n   /Resources ".as_bytes());
        push_all(&mut d, decimal(self.resources_id as u64).as_slice());
        push_all(&mut d, " 0 R\n   /MediaBox [0 0 ".as_bytes());
        push_all(&mut d, width.as_bytes());
        push_all(&mut d, " ".as_bytes());
        push_all(&mut d, height.as_bytes());
        push_all(&mut d, "]\n   /Contents ".as_bytes());
        push_all(&mut d, decimal(content_id as u64).as_slice());
        push_all(&mut d, " 0 R\n   /Annots ".as_bytes());
        push_all(&mut d, decimal(annots_id as u64).as_slice());
        push_all(&mut d, " 0 R\n>>\n".as_bytes());
        self.write_raw(d.as_slice());
        self.end_obj();
        proof {
            assert(d@ == page_dict(width@, height@, content_id, annots_id));
        }
        (page_id, content_id)
    }

    /// Records a hyperlink (rectangle already rendered as four numbers) on the most recent page.
    pub fn add_link(&mut self, rect: &str, url: &str)
        requires
            old(self).wf(),
        ensures
            final(self).wf(),
            final(self)@ == add_link_model(old(self)@, rect@, url@),
    {
        if self.page_annots.len() > 0 {
            let entry = self.page_annots.pop();
            match entry {
                Some(e) => {
                    let (aid, mut links) = e;
                    links.push(LinkAnnotation { rect: rect.to_owned(), url: url.to_owned() });
                    self.page_annots.push((aid, links));
                },
                None => {},
            }
            proof {
                let m = self@;
                let o = old(self)@;
                assert(m.annots =~= add_link_model(o, rect@, url@).annots) by {
                    assert forall|k: int| 0 <= k < m.annots.len() implies m.annots[k] == add_link_model(o, rect@, url@).annots[k] by {
                        if k < m.annots.len() - 1 {
                            assert(m.annots[k] == o.annots[k]);
                        } else {
                            assert(links_view(self.page_annots@[k].1@) =~= o.annots[k].1.push(LinkModel { rect: rect@, url: url@ }));
                        }
                    }
                }
                assert(ids_below(m)) by {
                    assert forall|k: int| 0 <= k < m.annots.len() implies #[trigger] m.annots[k].0 < m.next_id by {
                        assert(m.annots[k].0 == o.annots[k].0);
                    }
                }
            }
        }
    }

    /// Records an image object to be listed among the page resources.
    pub fn register_xobject(&mut self, xobj_id: u32)
        requires
            old(self).wf(),
        ensures
            final(self).wf(),
            final(self)@ == (WriterModel { xobjects: old(self)@.xobjects.push(xobj_id), ..old(self)@ }),
    {
        self.xobjects.push(xobj_id);
    }

    /// Reserves an object for an axial shading from color `c0` to color `c1` along `coords`
    /// (each already rendered as numbers) and returns its number.
    pub fn register_shading(&mut self, c0: &str, c1: &str, coords: &str) -> (r: u32)
        requires
            old(self).wf(),
            old(self)@.next_id < u32::MAX,
        ensures
            final(self).wf(),
            r == old(self)@.next_id,
            final(self)@ == (WriterModel {
                shadings: old(self)@.shadings.push((r, c0@, c1@, coords@)),
                ..old(self)@.allocate()
            }),
    {
        let id = self.alloc_id();
        let ghost a = self@;
        self.shadings.push((id, c0.to_owned(), c1.to_owned(), coords.to_owned()));
        proof {
            let m = self@;
            assert(m.shadings =~= a.shadings.push((id, c0@, c1@, coords@)));
            assert(ids_below(m)) by {
                assert forall|k: int| 0 <= k < m.shadings.len() implies #[trigger] m.shadings[k].0 < m.next_id by {
                    if k < m.shadings.len() - 1 {
                        assert(m.shadings[k] == old(self)@.allocate().shadings[k]);
                    }
                }
            }
        }
        id
    }

    /// Whether content streams are compressed.
    pub fn compress(&self) -> (r: bool)
        ensures
            r == self@.compress,
    {
        self.compress
    }

    /// Turns content stream compression on or off.
    pub fn set_compress(&mut self, on: bool)
        requires
            old(self).wf(),
        ensures
            final(self).wf(),
            final(self)@ == (WriterModel { compress: on, ..old(self)@ }),
    {
        self.compress = on;
    }

    /// The document identifier.
    pub fn doc_id(&self) -> (r: [u8; 16])
        ensures
            r@ == self@.doc_id,
    {
        self.doc_id
    }

    /// Turns on encryption with the standard security handler.
    pub fn enable_encryption(&mut self, owner: &str, user: &str, perms: PdfPermissions)
        requires
            old(self).wf(),
        ensures
            final(self).wf(),
            final(self)@.security matches Some(h) && is_handler_for(h, owner@, user@, perms, old(self)@.doc_id),
            final(self)@ == (WriterModel { security: final(self)@.security, ..old(self)@ }),
    {
        let handler = SecurityHandler::new(owner, user, perms, self.doc_id.as_slice());
        self.security = Some(handler);
    }

    /// `text` as a hexadecimal string `<...>`, its bytes encrypted for object `obj_id` when
    /// encryption is on.
    pub fn encrypt_string(&self, obj_id: u32, text: &str) -> (r: String)
        ensures
            r@ == spec_hex_string(self@.security, obj_id, text@),
    {
        let mut data: Vec<u8> = Vec::new();
        push_all(&mut data, text.as_bytes());
        match &self.security {
            Some(sec) => {
                sec.encrypt_bytes(obj_id, 0, data.as_mut_slice());
            },
            None => {},
        }
        let mut hex: Vec<u8> = Vec::new();
        push_hex_bytes(&mut hex, data.as_slice());
        let mut r = String::new();
        push_char(&mut r, '<');
        let mut k: usize = 0;
        while k < hex.len()
            invariant
                k <= hex@.len(),
                r@ == seq!['<'] + ascii_chars(hex@.subrange(0, k as int)),
            decreases hex@.len() - k,
        {
            push_char(&mut r, hex[k] as char);
            proof {
                assert(ascii_chars(hex@.subrange(0, k + 1)) =~= ascii_chars(hex@.subrange(0, k as int)).push(hex@[k as int] as char));
            }
            k = k + 1;
        }
        push_char(&mut r, '>');
        proof {
            assert(hex@.subrange(0, hex@.len() as int) == hex@);
        }
        r
    }

    /// Writes object `content_id` as a content stream holding `content`, compressed when
    /// compression is on and encrypted when encryption is on.
    pub fn write_content_stream(&mut self, content_id: u32, content: &str) -> (r: Result<(), PdfError>)
        requires
            old(self).wf(),
            0 < content_id < old(self)@.next_id,
        ensures
            final(self).wf(),
            r is Ok,
            final(self)@ == content_stream_model(old(self)@, content_id, content@),
    {
        let ghost m0 = self@;
        self.start_obj(content_id);
        let raw = content.as_bytes();
        let mut data: Vec<u8> = if self.compress {
            match zlib_compress(raw) {
                Ok(v) => v,
                Err(_) => {
                    return Err(PdfError::Compression);
                },
            }
        } else {
            let mut v: Vec<u8> = Vec::new();
            push_all(&mut v, raw);
            v
        };
        match &self.security {
            Some(sec) => {
                sec.encrypt_bytes(content_id, 0, data.as_mut_slice());
            },
            None => {},
        }
        proof {
            assert(data@ == stream_data(m0, content_id, content@));
        }
        let mut head: Vec<u8> = Vec::new();
        push_all(&mut head, "<< /Length ".as_bytes());
        push_all(&mut head, decimal(data.len() as u64).as_slice());
        if self.compress {
            push_all(&mut head, " /Filter /FlateDecode >>\nstream\n".as_bytes());
        } else {
            push_all(&mut head, " >>\nstream\n".as_bytes());
        }
        self.write_raw(head.as_slice());
        self.write_raw(data.as_slice());
        self.write_raw("\nendstream\n".as_bytes());
        self.end_obj();
        Ok(())
    }

    /// Writes the link annotations of one page and the page's annotation array `aid`.
    fn write_page_annots(&mut self, aid: u32, links: &Vec<LinkAnnotation>)
        requires
            old(self).wf(),
            0 < aid < old(self)@.next_id,
            old(self)@.next_id + links@.len() < u32::MAX,
        ensures
            final(self).wf(),
            final(self)@ == emit_page_annots(old(self)@, aid, links_view(links@)),
    {
        let ghost p0 = self@;
        let ghost lv = links_view(links@);
        let mut ids: Vec<u32> = Vec::new();
        let mut j: usize = 0;
        while j < links.len()
            invariant
                self.wf(),
                j <= links@.len(),
                lv == links_view(links@),
                0 < aid < p0.next_id,
                p0.next_id + links@.len() < u32::MAX,
                self@ == emit_links(p0, lv.take(j as int)),
                self@.next_id == p0.next_id + j,
                ids@ == Seq::new(j as nat, |t: int| (p0.next_id + t) as u32),
            decreases links@.len() - j,
        {
            let id = self.alloc_id();
            ids.push(id);
            self.start_obj(id);
            let link = &links[j];
            let mut d: Vec<u8> = Vec::new();
            push_all(&mut d, "<< /Type /Annot /Subtype /Link /Rect [".as_bytes());
            push_all(&mut d, link.rect.as_str().as_bytes());
            push_all(&mut d, "] /Border [0 0 0] /A << /Type /Action /S /URI /URI (".as_bytes());
            let esc = escape_pdf_str(link.url.as_str());
            push_all(&mut d, esc.as_str().as_bytes());
            push_all(&mut d, ") >> >>\n".as_bytes());
            self.write_raw(d.as_slice());
            self.end_obj();
            proof {
                assert(lv.take(j + 1).drop_last() =~= lv.take(j as int));
                assert(lv.take(j + 1).last() == lv[j as int]);
                assert(d@ == link_annot_dict(lv[j as int]));
                assert(ids@ =~= Seq::new((j + 1) as nat, |t: int| (p0.next_id + t) as u32));
            }
            j = j + 1;
        }
        proof {
            assert(lv.take(links@.len() as int) =~= lv);
            lemma_emit_links_next(p0, lv);
        }
        self.start_obj(aid);
        let mut a: Vec<u8> = Vec::new();
        push_all(&mut a, "[ ".as_bytes());
        let mut t: usize = 0;
        while t < ids.len()
            invariant
                t <= ids@.len(),
                ids@.len() == links@.len(),
                ids@ == Seq::new(links@.len() as nat, |u: int| (p0.next_id + u) as u32),
                p0.next_id + links@.len() < u32::MAX,
                a@ == bytes_of("[ "@) + ref_list(p0.next_id as nat, t as nat),
            decreases ids@.len() - t,
        {
            push_all(&mut a, decimal(ids[t] as u64).as_slice());
            push_all(&mut a, " 0 R ".as_bytes());
            proof {
                lemma_ref_list_step(p0.next_id as nat, t as nat);
            }
            t = t + 1;
        }
        push_all(&mut a, "]\n".as_bytes());
        self.write_raw(a.as_slice());
        self.end_obj();
        proof {
            reveal(emit_page_annots);
        }
    }

    /// Writes the link annotations of every page.
    #[verifier::rlimit(40)]
    fn write_annotations(&mut self)
        requires
            old(self).wf(),
            old(self)@.next_id + total_links(old(self)@.annots) < u32::MAX,
        ensures
            final(self).wf(),
            final(self)@ == emit_all_annots(WriterModel { annots: Seq::empty(), ..old(self)@ }, old(self)@.annots),
            final(self)@.next_id == old(self)@.next_id + total_links(old(self)@.annots),
    {
        let ghost all_v = old(self)@.annots;
        let mut all: Vec<(u32, Vec<LinkAnnotation>)> = Vec::new();
        std::mem::swap(&mut all, &mut self.page_annots);
        proof {
            assert(self@.annots =~= Seq::<(u32, Seq<LinkModel>)>::empty());
            assert(all_v =~= all@.map_values(|e: (u32, Vec<LinkAnnotation>)| (e.0, links_view(e.1@))));
        }
        let ghost m1 = self@;
        proof {
            reveal(emit_all_annots);
            assert(all_v.take(0) =~= Seq::<(u32, Seq<LinkModel>)>::empty());
        }
        let mut k: usize = 0;
        while k < all.len()
            invariant
                self.wf(),
                k <= all@.len(),
                all_v == all@.map_values(|e: (u32, Vec<LinkAnnotation>)| (e.0, links_view(e.1@))),
                forall|i: int| 0 <= i < all_v.len() ==> 0 < #[trigger] all_v[i].0 < m1.next_id,
                m1.next_id + total_links(all_v) < u32::MAX,
                self@ == emit_all_annots(m1, all_v.take(k as int)),
                self@.next_id == m1.next_id + total_links(all_v.take(k as int)),
            decreases all@.len() - k,
        {
            proof {
                lemma_annots_step(m1, all_v, k as int);
                assert(all_v[k as int] == (all@[k as int].0, links_view(all@[k as int].1@)));
                assert(0 < all_v[k as int].0 < m1.next_id);
                assert(links_view(all@[k as int].1@).len() == all@[k as int].1@.len());
                lemma_total_links_prefix(all_v, k as int);
            }
            let entry = &all[k];
            self.write_page_annots(entry.0, &entry.1);
            k = k + 1;
        }
        proof {
            assert(all_v.take(all@.len() as int) =~= all_v);
        }
    }

    /// Writes the resource dictionary (object 3).
    fn write_resources(&mut self, font_resources: &str)
        requires
            old(self).wf(),
        ensures
            final(self).wf(),
            final(self)@ == old(self)@.object(3, resources_dict(font_resources@, old(self)@.xobjects, old(self)@.shadings)),
    {
        let ghost m0 = self@;
        self.start_obj(self.resources_id);
        let mut d: Vec<u8> = Vec::new();
        push_all(&mut d, "<< ".as_bytes());
        push_all(&mut d, "/Font << /FBuiltin ".as_bytes());
        push_all(&mut d, decimal(self.builtin_font_id as u64).as_slice());
        push_all(&mut d, " 0 R ".as_bytes());
        push_all(&mut d, font_resources.as_bytes());
        push_all(&mut d, " >> ".as_bytes());
        if self.xobjects.len() > 0 {
            push_all(&mut d, "/XObject << ".as_bytes());
            let mut k: usize = 0;
            let ghost before = d@;
            while k < self.xobjects.len()
                invariant
                    k <= self.xobjects@.len(),
                    d@ == before + xobject_entries(self.xobjects@.take(k as int)),
                decreases self.xobjects@.len() - k,
            {
                let x = self.xobjects[k];
                push_all(&mut d, "/Im".as_bytes());
                push_all(&mut d, decimal(x as u64).as_slice());
                push_all(&mut d, " ".as_bytes());
                push_all(&mut d, decimal(x as u64).as_slice());
                push_all(&mut d, " 0 R ".as_bytes());
                proof {
                    assert(self.xobjects@.take(k + 1).drop_last() =~= self.xobjects@.take(k as int));
                }
                k = k + 1;
            }
            proof {
                assert(self.xobjects@.take(self.xobjects@.len() as int) =~= self.xobjects@);
            }
            push_all(&mut d, ">> ".as_bytes());
        }
        if self.shadings.len() > 0 {
            push_all(&mut d, "/Shading << ".as_bytes());
            let mut k: usize = 0;
            let ghost before = d@;
            let ghost sh = self@.shadings;
            while k < self.shadings.len()
                invariant
                    k <= self.shadings@.len(),
                    sh == self@.shadings,
                    sh.len() == self.shadings@.len(),
                    d@ == before + shading_entries(sh.take(k as int)),
                decreases self.shadings@.len() - k,
            {
                let x = self.shadings[k].0;
                push_all(&mut d, "/Sh".as_bytes());
                push_all(&mut d, decimal(x as u64).as_slice());
                push_all(&mut d, " ".as_bytes());
                push_all(&mut d, decimal(x as u64).as_slice());
                push_all(&mut d, " 0 R ".as_bytes());
                proof {
                    assert(sh.take(k + 1).drop_last() =~= sh.take(k as int));
                    assert(sh[k as int].0 == x);
                }
                k = k + 1;
            }
            proof {
                assert(sh.take(sh.len() as int) =~= sh);
            }
            push_all(&mut d, ">> ".as_bytes());
        }
        push_all(&mut d, ">>\n".as_bytes());
        self.write_raw(d.as_slice());
        self.end_obj();
        proof {
            assert(d@ =~= resources_dict(font_resources@, m0.xobjects, m0.shadings));
        }
    }

    /// Writes a function object and the shading object for every registered shading.
    fn write_shadings(&mut self)
        requires
            old(self).wf(),
            old(self)@.next_id + old(self)@.shadings.len() < u32::MAX,
        ensures
            final(self).wf(),
            final(self)@ == emit_shadings(old(self)@, old(self)@.shadings),
    {
        let ghost m0 = self@;
        let ghost sh = m0.shadings;
        let n = self.shadings.len();
        proof {
            reveal(emit_shadings);
            assert(sh.take(0) =~= Seq::<(u32, Seq<char>, Seq<char>, Seq<char>)>::empty());
        }
        let mut k: usize = 0;
        while k < n
            invariant
                self.wf(),
                k <= n,
                n == sh.len(),
                sh == self@.shadings,
                self@.shadings.len() == self.shadings@.len(),
                m0.next_id + sh.len() < u32::MAX,
                forall|i: int| 0 <= i < sh.len() ==> 0 < #[trigger] sh[i].0 < m0.next_id,
                self@ == emit_shadings(m0, sh.take(k as int)),
                self@.next_id == m0.next_id + k,
            decreases n - k,
        {
            let ghost p = self@;
            proof {
                lemma_shadings_step(m0, sh, k as int);
            }
            let func_id = self.alloc_id();
            let sh_id = self.shadings[k].0;
            self.start_obj(func_id);
            let mut d: Vec<u8> = Vec::new();
            push_all(&mut d, "<< /FunctionType 2 /Domain [0 1] /C0 [".as_bytes());
            push_all(&mut d, self.shadings[k].1.as_str().as_bytes());
            push_all(&mut d, "] /C1 [".as_bytes());
            push_all(&mut d, self.shadings[k].2.as_str().as_bytes());
            push_all(&mut d, "] /N 1 >>\n".as_bytes());
            self.write_raw(d.as_slice());
            self.end_obj();
            proof {
                assert(0 < sh[k as int].0 < m0.next_id);
            }
            self.start_obj(sh_id);
            let mut e: Vec<u8> = Vec::new();
            push_all(&mut e, "<< /ShadingType 2 /ColorSpace /DeviceRGB /Coords [".as_bytes());
            push_all(&mut e, self.shadings[k].3.as_str().as_bytes());
            push_all(&mut e, "] /Function ".as_bytes());
            push_all(&mut e, decimal(func_id as u64).as_slice());
            push_all(&mut e, " 0 R /Extend [true true] >>\n".as_bytes());
            self.write_raw(e.as_slice());
            self.end_obj();
            proof {
                assert(d@ == function_dict(sh[k as int].1, sh[k as int].2));
                assert(e@ == shading_dict(sh[k as int].3, func_id));
                assert(self@ == p.allocate().object(p.next_id, function_dict(sh[k as int].1, sh[k as int].2)).object(
                    sh[k as int].0, shading_dict(sh[k as int].3, p.next_id)));
            }
            k = k + 1;
        }
        proof {
            assert(sh.take(n as int) =~= sh);
        }
    }

    /// Writes the page tree (object 2) and the catalog (object 1).
    fn write_page_tree_and_catalog(&mut self)
        requires
            old(self).wf(),
        ensures
            final(self).wf(),
            final(self)@ == old(self)@.object(2, pages_dict(old(self)@.pages)).object(1, catalog_dict()),
    {
        let ghost m0 = self@;
        self.start_obj(self.pages_id);
        let mut kids: Vec<u8> = Vec::new();
        let mut k: usize = 0;
        while k < self.pages.len()
            invariant
                k <= self.pages@.len(),
                kids@ == kids_list(self.pages@.take(k as int)),
            decreases self.pages@.len() - k,
        {
            push_all(&mut kids, decimal(self.pages[k] as u64).as_slice());
            push_all(&mut kids, " 0 R ".as_bytes());
            proof {
                assert(self.pages@.take(k + 1).drop_last() =~= self.pages@.take(k as int));
            }
            k = k + 1;
        }
        proof {
            assert(self.pages@.take(self.pages@.len() as int) =~= self.pages@);
        }
        let mut d: Vec<u8> = Vec::new();
        push_all(&mut d, "<< /Type /Pages /Count ".as_bytes());
        push_all(&mut d, decimal(self.pages.len() as u64).as_slice());
        push_all(&mut d, " /Kids [".as_bytes());
        push_all(&mut d, kids.as_slice());
        push_all(&mut d, "] >>\n".as_bytes());
        self.write_raw(d.as_slice());
        self.end_obj();
        proof {
            assert(d@ == pages_dict(m0.pages));
        }
        self.start_obj(self.catalog_id);
        let mut c: Vec<u8> = Vec::new();
        push_all(&mut c, "<< /Type /Catalog /Pages ".as_bytes());
        push_all(&mut c, decimal(self.pages_id as u64).as_slice());
        push_all(&mut c, " 0 R >>\n".as_bytes());
        self.write_raw(c.as_slice());
        self.end_obj();
    }

    /// Writes the encryption dictionary (object 6) when encryption is on.
    fn write_encrypt_dict(&mut self)
        requires
            old(self).wf(),
        ensures
            final(self).wf(),
            final(self)@ == (match old(self)@.security {
                Some(h) => old(self)@.object(6, encrypt_dict(h)),
                None => old(self)@,
            }),
    {
        let mut d: Vec<u8> = Vec::new();
        let has = match &self.security {
            Some(sec) => {
                push_all(&mut d, "<< /Filter /Standard /V 2 /R 3 /Length 128 /O <".as_bytes());
                push_hex_bytes(&mut d, sec.o.as_slice());
                push_all(&mut d, "> /U <".as_bytes());
                push_hex_bytes(&mut d, sec.u.as_slice());
                push_all(&mut d, "> /P ".as_bytes());
                push_all(&mut d, decimal_i32(sec.p).as_slice());
                push_all(&mut d, " >>\n".as_bytes());
                true
            },
            None => false,
        };
        if has {
            self.start_obj(self.encrypt_id);
            self.write_raw(d.as_slice());
            self.end_obj();
        }
    }

    /// Writes the cross-reference table for the current object offsets.
    fn write_xref(&mut self)
        requires
            old(self).wf(),
        ensures
            final(self).wf(),
            final(self)@ == old(self)@.write(xref_table(old(self)@.offsets, old(self)@.starts)),
    {
        let ghost m0 = self@;
        let mut d: Vec<u8> = Vec::new();
        push_all(&mut d, "xref\n0 ".as_bytes());
        push_all(&mut d, decimal(self.offsets.len() as u64).as_slice());
        push_all(&mut d, "\n".as_bytes());
        push_all(&mut d, "0000000000 65535 f \n".as_bytes());
        let ghost head = d@;
        let mut i: usize = 1;
        proof {
            assert(xref_entries(m0.offsets, m0.starts, 1) == Seq::<u8>::empty());
        }
        while i < self.offsets.len()
            invariant
                1 <= i <= self.offsets@.len(),
                self@ == m0,
                self.wf(),
                d@ == head + xref_entries(m0.offsets, m0.starts, i as nat),
            decreases self.offsets@.len() - i,
        {
            if self.used[i] {
                push_all(&mut d, decimal10(self.offsets[i]).as_slice());
                push_all(&mut d, " 00000 n \n".as_bytes());
            } else {
                push_all(&mut d, "0000000000 65535 f \n".as_bytes());
            }
            i = i + 1;
        }
        self.write_raw(d.as_slice());
    }

    /// Writes the document information dictionary (object 4).
    fn write_info(&mut self, metadata: &Metadata)
        requires
            old(self).wf(),
        ensures
            final(self).wf(),
            final(self)@ == old(self)@.object(4, info_dict(old(self)@.security, *metadata)),
    {
        let ghost m0 = self@;
        self.start_obj(self.info_id);
        let mut d: Vec<u8> = Vec::new();
        push_all(&mut d, "<< ".as_bytes());
        self.push_info_entry(&mut d, "/Title ", &metadata.title);
        self.push_info_entry(&mut d, "/Author ", &metadata.author);
        self.push_info_entry(&mut d, "/Subject ", &metadata.subject);
        push_all(&mut d, ">>\n".as_bytes());
        self.write_raw(d.as_slice());
        self.end_obj();
    }

    fn push_info_entry(&self, d: &mut Vec<u8>, key: &str, v: &Option<String>)
        requires
            self.wf(),
        ensures
            final(d)@ == old(d)@ + info_entry(self@.security, key@, *v),
    {
        match v {
            Some(t) => {
                push_all(d, key.as_bytes());
                let value = if self.security.is_some() {
                    self.encrypt_string(self.info_id, t.as_str())
                } else {
                    let mut lit = String::new();
                    push_char(&mut lit, '(');
                    let esc = escape_pdf_str(t.as_str());
                    crate::strings::push_str(&mut lit, esc.as_str());
                    push_char(&mut lit, ')');
                    assert(lit@ =~= seq!['('] + spec_escape(t@) + seq![')']);
                    lit
                };
                push_all(d, value.as_str().as_bytes());
                push_all(d, " ".as_bytes());
            },
            None => {},
        }
    }

    /// Finishes the document: link annotations, resources, shadings, page tree, catalog,
    /// encryption dictionary, information dictionary, then the cross-reference table (every
    /// written object in use at its position, every other number free) and the trailer.
    /// `font_resources` lists the embedded fonts for the resource dictionary. Returns every
    /// byte not yet handed out.
    pub fn finish(self, font_resources: &str, metadata: &Metadata) -> (r: Vec<u8>)
        requires
            self.wf(),
            self@.next_id + total_links(self@.annots) + self@.shadings.len() < u32::MAX,
        ensures
            r@ == finish_model(self@, font_resources@, *metadata).pending,
            model_wf(finish_model(self@, font_resources@, *metadata)),
            xref_sound(finish_body_model(self@, font_resources@, *metadata), finish_model(self@, font_resources@, *metadata).written),
    {
        let ghost m0 = self@;
        let mut w = self;
        w.finish_document(font_resources, metadata)
    }

    fn finish_document(&mut self, font_resources: &str, metadata: &Metadata) -> (r: Vec<u8>)
        requires
            old(self).wf(),
            old(self)@.next_id + total_links(old(self)@.annots) + old(self)@.shadings.len() < u32::MAX,
        ensures
            r@ == finish_model(old(self)@, font_resources@, *metadata).pending,
            model_wf(finish_model(old(self)@, font_resources@, *metadata)),
            xref_sound(finish_body_model(old(self)@, font_resources@, *metadata), finish_model(old(self)@, font_resources@, *metadata).written),
    {
        let ghost m0 = self@;
        self.write_annotations();
        let ghost a = self@;
        proof {
            lemma_emit_all_annots_keeps(WriterModel { annots: Seq::empty(), ..m0 }, m0.annots);
        }
        self.write_resources(font_resources);
        let ghost r1 = self@;
        self.write_shadings();
        let ghost s1 = self@;
        self.write_page_tree_and_catalog();
        let ghost c1 = self@;
        self.write_encrypt_dict();
        let ghost e1 = self@;
        self.write_info(metadata);
        let ghost b = self@;
        proof {
            reveal(finish_body_model);
            assert(b == finish_body_model(m0, font_resources@, *metadata));
        }
        let xref_pos = self.pos;
        self.write_xref();
        let ghost x = self@;
        let d = self.trailer_bytes(xref_pos);
        self.write_raw(d.as_slice());
        proof {
            reveal(finish_model);
            assert(self@ == finish_model(m0, font_resources@, *metadata));
            let f = self@.written;
            let xt = xref_table(b.offsets, b.starts);
            lemma_prefix_write(b, xt);
            lemma_prefix_write(x, d@);
            lemma_prefix_trans(b.written, x.written, f);
            lemma_headers_persist(b, f);
            let xl = xt.len() as int;
            assert(x.written.subrange(b.written.len() as int, b.written.len() + xl) =~= xt);
            assert(f.subrange(b.written.len() as int, b.written.len() + xl) =~= x.written.subrange(b.written.len() as int, b.written.len() + xl)) by {
                assert forall|t: int| 0 <= t < xl implies #[trigger] f.subrange(b.written.len() as int, b.written.len() + xl)[t]
                    == x.written.subrange(b.written.len() as int, b.written.len() + xl)[t] by {
                    assert(f.subrange(0, x.written.len() as int)[b.written.len() + t] == x.written[b.written.len() + t]);
                }
            }
        }
        self.take_output()
    }

    fn trailer_bytes(&self, xref_pos: u64) -> (d: Vec<u8>)
        requires
            self.wf(),
        ensures
            d@ == trailer(self@.offsets.len(), xref_pos, self@.security is Some, self@.doc_id),
    {
        let mut d: Vec<u8> = Vec::new();
        push_all(&mut d, "trailer\n<< /Size ".as_bytes());
        push_all(&mut d, decimal(self.offsets.len() as u64).as_slice());
        push_all(&mut d, " /Root ".as_bytes());
        push_all(&mut d, decimal(self.catalog_id as u64).as_slice());
        push_all(&mut d, " 0 R /Info ".as_bytes());
        push_all(&mut d, decimal(self.info_id as u64).as_slice());
        push_all(&mut d, " 0 R ".as_bytes());
        if self.security.is_some() {
            push_all(&mut d, "/Encrypt ".as_bytes());
            push_all(&mut d, decimal(self.encrypt_id as u64).as_slice());
            push_all(&mut d, " 0 R /ID [ <".as_bytes());
            push_hex_bytes(&mut d, self.doc_id.as_slice());
            push_all(&mut d, "> <".as_bytes());
            push_hex_bytes(&mut d, self.doc_id.as_slice());
            push_all(&mut d, "> ] ".as_bytes());
        }
        push_all(&mut d, ">>\nstartxref\n".as_bytes());
        push_all(&mut d, decimal(xref_pos).as_slice());
        push_all(&mut d, "\n%%EOF\n".as_bytes());
        d
    }
}

/// `a` is the beginning of `b`.
pub open spec fn is_prefix(a: Seq<u8>, b: Seq<u8>) -> bool {
    a.len() <= b.len() && b.subrange(0, a.len() as int) == a
}

/// The cross-reference table of `body` stands right after the body in `doc`; every object
/// that was written lies within the body, its table entry is in use, and its offset is the
/// position (modulo 2^64) at which its `"<id> 0 obj"` line starts in `doc`; every other
/// object's entry is free (see `xref_entry`).
pub open spec fn xref_sound(body: WriterModel, doc: Seq<u8>) -> bool {
    &&& body.written.len() + xref_table(body.offsets, body.starts).len() <= doc.len()
    &&& doc.subrange(body.written.len() as int, body.written.len() + xref_table(body.offsets, body.starts).len() as int)
        == xref_table(body.offsets, body.starts)
    &&& forall|id: int|
        0 < id < body.offsets.len() && body.starts[id] != 0 ==> {
            &&& header_at(doc, #[trigger] body.starts[id], id as nat)
            &&& body.starts[id] + obj_header(id as nat).len() <= body.written.len()
            &&& body.offsets[id] == (body.starts[id] % pos_modulus()) as u64
        }
}

proof fn lemma_prefix_write(m: WriterModel, b: Seq<u8>)
    ensures
        is_prefix(m.written, m.write(b).written),
{
    assert(m.write(b).written.subrange(0, m.written.len() as int) =~= m.written);
}

proof fn lemma_prefix_trans(a: Seq<u8>, b: Seq<u8>, c: Seq<u8>)
    requires
        is_prefix(a, b),
        is_prefix(b, c),
    ensures
        is_prefix(a, c),
{
    assert(c.subrange(0, a.len() as int) =~= b.subrange(0, a.len() as int));
}

proof fn lemma_object_prefix(m: WriterModel, id: u32, body: Seq<u8>)
    ensures
        is_prefix(m.written, m.object(id, body).written),
{
    let s = WriterModel {
        offsets: m.offsets.update(id as int, ((m.written.len() as int) % pos_modulus()) as u64),
        starts: m.starts.update(id as int, m.written.len() as int),
        ..m
    };
    lemma_prefix_write(s, obj_header(id as nat));
    lemma_prefix_write(m.start(id), body);
    lemma_prefix_write(m.start(id).write(body), bytes_of("endobj\n"@));
    lemma_prefix_trans(m.written, m.start(id).written, m.start(id).write(body).written);
    lemma_prefix_trans(m.written, m.start(id).write(body).written, m.object(id, body).written);
}

/// Headers recorded in `body` stay in place in any extension of its output.
proof fn lemma_headers_persist(body: WriterModel, doc: Seq<u8>)
    requires
        offsets_point_at_headers(body),
        is_prefix(body.written, doc),
    ensures
        forall|id: int|
            0 < id < body.offsets.len() && body.starts[id] != 0 ==> {
                &&& header_at(doc, #[trigger] body.starts[id], id as nat)
                &&& body.starts[id] + obj_header(id as nat).len() <= body.written.len()
                &&& body.offsets[id] == (body.starts[id] % pos_modulus()) as u64
            },
{
    assert forall|id: int| 0 < id < body.offsets.len() && body.starts[id] != 0 implies {
        &&& header_at(doc, #[trigger] body.starts[id], id as nat)
        &&& body.starts[id] + obj_header(id as nat).len() <= body.written.len()
        &&& body.offsets[id] == (body.starts[id] % pos_modulus()) as u64
    } by {
        let at = body.starts[id];
        let h = obj_header(id as nat).len();
        assert(doc.subrange(at, at + h) =~= body.written.subrange(at, at + h)) by {
            assert forall|t: int| 0 <= t < h implies #[trigger] doc.subrange(at, at + h)[t] == body.written.subrange(at, at + h)[t] by {
                assert(doc.subrange(0, body.written.len() as int)[at + t] == body.written[at + t]);
            }
        }
    }
}

/// The annotation pass leaves everything but the output, offsets and numbering alone.
proof fn lemma_emit_all_annots_keeps(m: WriterModel, all: Seq<(u32, Seq<LinkModel>)>)
    ensures
        emit_all_annots(m, all).pages == m.pages,
        emit_all_annots(m, all).xobjects == m.xobjects,
        emit_all_annots(m, all).shadings == m.shadings,
        emit_all_annots(m, all).annots == m.annots,
        emit_all_annots(m, all).security == m.security,
        emit_all_annots(m, all).doc_id == m.doc_id,
        emit_all_annots(m, all).compress == m.compress,
    decreases all.len(),
{
    reveal(emit_all_annots);
    reveal(emit_page_annots);
    if all.len() > 0 {
        lemma_emit_all_annots_keeps(m, all.drop_last());
        lemma_emit_links_keeps(emit_all_annots(m, all.drop_last()), all.last().1);
    }
}

proof fn lemma_emit_links_keeps(m: WriterModel, links: Seq<LinkModel>)
    ensures
        emit_links(m, links).pages == m.pages,
        emit_links(m, links).xobjects == m.xobjects,
        emit_links(m, links).shadings == m.shadings,
        emit_links(m, links).annots == m.annots,
        emit_links(m, links).security == m.security,
        emit_links(m, links).doc_id == m.doc_id,
        emit_links(m, links).compress == m.compress,
    decreases links.len(),
{
    if links.len() > 0 {
        lemma_emit_links_keeps(m, links.drop_last());
    }
}

} // verus!
