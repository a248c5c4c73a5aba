//! Row buffering for interleaved tables: the binary row format written to and read back
//! from the per-table buffers, the order in which buffered tables are rendered, and the
//! name of the buffer directory.
use vstd::prelude::*;
use crate::{Align, VAlign};
use crate::fmt::{push_all, push_hex, spec_hex};
use crate::layout::table::{Cell, TableCell};
use crate::pdf::crypto::le_u32;
use crate::pdf::writer::bytes_of;
use crate::strings::{string_eq, string_from_utf8};

verus! {

/// Value of four little-endian bytes.
pub open spec fn u32_le_value(b0: u8, b1: u8, b2: u8, b3: u8) -> u32 {
    (b0 as int + 256 * (b1 as int) + 65536 * (b2 as int) + 16777216 * (b3 as int)) as u32
}

proof fn lemma_le_u32_roundtrip(x: u32)
    ensures
        u32_le_value(le_u32(x)[0], le_u32(x)[1], le_u32(x)[2], le_u32(x)[3]) == x,
{
    let a = x % 256;
    let b = (x / 256) % 256;
    let c = (x / 65536) % 256;
    let d = (x / 16777216) % 256;
    assert(a + 256 * b + 65536 * c + 16777216 * d == x) by (nonlinear_arith)
        requires
            a == x % 256,
            b == (x / 256) % 256,
            c == (x / 65536) % 256,
            d == (x / 16777216) % 256,
            x < 0x1_0000_0000,
    {
    }
}


/// Tag byte of an optional horizontal alignment: 0 none, 1 left, 2 center, 3 right.
pub open spec fn align_tag(a: Option<Align>) -> u8 {
    match a {
        None => 0,
        Some(Align::Left) => 1,
        Some(Align::Center) => 2,
        Some(Align::Right) => 3,
    }
}

/// Tag byte of an optional vertical alignment: 0 none, 1 top, 2 center, 3 bottom.
pub open spec fn valign_tag(v: Option<VAlign>) -> u8 {
    match v {
        None => 0,
        Some(VAlign::Top) => 1,
        Some(VAlign::Center) => 2,
        Some(VAlign::Bottom) => 3,
    }
}

/// A length-prefixed string: 32-bit little-endian byte count, then the UTF-8 bytes.
#[verifier::opaque]
pub open spec fn enc_str(s: Seq<char>) -> Seq<u8> {
    le_u32(bytes_of(s).len() as u32) + bytes_of(s)
}

/// Abstract view of a cell: content kind and text, spans, alignments and link.
pub struct CellView {
    pub kind: u8,
    pub text: Seq<char>,
    pub colspan: usize,
    pub rowspan: usize,
    pub align: Option<Align>,
    pub valign: Option<VAlign>,
    pub link: Option<Seq<char>>,
}

/// The abstract view of a table cell.
pub open spec fn cell_view(c: TableCell) -> CellView {
    let (kind, text) = crate::layout::table::cell_content_view(c.content);
    CellView {
        kind,
        text,
        colspan: c.colspan,
        rowspan: c.rowspan,
        align: c.align,
        valign: c.valign,
        link: match c.link {
            Some(l) => Some(l@),
            None => None,
        },
    }
}

/// Encoding of one cell: kind byte, text, column and row span (32-bit), alignment tags, the
/// optional link, then three absent-style markers (background color, text color, font size).
pub open spec fn enc_cell(c: CellView) -> Seq<u8> {
    seq![c.kind] + enc_str(c.text) + le_u32(c.colspan as u32) + le_u32(c.rowspan as u32)
        + seq![align_tag(c.align), valign_tag(c.valign)]
        + (match c.link {
            None => seq![0u8],
            Some(l) => seq![1u8] + enc_str(l),
        })
        + seq![0u8, 0u8, 0u8]
}

/// Encoding of a sequence of cells, one after another.
pub open spec fn enc_cells(cells: Seq<CellView>) -> Seq<u8>
    decreases cells.len(),
{
    if cells.len() == 0 {
        Seq::empty()
    } else {
        enc_cells(cells.drop_last()) + enc_cell(cells.last())
    }
}

/// Encoding of a row: the cell count (32-bit little-endian), then the cells.
pub open spec fn enc_row(cells: Seq<CellView>) -> Seq<u8> {
    le_u32(cells.len() as u32) + enc_cells(cells)
}

fn push_u32_le(out: &mut Vec<u8>, x: u32)
    ensures
        final(out)@ == old(out)@ + le_u32(x),
{
    out.push((x % 256) as u8);
    out.push(((x / 256) % 256) as u8);
    out.push(((x / 65536) % 256) as u8);
    out.push(((x / 16777216) % 256) as u8);
    assert(final(out)@ =~= old(out)@ + le_u32(x));
}

fn push_str_field(out: &mut Vec<u8>, s: &str)
    ensures
        final(out)@ == old(out)@ + enc_str(s@),
{
    let b = s.as_bytes();
    push_u32_le(out, b.len() as u32);
    push_all(out, b);
    proof {
        reveal(enc_str);
    }
}

/// Appends the encoding of one cell.
pub fn serialize_cell(out: &mut Vec<u8>, cell: &TableCell)
    ensures
        final(out)@ == old(out)@ + enc_cell(cell_view(*cell)),
{
    let ghost cv = cell_view(*cell);
    let (type_byte, content) = match &cell.content {
        Cell::Text(s) => (0u8, s),
        Cell::ImagePath(s) => (1u8, s),
        Cell::ImageBase64(s) => (2u8, s),
    };
    let mut buf: Vec<u8> = Vec::new();
    buf.push(type_byte);
    proof {
        assert(buf@ =~= seq![cv.kind]);
    }
    push_str_field(&mut buf, content.as_str());
    push_u32_le(&mut buf, cell.colspan as u32);
    push_u32_le(&mut buf, cell.rowspan as u32);
    let a: u8 = match cell.align {
        None => 0,
        Some(Align::Left) => 1,
        Some(Align::Center) => 2,
        Some(Align::Right) => 3,
    };
    let v: u8 = match cell.valign {
        None => 0,
        Some(VAlign::Top) => 1,
        Some(VAlign::Center) => 2,
        Some(VAlign::Bottom) => 3,
    };
    let ghost before_tags = buf@;
    buf.push(a);
    buf.push(v);
    proof {
        assert(buf@ =~= before_tags + seq![align_tag(cv.align), valign_tag(cv.valign)]);
    }
    let ghost before_link = buf@;
    match &cell.link {
        None => {
            buf.push(0u8);
            proof {
                assert(buf@ =~= before_link + seq![0u8]);
            }
        },
        Some(l) => {
            buf.push(1u8);
            let ghost mid = buf@;
            push_str_field(&mut buf, l.as_str());
            proof {
                assert(mid =~= before_link + seq![1u8]);
                assert(buf@ =~= before_link + (seq![1u8] + enc_str(l@)));
            }
        },
    }
    let ghost before_tail = buf@;
    buf.push(0u8);
    buf.push(0u8);
    buf.push(0u8);
    proof {
        assert(buf@ =~= before_tail + seq![0u8, 0u8, 0u8]);
        assert(buf@ == enc_cell(cv));
    }
    push_all(out, buf.as_slice());
}

/// Abstract views of a row's cells.
pub open spec fn row_view(row: Seq<TableCell>) -> Seq<CellView> {
    row.map_values(|c: TableCell| cell_view(c))
}

/// Appends the encoding of a row of cells.
pub fn serialize_row(out: &mut Vec<u8>, row: &[TableCell])
    ensures
        final(out)@ == old(out)@ + enc_row(row_view(row@)),
{
    push_u32_le(out, row.len() as u32);
    let ghost start = out@;
    let mut k: usize = 0;
    while k < row.len()
        invariant
            k <= row@.len(),
            out@ == start + enc_cells(row_view(row@).take(k as int)),
        decreases row@.len() - k,
    {
        serialize_cell(out, &row[k]);
        proof {
            assert(row_view(row@).take(k + 1).drop_last() =~= row_view(row@).take(k as int));
        }
        k = k + 1;
    }
    proof {
        assert(row_view(row@).take(row@.len() as int) =~= row_view(row@));
    }
}


/// Why reading a buffered row failed.
#[derive(Debug, PartialEq, Eq, Structural)]
pub enum CellError {
    /// The data ended inside a cell.
    UnexpectedEof,
    /// A text field is not valid UTF-8.
    InvalidUtf8,
    /// The content kind byte is not 0, 1 or 2.
    InvalidCellType,
}

/// The 32-bit little-endian value at `pos`.
pub open spec fn get_u32(d: Seq<u8>, pos: int) -> u32 {
    u32_le_value(d[pos], d[pos + 1], d[pos + 2], d[pos + 3])
}

/// Reads a length-prefixed UTF-8 string at `pos`; returns it and the position after it.
pub open spec fn dec_str(d: Seq<u8>, pos: int) -> Result<(Seq<char>, int), CellError> {
    if pos + 4 > d.len() {
        Err(CellError::UnexpectedEof)
    } else {
        let start = pos + 4;
        let end = start + get_u32(d, pos) as int;
        if end > d.len() {
            Err(CellError::UnexpectedEof)
        } else if vstd::utf8::valid_utf8(d.subrange(start, end)) {
            Ok((vstd::utf8::decode_utf8(d.subrange(start, end)), end))
        } else {
            Err(CellError::InvalidUtf8)
        }
    }
}

/// The horizontal alignment of a tag byte (anything but 1, 2, 3 means none).
pub open spec fn tag_align(t: u8) -> Option<Align> {
    if t == 1 {
        Some(Align::Left)
    } else if t == 2 {
        Some(Align::Center)
    } else if t == 3 {
        Some(Align::Right)
    } else {
        None
    }
}

/// The vertical alignment of a tag byte (anything but 1, 2, 3 means none).
pub open spec fn tag_valign(t: u8) -> Option<VAlign> {
    if t == 1 {
        Some(VAlign::Top)
    } else if t == 2 {
        Some(VAlign::Center)
    } else if t == 3 {
        Some(VAlign::Bottom)
    } else {
        None
    }
}

/// Skips an optional field at `pos`: a flag byte, followed by `extra` bytes when the flag is 1.
pub open spec fn skip_flagged(d: Seq<u8>, pos: int, extra: int) -> Result<int, CellError> {
    if pos >= d.len() {
        Err(CellError::UnexpectedEof)
    } else if d[pos] == 1 {
        if pos + 1 + extra > d.len() {
            Err(CellError::UnexpectedEof)
        } else {
            Ok(pos + 1 + extra)
        }
    } else {
        Ok(pos + 1)
    }
}

/// The style fields after the link: background color, text color and font size, skipped.
pub open spec fn dec_style_tail(d: Seq<u8>, pos: int) -> Result<int, CellError> {
    match skip_flagged(d, pos, 3) {
        Err(e) => Err(e),
        Ok(p1) => match skip_flagged(d, p1, 3) {
            Err(e) => Err(e),
            Ok(p2) => skip_flagged(d, p2, 8),
        },
    }
}

/// The link field: a flag byte, followed by a string when the flag is 1.
pub open spec fn dec_link(d: Seq<u8>, pos: int) -> Result<(Option<Seq<char>>, int), CellError> {
    if pos >= d.len() {
        Err(CellError::UnexpectedEof)
    } else if d[pos] == 1 {
        match dec_str(d, pos + 1) {
            Err(e) => Err(e),
            Ok((l, p)) => Ok((Some(l), p)),
        }
    } else {
        Ok((None, pos + 1))
    }
}

/// Reads one cell at `pos`; returns its view and the position after it.
pub open spec fn dec_cell(d: Seq<u8>, pos: int) -> Result<(CellView, int), CellError> {
    if pos >= d.len() {
        Err(CellError::UnexpectedEof)
    } else {
        let kind = d[pos];
        match dec_str(d, pos + 1) {
            Err(e) => Err(e),
            Ok((text, p1)) => {
                if kind > 2 {
                    Err(CellError::InvalidCellType)
                } else if p1 + 10 > d.len() {
                    Err(CellError::UnexpectedEof)
                } else {
                    match dec_link(d, p1 + 10) {
                        Err(e) => Err(e),
                        Ok((link, p2)) => match dec_style_tail(d, p2) {
                            Err(e) => Err(e),
                            Ok(p3) => Ok((
                                CellView {
                                    kind,
                                    text,
                                    colspan: get_u32(d, p1) as usize,
                                    rowspan: get_u32(d, p1 + 4) as usize,
                                    align: tag_align(d[p1 + 8]),
                                    valign: tag_valign(d[p1 + 9]),
                                    link,
                                },
                                p3,
                            )),
                        },
                    }
                }
            },
        }
    }
}

/// Reads `n` cells one after another from `pos`.
pub open spec fn dec_cells(d: Seq<u8>, pos: int, n: nat) -> Result<(Seq<CellView>, int), CellError>
    decreases n,
{
    if n == 0 {
        Ok((Seq::empty(), pos))
    } else {
        match dec_cells(d, pos, (n - 1) as nat) {
            Err(e) => Err(e),
            Ok((cs, p)) => match dec_cell(d, p) {
                Err(e) => Err(e),
                Ok((c, q)) => Ok((cs.push(c), q)),
            },
        }
    }
}

/// Reads a row at `pos`: `None` when fewer than four bytes remain, otherwise the cell count
/// and that many cells.
pub open spec fn dec_row(d: Seq<u8>, pos: int) -> Result<Option<(Seq<CellView>, int)>, CellError> {
    if pos + 4 > d.len() {
        Ok(None)
    } else {
        match dec_cells(d, pos + 4, get_u32(d, pos) as nat) {
            Err(e) => Err(e),
            Ok((cs, p)) => Ok(Some((cs, p))),
        }
    }
}

proof fn lemma_dec_cells_err_stays(d: Seq<u8>, pos: int, k: nat, m: nat)
    requires
        k <= m,
        dec_cells(d, pos, k) is Err,
    ensures
        dec_cells(d, pos, m) == dec_cells(d, pos, k),
    decreases m - k,
{
    if k < m {
        lemma_dec_cells_err_stays(d, pos, k, (m - 1) as nat);
    }
}

fn read_u32_le(data: &[u8], pos: usize) -> (r: u32)
    requires
        pos + 4 <= data@.len(),
    ensures
        r == get_u32(data@, pos as int),
{
    let b0 = data[pos] as u32;
    let b1 = data[pos + 1] as u32;
    let b2 = data[pos + 2] as u32;
    let b3 = data[pos + 3] as u32;
    b0 + 256 * b1 + 65536 * b2 + 16777216 * b3
}

/// Reads a length-prefixed string at `pos`.
fn read_str(data: &[u8], pos: usize) -> (r: Result<(String, usize), CellError>)
    requires
        pos <= data@.len(),
    ensures
        match (r, dec_str(data@, pos as int)) {
            (Ok((s, p)), Ok((v, q))) => s@ == v && p == q,
            (Err(e1), Err(e2)) => e1 == e2,
            _ => false,
        },
{
    if data.len() - pos < 4 {
        return Err(CellError::UnexpectedEof);
    }
    let n = read_u32_le(data, pos) as usize;
    let start = pos + 4;
    if data.len() - start < n {
        return Err(CellError::UnexpectedEof);
    }
    let mut bytes: Vec<u8> = Vec::new();
    let mut k: usize = 0;
    while k < n
        invariant
            k <= n,
            start + n <= data@.len(),
            data.len() == data@.len(),
            bytes@ == data@.subrange(start as int, start + k),
        decreases n - k,
    {
        bytes.push(data[start + k]);
        proof {
            assert(data@.subrange(start as int, start + k + 1) =~= data@.subrange(start as int, start + k).push(data@[start + k]));
        }
        k = k + 1;
    }
    let ghost b = bytes@;
    match string_from_utf8(bytes) {
        Some(s) => {
            proof {
                vstd::utf8::encode_utf8_decode_utf8(s@);
            }
            Ok((s, start + n))
        },
        None => Err(CellError::InvalidUtf8),
    }
}

fn skip_flagged_exec(data: &[u8], pos: usize, extra: usize) -> (r: Result<usize, CellError>)
    requires
        pos <= data@.len(),
        extra <= 8,
    ensures
        match (r, skip_flagged(data@, pos as int, extra as int)) {
            (Ok(p), Ok(q)) => p == q && p <= data@.len(),
            (Err(e1), Err(e2)) => e1 == e2,
            _ => false,
        },
{
    if pos >= data.len() {
        Err(CellError::UnexpectedEof)
    } else if data[pos] == 1 {
        if data.len() - pos - 1 < extra {
            Err(CellError::UnexpectedEof)
        } else {
            Ok(pos + 1 + extra)
        }
    } else {
        Ok(pos + 1)
    }
}

/// Reads one cell at `pos`; returns it and the position after it.
#[verifier::rlimit(40)]
pub fn deserialize_cell(data: &[u8], pos: usize) -> (r: Result<(TableCell, usize), CellError>)
    requires
        pos <= data@.len(),
    ensures
        match (r, dec_cell(data@, pos as int)) {
            (Ok((c, p)), Ok((v, q))) => cell_view(c) == v && p == q,
            (Err(e1), Err(e2)) => e1 == e2,
            _ => false,
        },
{
    if pos >= data.len() {
        return Err(CellError::UnexpectedEof);
    }
    let kind = data[pos];
    let (text, p1) = match read_str(data, pos + 1) {
        Ok(x) => x,
        Err(e) => {
            return Err(e);
        },
    };
    let content = if kind == 0 {
        Cell::Text(text)
    } else if kind == 1 {
        Cell::ImagePath(text)
    } else if kind == 2 {
        Cell::ImageBase64(text)
    } else {
        return Err(CellError::InvalidCellType);
    };
    if data.len() - p1 < 10 {
        return Err(CellError::UnexpectedEof);
    }
    let colspan = read_u32_le(data, p1) as usize;
    let rowspan = read_u32_le(data, p1 + 4) as usize;
    let at = data[p1 + 8];
    let align = if at == 1 {
        Some(Align::Left)
    } else if at == 2 {
        Some(Align::Center)
    } else if at == 3 {
        Some(Align::Right)
    } else {
        None
    };
    let vt = data[p1 + 9];
    let valign = if vt == 1 {
        Some(VAlign::Top)
    } else if vt == 2 {
        Some(VAlign::Center)
    } else if vt == 3 {
        Some(VAlign::Bottom)
    } else {
        None
    };
    let p2 = p1 + 10;
    if p2 >= data.len() {
        return Err(CellError::UnexpectedEof);
    }
    let (link, p3) = if data[p2] == 1 {
        match read_str(data, p2 + 1) {
            Ok((l, q)) => (Some(l), q),
            Err(e) => {
                return Err(e);
            },
        }
    } else {
        (None, p2 + 1)
    };
    let p4 = match skip_flagged_exec(data, p3, 3) {
        Ok(q) => q,
        Err(e) => {
            return Err(e);
        },
    };
    let p5 = match skip_flagged_exec(data, p4, 3) {
        Ok(q) => q,
        Err(e) => {
            return Err(e);
        },
    };
    let p6 = match skip_flagged_exec(data, p5, 8) {
        Ok(q) => q,
        Err(e) => {
            return Err(e);
        },
    };
    Ok((TableCell { content, colspan, rowspan, align, valign, link }, p6))
}

/// Reads a row at `pos`: `None` when fewer than four bytes remain (the end of the buffer),
/// otherwise the row's cells and the position after them.
pub fn deserialize_row(data: &[u8], pos: usize) -> (r: Result<Option<(Vec<TableCell>, usize)>, CellError>)
    requires
        pos <= data@.len(),
    ensures
        match (r, dec_row(data@, pos as int)) {
            (Ok(None), Ok(None)) => true,
            (Ok(Some((cells, p))), Ok(Some((vs, q)))) => row_view(cells@) == vs && p == q,
            (Err(e1), Err(e2)) => e1 == e2,
            _ => false,
        },
{
    if data.len() - pos < 4 {
        return Ok(None);
    }
    let n = read_u32_le(data, pos);
    let mut cells: Vec<TableCell> = Vec::new();
    let mut p = pos + 4;
    let mut k: u32 = 0;
    proof {
        assert(row_view(cells@) =~= Seq::<CellView>::empty());
    }
    while k < n
        invariant
            k <= n,
            p <= data@.len(),
            pos + 4 <= data@.len(),
            n == get_u32(data@, pos as int),
            dec_cells(data@, pos + 4, k as nat) == Ok::<(Seq<CellView>, int), CellError>((row_view(cells@), p as int)),
        decreases n - k,
    {
        match deserialize_cell(data, p) {
            Ok((c, q)) => {
                let ghost before = cells@;
                cells.push(c);
                proof {
                    assert(row_view(cells@) =~= row_view(before).push(cell_view(c)));
                }
                p = q;
            },
            Err(e) => {
                proof {
                    assert(dec_cell(data@, p as int) == Err::<(CellView, int), CellError>(e));
                    assert(dec_cells(data@, pos + 4, (k + 1) as nat) == Err::<(Seq<CellView>, int), CellError>(e));
                    lemma_dec_cells_err_stays(data@, pos + 4, (k + 1) as nat, n as nat);
                    assert(get_u32(data@, pos as int) == n);
                    assert(dec_cells(data@, pos + 4, n as nat) == Err::<(Seq<CellView>, int), CellError>(e));
                    assert(dec_row(data@, pos as int) == Err::<Option<(Seq<CellView>, int)>, CellError>(e));
                }
                return Err(e);
            },
        }
        k = k + 1;
    }
    Ok(Some((cells, p)))
}


/// A cell the format holds without loss: content kind 0 to 2, spans and the byte lengths of
/// its text and link below 2^32.
pub open spec fn cell_fits(c: CellView) -> bool {
    &&& c.kind <= 2
    &&& c.colspan <= u32::MAX
    &&& c.rowspan <= u32::MAX
    &&& bytes_of(c.text).len() <= u32::MAX
    &&& (c.link matches Some(l) ==> bytes_of(l).len() <= u32::MAX)
}

proof fn lemma_split(d: Seq<u8>, p: int, a: Seq<u8>, b: Seq<u8>)
    requires
        0 <= p,
        p + a.len() + b.len() <= d.len(),
        d.subrange(p, p + a.len() + b.len()) == a + b,
    ensures
        d.subrange(p, p + a.len()) == a,
        d.subrange(p + a.len(), p + a.len() + b.len()) == b,
{
    assert(d.subrange(p, p + a.len()) =~= (a + b).subrange(0, a.len() as int));
    assert(d.subrange(p + a.len(), p + a.len() + b.len()) =~= (a + b).subrange(a.len() as int, (a.len() + b.len()) as int));
}

proof fn lemma_u32_at(d: Seq<u8>, p: int, x: u32)
    requires
        0 <= p,
        p + 4 <= d.len(),
        d.subrange(p, p + 4) == le_u32(x),
    ensures
        get_u32(d, p) == x,
{
    lemma_le_u32_roundtrip(x);
    assert(d[p] == d.subrange(p, p + 4)[0]);
    assert(d[p + 1] == d.subrange(p, p + 4)[1]);
    assert(d[p + 2] == d.subrange(p, p + 4)[2]);
    assert(d[p + 3] == d.subrange(p, p + 4)[3]);
}

proof fn lemma_dec_str(d: Seq<u8>, p: int, s: Seq<char>)
    requires
        0 <= p,
        p + enc_str(s).len() <= d.len(),
        d.subrange(p, p + enc_str(s).len()) == enc_str(s),
        bytes_of(s).len() <= u32::MAX,
    ensures
        dec_str(d, p) == Ok::<(Seq<char>, int), CellError>((s, p + enc_str(s).len())),
{
    reveal(enc_str);
    let b = bytes_of(s);
    lemma_split(d, p, le_u32(b.len() as u32), b);
    lemma_u32_at(d, p, b.len() as u32);
    vstd::utf8::encode_utf8_valid_utf8(s);
    vstd::utf8::encode_utf8_decode_utf8(s);
}

proof fn lemma_dec_cell(d: Seq<u8>, p: int, c: CellView)
    requires
        0 <= p,
        p + enc_cell(c).len() <= d.len(),
        d.subrange(p, p + enc_cell(c).len()) == enc_cell(c),
        cell_fits(c),
    ensures
        dec_cell(d, p) == Ok::<(CellView, int), CellError>((c, p + enc_cell(c).len())),
{
    let k = seq![c.kind];
    let t = enc_str(c.text);
    let l1 = le_u32(c.colspan as u32);
    let l2 = le_u32(c.rowspan as u32);
    let tags = seq![align_tag(c.align), valign_tag(c.valign)];
    let link = match c.link {
        None => seq![0u8],
        Some(l) => seq![1u8] + enc_str(l),
    };
    let z = seq![0u8, 0u8, 0u8];
    assert(enc_cell(c) == k + t + l1 + l2 + tags + link + z);
    lemma_split(d, p, k + t + l1 + l2 + tags + link, z);
    lemma_split(d, p, k + t + l1 + l2 + tags, link);
    lemma_split(d, p, k + t + l1 + l2, tags);
    lemma_split(d, p, k + t + l1, l2);
    lemma_split(d, p, k + t, l1);
    lemma_split(d, p, k, t);
    assert(d[p] == d.subrange(p, p + 1)[0]);
    let p1 = p + 1 + t.len();
    lemma_dec_str(d, p + 1, c.text);
    lemma_u32_at(d, p1, c.colspan as u32);
    lemma_u32_at(d, p1 + 4, c.rowspan as u32);
    let pt = p1 + 8;
    assert(d[pt] == d.subrange(pt, pt + 2)[0]);
    assert(d[pt + 1] == d.subrange(pt, pt + 2)[1]);
    let p2 = p1 + 10;
    match c.link {
        None => {
            assert(d[p2] == d.subrange(p2, p2 + 1)[0]);
        },
        Some(l) => {
            lemma_split(d, p2, seq![1u8], enc_str(l));
            assert(d[p2] == d.subrange(p2, p2 + 1)[0]);
            lemma_dec_str(d, p2 + 1, l);
        },
    }
    let p3 = p2 + link.len();
    assert(d[p3] == d.subrange(p3, p3 + 3)[0]);
    assert(d[p3 + 1] == d.subrange(p3, p3 + 3)[1]);
    assert(d[p3 + 2] == d.subrange(p3, p3 + 3)[2]);
}

proof fn lemma_dec_cells(d: Seq<u8>, p: int, cells: Seq<CellView>)
    requires
        0 <= p,
        p + enc_cells(cells).len() <= d.len(),
        d.subrange(p, p + enc_cells(cells).len()) == enc_cells(cells),
        forall|i: int| 0 <= i < cells.len() ==> cell_fits(#[trigger] cells[i]),
    ensures
        dec_cells(d, p, cells.len()) == Ok::<(Seq<CellView>, int), CellError>((cells, p + enc_cells(cells).len())),
    decreases cells.len(),
{
    if cells.len() > 0 {
        let init = cells.drop_last();
        let last = cells.last();
        assert(enc_cells(cells) == enc_cells(init) + enc_cell(last));
        lemma_split(d, p, enc_cells(init), enc_cell(last));
        assert forall|i: int| 0 <= i < init.len() implies cell_fits(#[trigger] init[i]) by {
            assert(init[i] == cells[i]);
        }
        lemma_dec_cells(d, p, init);
        assert(cell_fits(cells[cells.len() - 1]));
        lemma_dec_cell(d, p + enc_cells(init).len(), last);
        assert(init.push(last) =~= cells);
        assert(init.len() == (cells.len() - 1) as nat);
    } else {
        assert(cells =~= Seq::<CellView>::empty());
    }
}

/// A row read back from its own encoding gives the same cells, and the read ends exactly
/// where the encoding ends, whatever follows it.
pub proof fn row_roundtrip(cells: Seq<CellView>, rest: Seq<u8>)
    requires
        cells.len() <= u32::MAX,
        forall|i: int| 0 <= i < cells.len() ==> cell_fits(#[trigger] cells[i]),
    ensures
        dec_row(enc_row(cells) + rest, 0) == Ok::<Option<(Seq<CellView>, int)>, CellError>(
            Some((cells, enc_row(cells).len() as int)),
        ),
{
    let d = enc_row(cells) + rest;
    let e = enc_cells(cells);
    assert(d.subrange(0, (4 + e.len()) as int) =~= le_u32(cells.len() as u32) + e);
    lemma_split(d, 0, le_u32(cells.len() as u32), e);
    lemma_u32_at(d, 0, cells.len() as u32);
    lemma_dec_cells(d, 4, cells);
}

/// A row that `serialize_row` writes is read back by `deserialize_row`'s reading as the same
/// cells, ending exactly where the row ends, whatever follows: for rows of at most 2^32 - 1
/// cells whose spans and text and link lengths (in bytes) fit in 32 bits.
pub proof fn serialized_row_reads_back(row: Seq<TableCell>, rest: Seq<u8>)
    requires
        row.len() <= u32::MAX,
        forall|i: int| 0 <= i < row.len() ==> {
            let c = cell_view(#[trigger] row[i]);
            &&& c.colspan <= u32::MAX
            &&& c.rowspan <= u32::MAX
            &&& bytes_of(c.text).len() <= u32::MAX
            &&& (c.link matches Some(l) ==> bytes_of(l).len() <= u32::MAX)
        },
    ensures
        dec_row(enc_row(row_view(row)) + rest, 0) == Ok::<Option<(Seq<CellView>, int)>, CellError>(
            Some((row_view(row), enc_row(row_view(row)).len() as int)),
        ),
{
    let cells = row_view(row);
    assert forall|i: int| 0 <= i < cells.len() implies cell_fits(#[trigger] cells[i]) by {
        assert(cells[i] == cell_view(row[i]));
    }
    row_roundtrip(cells, rest);
}

/// Nanoseconds elapsed since the Unix epoch (`UNIX_EPOCH.elapsed()`, then `as_nanos`), or
/// `None` when the system clock reads earlier than the epoch. The value is the current time,
/// so nothing more is stated of it.
#[verifier::external_body]
fn nanos_since_epoch() -> (r: Option<u128>) {
    std::time::UNIX_EPOCH.elapsed().ok().map(|d| d.as_nanos())
}

/// A name that is unique per run: the current time in nanoseconds since the Unix epoch, in
/// lowercase hexadecimal without leading zeros. `None` when the clock reads earlier than the
/// epoch.
pub fn uuid_simple() -> (r: Option<String>)
    ensures
        r matches Some(s) ==> exists|n: nat| s@ == spec_hex(n, false),
{
    match nanos_since_epoch() {
        Some(n) => {
            let mut s = String::new();
            push_hex(&mut s, n, false);
            assert(s@ == spec_hex(n as nat, false));
            Some(s)
        },
        None => None,
    }
}

/// The keys that never occur in `order`, in their own order.
pub open spec fn keys_not_in(order: Seq<Seq<char>>, keys: Seq<Seq<char>>) -> Seq<Seq<char>>
    decreases keys.len(),
{
    if keys.len() == 0 {
        Seq::empty()
    } else {
        let rest = keys_not_in(order, keys.drop_last());
        if order.contains(keys.last()) {
            rest
        } else {
            rest.push(keys.last())
        }
    }
}

/// The order in which buffered tables are rendered: the requested order first, as given,
/// then every other key in the order of its first row.
pub open spec fn render_sequence(order: Seq<Seq<char>>, keys: Seq<Seq<char>>) -> Seq<Seq<char>> {
    order + keys_not_in(order, keys)
}

/// Views of a list of strings.
pub open spec fn strings_view(v: Seq<String>) -> Seq<Seq<char>> {
    v.map_values(|s: String| s@)
}

/// The table keys seen so far, each once, in the order of their first row, and the requested
/// rendering order.
pub struct TableKeys {
    keys: Vec<String>,
    order: Vec<String>,
}

impl TableKeys {
    /// Keys in the order of their first row.
    pub closed spec fn keys(&self) -> Seq<Seq<char>> {
        strings_view(self.keys@)
    }

    /// The requested rendering order.
    pub closed spec fn order(&self) -> Seq<Seq<char>> {
        strings_view(self.order@)
    }

    /// No key is recorded twice.
    pub open spec fn wf(&self) -> bool {
        self.keys().no_duplicates()
    }

    /// No keys and no requested order.
    pub fn new() -> (r: Self)
        ensures
            r.wf(),
            r.keys() == Seq::<Seq<char>>::empty(),
            r.order() == Seq::<Seq<char>>::empty(),
    {
        let r = TableKeys { keys: Vec::new(), order: Vec::new() };
        assert(r.keys() =~= Seq::<Seq<char>>::empty());
        assert(r.order() =~= Seq::<Seq<char>>::empty());
        r
    }

    /// Whether `key` has been recorded.
    pub fn contains(&self, key: &str) -> (r: bool)
        ensures
            r == self.keys().contains(key@),
    {
        let mut k: usize = 0;
        while k < self.keys.len()
            invariant
                k <= self.keys@.len(),
                forall|j: int| 0 <= j < k ==> self.keys@[j]@ != key@,
            decreases self.keys@.len() - k,
        {
            if string_eq(&self.keys[k], key) {
                assert(self.keys()[k as int] == key@);
                return true;
            }
            k = k + 1;
        }
        proof {
            if self.keys().contains(key@) {
                let j = choose|j: int| 0 <= j < self.keys().len() && self.keys()[j] == key@;
                assert(self.keys@[j]@ == key@);
            }
        }
        false
    }

    /// Records `key` on its first row: returns whether it was new, and appends it then.
    pub fn note(&mut self, key: &str) -> (r: bool)
        requires
            old(self).wf(),
        ensures
            final(self).wf(),
            r == !old(self).keys().contains(key@),
            final(self).keys() == (if r { old(self).keys().push(key@) } else { old(self).keys() }),
            final(self).order() == old(self).order(),
    {
        if self.contains(key) {
            false
        } else {
            let ghost before = self.keys@;
            self.keys.push(key.to_owned());
            proof {
                assert(strings_view(self.keys@) =~= strings_view(before).push(key@));
                let ks = self.keys();
                assert forall|i: int, j: int| 0 <= i < ks.len() && 0 <= j < ks.len() && i != j implies ks[i] != ks[j] by {
                    if i < ks.len() - 1 && j < ks.len() - 1 {
                        assert(ks[i] == strings_view(before)[i]);
                        assert(ks[j] == strings_view(before)[j]);
                    } else if i == ks.len() - 1 {
                        assert(ks[j] == strings_view(before)[j]);
                    } else {
                        assert(ks[i] == strings_view(before)[i]);
                    }
                }
            }
            true
        }
    }

    /// Sets the rendering order.
    pub fn set_order(&mut self, keys: Vec<&str>)
        ensures
            final(self).order() == keys@.map_values(|k: &str| k@),
            final(self).keys() == old(self).keys(),
    {
        let mut order: Vec<String> = Vec::new();
        let mut k: usize = 0;
        while k < keys.len()
            invariant
                k <= keys@.len(),
                strings_view(order@) == keys@.subrange(0, k as int).map_values(|x: &str| x@),
            decreases keys@.len() - k,
        {
            let ghost before = order@;
            let item = keys[k].to_owned();
            order.push(item);
            assert(strings_view(order@) =~= strings_view(before).push(keys@[k as int]@));
            assert(keys@.subrange(0, k + 1).map_values(|x: &str| x@) =~= keys@.subrange(0, k as int).map_values(|x: &str| x@).push(keys@[k as int]@));
            k = k + 1;
        }
        assert(keys@.subrange(0, keys@.len() as int) == keys@);
        self.order = order;
    }

    /// The order in which to render the tables: the requested order first, then every other
    /// recorded key in the order of its first row.
    pub fn render_order(&self) -> (r: Vec<String>)
        ensures
            strings_view(r@) == render_sequence(self.order(), self.keys()),
    {
        let mut r: Vec<String> = Vec::new();
        let mut k: usize = 0;
        while k < self.order.len()
            invariant
                k <= self.order@.len(),
                strings_view(r@) == self.order().subrange(0, k as int),
            decreases self.order@.len() - k,
        {
            let ghost before = r@;
            r.push(self.order[k].clone());
            assert(strings_view(r@) =~= strings_view(before).push(self.order@[k as int]@));
            assert(self.order().subrange(0, k + 1) =~= self.order().subrange(0, k as int).push(self.order()[k as int]));
            k = k + 1;
        }
        assert(self.order().subrange(0, self.order().len() as int) == self.order());
        let mut i: usize = 0;
        while i < self.keys.len()
            invariant
                i <= self.keys@.len(),
                strings_view(r@) == self.order() + keys_not_in(self.order(), self.keys().subrange(0, i as int)),
            decreases self.keys@.len() - i,
        {
            let key = &self.keys[i];
            let in_order = contains_string(&self.order, key);
            let ghost pre = self.keys().subrange(0, i as int);
            assert(self.keys().subrange(0, i + 1).drop_last() == pre);
            assert(self.keys().subrange(0, i + 1).last() == key@);
            if !in_order {
                let ghost before = r@;
                r.push(key.clone());
                assert(strings_view(r@) =~= strings_view(before).push(key@));
            }
            i = i + 1;
        }
        assert(self.keys().subrange(0, self.keys().len() as int) == self.keys());
        r
    }
}

/// Whether `key` occurs in `v`.
fn contains_string(v: &Vec<String>, key: &String) -> (r: bool)
    ensures
        r == strings_view(v@).contains(key@),
{
    let mut k: usize = 0;
    while k < v.len()
        invariant
            k <= v@.len(),
            forall|j: int| 0 <= j < k ==> v@[j]@ != key@,
        decreases v@.len() - k,
    {
        if v[k] == *key {
            assert(strings_view(v@)[k as int] == key@);
            return true;
        }
        k = k + 1;
    }
    proof {
        if strings_view(v@).contains(key@) {
            let j = choose|j: int| 0 <= j < strings_view(v@).len() && strings_view(v@)[j] == key@;
            assert(v@[j]@ == key@);
        }
    }
    false
}

/// The rendering order lists the requested keys first, exactly as requested, and every
/// recorded key exactly once after them unless it was requested.
pub proof fn render_order_covers(order: Seq<Seq<char>>, keys: Seq<Seq<char>>)
    ensures
        render_sequence(order, keys).subrange(0, order.len() as int) == order,
        forall|k: Seq<char>| keys.contains(k) ==> #[trigger] render_sequence(order, keys).contains(k),
        forall|k: Seq<char>| #[trigger] render_sequence(order, keys).contains(k) ==> order.contains(k) || keys.contains(k),
    decreases keys.len(),
{
    let r = render_sequence(order, keys);
    assert(r.subrange(0, order.len() as int) =~= order);
    if keys.len() > 0 {
        let init = keys.drop_last();
        render_order_covers(order, init);
        let r0 = render_sequence(order, init);
        assert forall|k: Seq<char>| keys.contains(k) implies #[trigger] r.contains(k) by {
            let j = choose|j: int| 0 <= j < keys.len() && keys[j] == k;
            if j < keys.len() - 1 {
                assert(init[j] == k);
                assert(init.contains(k));
                assert(r0.contains(k));
                let m = choose|m: int| 0 <= m < r0.len() && r0[m] == k;
                if order.contains(keys.last()) {
                    assert(r == r0);
                } else {
                    assert(r =~= r0.push(keys.last()));
                    assert(r[m] == k);
                }
            } else {
                if order.contains(k) {
                    let m = choose|m: int| 0 <= m < order.len() && order[m] == k;
                    assert(r[m] == k);
                } else {
                    assert(r =~= r0.push(keys.last()));
                    assert(r[r.len() - 1] == k);
                }
            }
        }
        assert forall|k: Seq<char>| #[trigger] r.contains(k) implies order.contains(k) || keys.contains(k) by {
            let m = choose|m: int| 0 <= m < r.len() && r[m] == k;
            if order.contains(keys.last()) {
                assert(r == r0);
                assert(r0.contains(k));
            } else {
                assert(r =~= r0.push(keys.last()));
                if m < r.len() - 1 {
                    assert(r0[m] == k);
                    assert(r0.contains(k));
                } else {
                    assert(keys[keys.len() - 1] == k);
                }
            }
            if keys.contains(k) {
            } else if order.contains(k) {
            } else {
                assert(init.contains(k) ==> keys.contains(k)) by {
                    if init.contains(k) {
                        let j = choose|j: int| 0 <= j < init.len() && init[j] == k;
                        assert(keys[j] == k);
                    }
                }
            }
        }
    } else {
        assert(r =~= order);
    }
}

} // verus!
