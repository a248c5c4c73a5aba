//! Table cells, row builders and the placement of cells on the table grid.
use vstd::prelude::*;
use crate::{Align, VAlign};

verus! {

/// Border style of a table: every cell framed, no lines at all, a line under each cell,
/// or a line under header cells only.
#[derive(Clone, Copy, Debug, PartialEq, Eq, Structural)]
pub enum TableBorderStyle {
    Full,
    NoBorder,
    Underlined,
    HeaderOnly,
}

impl Default for TableBorderStyle {
    fn default() -> (r: Self)
        ensures
            r == TableBorderStyle::Full,
    {
        TableBorderStyle::Full
    }
}

/// Default alignments of a column.
#[derive(Clone, Copy, Debug)]
pub struct ColumnConfig {
    pub align: Align,
    pub valign: VAlign,
}

impl Default for ColumnConfig {
    fn default() -> (r: Self)
        ensures
            r.align == Align::Left,
            r.valign == VAlign::Top,
    {
        ColumnConfig { align: Align::Left, valign: VAlign::Top }
    }
}

/// What a table cell shows.
#[derive(Clone)]
pub enum Cell {
    Text(String),
    ImagePath(String),
    ImageBase64(String),
}

/// A cell of a table row.
#[derive(Clone)]
pub struct TableCell {
    pub content: Cell,
    pub colspan: usize,
    pub rowspan: usize,
    pub align: Option<Align>,
    pub valign: Option<VAlign>,
    pub link: Option<String>,
}

/// Abstract content of a cell: its kind (0 text, 1 image path, 2 base64 image) and its text.
pub open spec fn cell_content_view(c: Cell) -> (u8, Seq<char>) {
    match c {
        Cell::Text(s) => (0u8, s@),
        Cell::ImagePath(s) => (1u8, s@),
        Cell::ImageBase64(s) => (2u8, s@),
    }
}

/// A fresh cell: span one, no alignment, no link.
pub open spec fn is_fresh_cell(r: TableCell, kind: u8, s: Seq<char>) -> bool {
    &&& cell_content_view(r.content) == (kind, s)
    &&& r.colspan == 1
    &&& r.rowspan == 1
    &&& r.align is None
    &&& r.valign is None
    &&& r.link is None
}

/// `n`, or one when `n` is zero.
pub open spec fn at_least_one(n: usize) -> usize {
    if n > 1 { n } else { 1 }
}

impl TableCell {
    /// A text cell.
    pub fn text(s: &str) -> (r: Self)
        ensures
            is_fresh_cell(r, 0, s@),
    {
        TableCell { content: Cell::Text(s.to_owned()), colspan: 1, rowspan: 1, align: None, valign: None, link: None }
    }

    /// An image cell that loads the image from a file path.
    pub fn image(path: &str) -> (r: Self)
        ensures
            is_fresh_cell(r, 1, path@),
    {
        TableCell {
            content: Cell::ImagePath(path.to_owned()),
            colspan: 1,
            rowspan: 1,
            align: None,
            valign: None,
            link: None,
        }
    }

    /// An image cell holding Base64 image data.
    pub fn image_base64(b64: &str) -> (r: Self)
        ensures
            is_fresh_cell(r, 2, b64@),
    {
        TableCell {
            content: Cell::ImageBase64(b64.to_owned()),
            colspan: 1,
            rowspan: 1,
            align: None,
            valign: None,
            link: None,
        }
    }

    /// The cell spanning `n` columns (at least one).
    pub fn with_span(self, n: usize) -> (r: Self)
        ensures
            r == (TableCell { colspan: at_least_one(n), ..self }),
    {
        let mut c = self;
        c.colspan = if n > 1 { n } else { 1 };
        c
    }

    /// The cell spanning `n` rows (at least one).
    pub fn with_rowspan(self, n: usize) -> (r: Self)
        ensures
            r == (TableCell { rowspan: at_least_one(n), ..self }),
    {
        let mut c = self;
        c.rowspan = if n > 1 { n } else { 1 };
        c
    }

    /// The cell with its horizontal alignment set.
    pub fn align(self, a: Align) -> (r: Self)
        ensures
            r == (TableCell { align: Some(a), ..self }),
    {
        let mut c = self;
        c.align = Some(a);
        c
    }

    /// The cell with its vertical alignment set.
    pub fn valign(self, v: VAlign) -> (r: Self)
        ensures
            r == (TableCell { valign: Some(v), ..self }),
    {
        let mut c = self;
        c.valign = Some(v);
        c
    }

    /// The cell with a hyperlink to `url`.
    pub fn link(self, url: &str) -> (r: Self)
        ensures
            r.content == self.content,
            r.colspan == self.colspan,
            r.rowspan == self.rowspan,
            r.align == self.align,
            r.valign == self.valign,
            r.link matches Some(l) && l@ == url@,
    {
        let mut c = self;
        c.link = Some(url.to_owned());
        c
    }
}

impl From<&str> for TableCell {
    /// The text cell of `s`, as `TableCell::text` builds it.
    fn from(s: &str) -> (r: Self)
        ensures
            is_fresh_cell(r, 0, s@),
    {
        TableCell::text(s)
    }
}

// The cell holds a copy of the text, a `String` that spec code can only describe by its
// view, so `from` is specified by its `ensures` (a fresh text cell) rather than by a value.
impl vstd::std_specs::convert::FromSpecImpl<&str> for TableCell {
    open spec fn obeys_from_spec() -> bool {
        false
    }

    open spec fn from_spec(s: &str) -> Self {
        choose|c: TableCell| is_fresh_cell(c, 0, s@)
    }
}

impl From<String> for TableCell {
    fn from(s: String) -> (r: Self) {
        TableCell { content: Cell::Text(s), colspan: 1, rowspan: 1, align: None, valign: None, link: None }
    }
}

impl vstd::std_specs::convert::FromSpecImpl<String> for TableCell {
    open spec fn obeys_from_spec() -> bool {
        true
    }

    open spec fn from_spec(s: String) -> Self {
        TableCell { content: Cell::Text(s), colspan: 1, rowspan: 1, align: None, valign: None, link: None }
    }
}


/// Fluent builder for the cells of one table row.
pub struct RowBuilder {
    pub cells: Vec<TableCell>,
}

impl Default for RowBuilder {
    fn default() -> (r: Self)
        ensures
            r.cells@.len() == 0,
    {
        RowBuilder::new()
    }
}

/// `cells` with `f` applied to the last cell (no change when there is none).
pub open spec fn update_last(cells: Seq<TableCell>, f: spec_fn(TableCell) -> TableCell) -> Seq<TableCell> {
    if cells.len() == 0 {
        cells
    } else {
        cells.update(cells.len() - 1, f(cells.last()))
    }
}

impl RowBuilder {
    /// An empty row.
    pub fn new() -> (r: Self)
        ensures
            r.cells@.len() == 0,
    {
        RowBuilder { cells: Vec::new() }
    }

    fn push_cell(&mut self, c: TableCell) -> (r: &mut Self)
        ensures
            r.cells@ == old(self).cells@.push(c),
            *final(self) == *final(r),
    {
        self.cells.push(c);
        self
    }

    /// Adds a text cell.
    pub fn cell(&mut self, text: &str) -> (r: &mut Self)
        ensures
            r.cells@.len() == old(self).cells@.len() + 1,
            r.cells@.drop_last() == old(self).cells@,
            is_fresh_cell(r.cells@.last(), 0, text@),
            *final(self) == *final(r),
    {
        let c = TableCell::text(text);
        self.push_cell(c)
    }

    /// Adds an image cell loaded from a file path.
    pub fn cell_image(&mut self, path: &str) -> (r: &mut Self)
        ensures
            r.cells@.len() == old(self).cells@.len() + 1,
            r.cells@.drop_last() == old(self).cells@,
            is_fresh_cell(r.cells@.last(), 1, path@),
            *final(self) == *final(r),
    {
        let c = TableCell::image(path);
        self.push_cell(c)
    }

    /// Adds an image cell from Base64 data.
    pub fn cell_image_base64(&mut self, b64: &str) -> (r: &mut Self)
        ensures
            r.cells@.len() == old(self).cells@.len() + 1,
            r.cells@.drop_last() == old(self).cells@,
            is_fresh_cell(r.cells@.last(), 2, b64@),
            *final(self) == *final(r),
    {
        let c = TableCell::image_base64(b64);
        self.push_cell(c)
    }

    fn update_last_cell(&mut self, colspan: Option<usize>, rowspan: Option<usize>, align: Option<Align>, valign: Option<VAlign>) -> (r: &mut Self)
        ensures
            r.cells@ == update_last(old(self).cells@, |c: TableCell| TableCell {
                colspan: match colspan { Some(n) => n, None => c.colspan },
                rowspan: match rowspan { Some(n) => n, None => c.rowspan },
                align: match align { Some(a) => Some(a), None => c.align },
                valign: match valign { Some(v) => Some(v), None => c.valign },
                ..c
            }),
            *final(self) == *final(r),
    {
        let n = self.cells.len();
        if n > 0 {
            let mut last = self.cells.pop().unwrap();
            match colspan {
                Some(k) => {
                    last.colspan = k;
                },
                None => {},
            }
            match rowspan {
                Some(k) => {
                    last.rowspan = k;
                },
                None => {},
            }
            match align {
                Some(a) => {
                    last.align = Some(a);
                },
                None => {},
            }
            match valign {
                Some(v) => {
                    last.valign = Some(v);
                },
                None => {},
            }
            self.cells.push(last);
        }
        self
    }

    /// Sets the column span of the last cell (at least one).
    pub fn span(&mut self, n: usize) -> (r: &mut Self)
        ensures
            r.cells@ == update_last(old(self).cells@, |c: TableCell| TableCell { colspan: at_least_one(n), ..c }),
            *final(self) == *final(r),
    {
        let k = if n > 1 { n } else { 1 };
        self.update_last_cell(Some(k), None, None, None)
    }

    /// Sets the row span of the last cell (at least one).
    pub fn rowspan(&mut self, n: usize) -> (r: &mut Self)
        ensures
            r.cells@ == update_last(old(self).cells@, |c: TableCell| TableCell { rowspan: at_least_one(n), ..c }),
            *final(self) == *final(r),
    {
        let k = if n > 1 { n } else { 1 };
        self.update_last_cell(None, Some(k), None, None)
    }

    /// Sets the horizontal alignment of the last cell.
    pub fn align(&mut self, a: Align) -> (r: &mut Self)
        ensures
            r.cells@ == update_last(old(self).cells@, |c: TableCell| TableCell { align: Some(a), ..c }),
            *final(self) == *final(r),
    {
        self.update_last_cell(None, None, Some(a), None)
    }

    /// Sets the vertical alignment of the last cell.
    pub fn valign(&mut self, v: VAlign) -> (r: &mut Self)
        ensures
            r.cells@ == update_last(old(self).cells@, |c: TableCell| TableCell { valign: Some(v), ..c }),
            *final(self) == *final(r),
    {
        self.update_last_cell(None, None, None, Some(v))
    }

    /// Adds a hyperlink to the last cell.
    pub fn link(&mut self, url: &str) -> (r: &mut Self)
        ensures
            r.cells@.len() == old(self).cells@.len(),
            forall|k: int| 0 <= k < r.cells@.len() - 1 ==> r.cells@[k] == old(self).cells@[k],
            r.cells@.len() > 0 ==> {
                let (a, b) = (r.cells@.last(), old(self).cells@.last());
                &&& a.content == b.content
                &&& a.colspan == b.colspan
                &&& a.rowspan == b.rowspan
                &&& a.align == b.align
                &&& a.valign == b.valign
                &&& a.link matches Some(l) && l@ == url@
            },
            *final(self) == *final(r),
    {
        let n = self.cells.len();
        if n > 0 {
            let last = self.cells.pop().unwrap();
            let updated = last.link(url);
            self.cells.push(updated);
        }
        self
    }
}

/// `configs` after setting the alignment of column `col`, first completing the list with
/// default columns when it is too short.
pub open spec fn spec_set_column(configs: Seq<ColumnConfig>, col: int, align: Option<Align>, valign: Option<VAlign>) -> Seq<ColumnConfig> {
    let grown = if configs.len() > col {
        configs
    } else {
        configs + Seq::new((col + 1 - configs.len()) as nat, |k: int| ColumnConfig { align: Align::Left, valign: VAlign::Top })
    };
    let c = grown[col];
    grown.update(col, ColumnConfig {
        align: match align { Some(a) => a, None => c.align },
        valign: match valign { Some(v) => v, None => c.valign },
    })
}

fn set_column(configs: &mut Vec<ColumnConfig>, col: usize, align: Option<Align>, valign: Option<VAlign>)
    requires
        col < usize::MAX,
    ensures
        final(configs)@ == spec_set_column(old(configs)@, col as int, align, valign),
{
    let ghost old_c = configs@;
    while configs.len() <= col
        invariant
            col < usize::MAX,
            old_c.len() <= configs@.len() <= col + 1 || (configs@.len() == old_c.len()),
            configs@.len() >= old_c.len(),
            configs@.subrange(0, old_c.len() as int) == old_c,
            forall|k: int| old_c.len() <= k < configs@.len() ==> #[trigger] configs@[k] == (ColumnConfig { align: Align::Left, valign: VAlign::Top }),
            old_c.len() > col ==> configs@ == old_c,
        decreases col + 1 - configs@.len(),
    {
        configs.push(ColumnConfig::default());
    }
    let cur_align = configs[col].align;
    let cur_valign = configs[col].valign;
    let updated = ColumnConfig {
        align: match align { Some(a) => a, None => cur_align },
        valign: match valign { Some(v) => v, None => cur_valign },
    };
    configs.set(col, updated);
    proof {
        let grown = if old_c.len() > col { old_c } else {
            old_c + Seq::new((col + 1 - old_c.len()) as nat, |k: int| ColumnConfig { align: Align::Left, valign: VAlign::Top })
        };
        assert(old(configs)@ == old_c);
        assert(grown =~= configs@.update(col as int, grown[col as int]));
    }
}

/// Sets the default horizontal alignment of column `col`, adding default columns before it
/// when needed.
pub fn set_column_align(configs: &mut Vec<ColumnConfig>, col: usize, align: Align)
    requires
        col < usize::MAX,
    ensures
        final(configs)@ == spec_set_column(old(configs)@, col as int, Some(align), None),
{
    set_column(configs, col, Some(align), None);
}

/// Sets the default vertical alignment of column `col`, adding default columns before it
/// when needed.
pub fn set_column_valign(configs: &mut Vec<ColumnConfig>, col: usize, valign: VAlign)
    requires
        col < usize::MAX,
    ensures
        final(configs)@ == spec_set_column(old(configs)@, col as int, None, Some(valign)),
{
    set_column(configs, col, None, Some(valign));
}


/// Where a cell lands on the table grid: the row it belongs to, its position within that
/// row, its first column and how many columns and rows it covers.
#[derive(Clone, Copy, Debug, PartialEq, Eq, Structural)]
pub struct Placement {
    pub row: usize,
    pub index: usize,
    pub start_col: usize,
    pub span_w: usize,
    pub span_h: usize,
}

/// The placed cells of a table and the number of grid rows they need.
pub struct Grid {
    pub placements: Vec<Placement>,
    pub row_count: usize,
}

/// Abstract grid state: which slots are taken and the placements made so far.
pub struct GridModel {
    pub occ: Seq<Seq<bool>>,
    pub placed: Seq<Placement>,
}

/// Slot `(r, c)` is taken.
pub open spec fn taken(occ: Seq<Seq<bool>>, r: int, c: int) -> bool {
    0 <= r < occ.len() && 0 <= c < occ[r].len() && occ[r][c]
}

/// The first column at or after `c` whose slot in row `r` is free (`n` when none is).
pub open spec fn first_free(occ: Seq<Seq<bool>>, r: int, c: int, n: int) -> int
    decreases n - c,
{
    if c >= n || !taken(occ, r, c) {
        c
    } else {
        first_free(occ, r, c + 1, n)
    }
}

/// `occ` with the `w` by `h` block at `(r, c)` taken, adding empty rows below when the block
/// reaches past the last row.
pub open spec fn mark_block(occ: Seq<Seq<bool>>, r: int, c: int, w: int, h: int, n: int) -> Seq<Seq<bool>> {
    let len = if r + h > occ.len() { r + h } else { occ.len() as int };
    Seq::new(len as nat, |x: int| Seq::new(n as nat, |y: int| taken(occ, x, y) || (r <= x < r + h && c <= y < c + w)))
}

/// One cell of row `r`: placed at the first free column from the cursor, its width cut to the
/// columns left; once no column is free the rest of the row is dropped.
pub open spec fn cell_step(
    st: (GridModel, int, bool),
    r: int,
    i: int,
    spans: (usize, usize),
    n: int,
) -> (GridModel, int, bool) {
    let (g, c, done) = st;
    if done {
        st
    } else {
        let c2 = first_free(g.occ, r, c, n);
        if c2 >= n {
            (g, c2, true)
        } else {
            let w = if spans.0 < n - c2 { spans.0 as int } else { n - c2 };
            let h = spans.1 as int;
            (
                GridModel {
                    occ: mark_block(g.occ, r, c2, w, h, n),
                    placed: g.placed.push(
                        Placement { row: r as usize, index: i as usize, start_col: c2 as usize, span_w: w as usize, span_h: h as usize },
                    ),
                },
                c2,
                false,
            )
        }
    }
}

/// State after the first `k` cells of row `r`.
pub open spec fn row_state(g0: GridModel, r: int, cells: Seq<(usize, usize)>, k: int, n: int) -> (GridModel, int, bool)
    decreases k,
{
    if k <= 0 {
        (g0, 0, false)
    } else {
        cell_step(row_state(g0, r, cells, k - 1, n), r, k - 1, cells[k - 1], n)
    }
}

/// Column and row spans of every cell.
pub open spec fn spans_of(rows: Seq<Vec<TableCell>>) -> Seq<Seq<(usize, usize)>> {
    rows.map_values(|v: Vec<TableCell>| v@.map_values(|c: TableCell| (c.colspan, c.rowspan)))
}

/// An empty grid of `len` rows and `n` columns.
pub open spec fn empty_grid(len: nat, n: nat) -> Seq<Seq<bool>> {
    Seq::new(len, |x: int| Seq::new(n, |y: int| false))
}

/// State after the first `m` rows.
pub open spec fn rows_state(rows: Seq<Seq<(usize, usize)>>, m: int, n: int) -> GridModel
    decreases m,
{
    if m <= 0 {
        GridModel { occ: empty_grid(rows.len(), n as nat), placed: Seq::empty() }
    } else {
        let g = rows_state(rows, m - 1, n);
        row_state(g, m - 1, rows[m - 1], rows[m - 1].len() as int, n).0
    }
}

/// Placement `p` covers slot `(x, y)`.
pub open spec fn covers(p: Placement, x: int, y: int) -> bool {
    p.row <= x < p.row + p.span_h && p.start_col <= y < p.start_col + p.span_w
}

/// Every cell of every row spans exactly one row.
pub open spec fn single_row_cells(rows: Seq<Vec<TableCell>>) -> bool {
    forall|a: int, j: int| 0 <= a < rows.len() && 0 <= j < rows[a]@.len() ==> (#[trigger] rows[a]@[j]).rowspan == 1
}

/// No slot of the grid is covered by two placements.
pub open spec fn placements_disjoint(placed: Seq<Placement>) -> bool {
    forall|j: int, k: int, x: int, y: int|
        0 <= j < k < placed.len() && #[trigger] covers(placed[j], x, y) ==> !#[trigger] covers(placed[k], x, y)
}

fn empty_row(n: usize) -> (v: Vec<bool>)
    ensures
        v@ == Seq::new(n as nat, |y: int| false),
{
    let mut v: Vec<bool> = Vec::new();
    let mut k: usize = 0;
    while k < n
        invariant
            k <= n,
            v@ == Seq::new(k as nat, |y: int| false),
        decreases n - k,
    {
        v.push(false);
        k = k + 1;
    }
    v
}

/// Abstract view of the slot table.
pub open spec fn occ_view(occ: Seq<Vec<bool>>) -> Seq<Seq<bool>> {
    occ.map_values(|v: Vec<bool>| v@)
}

/// Takes the `w` by `h` block at `(r, c)`, growing the table when needed.
fn mark(occ: &mut Vec<Vec<bool>>, r: usize, c: usize, w: usize, h: usize, n: usize)
    requires
        forall|x: int| 0 <= x < old(occ)@.len() ==> #[trigger] old(occ)@[x]@.len() == n,
        r < old(occ)@.len(),
        r + h <= usize::MAX,
        c + w <= n,
    ensures
        occ_view(final(occ)@) == mark_block(occ_view(old(occ)@), r as int, c as int, w as int, h as int, n as int),
        forall|x: int| 0 <= x < final(occ)@.len() ==> #[trigger] final(occ)@[x]@.len() == n,
        final(occ)@.len() >= old(occ)@.len(),
{
    let ghost o0 = occ_view(occ@);
    while occ.len() < r + h
        invariant
            occ@.len() >= o0.len(),
            occ@.len() == o0.len() || occ@.len() <= r + h,
            r + h <= usize::MAX,
            forall|x: int| 0 <= x < occ@.len() ==> #[trigger] occ@[x]@.len() == n,
            forall|x: int| 0 <= x < o0.len() ==> #[trigger] occ@[x]@ == o0[x],
            forall|x: int| o0.len() <= x < occ@.len() ==> #[trigger] occ@[x]@ == Seq::new(n as nat, |y: int| false),
        decreases r + h - occ@.len(),
    {
        occ.push(empty_row(n));
    }
    let len = occ.len();
    let mut x: usize = 0;
    while x < len
        invariant
            len == occ@.len(),
            len == (if r + h > o0.len() { r + h } else { o0.len() as int }),
            c + w <= n,
            r + h <= usize::MAX,
            x <= len,
            forall|z: int| 0 <= z < len ==> #[trigger] occ@[z]@.len() == n,
            forall|z: int| 0 <= z < x ==> #[trigger] occ@[z]@ == Seq::new(n as nat, |y: int| taken(o0, z, y) || (r <= z < r + h && c <= y < c + w)),
            forall|z: int| x <= z < len ==> #[trigger] occ@[z]@ == (if z < o0.len() { o0[z] } else { Seq::new(n as nat, |y: int| false) }),
            forall|z: int| 0 <= z < o0.len() ==> #[trigger] o0[z].len() == n,
        decreases len - x,
    {
        let mut row_v: Vec<bool> = Vec::new();
        let mut y: usize = 0;
        while y < n
            invariant
                y <= n,
                x < len,
                c + w <= n,
                r + h <= usize::MAX,
                len == occ@.len(),
                occ@[x as int]@.len() == n,
                occ@[x as int]@ == (if (x as int) < o0.len() { o0[x as int] } else { Seq::new(n as nat, |y: int| false) }),
                forall|z: int| 0 <= z < o0.len() ==> #[trigger] o0[z].len() == n,
                row_v@ == Seq::new(y as nat, |t: int| taken(o0, x as int, t) || (r <= x < r + h && c <= t < c + w)),
            decreases n - y,
        {
            let in_block = r <= x && x < r + h && c <= y && y < c + w;
            let b = occ[x][y] || in_block;
            row_v.push(b);
            y = y + 1;
        }
        occ.set(x, row_v);
        x = x + 1;
    }
    proof {
        assert(occ_view(occ@) =~= mark_block(o0, r as int, c as int, w as int, h as int, n as int));
    }
}


/// Properties of the placements made so far: each lies within the columns and below the
/// table's last row, keeps the cell's row span and its column span cut to the columns left, covers only
/// taken slots, and starts on a slot no earlier placement covers.
pub open spec fn placements_ok(placed: Seq<Placement>, occ: Seq<Seq<bool>>, sp: Seq<Seq<(usize, usize)>>, n: int) -> bool {
    &&& forall|k: int| 0 <= k < placed.len() ==> {
        let p = #[trigger] placed[k];
        &&& p.row < sp.len()
        &&& p.index < sp[p.row as int].len()
        &&& p.start_col < n
        &&& p.start_col + p.span_w <= n
        &&& p.span_h == sp[p.row as int][p.index as int].1
        &&& p.span_w == (if sp[p.row as int][p.index as int].0 < n - p.start_col {
            sp[p.row as int][p.index as int].0 as int
        } else {
            n - p.start_col
        })
        &&& p.row + p.span_h <= occ.len()
    }
    &&& forall|k: int, x: int, y: int| 0 <= k < placed.len() && #[trigger] covers(placed[k], x, y) ==> taken(occ, x, y)
    &&& forall|j: int, k: int|
        0 <= j < k < placed.len() ==> !covers(#[trigger] placed[j], #[trigger] placed[k].row as int, placed[k].start_col as int)
}

/// Places the cells of `rows` on a grid of `num_cols` columns, row after row: each cell goes
/// to the first free column at or after the previous cell of its row, covers at most the
/// columns that remain, and marks the slots it covers (in later rows too, for row spans);
/// cells that find no free column are dropped.
pub fn place_cells(rows: &[Vec<TableCell>], num_cols: usize) -> (g: Grid)
    requires
        forall|r: int, i: int|
            0 <= r < rows@.len() && 0 <= i < rows@[r]@.len() ==> rows@.len() + (#[trigger] rows@[r]@[i]).rowspan <= usize::MAX,
    ensures
        g.placements@ == rows_state(spans_of(rows@), rows@.len() as int, num_cols as int).placed,
        g.row_count == rows_state(spans_of(rows@), rows@.len() as int, num_cols as int).occ.len(),
        g.row_count >= rows@.len(),
        forall|k: int| 0 <= k < g.placements@.len() ==> {
            let p = #[trigger] g.placements@[k];
            &&& p.row < rows@.len()
            &&& p.index < rows@[p.row as int]@.len()
            &&& p.start_col < num_cols
            &&& p.start_col + p.span_w <= num_cols
            &&& p.span_h == rows@[p.row as int]@[p.index as int].rowspan
            &&& p.span_w == (if rows@[p.row as int]@[p.index as int].colspan < num_cols - p.start_col {
                rows@[p.row as int]@[p.index as int].colspan as int
            } else {
                num_cols - p.start_col
            })
            &&& p.row + p.span_h <= g.row_count
        },
        forall|j: int, k: int|
            0 <= j < k < g.placements@.len() ==> !covers(
                #[trigger] g.placements@[j],
                #[trigger] g.placements@[k].row as int,
                g.placements@[k].start_col as int,
            ),
        single_row_cells(rows@) ==> placements_disjoint(g.placements@),
{
    let ghost sp = spans_of(rows@);
    let ghost n = num_cols as int;
    let mut occ: Vec<Vec<bool>> = Vec::new();
    let mut t: usize = 0;
    while t < rows.len()
        invariant
            t <= rows@.len(),
            occ@.len() == t,
            forall|x: int| 0 <= x < t ==> #[trigger] occ@[x]@ == Seq::new(num_cols as nat, |y: int| false),
        decreases rows@.len() - t,
    {
        occ.push(empty_row(num_cols));
        t = t + 1;
    }
    proof {
        assert(occ_view(occ@) =~= empty_grid(rows@.len(), num_cols as nat));
    }
    let mut placed: Vec<Placement> = Vec::new();
    let mut r: usize = 0;
    while r < rows.len()
        invariant
            sp == spans_of(rows@),
            n == num_cols as int,
            r <= rows@.len(),
            forall|a: int, i: int|
                0 <= a < rows@.len() && 0 <= i < rows@[a]@.len() ==> rows@.len() + (#[trigger] rows@[a]@[i]).rowspan <= usize::MAX,
            occ_view(occ@) == rows_state(sp, r as int, n).occ,
            placed@ == rows_state(sp, r as int, n).placed,
            occ@.len() >= rows@.len(),
            forall|x: int| 0 <= x < occ@.len() ==> #[trigger] occ@[x]@.len() == num_cols,
            placements_ok(placed@, occ_view(occ@), sp, n),
            forall|k: int| 0 <= k < placed@.len() ==> (#[trigger] placed@[k]).row < r,
            single_row_cells(rows@) ==> placements_disjoint(placed@),
        decreases rows@.len() - r,
    {
        let row = &rows[r];
        let ghost g0 = rows_state(sp, r as int, n);
        let mut c: usize = 0;
        let mut done = false;
        let mut i: usize = 0;
        proof {
            assert(sp[r as int] == row@.map_values(|cc: TableCell| (cc.colspan, cc.rowspan)));
        }
        while i < row.len()
            invariant
                sp == spans_of(rows@),
                n == num_cols as int,
                r < rows@.len(),
                *row == rows@[r as int],
                i <= row@.len(),
                sp[r as int] == row@.map_values(|cc: TableCell| (cc.colspan, cc.rowspan)),
                forall|a: int, j: int|
                    0 <= a < rows@.len() && 0 <= j < rows@[a]@.len() ==> rows@.len() + (#[trigger] rows@[a]@[j]).rowspan <= usize::MAX,
                (GridModel { occ: occ_view(occ@), placed: placed@ }, c as int, done)
                    == row_state(g0, r as int, sp[r as int], i as int, n),
                occ@.len() >= rows@.len(),
                forall|x: int| 0 <= x < occ@.len() ==> #[trigger] occ@[x]@.len() == num_cols,
                placements_ok(placed@, occ_view(occ@), sp, n),
                forall|k: int| 0 <= k < placed@.len() ==> (#[trigger] placed@[k]).row <= r,
                forall|k: int| 0 <= k < placed@.len() && (#[trigger] placed@[k]).row == r ==> placed@[k].start_col <= c,
                single_row_cells(rows@) ==> placements_disjoint(placed@),
            decreases row@.len() - i,
        {
            if !done {
                let ghost ov = occ_view(occ@);
                let ghost c0 = c as int;
                while c < num_cols && occ[r][c]
                    invariant
                        r < occ@.len(),
                        occ@[r as int]@.len() == num_cols,
                        ov == occ_view(occ@),
                        c <= num_cols,
                        first_free(ov, r as int, c0, n) == first_free(ov, r as int, c as int, n),
                        n == num_cols as int,
                        c0 <= c,
                    decreases num_cols - c,
                {
                    c = c + 1;
                }
                if c >= num_cols {
                    done = true;
                } else {
                    let cell = &row[i];
                    let w = if cell.colspan < num_cols - c { cell.colspan } else { num_cols - c };
                    let h = cell.rowspan;
                    let p = Placement { row: r, index: i, start_col: c, span_w: w, span_h: h };
                    let ghost prev = placed@;
                    proof {
                        assert(rows@[r as int]@[i as int] == *cell);
                        assert(sp[r as int][i as int] == (cell.colspan, cell.rowspan));
                        assert(!taken(ov, r as int, c as int));
                    }
                    mark(&mut occ, r, c, w, h, num_cols);
                    placed.push(p);
                    proof {
                        let nv = occ_view(occ@);
                        assert forall|k: int, x: int, y: int| 0 <= k < placed@.len() && #[trigger] covers(placed@[k], x, y) implies taken(nv, x, y) by {
                            if k < prev.len() {
                                assert(covers(prev[k], x, y));
                                assert(taken(ov, x, y));
                            }
                        }
                        if single_row_cells(rows@) {
                            assert forall|j: int, k: int, x: int, y: int|
                                0 <= j < k < placed@.len() && #[trigger] covers(placed@[j], x, y) implies !#[trigger] covers(placed@[k], x, y) by {
                                if k == prev.len() {
                                    let q = prev[j];
                                    assert(placed@[j] == q);
                                    assert(sp[q.row as int][q.index as int] == (rows@[q.row as int]@[q.index as int].colspan, rows@[q.row as int]@[q.index as int].rowspan));
                                    assert(rows@[q.row as int]@[q.index as int].rowspan == 1);
                                    if covers(placed@[k], x, y) {
                                        assert(h == 1);
                                        assert(q.row == r);
                                        assert(q.start_col <= c);
                                        assert(covers(q, r as int, c as int));
                                        assert(taken(ov, r as int, c as int));
                                    }
                                } else {
                                    assert(placed@[j] == prev[j]);
                                    assert(placed@[k] == prev[k]);
                                }
                            }
                        }
                        assert forall|j: int, k: int|
                            0 <= j < k < placed@.len() implies !covers(#[trigger] placed@[j], #[trigger] placed@[k].row as int, placed@[k].start_col as int) by {
                            if k == prev.len() {
                                if covers(prev[j], r as int, c as int) {
                                    assert(taken(ov, r as int, c as int));
                                }
                            } else {
                                assert(placed@[j] == prev[j]);
                                assert(placed@[k] == prev[k]);
                            }
                        }
                        assert forall|k: int| 0 <= k < placed@.len() implies {
                            let q = #[trigger] placed@[k];
                            &&& q.row < sp.len()
                            &&& q.index < sp[q.row as int].len()
                            &&& q.start_col < n
                            &&& q.start_col + q.span_w <= n
                            &&& q.span_h == sp[q.row as int][q.index as int].1
                            &&& q.span_w <= sp[q.row as int][q.index as int].0
                            &&& q.row + q.span_h <= nv.len()
                        } by {
                            if k < prev.len() {
                                assert(placed@[k] == prev[k]);
                            }
                        }
                    }
                }
            }
            i = i + 1;
        }
        proof {
            assert(row_state(g0, r as int, sp[r as int], row@.len() as int, n).0 == rows_state(sp, r + 1, n));
        }
        r = r + 1;
    }
    proof {
        let fin = rows_state(sp, rows@.len() as int, n);
        assert forall|k: int| 0 <= k < placed@.len() implies {
            let p = #[trigger] placed@[k];
            &&& p.span_h == rows@[p.row as int]@[p.index as int].rowspan
            &&& p.span_w == (if rows@[p.row as int]@[p.index as int].colspan < num_cols - p.start_col {
                rows@[p.row as int]@[p.index as int].colspan as int
            } else {
                num_cols - p.start_col
            })
        } by {
            let p = placed@[k];
            assert(sp[p.row as int][p.index as int] == (rows@[p.row as int]@[p.index as int].colspan, rows@[p.row as int]@[p.index as int].rowspan));
        }
    }
    Grid { placements: placed, row_count: occ.len() }
}

} // verus!
