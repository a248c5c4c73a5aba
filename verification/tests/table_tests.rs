use mr_pdf::layout::multiplexed::{deserialize_cell, deserialize_row, serialize_cell, serialize_row, uuid_simple, CellError, TableKeys};
use mr_pdf::layout::table::{place_cells, set_column_align, set_column_valign, Cell, ColumnConfig, RowBuilder, TableBorderStyle, TableCell};
use mr_pdf::{Align, VAlign};

fn text_of(c: &TableCell) -> String {
    match &c.content {
        Cell::Text(s) => s.clone(),
        Cell::ImagePath(s) => format!("path:{}", s),
        Cell::ImageBase64(s) => format!("b64:{}", s),
    }
}

#[test]
fn cell_constructors() {
    let c = TableCell::text("hi");
    assert_eq!(text_of(&c), "hi");
    assert_eq!((c.colspan, c.rowspan), (1, 1));
    assert!(c.align.is_none() && c.valign.is_none() && c.link.is_none());
    assert_eq!(text_of(&TableCell::image("a.png")), "path:a.png");
    assert_eq!(text_of(&TableCell::image_base64("AAAA")), "b64:AAAA");
}

#[test]
fn cell_modifiers() {
    let c = TableCell::text("x").with_span(3).with_rowspan(0).align(Align::Right).valign(VAlign::Bottom).link("u");
    assert_eq!(c.colspan, 3);
    assert_eq!(c.rowspan, 1);
    assert_eq!(c.align, Some(Align::Right));
    assert_eq!(c.valign, Some(VAlign::Bottom));
    assert_eq!(c.link.as_deref(), Some("u"));
    assert_eq!(TableCell::text("y").with_span(0).colspan, 1);
}

#[test]
fn cell_from_text() {
    let a: TableCell = "abc".into();
    let b: TableCell = String::from("def").into();
    assert_eq!(text_of(&a), "abc");
    assert_eq!(text_of(&b), "def");
}

#[test]
fn row_builder_applies_to_last_cell() {
    let mut r = RowBuilder::new();
    r.span(2);
    assert!(r.cells.is_empty());
    r.cell("a").cell("b").span(2).align(Align::Center).link("l");
    r.cell_image("i.png").rowspan(2).valign(VAlign::Center);
    assert_eq!(r.cells.len(), 3);
    assert_eq!(r.cells[0].colspan, 1);
    assert_eq!(r.cells[1].colspan, 2);
    assert_eq!(r.cells[1].align, Some(Align::Center));
    assert_eq!(r.cells[1].link.as_deref(), Some("l"));
    assert_eq!(r.cells[2].rowspan, 2);
    assert_eq!(r.cells[2].valign, Some(VAlign::Center));
}

#[test]
fn border_style_default() {
    assert_eq!(TableBorderStyle::default(), TableBorderStyle::Full);
}

#[test]
fn column_settings_grow_the_list() {
    let mut v: Vec<ColumnConfig> = Vec::new();
    set_column_align(&mut v, 2, Align::Right);
    assert_eq!(v.len(), 3);
    assert_eq!(v[2].align, Align::Right);
    assert_eq!(v[0].align, Align::Left);
    assert_eq!(v[0].valign, VAlign::Top);
    set_column_valign(&mut v, 0, VAlign::Bottom);
    assert_eq!(v.len(), 3);
    assert_eq!(v[0].valign, VAlign::Bottom);
}

#[test]
fn grid_places_spans() {
    let rows = vec![
        vec![TableCell::text("a").with_rowspan(2), TableCell::text("b").with_span(2)],
        vec![TableCell::text("c"), TableCell::text("d")],
    ];
    let g = place_cells(&rows, 3);
    let p: Vec<(usize, usize, usize, usize, usize)> =
        g.placements.iter().map(|p| (p.row, p.index, p.start_col, p.span_w, p.span_h)).collect();
    assert_eq!(p, vec![(0, 0, 0, 1, 2), (0, 1, 1, 2, 1), (1, 0, 1, 1, 1), (1, 1, 2, 1, 1)]);
    assert_eq!(g.row_count, 2);
}

#[test]
fn grid_drops_cells_without_room_and_clips_spans() {
    let rows = vec![vec![TableCell::text("a").with_span(5), TableCell::text("b")]];
    let g = place_cells(&rows, 2);
    assert_eq!(g.placements.len(), 1);
    assert_eq!(g.placements[0].span_w, 2);
}

#[test]
fn row_round_trip() {
    let row = vec![
        TableCell::text("héllo").with_span(2).align(Align::Center),
        TableCell::image("p.png").valign(VAlign::Bottom).link("https://x"),
        TableCell::image_base64("QUJD").with_rowspan(3),
    ];
    let mut buf = Vec::new();
    serialize_row(&mut buf, &row);
    serialize_row(&mut buf, &row[..1]);
    let (back, pos) = deserialize_row(&buf, 0).unwrap().unwrap();
    assert_eq!(back.len(), 3);
    for (a, b) in back.iter().zip(row.iter()) {
        assert_eq!(text_of(a), text_of(b));
        assert_eq!((a.colspan, a.rowspan, a.align, a.valign, a.link.clone()), (b.colspan, b.rowspan, b.align, b.valign, b.link.clone()));
    }
    let (second, end) = deserialize_row(&buf, pos).unwrap().unwrap();
    assert_eq!(second.len(), 1);
    assert_eq!(end, buf.len());
    assert!(deserialize_row(&buf, end).unwrap().is_none());
}

#[test]
fn cell_layout_bytes() {
    let mut buf = Vec::new();
    serialize_cell(&mut buf, &TableCell::text("ab"));
    assert_eq!(buf, vec![0, 2, 0, 0, 0, b'a', b'b', 1, 0, 0, 0, 1, 0, 0, 0, 0, 0, 0, 0, 0, 0]);
}

#[test]
fn decoding_errors() {
    assert_eq!(deserialize_cell(&[], 0).err(), Some(CellError::UnexpectedEof));
    assert_eq!(deserialize_cell(&[7, 0, 0, 0, 0], 0).err(), Some(CellError::InvalidCellType));
    assert_eq!(deserialize_cell(&[0, 1, 0, 0, 0, 0xff], 0).err(), Some(CellError::InvalidUtf8));
    assert_eq!(deserialize_cell(&[0, 9, 0, 0, 0, b'a'], 0).err(), Some(CellError::UnexpectedEof));
    assert_eq!(deserialize_row(&[1, 0, 0, 0], 0).err(), Some(CellError::UnexpectedEof));
    assert!(deserialize_row(&[1, 0, 0], 0).unwrap().is_none());
}

#[test]
fn uuid_is_lowercase_hex() {
    let id = uuid_simple().unwrap();
    assert!(!id.is_empty());
    assert!(id.chars().all(|c| c.is_ascii_digit() || ('a'..='f').contains(&c)));
    assert!(!id.starts_with('0'));
}

#[test]
fn table_keys_order() {
    let mut k = TableKeys::new();
    assert!(k.note("b"));
    assert!(k.note("a"));
    assert!(!k.note("b"));
    assert!(k.note("c"));
    assert!(k.contains("a"));
    assert!(!k.contains("z"));
    assert_eq!(k.render_order(), vec!["b".to_string(), "a".to_string(), "c".to_string()]);
    k.set_order(vec!["c", "x"]);
    assert_eq!(k.render_order(), vec!["c".to_string(), "x".to_string(), "b".to_string(), "a".to_string()]);
}

#[test]
fn cell_from_str_is_text_cell() {
    let a: TableCell = TableCell::from("abc");
    let b = TableCell::text("abc");
    assert_eq!(text_of(&a), text_of(&b));
    assert!(matches!(a.content, Cell::Text(_)));
    assert_eq!((a.colspan, a.rowspan), (1, 1));
    assert!(a.align.is_none() && a.valign.is_none() && a.link.is_none());
}

#[test]
fn single_row_cells_never_overlap() {
    let rows = vec![
        vec![TableCell::text("a").with_span(2), TableCell::text("b"), TableCell::text("c").with_span(5)],
        vec![TableCell::text("d"), TableCell::text("e").with_span(3)],
    ];
    let g = place_cells(&rows, 4);
    let mut seen = std::collections::HashSet::new();
    for p in &g.placements {
        for x in p.row..p.row + p.span_h {
            for y in p.start_col..p.start_col + p.span_w {
                assert!(seen.insert((x, y)), "slot ({}, {}) covered twice", x, y);
            }
        }
    }
    assert_eq!(g.placements.len(), 5);
}
