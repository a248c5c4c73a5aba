use mr_pdf::chart::{pie_color, ChartType};
use mr_pdf::layout::markdown::{markdown_layout, MdBlockKind};
use mr_pdf::svg::{color_slices_ok, parse_color, plan_path, style_value, tokenize_path, ShapeKind, SvgError, SvgRenderer};
use mr_pdf::Color;

#[test]
fn colors() {
    assert_eq!(parse_color("#ff8000"), Color::Rgb(255, 128, 0));
    assert_eq!(parse_color("  #F80 "), Color::Rgb(255, 136, 0));
    assert_eq!(parse_color("##abc"), Color::Rgb(170, 187, 204));
    assert_eq!(parse_color("#zz0000"), Color::Rgb(0, 0, 0));
    assert_eq!(parse_color("#+f+f+f"), Color::Rgb(15, 15, 15));
    assert_eq!(parse_color("#12345"), Color::Rgb(0, 0, 0));
    assert_eq!(parse_color("red"), Color::Rgb(255, 0, 0));
    assert_eq!(parse_color("green"), Color::Rgb(0, 255, 0));
    assert_eq!(parse_color("blue"), Color::Rgb(0, 0, 255));
    assert_eq!(parse_color(" white"), Color::Rgb(255, 255, 255));
    assert_eq!(parse_color("black"), Color::Rgb(0, 0, 0));
    assert_eq!(parse_color("purple"), Color::Rgb(0, 0, 0));
    assert!(color_slices_ok("#ff0000"));
    assert!(!color_slices_ok("#a€bc"));
}

#[test]
fn style_lookup() {
    assert_eq!(style_value("fill: red; stroke:blue", "stroke"), Some(Some("blue".to_string())));
    assert_eq!(style_value("fill: red; stroke:blue", "fill"), Some(Some("red".to_string())));
    assert_eq!(style_value("fill; fill: red", "fill"), Some(None));
    assert_eq!(style_value("fill: red", "stroke"), None);
}

#[test]
fn path_tokens() {
    assert_eq!(tokenize_path("M10,20L-5-6e-3 1.5z"), vec!["M", "10", "20", "L", "-5", "-6e-3", "1.5", "z"]);
    assert_eq!(tokenize_path("  "), Vec::<String>::new());
}

#[test]
fn path_commands() {
    let t: Vec<String> = ["M", "1", "2", "3", "4", "Z", "h", "5"].iter().map(|s| s.to_string()).collect();
    let plan = plan_path(&t).unwrap();
    let got: Vec<(char, usize)> = plan.iter().map(|s| (s.cmd, s.at)).collect();
    assert_eq!(got, vec![('M', 1), ('L', 3), ('Z', 6), ('h', 7)]);
    let bad: Vec<String> = ["M", "1"].iter().map(|s| s.to_string()).collect();
    assert!(plan_path(&bad).is_none());
    let skip: Vec<String> = ["5", "T", "1", "2"].iter().map(|s| s.to_string()).collect();
    assert!(plan_path(&skip).unwrap().is_empty());
}

#[test]
fn svg_document_shapes() {
    let doc = r##"<svg viewBox="0,0 50 40"><g fill="red"><rect x="1" width="4" height="5"/></g>
        <circle cx="3" cy="4" r="2" style="fill: none; stroke:#00f" stroke-width="2"/>
        <path d="M0 0L1 1" fill="none"/><path fill="blue"/><text>hi</text></svg>"##;
    let l = SvgRenderer::layout(doc).unwrap();
    assert_eq!(l.view_box, vec!["0", "0", "50", "40"]);
    assert_eq!(l.shapes.len(), 2);
    assert_eq!(l.shapes[0].kind, ShapeKind::Rect);
    assert_eq!(l.shapes[0].params, vec!["1", "0", "4", "5"]);
    assert_eq!(l.shapes[0].fill, "red");
    assert_eq!(l.shapes[0].stroke, "none");
    assert_eq!(l.shapes[1].kind, ShapeKind::Circle);
    assert_eq!(l.shapes[1].fill, "none");
    assert_eq!(l.shapes[1].stroke, "#00f");
    assert_eq!(l.shapes[1].stroke_width.as_deref(), Some("2"));
    assert_eq!(SvgRenderer::layout("<svg").err(), Some(SvgError::InvalidXml));
    let d = SvgRenderer::layout("<svg/>").unwrap();
    assert_eq!(d.view_box, vec!["0", "0", "100", "100"]);
}

#[test]
fn markdown_blocks() {
    let md = "# Title\n\nSome *em* text\nnext\n\n- one\n-  two  \n\n```\ncode\n```\n\n### Small\n";
    let b = markdown_layout(md);
    let got: Vec<(MdBlockKind, String)> = b.into_iter().map(|x| (x.kind, x.text)).collect();
    assert_eq!(
        got,
        vec![
            (MdBlockKind::Heading(1), "Title".to_string()),
            (MdBlockKind::Paragraph, "Some em text next".to_string()),
            (MdBlockKind::Item, "- one".to_string()),
            (MdBlockKind::Item, "- two".to_string()),
            (MdBlockKind::CodeBlock, "code\n".to_string()),
            (MdBlockKind::Heading(3), "Small".to_string()),
        ]
    );
}

#[test]
fn chart_kinds_and_pie_colors() {
    assert_ne!(ChartType::Bar, ChartType::Pie);
    assert_eq!(pie_color(0), Color::Rgb(100, 150, 200));
    assert_eq!(pie_color(3), Color::Rgb(250, 240, 80));
    assert_eq!(pie_color(5), Color::Rgb(95, 45, 0));
}

#[test]
fn try_parse_color_reports_cut_characters() {
    assert_eq!(mr_pdf::svg::try_parse_color("#ff8000"), Some(Color::Rgb(255, 128, 0)));
    assert_eq!(mr_pdf::svg::try_parse_color("\u{3000}#0f0\u{2028}"), Some(Color::Rgb(0, 255, 0)));
    assert_eq!(mr_pdf::svg::try_parse_color("#a€bc"), None);
}

#[test]
fn whitespace_matches_std() {
    for n in 0u32..=0x10FFFF {
        if let Some(c) = char::from_u32(n) {
            assert_eq!(mr_pdf::strings::is_whitespace(c), c.is_whitespace(), "U+{:04X}", n);
        }
    }
}
