use base64::Engine;
use mr_pdf::font::{embed_ttf, FontError, FontId, FontManager, FontNumbers};
use mr_pdf::image::{Image, ImageLoadError};
use mr_pdf::layout::text::{measure_text, word_wrap_ttf, TextMeasure};
use mr_pdf::pdf::writer::PdfWriter;

fn png_bytes(w: u32, h: u32) -> Vec<u8> {
    let img = image::RgbImage::from_pixel(w, h, image::Rgb([10, 20, 30]));
    let mut out = std::io::Cursor::new(Vec::new());
    image::DynamicImage::ImageRgb8(img).write_to(&mut out, image::ImageFormat::Png).unwrap();
    out.into_inner()
}

fn numbers() -> FontNumbers {
    FontNumbers {
        bbox: "0 0 1 1".to_string(),
        italic_angle: "0".to_string(),
        ascent: "800".to_string(),
        descent: "-200".to_string(),
        cap_height: "700".to_string(),
        widths: "500 ".to_string(),
    }
}

#[test]
fn fonts_register_and_look_up() {
    let mut fm = FontManager::new();
    assert!(fm.get_font_id("a").is_none());
    let a = fm.register_font("a", "a.ttf", vec![1, 2, 3]);
    let b = fm.register_font("b", "b.ttf", vec![]);
    let a2 = fm.register_font("a", "a2.ttf", vec![9]);
    assert_eq!((a, b, a2), (FontId(0), FontId(1), FontId(2)));
    assert_eq!(fm.get_font_id("a"), Some(FontId(2)));
    assert_eq!(fm.get_font_id("b"), Some(FontId(1)));
    assert_eq!(fm.get_font(FontId(0)).path, "a.ttf");
    assert_eq!(fm.get_font(FontId(2)).raw_data, vec![9]);
}

#[test]
fn unparsable_font_encodes_code_points() {
    let mut fm = FontManager::new();
    let id = fm.register_font("x", "x.ttf", b"not a font".to_vec());
    assert_eq!(fm.encode_text(id, "A€"), "<004120AC>");
    assert_eq!(fm.encode_text(id, "\u{1F600}"), "<1F600>");
    assert_eq!(fm.encode_text(id, ""), "<>");
    assert_eq!(fm.advance_units(id, "abc"), None);
    assert_eq!(fm.vertical_metrics(id), None);
    assert_eq!(measure_text(&fm, TextMeasure::Glyphs(id), "abc"), 0);
    assert_eq!(word_wrap_ttf(&fm, id, "aa bb", Some(0), true), vec!["aa bb"]);
    assert_eq!(word_wrap_ttf(&fm, id, "aa bb", None, true), vec!["aa", "bb"]);
}

#[test]
fn invalid_font_is_not_embedded() {
    let mut fm = FontManager::new();
    let id = fm.register_font("x", "x.ttf", b"junk".to_vec());
    let mut w = PdfWriter::new();
    let before = w.next_object_id();
    let r = embed_ttf(&mut w, fm.get_font(id), &numbers());
    assert_eq!(r, Err(FontError::InvalidFont));
    assert_eq!(w.next_object_id(), before);
    assert_eq!(fm.embed_fonts(&mut w, &[numbers()]), Err(FontError::InvalidFont));
    let empty = FontManager::default();
    assert_eq!(empty.embed_fonts(&mut w, &[]), Ok(String::new()));
}

#[test]
fn png_image_from_bytes() {
    let bytes = png_bytes(3, 2);
    let img = Image::from_bytes("im", &bytes, false).unwrap();
    assert_eq!((img.width, img.height, img.is_jpeg), (3, 2, false));
    let mut dec = flate2::read::ZlibDecoder::new(&img.compressed_data[..]);
    let mut raw = Vec::new();
    std::io::Read::read_to_end(&mut dec, &mut raw).unwrap();
    assert_eq!(raw, [10u8, 20, 30].repeat(6));
}

#[test]
fn bad_image_bytes() {
    assert_eq!(Image::from_bytes("im", b"nope", false).err(), Some(ImageLoadError::Decode));
    assert_eq!(Image::from_bytes("im", b"nope", true).err(), Some(ImageLoadError::Decode));
}

#[test]
fn image_from_base64_data_url() {
    let bytes = png_bytes(1, 1);
    let b64 = base64::engine::general_purpose::STANDARD.encode(&bytes);
    let url = format!("  data:image/png;base64,{}\n", b64);
    let img = Image::from_base64("im", &url).unwrap();
    assert_eq!((img.width, img.height, img.is_jpeg), (1, 1, false));
    let plain = Image::from_base64("im", &b64).unwrap();
    assert_eq!(plain.compressed_data, img.compressed_data);
    assert_eq!(Image::from_base64("im", "!!!").err(), Some(ImageLoadError::Base64));
}

#[test]
fn image_load_uses_extension() {
    let bytes = png_bytes(2, 2);
    let img = Image::load("im", "dir.v1/pic.PNG", &bytes).unwrap();
    assert!(!img.is_jpeg);
    let as_jpeg = Image::load("im", "pic.JpEg", &bytes).unwrap();
    assert!(as_jpeg.is_jpeg);
    assert_eq!(as_jpeg.compressed_data, bytes);
}

#[test]
fn image_embeds_as_xobject() {
    let img = Image { name: "i".to_string(), width: 4, height: 5, compressed_data: vec![1, 2, 3], is_jpeg: true };
    let mut w = PdfWriter::new();
    let _ = w.take_output();
    let id = img.embed(&mut w);
    assert_eq!(id, 7);
    let mut expected = b"7 0 obj\n<< /Type /XObject\n   /Subtype /Image\n   /Width 4\n   /Height 5\n   /ColorSpace /DeviceRGB\n   /BitsPerComponent 8\n   /Filter /DCTDecode\n   /Length 3 >>\nstream\n".to_vec();
    expected.extend_from_slice(&[1, 2, 3]);
    expected.extend_from_slice(b"\nendstream\nendobj\n");
    assert_eq!(w.take_output(), expected);
}

#[test]
fn metrics_of_unparsable_font() {
    let mut fm = FontManager::new();
    let id = fm.register_font("Bad", "bad.ttf", vec![1, 2, 3]);
    assert!(fm.descriptor_metrics(id).is_none());
    assert!(fm.glyph_widths(id).is_none());
    assert!(fm.vertical_metrics(id).is_none());
}

#[test]
fn png_and_jpeg_images_load() {
    let png = png_bytes(2, 1);
    assert!(Image::from_bytes("p", &png, false).is_ok());
    let img = image::RgbImage::from_pixel(2, 2, image::Rgb([1, 2, 3]));
    let mut out = std::io::Cursor::new(Vec::new());
    image::DynamicImage::ImageRgb8(img).write_to(&mut out, image::ImageFormat::Jpeg).unwrap();
    let jpeg = out.into_inner();
    let loaded = Image::load("j", "photo.JPG", &jpeg).unwrap();
    assert!(loaded.is_jpeg);
    assert_eq!(loaded.compressed_data, jpeg);
}
