use mr_pdf::pdf::crypto::PdfPermissions;
use mr_pdf::pdf::writer::PdfWriter;
use mr_pdf::Metadata;

fn find(hay: &[u8], needle: &[u8]) -> Option<usize> {
    hay.windows(needle.len()).position(|w| w == needle)
}

fn rfind(hay: &[u8], needle: &[u8]) -> Option<usize> {
    hay.windows(needle.len()).rposition(|w| w == needle)
}

fn no_meta() -> Metadata {
    Metadata { title: None, author: None, subject: None }
}

#[test]
fn new_writer_starts_with_header_and_font() {
    let mut w = PdfWriter::new();
    assert_eq!(w.next_object_id(), 7);
    let out = w.take_output();
    assert!(out.starts_with(b"%PDF-1.4\n%"));
    assert_eq!(&out[..15], &[0x25, 0x50, 0x44, 0x46, 0x2d, 0x31, 0x2e, 0x34, 0x0a, 0x25, 0xE2, 0xE3, 0xCF, 0xD3, 0x0a]);
    let rest = String::from_utf8_lossy(&out[15..]).to_string();
    assert_eq!(rest, "5 0 obj\n<< /Type /Font /Subtype /Type1 /BaseFont /Helvetica /Encoding /WinAnsiEncoding >>\nendobj\n");
    assert!(w.take_output().is_empty());
}

#[test]
fn alloc_and_objects() {
    let mut w = PdfWriter::new();
    let _ = w.take_output();
    let id = w.alloc_id();
    assert_eq!(id, 7);
    assert_eq!(w.next_object_id(), 8);
    w.start_obj(id);
    w.write_raw(b"<< >>\n");
    w.end_obj();
    assert_eq!(w.take_output(), b"7 0 obj\n<< >>\nendobj\n".to_vec());
}

#[test]
fn add_page_numbers_and_dictionary() {
    let mut w = PdfWriter::new();
    let _ = w.take_output();
    let (page, content) = w.add_page("595.28", "841.89");
    assert_eq!((page, content), (7, 8));
    assert_eq!(w.next_object_id(), 10);
    let out = String::from_utf8(w.take_output()).unwrap();
    assert_eq!(
        out,
        "7 0 obj\n<< /Type /Page\n   /Parent 2 0 R\n   /Resources 3 0 R\n   /MediaBox [0 0 595.28 841.89]\n   /Contents 8 0 R\n   /Annots 9 0 R\n>>\nendobj\n"
    );
}

#[test]
fn uncompressed_content_stream() {
    let mut w = PdfWriter::new();
    w.set_compress(false);
    assert!(!w.compress());
    let (_, c) = w.add_page("100", "200");
    let _ = w.take_output();
    assert!(w.write_content_stream(c, "BT ET").is_ok());
    let out = String::from_utf8(w.take_output()).unwrap();
    assert_eq!(out, "8 0 obj\n<< /Length 5 >>\nstream\nBT ET\nendstream\nendobj\n");
}

#[test]
fn compressed_content_stream_inflates() {
    let mut w = PdfWriter::new();
    let (_, c) = w.add_page("100", "200");
    let _ = w.take_output();
    assert!(w.write_content_stream(c, "BT /F1 12 Tf (Hello) Tj ET").is_ok());
    let out = w.take_output();
    let head = b"8 0 obj\n<< /Length ";
    assert!(out.starts_with(head));
    let s = find(&out, b"stream\n").unwrap() + 7;
    let e = rfind(&out, b"\nendstream").unwrap();
    let data = &out[s..e];
    let mut dec = flate2::read::ZlibDecoder::new(data);
    let mut text = String::new();
    std::io::Read::read_to_string(&mut dec, &mut text).unwrap();
    assert_eq!(text, "BT /F1 12 Tf (Hello) Tj ET");
    assert!(find(&out, b"/Filter /FlateDecode").is_some());
}

#[test]
fn finished_document_has_sound_xref() {
    let mut w = PdfWriter::new();
    w.set_compress(false);
    let (_, c) = w.add_page("595.28", "841.89");
    w.add_link("10.00 20.00 30.00 40.00", "https://example.com");
    w.write_content_stream(c, "BT ET").unwrap();
    let meta = Metadata { title: Some("Doc (1)".to_string()), author: None, subject: None };
    let out = w.finish("/F0 12 0 R ", &meta);
    let text = String::from_utf8_lossy(&out).to_string();
    assert!(text.contains("/Title (Doc \\(1\\))"));
    assert!(text.contains("3 0 obj\n<< /Font << /FBuiltin 5 0 R /F0 12 0 R  >> >>\nendobj\n"));
    assert!(text.contains("/URI (https://example.com)"));
    assert!(text.ends_with("%%EOF\n"));
    let sx = rfind(&out, b"startxref\n").unwrap() + 10;
    let end = find(&out[sx..], b"\n").unwrap() + sx;
    let xref_pos: usize = std::str::from_utf8(&out[sx..end]).unwrap().parse().unwrap();
    assert!(out[xref_pos..].starts_with(b"xref\n0 "));
    let table = std::str::from_utf8(&out[xref_pos..]).unwrap();
    let mut lines = table.lines();
    lines.next();
    let count: usize = lines.next().unwrap().split(' ').nth(1).unwrap().parse().unwrap();
    assert_eq!(lines.next().unwrap(), "0000000000 65535 f ");
    let mut free = vec![];
    for id in 1..count {
        let entry = lines.next().unwrap();
        if entry.ends_with(" f ") {
            assert_eq!(entry, "0000000000 65535 f ");
            free.push(id);
            continue;
        }
        assert!(entry.ends_with(" 00000 n "));
        let off: usize = entry[..10].parse().unwrap();
        assert!(off < xref_pos);
        let header = format!("{} 0 obj\n", id);
        assert!(out[off..].starts_with(header.as_bytes()), "object {} at {}", id, off);
    }
    // Every object is written before the table; only the encryption dictionary's number is
    // unused in a document without encryption.
    assert_eq!(free, vec![6]);
}

#[test]
fn encrypted_document_table_lists_every_object() {
    let mut w = PdfWriter::new();
    w.enable_encryption("owner", "user", PdfPermissions::default());
    let (_, c) = w.add_page("10", "10");
    w.write_content_stream(c, "BT ET").unwrap();
    let out = w.finish("", &no_meta());
    let sx = rfind(&out, b"startxref\n").unwrap() + 10;
    let end = find(&out[sx..], b"\n").unwrap() + sx;
    let xref_pos: usize = std::str::from_utf8(&out[sx..end]).unwrap().parse().unwrap();
    let table = std::str::from_utf8(&out[xref_pos..]).unwrap();
    let mut lines = table.lines().skip(1);
    let count: usize = lines.next().unwrap().split(' ').nth(1).unwrap().parse().unwrap();
    lines.next();
    for id in 1..count {
        let entry = lines.next().unwrap();
        assert!(entry.ends_with(" 00000 n "), "object {} is {}", id, entry);
        let off: usize = entry[..10].parse().unwrap();
        assert!(out[off..].starts_with(format!("{} 0 obj\n", id).as_bytes()));
    }
}

#[test]
fn encrypted_document_lists_encryption() {
    let mut w = PdfWriter::new();
    w.enable_encryption("owner", "user", PdfPermissions::default());
    let hex = w.encrypt_string(4, "Secret");
    assert!(hex.starts_with('<') && hex.ends_with('>'));
    assert_eq!(hex.len(), 2 + 2 * "Secret".len());
    assert_ne!(hex, "<536563726574>");
    let out = w.finish("", &no_meta());
    let text = String::from_utf8_lossy(&out).to_string();
    assert!(text.contains("/Encrypt 6 0 R /ID [ <"));
    assert!(text.contains("6 0 obj\n<< /Filter /Standard /V 2 /R 3 /Length 128 /O <"));
}

#[test]
fn plain_string_is_hex_of_bytes() {
    let w = PdfWriter::new();
    assert_eq!(w.encrypt_string(4, "Hi"), "<4869>");
}

#[test]
fn encrypted_string_decrypts_to_text() {
    let mut w = PdfWriter::new();
    w.enable_encryption("owner", "user", PdfPermissions::default());
    let hex = w.encrypt_string(9, "Grüße");
    let digits = &hex[1..hex.len() - 1];
    let mut bytes: Vec<u8> = (0..digits.len() / 2)
        .map(|k| u8::from_str_radix(&digits[2 * k..2 * k + 2], 16).unwrap())
        .collect();
    let h = mr_pdf::pdf::crypto::SecurityHandler::new("owner", "user", PdfPermissions::default(), &w.doc_id());
    h.encrypt_bytes(9, 0, &mut bytes);
    assert_eq!(bytes, "Grüße".as_bytes().to_vec());
}

#[test]
fn compressed_content_stream_always_succeeds() {
    let mut w = PdfWriter::new();
    w.set_compress(true);
    let id = w.alloc_id();
    assert!(w.write_content_stream(id, "").is_ok());
    let id2 = w.alloc_id();
    assert!(w.write_content_stream(id2, &"BT ET ".repeat(1000)).is_ok());
}
