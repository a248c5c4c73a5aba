use mr_pdf::font::FontManager;
use mr_pdf::layout::text::{escape_pdf_str, measure_text, paragraph_lines, split_words, word_wrap_helvetica, wrap_cell_text, TextMeasure};

#[test]
fn escapes_special_characters() {
    assert_eq!(escape_pdf_str("a(b)c\\d\ne\rf"), "a\\(b\\)c\\\\d\\ne\\rf");
    assert_eq!(escape_pdf_str("plain é"), "plain é");
    assert_eq!(escape_pdf_str(""), "");
}

#[test]
fn words_split_on_unicode_whitespace() {
    assert_eq!(split_words("  hello \t wide\u{3000}world\n"), vec!["hello", "wide", "world"]);
    assert!(split_words("   ").is_empty());
}

#[test]
fn helvetica_wrap_greedy() {
    assert_eq!(word_wrap_helvetica("aaa bbb cc d", 7, true), vec!["aaa bbb", "cc d"]);
    assert_eq!(word_wrap_helvetica("aaa bbb cc d", 7, false), vec!["aaa bbb cc d"]);
    assert_eq!(word_wrap_helvetica("", 7, true), vec![""]);
    assert_eq!(word_wrap_helvetica("toolongword x", 4, true), vec!["toolongword", "x"]);
}

#[test]
fn helvetica_wrap_counts_bytes() {
    assert_eq!(word_wrap_helvetica("éé a", 5, true), vec!["éé", "a"]);
    assert_eq!(word_wrap_helvetica("éé a", 6, true), vec!["éé a"]);
}

#[test]
fn wrap_keeps_every_word_in_order() {
    let text = "the quick brown fox jumps over the lazy dog";
    let lines = word_wrap_helvetica(text, 10, true);
    assert_eq!(lines.join(" "), text);
    assert!(lines.iter().all(|l| l.len() <= 10));
}

#[test]
fn paragraph_without_words_has_no_line() {
    let fm = FontManager::new();
    assert!(paragraph_lines(" \n ", &fm, TextMeasure::Bytes, Some(10)).is_empty());
    assert_eq!(paragraph_lines("ab cd", &fm, TextMeasure::Bytes, None), vec!["ab", "cd"]);
}

#[test]
fn cell_wrap_breaks_long_words() {
    let fm = FontManager::new();
    assert_eq!(wrap_cell_text("abc/defgh ij", &fm, TextMeasure::Bytes, Some(5)), vec!["abc/", "defgh", "ij"]);
    assert_eq!(wrap_cell_text("one\n\ntwo three", &fm, TextMeasure::Bytes, Some(20)), vec!["one", "", "two three"]);
    assert_eq!(wrap_cell_text("", &fm, TextMeasure::Bytes, Some(20)), vec![""]);
    assert_eq!(wrap_cell_text("abcdefgh", &fm, TextMeasure::Bytes, Some(3)), vec!["abc", "def", "gh"]);
}

#[test]
fn measure_in_bytes() {
    let fm = FontManager::new();
    assert_eq!(measure_text(&fm, TextMeasure::Bytes, "aé"), 3);
}
