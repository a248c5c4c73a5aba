//! Text for PDF content streams: literal-string escaping and greedy line wrapping.
use vstd::prelude::*;
use crate::strings::{chars_of, is_whitespace, push_char, push_str, string_from_chars, white_space};
use crate::pdf::writer::bytes_of;
use crate::font::{advance_sum, face_parses, Font, FontId, FontManager};

verus! {

/// How one character is written inside a PDF literal string `( ... )`.
pub open spec fn escape_char(c: char) -> Seq<char> {
    if c == '(' {
        seq!['\\', '(']
    } else if c == ')' {
        seq!['\\', ')']
    } else if c == '\\' {
        seq!['\\', '\\']
    } else if c == '\n' {
        seq!['\\', 'n']
    } else if c == '\r' {
        seq!['\\', 'r']
    } else {
        seq![c]
    }
}

/// The escaped form of a whole character sequence.
pub open spec fn spec_escape(s: Seq<char>) -> Seq<char>
    decreases s.len(),
{
    if s.len() == 0 {
        Seq::empty()
    } else {
        escape_char(s[0]) + spec_escape(s.drop_first())
    }
}

/// Reading an escaped literal string back: a backslash and the next character stand for
/// the character they escape.
pub open spec fn spec_unescape(s: Seq<char>) -> Seq<char>
    decreases s.len(),
{
    if s.len() == 0 {
        Seq::empty()
    } else if s[0] == '\\' && s.len() >= 2 {
        let c = if s[1] == 'n' {
            '\n'
        } else if s[1] == 'r' {
            '\r'
        } else {
            s[1]
        };
        seq![c] + spec_unescape(s.subrange(2, s.len() as int))
    } else {
        seq![s[0]] + spec_unescape(s.drop_first())
    }
}

proof fn lemma_escape_append(a: Seq<char>, b: Seq<char>)
    ensures
        spec_escape(a + b) == spec_escape(a) + spec_escape(b),
    decreases a.len(),
{
    if a.len() == 0 {
        assert(a + b == b);
    } else {
        assert((a + b).drop_first() == a.drop_first() + b);
        lemma_escape_append(a.drop_first(), b);
    }
}

/// Escapes `(`, `)`, `\`, newline and carriage return for use in a PDF literal string.
pub fn escape_pdf_str(s: &str) -> (r: String)
    ensures
        r@ == spec_escape(s@),
{
    let chars = chars_of(s);
    let mut out = String::new();
    let mut k: usize = 0;
    while k < chars.len()
        invariant
            k <= chars@.len(),
            chars@ == s@,
            out@ == spec_escape(chars@.subrange(0, k as int)),
        decreases chars@.len() - k,
    {
        let c = chars[k];
        proof {
            let pre = chars@.subrange(0, k as int);
            assert(chars@.subrange(0, k + 1) == pre + seq![c]);
            lemma_escape_append(pre, seq![c]);
            assert(seq![c].drop_first() == Seq::<char>::empty());
            assert(spec_escape(seq![c]) == escape_char(c) + spec_escape(Seq::<char>::empty()));
            assert(escape_char(c) + Seq::<char>::empty() == escape_char(c));
        }
        if c == '(' {
            proof {
                reveal_strlit("\\(");
            }
            push_str(&mut out, "\\(");
        } else if c == ')' {
            proof {
                reveal_strlit("\\)");
            }
            push_str(&mut out, "\\)");
        } else if c == '\\' {
            proof {
                reveal_strlit("\\\\");
            }
            push_str(&mut out, "\\\\");
        } else if c == '\n' {
            proof {
                reveal_strlit("\\n");
            }
            push_str(&mut out, "\\n");
        } else if c == '\r' {
            proof {
                reveal_strlit("\\r");
            }
            push_str(&mut out, "\\r");
        } else {
            push_char(&mut out, c);
        }
        k = k + 1;
    }
    assert(chars@.subrange(0, chars@.len() as int) == chars@);
    out
}

/// Escaping is undone by reading the literal string back: no character is lost or changed.
pub proof fn escape_then_unescape(s: Seq<char>)
    ensures
        spec_unescape(spec_escape(s)) == s,
    decreases s.len(),
{
    if s.len() > 0 {
        let rest = s.drop_first();
        escape_then_unescape(rest);
        let e = escape_char(s[0]) + spec_escape(rest);
        if escape_char(s[0]).len() == 2 {
            assert(e.subrange(2, e.len() as int) == spec_escape(rest));
        } else {
            assert(e.drop_first() == spec_escape(rest));
        }
        assert(s == seq![s[0]] + rest);
    }
}

/// `words` with `cur` added when it is not empty.
pub open spec fn add_word(words: Seq<Seq<char>>, cur: Seq<char>) -> Seq<Seq<char>> {
    if cur.len() == 0 {
        words
    } else {
        words.push(cur)
    }
}

/// Words read so far and the word being read.
pub open spec fn words_state(s: Seq<char>) -> (Seq<Seq<char>>, Seq<char>)
    decreases s.len(),
{
    if s.len() == 0 {
        (Seq::empty(), Seq::empty())
    } else {
        let (w, cur) = words_state(s.drop_last());
        if white_space(s.last()) {
            (add_word(w, cur), Seq::empty())
        } else {
            (w, cur.push(s.last()))
        }
    }
}

/// The words of a text (`str::split_whitespace`): its maximal runs of non-whitespace
/// characters, in order.
pub open spec fn words_of(s: Seq<char>) -> Seq<Seq<char>> {
    add_word(words_state(s).0, words_state(s).1)
}

/// Words joined with single spaces.
pub open spec fn joined(ws: Seq<Seq<char>>) -> Seq<char>
    decreases ws.len(),
{
    if ws.len() == 0 {
        Seq::empty()
    } else if ws.len() == 1 {
        ws[0]
    } else {
        joined(ws.drop_last()) + " "@ + ws.last()
    }
}

/// A line and the next word with a space between them, or the word alone after an empty line.
pub open spec fn extend_line(cur: Seq<char>, w: Seq<char>) -> Seq<char> {
    if cur.len() == 0 {
        w
    } else {
        cur + " "@ + w
    }
}

/// How the width of a text is measured: by its UTF-8 byte count (the built-in font, whose
/// characters are drawn at a fixed width per byte), or by the sum of the glyph advances of a
/// registered font (0 when that font's data does not parse).
#[derive(Clone, Copy, PartialEq, Eq, Debug, Structural)]
pub enum TextMeasure {
    Bytes,
    Glyphs(FontId),
}

/// The width of `s` under measure `m`, in bytes or font units.
pub open spec fn measure_of(fonts: Seq<Font>, m: TextMeasure, s: Seq<char>) -> nat {
    match m {
        TextMeasure::Bytes => bytes_of(s).len(),
        TextMeasure::Glyphs(id) => if face_parses(fonts[id.0 as int].raw_data@) {
            advance_sum(fonts[id.0 as int].raw_data@, s)
        } else {
            0
        },
    }
}

/// Whether a width is over the limit; with no limit every width is over it (no width fits).
pub open spec fn exceeds(w: nat, limit: Option<u64>) -> bool {
    match limit {
        Some(t) => w > t,
        None => true,
    }
}

/// A measure that can be taken with the fonts at hand.
pub open spec fn measure_ok(fonts: Seq<Font>, m: TextMeasure) -> bool {
    m matches TextMeasure::Glyphs(id) ==> id.0 < fonts.len()
}

/// Measures `s` (see `measure_of`).
pub fn measure_text(fm: &FontManager, m: TextMeasure, s: &str) -> (r: u128)
    requires
        measure_ok(fm.fonts(), m),
    ensures
        r == measure_of(fm.fonts(), m, s@),
{
    match m {
        TextMeasure::Bytes => {
            let n: usize = s.as_bytes().len();
            n as u128
        },
        TextMeasure::Glyphs(id) => match fm.advance_units(id, s) {
            Some(w) => w,
            None => 0,
        },
    }
}

fn exceeds_exec(w: u128, limit: Option<u64>) -> (r: bool)
    ensures
        r == exceeds(w as nat, limit),
{
    match limit {
        Some(t) => w > t as u128,
        None => true,
    }
}

/// Greedy filling, word by word: a word goes on the current line unless the line with it
/// would be too wide and the line already holds something; then the line is finished and the
/// word starts the next one. Returns the finished lines and the current one.
pub open spec fn greedy(words: Seq<Seq<char>>, fonts: Seq<Font>, m: TextMeasure, limit: Option<u64>) -> (Seq<Seq<char>>, Seq<char>)
    decreases words.len(),
{
    if words.len() == 0 {
        (Seq::empty(), Seq::empty())
    } else {
        let (lines, cur) = greedy(words.drop_last(), fonts, m, limit);
        let cand = extend_line(cur, words.last());
        if exceeds(measure_of(fonts, m, cand), limit) && cur.len() > 0 {
            (lines.push(cur), words.last())
        } else {
            (lines, cand)
        }
    }
}

/// The lines that greedy filling gives (the current line included when not empty).
pub open spec fn wrap_lines(words: Seq<Seq<char>>, fonts: Seq<Font>, m: TextMeasure, limit: Option<u64>) -> Seq<Seq<char>> {
    add_word(greedy(words, fonts, m, limit).0, greedy(words, fonts, m, limit).1)
}

/// Abstract view of a list of strings.
pub open spec fn lines_view(v: Seq<String>) -> Seq<Seq<char>> {
    v.map_values(|s: String| s@)
}

/// The words of `text` (see `words_of`).
pub fn split_words(text: &str) -> (r: Vec<String>)
    ensures
        lines_view(r@) == words_of(text@),
{
    let cs = chars_of(text);
    let mut words: Vec<String> = Vec::new();
    let mut cur: Vec<char> = Vec::new();
    let mut k: usize = 0;
    assert(lines_view(words@) =~= Seq::<Seq<char>>::empty());
    while k < cs.len()
        invariant
            k <= cs@.len(),
            cs@ == text@,
            words_state(cs@.subrange(0, k as int)) == (lines_view(words@), cur@),
        decreases cs@.len() - k,
    {
        let c = cs[k];
        assert(cs@.subrange(0, k + 1).drop_last() =~= cs@.subrange(0, k as int));
        let ghost wb = lines_view(words@);
        if is_whitespace(c) {
            if cur.len() > 0 {
                let w = string_from_chars(cur.as_slice());
                words.push(w);
                assert(lines_view(words@) =~= wb.push(cur@));
            }
            cur = Vec::new();
        } else {
            cur.push(c);
        }
        k = k + 1;
    }
    assert(cs@.subrange(0, cs@.len() as int) =~= cs@);
    let ghost wb = lines_view(words@);
    if cur.len() > 0 {
        let w = string_from_chars(cur.as_slice());
        words.push(w);
        assert(lines_view(words@) =~= wb.push(cur@));
    }
    words
}

fn extend_line_exec(cur: &String, w: &String) -> (r: String)
    ensures
        r@ == extend_line(cur@, w@),
{
    if cur.as_str().is_empty() {
        w.clone()
    } else {
        let mut c = cur.clone();
        push_str(&mut c, " ");
        push_str(&mut c, w.as_str());
        c
    }
}

/// Fills lines greedily with the words (see `greedy`).
pub fn wrap_words(words: &Vec<String>, fm: &FontManager, m: TextMeasure, limit: Option<u64>) -> (r: Vec<String>)
    requires
        measure_ok(fm.fonts(), m),
    ensures
        lines_view(r@) == wrap_lines(lines_view(words@), fm.fonts(), m, limit),
{
    let ghost wv = lines_view(words@);
    let ghost fonts = fm.fonts();
    let mut lines: Vec<String> = Vec::new();
    let mut cur = String::new();
    let mut k: usize = 0;
    assert(lines_view(lines@) =~= Seq::<Seq<char>>::empty());
    assert(wv.subrange(0, 0) =~= Seq::<Seq<char>>::empty());
    while k < words.len()
        invariant
            k <= words@.len(),
            wv == lines_view(words@),
            fonts == fm.fonts(),
            measure_ok(fonts, m),
            greedy(wv.subrange(0, k as int), fonts, m, limit) == (lines_view(lines@), cur@),
        decreases words@.len() - k,
    {
        let w = &words[k];
        assert(wv.subrange(0, k + 1).drop_last() =~= wv.subrange(0, k as int));
        assert(wv.subrange(0, k + 1).last() == w@);
        let cand = extend_line_exec(&cur, w);
        let ghost lb = lines_view(lines@);
        let width = measure_text(fm, m, cand.as_str());
        if exceeds_exec(width, limit) && !cur.as_str().is_empty() {
            lines.push(cur);
            assert(lines_view(lines@) =~= lb.push(greedy(wv.subrange(0, k as int), fonts, m, limit).1));
            cur = w.clone();
        } else {
            cur = cand;
        }
        k = k + 1;
    }
    assert(wv.subrange(0, wv.len() as int) =~= wv);
    let ghost lb = lines_view(lines@);
    if !cur.as_str().is_empty() {
        lines.push(cur);
        assert(lines_view(lines@) =~= lb.push(cur@));
    }
    lines
}

/// The lines of a wrapped text: without wrapping the text is one line; otherwise its words
/// filled greedily (see `greedy`), and one empty line when there are none.
pub open spec fn wrapped_text(text: Seq<char>, fonts: Seq<Font>, m: TextMeasure, limit: Option<u64>, do_wrap: bool) -> Seq<Seq<char>> {
    if !do_wrap {
        seq![text]
    } else if wrap_lines(words_of(text), fonts, m, limit).len() == 0 {
        seq![Seq::<char>::empty()]
    } else {
        wrap_lines(words_of(text), fonts, m, limit)
    }
}

fn wrap_text(text: &str, fm: &FontManager, m: TextMeasure, limit: Option<u64>, do_wrap: bool) -> (r: Vec<String>)
    requires
        measure_ok(fm.fonts(), m),
    ensures
        lines_view(r@) == wrapped_text(text@, fm.fonts(), m, limit, do_wrap),
{
    if !do_wrap {
        let mut r: Vec<String> = Vec::new();
        r.push(text.to_owned());
        assert(lines_view(r@) =~= seq![text@]);
        return r;
    }
    let words = split_words(text);
    let mut lines = wrap_words(&words, fm, m, limit);
    if lines.len() == 0 {
        lines.push(String::new());
        assert(lines_view(lines@) =~= seq![Seq::<char>::empty()]);
    }
    lines
}

/// Wraps text for the built-in font: lines of at most `max_chars` bytes (see
/// `wrapped_text`), a longer word standing alone.
pub fn word_wrap_helvetica(text: &str, max_chars: usize, do_wrap: bool) -> (r: Vec<String>)
    ensures
        lines_view(r@) == wrapped_text(text@, Seq::empty(), TextMeasure::Bytes, Some(max_chars as u64), do_wrap),
{
    let fm = FontManager::new();
    wrap_text(text, &fm, TextMeasure::Bytes, Some(max_chars as u64), do_wrap)
}

/// Wraps text for a registered font: lines whose glyph advances sum to at most `limit` font
/// units (no line fits when `limit` is `None`), see `wrapped_text`.
pub fn word_wrap_ttf(fm: &FontManager, font_id: FontId, text: &str, limit: Option<u64>, do_wrap: bool) -> (r: Vec<String>)
    requires
        font_id.0 < fm.fonts().len(),
    ensures
        lines_view(r@) == wrapped_text(text@, fm.fonts(), TextMeasure::Glyphs(font_id), limit, do_wrap),
{
    wrap_text(text, fm, TextMeasure::Glyphs(font_id), limit, do_wrap)
}

/// The lines of a paragraph: its words filled greedily (see `greedy`), no line at all for a
/// text without words.
pub fn paragraph_lines(text: &str, fm: &FontManager, m: TextMeasure, limit: Option<u64>) -> (r: Vec<String>)
    requires
        measure_ok(fm.fonts(), m),
    ensures
        lines_view(r@) == wrap_lines(words_of(text@), fm.fonts(), m, limit),
{
    let words = split_words(text);
    wrap_words(&words, fm, m, limit)
}

proof fn lemma_joined_extend(ls: Seq<Seq<char>>, cur: Seq<char>, w: Seq<char>)
    requires
        cur.len() > 0,
    ensures
        joined(ls.push(extend_line(cur, w))) == joined(ls.push(cur)) + " "@ + w,
{
    let a = ls.push(extend_line(cur, w));
    let b = ls.push(cur);
    assert(a.drop_last() =~= ls);
    assert(b.drop_last() =~= ls);
    if ls.len() == 0 {
        assert(joined(a) == a[0]);
        assert(joined(b) == b[0]);
    } else {
        assert(joined(a) == joined(ls) + " "@ + (cur + " "@ + w));
        assert(joined(b) == joined(ls) + " "@ + cur);
        assert(joined(ls) + " "@ + (cur + " "@ + w) =~= joined(ls) + " "@ + cur + " "@ + w);
    }
}

proof fn lemma_greedy(words: Seq<Seq<char>>, fonts: Seq<Font>, m: TextMeasure, limit: Option<u64>)
    requires
        forall|i: int| 0 <= i < words.len() ==> (#[trigger] words[i]).len() > 0,
    ensures
        words.len() == 0 ==> greedy(words, fonts, m, limit) == (Seq::<Seq<char>>::empty(), Seq::<char>::empty()),
        words.len() > 0 ==> greedy(words, fonts, m, limit).1.len() > 0
            && joined(greedy(words, fonts, m, limit).0.push(greedy(words, fonts, m, limit).1)) == joined(words),
        forall|i: int| 0 <= i < greedy(words, fonts, m, limit).0.len() ==>
            !exceeds(measure_of(fonts, m, #[trigger] greedy(words, fonts, m, limit).0[i]), limit)
            || words.contains(greedy(words, fonts, m, limit).0[i]),
        greedy(words, fonts, m, limit).1.len() == 0 || !exceeds(measure_of(fonts, m, greedy(words, fonts, m, limit).1), limit)
            || words.contains(greedy(words, fonts, m, limit).1),
    decreases words.len(),
{
    if words.len() > 0 {
        let init = words.drop_last();
        let w = words.last();
        assert forall|i: int| 0 <= i < init.len() implies (#[trigger] init[i]).len() > 0 by {
            assert(init[i] == words[i]);
        }
        lemma_greedy(init, fonts, m, limit);
        let (lines, cur) = greedy(init, fonts, m, limit);
        assert(words[words.len() - 1] == w);
        assert(words.contains(w));
        assert forall|x: Seq<char>| init.contains(x) implies words.contains(x) by {
            let j = choose|j: int| 0 <= j < init.len() && init[j] == x;
            assert(words[j] == x);
        }
        let cand = extend_line(cur, w);
        if init.len() == 0 {
            assert(words.len() == 1);
            assert(joined(seq![w]) == w);
            assert(Seq::<Seq<char>>::empty().push(w) =~= seq![w]);
        } else if exceeds(measure_of(fonts, m, cand), limit) && cur.len() > 0 {
            let nl = lines.push(cur);
            assert(nl.push(w).drop_last() =~= nl);
            assert(joined(nl.push(w)) == joined(nl) + " "@ + w);
            assert(words.drop_last() == init);
            assert(joined(words) == joined(init) + " "@ + w);
            assert forall|i: int| 0 <= i < nl.len() implies !exceeds(measure_of(fonts, m, #[trigger] nl[i]), limit) || words.contains(nl[i]) by {
                if i < lines.len() {
                    assert(nl[i] == lines[i]);
                }
            }
        } else {
            lemma_joined_extend(lines, cur, w);
            assert(joined(words) == joined(init) + " "@ + w);
        }
    }
}

/// Wrapping loses, adds and reorders nothing: the lines joined with single spaces are the
/// words joined with single spaces.
pub proof fn wrap_keeps_words(words: Seq<Seq<char>>, fonts: Seq<Font>, m: TextMeasure, limit: Option<u64>)
    requires
        forall|i: int| 0 <= i < words.len() ==> (#[trigger] words[i]).len() > 0,
    ensures
        joined(wrap_lines(words, fonts, m, limit)) == joined(words),
{
    lemma_greedy(words, fonts, m, limit);
}

/// Every wrapped line is within the limit, unless it is a single word too wide by itself.
pub proof fn wrap_lines_fit(words: Seq<Seq<char>>, fonts: Seq<Font>, m: TextMeasure, limit: Option<u64>)
    requires
        forall|i: int| 0 <= i < words.len() ==> (#[trigger] words[i]).len() > 0,
    ensures
        forall|i: int| 0 <= i < wrap_lines(words, fonts, m, limit).len() ==>
            !exceeds(measure_of(fonts, m, #[trigger] wrap_lines(words, fonts, m, limit)[i]), limit)
            || words.contains(wrap_lines(words, fonts, m, limit)[i]),
{
    lemma_greedy(words, fonts, m, limit);
    let (lines, cur) = greedy(words, fonts, m, limit);
    let r = wrap_lines(words, fonts, m, limit);
    assert forall|i: int| 0 <= i < r.len() implies !exceeds(measure_of(fonts, m, #[trigger] r[i]), limit) || words.contains(r[i]) by {
        if i < lines.len() {
            assert(r[i] == lines[i]);
        }
    }
}

proof fn lemma_words_state(s: Seq<char>)
    ensures
        forall|i: int| 0 <= i < words_state(s).0.len() ==> (#[trigger] words_state(s).0[i]).len() > 0
            && forall|j: int| 0 <= j < words_state(s).0[i].len() ==> !white_space(#[trigger] words_state(s).0[i][j]),
        forall|j: int| 0 <= j < words_state(s).1.len() ==> !white_space(#[trigger] words_state(s).1[j]),
    decreases s.len(),
{
    if s.len() > 0 {
        lemma_words_state(s.drop_last());
        let (w, cur) = words_state(s.drop_last());
        if white_space(s.last()) {
            let nw = add_word(w, cur);
            assert forall|i: int| 0 <= i < nw.len() implies (#[trigger] nw[i]).len() > 0
                && forall|j: int| 0 <= j < nw[i].len() ==> !white_space(#[trigger] nw[i][j]) by {
                if i < w.len() {
                    assert(nw[i] == w[i]);
                }
            }
        } else {
            let nc = cur.push(s.last());
            assert forall|j: int| 0 <= j < nc.len() implies !white_space(#[trigger] nc[j]) by {
                if j < cur.len() {
                    assert(nc[j] == cur[j]);
                }
            }
        }
    }
}

/// The words of a text are not empty and hold no whitespace.
pub proof fn words_are_words(s: Seq<char>)
    ensures
        forall|i: int| 0 <= i < words_of(s).len() ==> (#[trigger] words_of(s)[i]).len() > 0
            && forall|j: int| 0 <= j < words_of(s)[i].len() ==> !white_space(#[trigger] words_of(s)[i][j]),
{
    lemma_words_state(s);
    let (w, cur) = words_state(s);
    let r = words_of(s);
    assert forall|i: int| 0 <= i < r.len() implies (#[trigger] r[i]).len() > 0
        && forall|j: int| 0 <= j < r[i].len() ==> !white_space(#[trigger] r[i][j]) by {
        if i < w.len() {
            assert(r[i] == w[i]);
        }
    }
}

/// Breaking a word that is too wide, character by character: a character that would make the
/// gathered piece too wide ends the piece and starts the next; a `/` or `-` ends its piece.
/// Returns the finished pieces and the piece being gathered.
pub open spec fn break_state(w: Seq<char>, fonts: Seq<Font>, m: TextMeasure, limit: Option<u64>) -> (Seq<Seq<char>>, Seq<char>)
    decreases w.len(),
{
    if w.len() == 0 {
        (Seq::empty(), Seq::empty())
    } else {
        let (parts, p) = break_state(w.drop_last(), fonts, m, limit);
        let ch = w.last();
        let cand = p.push(ch);
        if exceeds(measure_of(fonts, m, cand), limit) && p.len() > 0 {
            (parts.push(p), seq![ch])
        } else if ch == '/' || ch == '-' {
            (parts.push(cand), Seq::empty())
        } else {
            (parts, cand)
        }
    }
}

/// The pieces a word is placed in: itself when it fits, otherwise its broken pieces.
pub open spec fn word_parts(w: Seq<char>, fonts: Seq<Font>, m: TextMeasure, limit: Option<u64>) -> Seq<Seq<char>> {
    if exceeds(measure_of(fonts, m, w), limit) {
        add_word(break_state(w, fonts, m, limit).0, break_state(w, fonts, m, limit).1)
    } else {
        seq![w]
    }
}

/// Placing the first `k` pieces of a word after the finished `lines` and current line `cur`:
/// the first piece follows the line after a space, later pieces follow without one; a piece
/// that would make a non-empty line too wide starts the next line.
pub open spec fn place_parts(lines: Seq<Seq<char>>, cur: Seq<char>, parts: Seq<Seq<char>>, k: int, fonts: Seq<Font>, m: TextMeasure, limit: Option<u64>) -> (Seq<Seq<char>>, Seq<char>)
    decreases k,
{
    if k <= 0 {
        (lines, cur)
    } else {
        let (l, c) = place_parts(lines, cur, parts, k - 1, fonts, m, limit);
        let part = parts[k - 1];
        let cand = if c.len() == 0 { part } else if k - 1 == 0 { c + " "@ + part } else { c + part };
        if exceeds(measure_of(fonts, m, cand), limit) && c.len() > 0 {
            (l.push(c), part)
        } else {
            (l, cand)
        }
    }
}

/// Placing the words of one line of text, word by word.
pub open spec fn place_words(words: Seq<Seq<char>>, fonts: Seq<Font>, m: TextMeasure, limit: Option<u64>) -> (Seq<Seq<char>>, Seq<char>)
    decreases words.len(),
{
    if words.len() == 0 {
        (Seq::empty(), Seq::empty())
    } else {
        let (l, c) = place_words(words.drop_last(), fonts, m, limit);
        let parts = word_parts(words.last(), fonts, m, limit);
        place_parts(l, c, parts, parts.len() as int, fonts, m, limit)
    }
}

/// The lines of one line of text in a cell: one empty line when it has no words.
pub open spec fn cell_line_lines(line: Seq<char>, fonts: Seq<Font>, m: TextMeasure, limit: Option<u64>) -> Seq<Seq<char>> {
    let words = words_of(line);
    if words.len() == 0 {
        seq![Seq::<char>::empty()]
    } else {
        add_word(place_words(words, fonts, m, limit).0, place_words(words, fonts, m, limit).1)
    }
}

/// The lines of the first `k` lines of text.
pub open spec fn cell_lines_upto(text_lines: Seq<Seq<char>>, k: int, fonts: Seq<Font>, m: TextMeasure, limit: Option<u64>) -> Seq<Seq<char>>
    decreases k,
{
    if k <= 0 {
        Seq::empty()
    } else {
        cell_lines_upto(text_lines, k - 1, fonts, m, limit) + cell_line_lines(text_lines[k - 1], fonts, m, limit)
    }
}

/// The lines of a table cell's text: each of its lines (split at '\n') wrapped on its own,
/// words broken when too wide by themselves; one empty line when that gives none.
pub open spec fn cell_lines(text: Seq<char>, fonts: Seq<Font>, m: TextMeasure, limit: Option<u64>) -> Seq<Seq<char>> {
    let tl = crate::svg::split_on(text, '\n');
    let r = cell_lines_upto(tl, tl.len() as int, fonts, m, limit);
    if r.len() == 0 {
        seq![Seq::<char>::empty()]
    } else {
        r
    }
}

fn chars_string(v: &Vec<char>) -> (r: String)
    ensures
        r@ == v@,
{
    string_from_chars(v.as_slice())
}

/// The pieces of a word (see `word_parts`).
fn break_word(w: &String, fm: &FontManager, m: TextMeasure, limit: Option<u64>) -> (r: Vec<String>)
    requires
        measure_ok(fm.fonts(), m),
    ensures
        lines_view(r@) == word_parts(w@, fm.fonts(), m, limit),
{
    let ghost fonts = fm.fonts();
    if !exceeds_exec(measure_text(fm, m, w.as_str()), limit) {
        let mut r: Vec<String> = Vec::new();
        r.push(w.clone());
        assert(lines_view(r@) =~= seq![w@]);
        return r;
    }
    let cs = chars_of(w.as_str());
    let mut parts: Vec<String> = Vec::new();
    let mut p: Vec<char> = Vec::new();
    let mut k: usize = 0;
    assert(lines_view(parts@) =~= Seq::<Seq<char>>::empty());
    while k < cs.len()
        invariant
            k <= cs@.len(),
            cs@ == w@,
            fonts == fm.fonts(),
            measure_ok(fonts, m),
            break_state(cs@.subrange(0, k as int), fonts, m, limit) == (lines_view(parts@), p@),
        decreases cs@.len() - k,
    {
        let ch = cs[k];
        assert(cs@.subrange(0, k + 1).drop_last() =~= cs@.subrange(0, k as int));
        let ghost pb = lines_view(parts@);
        let ghost p0 = p@;
        let mut cand = p.clone();
        cand.push(ch);
        assert(cand@ == p0.push(ch));
        let cand_s = chars_string(&cand);
        if exceeds_exec(measure_text(fm, m, cand_s.as_str()), limit) && p.len() > 0 {
            parts.push(chars_string(&p));
            assert(lines_view(parts@) =~= pb.push(p0));
            p = Vec::new();
            p.push(ch);
            assert(p@ =~= seq![ch]);
        } else if ch == '/' || ch == '-' {
            parts.push(cand_s);
            assert(lines_view(parts@) =~= pb.push(p0.push(ch)));
            p = Vec::new();
        } else {
            p = cand;
        }
        k = k + 1;
    }
    assert(cs@.subrange(0, cs@.len() as int) =~= cs@);
    let ghost pb = lines_view(parts@);
    if p.len() > 0 {
        parts.push(chars_string(&p));
        assert(lines_view(parts@) =~= pb.push(p@));
    }
    parts
}

/// Places the pieces of one word (see `place_parts`).
fn place_word(lines: &mut Vec<String>, cur: &mut String, parts: &Vec<String>, fm: &FontManager, m: TextMeasure, limit: Option<u64>)
    requires
        measure_ok(fm.fonts(), m),
    ensures
        (lines_view(final(lines)@), final(cur)@) == place_parts(lines_view(old(lines)@), old(cur)@, lines_view(parts@), parts@.len() as int, fm.fonts(), m, limit),
{
    let ghost fonts = fm.fonts();
    let ghost pv = lines_view(parts@);
    let ghost l0 = lines_view(lines@);
    let ghost c0 = cur@;
    let mut k: usize = 0;
    while k < parts.len()
        invariant
            k <= parts@.len(),
            pv == lines_view(parts@),
            fonts == fm.fonts(),
            measure_ok(fonts, m),
            place_parts(l0, c0, pv, k as int, fonts, m, limit) == (lines_view(lines@), cur@),
        decreases parts@.len() - k,
    {
        let part = &parts[k];
        assert(pv[k as int] == part@);
        let cand = if cur.as_str().is_empty() {
            part.clone()
        } else if k == 0 {
            let mut c = cur.clone();
            push_str(&mut c, " ");
            push_str(&mut c, part.as_str());
            c
        } else {
            let mut c = cur.clone();
            push_str(&mut c, part.as_str());
            c
        };
        let ghost lb = lines_view(lines@);
        if exceeds_exec(measure_text(fm, m, cand.as_str()), limit) && !cur.as_str().is_empty() {
            let done = cur.clone();
            lines.push(done);
            assert(lines_view(lines@) =~= lb.push(cur@));
            *cur = part.clone();
        } else {
            *cur = cand;
        }
        k = k + 1;
    }
}

/// The lines of one line of text in a cell (see `cell_line_lines`).
fn wrap_cell_line(line: &str, fm: &FontManager, m: TextMeasure, limit: Option<u64>) -> (r: Vec<String>)
    requires
        measure_ok(fm.fonts(), m),
    ensures
        lines_view(r@) == cell_line_lines(line@, fm.fonts(), m, limit),
{
    let ghost fonts = fm.fonts();
    let words = split_words(line);
    let ghost wv = lines_view(words@);
    let mut lines: Vec<String> = Vec::new();
    if words.len() == 0 {
        lines.push(String::new());
        assert(lines_view(lines@) =~= seq![Seq::<char>::empty()]);
        return lines;
    }
    let mut cur = String::new();
    let mut k: usize = 0;
    assert(lines_view(lines@) =~= Seq::<Seq<char>>::empty());
    assert(wv.subrange(0, 0) =~= Seq::<Seq<char>>::empty());
    while k < words.len()
        invariant
            k <= words@.len(),
            wv == lines_view(words@),
            fonts == fm.fonts(),
            measure_ok(fonts, m),
            place_words(wv.subrange(0, k as int), fonts, m, limit) == (lines_view(lines@), cur@),
        decreases words@.len() - k,
    {
        assert(wv.subrange(0, k + 1).drop_last() =~= wv.subrange(0, k as int));
        assert(wv.subrange(0, k + 1).last() == words@[k as int]@);
        let parts = break_word(&words[k], fm, m, limit);
        place_word(&mut lines, &mut cur, &parts, fm, m, limit);
        k = k + 1;
    }
    assert(wv.subrange(0, wv.len() as int) =~= wv);
    let ghost lb = lines_view(lines@);
    if !cur.as_str().is_empty() {
        lines.push(cur);
        assert(lines_view(lines@) =~= lb.push(cur@));
    }
    lines
}

/// Wraps a table cell's text (see `cell_lines`): each '\n'-separated line on its own, words
/// filled greedily, a word too wide by itself broken into pieces (after '/' and '-' where it
/// can).
pub fn wrap_cell_text(text: &str, fm: &FontManager, m: TextMeasure, limit: Option<u64>) -> (r: Vec<String>)
    requires
        measure_ok(fm.fonts(), m),
    ensures
        lines_view(r@) == cell_lines(text@, fm.fonts(), m, limit),
{
    let ghost fonts = fm.fonts();
    let cs = chars_of(text);
    let tl = crate::svg::split_chars(cs.as_slice(), '\n');
    let ghost tv = crate::svg::pieces_view(tl@);
    let mut lines: Vec<String> = Vec::new();
    let mut k: usize = 0;
    assert(lines_view(lines@) =~= Seq::<Seq<char>>::empty());
    while k < tl.len()
        invariant
            k <= tl@.len(),
            tv == crate::svg::pieces_view(tl@),
            tv == crate::svg::split_on(text@, '\n'),
            fonts == fm.fonts(),
            measure_ok(fonts, m),
            lines_view(lines@) == cell_lines_upto(tv, k as int, fonts, m, limit),
        decreases tl@.len() - k,
    {
        let line = chars_string(&tl[k]);
        assert(line@ == tv[k as int]);
        let more = wrap_cell_line(line.as_str(), fm, m, limit);
        let ghost lb = lines_view(lines@);
        let mut i: usize = 0;
        while i < more.len()
            invariant
                i <= more@.len(),
                lines_view(lines@) == lb + lines_view(more@).subrange(0, i as int),
            decreases more@.len() - i,
        {
            let ghost before = lines_view(lines@);
            let item = more[i].clone();
            lines.push(item);
            assert(lines_view(lines@) =~= before.push(more@[i as int]@));
            assert(lines_view(more@).subrange(0, i + 1) =~= lines_view(more@).subrange(0, i as int).push(more@[i as int]@));
            i = i + 1;
        }
        assert(lines_view(more@).subrange(0, more@.len() as int) =~= lines_view(more@));
        k = k + 1;
    }
    if lines.len() == 0 {
        lines.push(String::new());
        assert(lines_view(lines@) =~= seq![Seq::<char>::empty()]);
    }
    lines
}

/// Pieces put back together.
pub open spec fn concat(ps: Seq<Seq<char>>) -> Seq<char>
    decreases ps.len(),
{
    if ps.len() == 0 {
        Seq::empty()
    } else {
        concat(ps.drop_last()) + ps.last()
    }
}

proof fn lemma_break_state(w: Seq<char>, fonts: Seq<Font>, m: TextMeasure, limit: Option<u64>)
    ensures
        concat(break_state(w, fonts, m, limit).0) + break_state(w, fonts, m, limit).1 == w,
    decreases w.len(),
{
    if w.len() > 0 {
        lemma_break_state(w.drop_last(), fonts, m, limit);
        let (parts, p) = break_state(w.drop_last(), fonts, m, limit);
        let ch = w.last();
        let cand = p.push(ch);
        assert(w =~= w.drop_last().push(ch));
        if exceeds(measure_of(fonts, m, cand), limit) && p.len() > 0 {
            assert(parts.push(p).drop_last() =~= parts);
            assert(concat(parts.push(p)) + seq![ch] =~= concat(parts) + p + seq![ch]);
        } else if ch == '/' || ch == '-' {
            assert(parts.push(cand).drop_last() =~= parts);
            assert(concat(parts.push(cand)) + Seq::<char>::empty() =~= concat(parts) + p.push(ch));
        } else {
            assert(concat(parts) + cand =~= concat(parts) + p + seq![ch]);
        }
    }
}

/// Lines put back together: between consecutive lines a space where `spaced` says so and
/// nothing otherwise (`spaced` has one entry per line break).
pub open spec fn glue(lines: Seq<Seq<char>>, spaced: Seq<bool>) -> Seq<char>
    decreases lines.len(),
{
    if lines.len() == 0 {
        Seq::empty()
    } else if lines.len() == 1 {
        lines[0]
    } else {
        glue(lines.drop_last(), spaced.drop_last()) + (if spaced.last() { " "@ } else { Seq::<char>::empty() })
            + lines.last()
    }
}

proof fn lemma_glue_push(l: Seq<Seq<char>>, c: Seq<char>, sp: Seq<bool>, b: bool, part: Seq<char>)
    requires
        sp.len() == l.len(),
    ensures
        glue(l.push(c).push(part), sp.push(b)) == glue(l.push(c), sp) + (if b { " "@ } else { Seq::<char>::empty() }) + part,
{
    assert(l.push(c).push(part).drop_last() =~= l.push(c));
    assert(sp.push(b).drop_last() =~= sp);
}

proof fn lemma_glue_extend(l: Seq<Seq<char>>, c: Seq<char>, sp: Seq<bool>, tail: Seq<char>)
    requires
        sp.len() == l.len(),
    ensures
        glue(l.push(c + tail), sp) == glue(l.push(c), sp) + tail,
{
    assert(l.push(c + tail).drop_last() =~= l);
    assert(l.push(c).drop_last() =~= l);
    if l.len() == 0 {
        assert(glue(l.push(c + tail), sp) == c + tail);
    } else {
        let sep = if sp.last() { " "@ } else { Seq::<char>::empty() };
        assert(glue(l.push(c + tail), sp) =~= glue(l, sp.drop_last()) + sep + (c + tail));
        assert(glue(l.push(c), sp) =~= glue(l, sp.drop_last()) + sep + c);
        assert(glue(l, sp.drop_last()) + sep + (c + tail) =~= glue(l, sp.drop_last()) + sep + c + tail);
    }
}

proof fn lemma_break_parts_nonempty(w: Seq<char>, fonts: Seq<Font>, m: TextMeasure, limit: Option<u64>)
    ensures
        forall|i: int| 0 <= i < break_state(w, fonts, m, limit).0.len() ==> (#[trigger] break_state(w, fonts, m, limit).0[i]).len() > 0,
    decreases w.len(),
{
    if w.len() > 0 {
        lemma_break_parts_nonempty(w.drop_last(), fonts, m, limit);
        let (parts, p) = break_state(w.drop_last(), fonts, m, limit);
        let ch = w.last();
        let cand = p.push(ch);
        let r = break_state(w, fonts, m, limit).0;
        if exceeds(measure_of(fonts, m, cand), limit) && p.len() > 0 {
            assert(r == parts.push(p));
            assert forall|i: int| 0 <= i < r.len() implies (#[trigger] r[i]).len() > 0 by {
                if i < parts.len() {
                    assert(r[i] == parts[i]);
                }
            }
        } else if ch == '/' || ch == '-' {
            assert(r == parts.push(cand));
            assert forall|i: int| 0 <= i < r.len() implies (#[trigger] r[i]).len() > 0 by {
                if i < parts.len() {
                    assert(r[i] == parts[i]);
                }
            }
        } else {
            assert(r == parts);
        }
    }
}

proof fn lemma_word_parts_nonempty(w: Seq<char>, fonts: Seq<Font>, m: TextMeasure, limit: Option<u64>)
    requires
        w.len() > 0,
    ensures
        word_parts(w, fonts, m, limit).len() > 0,
        forall|i: int| 0 <= i < word_parts(w, fonts, m, limit).len() ==> (#[trigger] word_parts(w, fonts, m, limit)[i]).len() > 0,
{
    lemma_break_parts_nonempty(w, fonts, m, limit);
    word_parts_rejoin(w, fonts, m, limit);
    let ps = word_parts(w, fonts, m, limit);
    if ps.len() == 0 {
        assert(concat(ps) == Seq::<char>::empty());
    }
    if exceeds(measure_of(fonts, m, w), limit) {
        let (parts, p) = break_state(w, fonts, m, limit);
        assert forall|i: int| 0 <= i < ps.len() implies (#[trigger] ps[i]).len() > 0 by {
            if i < parts.len() {
                assert(ps[i] == parts[i]);
            }
        }
    }
}

proof fn lemma_concat_take(ps: Seq<Seq<char>>, k: int)
    requires
        0 < k <= ps.len(),
    ensures
        concat(ps.take(k)) == concat(ps.take(k - 1)) + ps[k - 1],
{
    assert(ps.take(k).drop_last() =~= ps.take(k - 1));
}

/// Placing the first `k` pieces of a word keeps the text: glued back with a space only where
/// the word meets the text before it, the lines give that text, a space and the pieces
/// (or only the pieces when nothing came before).
proof fn lemma_place_parts_glue(
    l: Seq<Seq<char>>,
    c: Seq<char>,
    sp: Seq<bool>,
    before: Seq<char>,
    parts: Seq<Seq<char>>,
    k: int,
    fonts: Seq<Font>,
    m: TextMeasure,
    limit: Option<u64>,
) -> (sp2: Seq<bool>)
    requires
        0 < k <= parts.len(),
        forall|i: int| 0 <= i < parts.len() ==> (#[trigger] parts[i]).len() > 0,
        (l.len() == 0 && c.len() == 0) || (c.len() > 0 && sp.len() == l.len() && glue(l.push(c), sp) == before),
    ensures
        place_parts(l, c, parts, k, fonts, m, limit).1.len() > 0,
        sp2.len() == place_parts(l, c, parts, k, fonts, m, limit).0.len(),
        glue(place_parts(l, c, parts, k, fonts, m, limit).0.push(place_parts(l, c, parts, k, fonts, m, limit).1), sp2)
            == (if c.len() == 0 { concat(parts.take(k)) } else { before + " "@ + concat(parts.take(k)) }),
    decreases k,
{
    lemma_concat_take(parts, k);
    let part = parts[k - 1];
    if k == 1 {
        assert(parts.take(0) =~= Seq::<Seq<char>>::empty());
        assert(concat(parts.take(1)) =~= part);
        assert(place_parts(l, c, parts, 0, fonts, m, limit) == (l, c));
        if c.len() == 0 {
            assert(Seq::<Seq<char>>::empty().push(part) =~= seq![part]);
            Seq::empty()
        } else {
            let cand = c + " "@ + part;
            if exceeds(measure_of(fonts, m, cand), limit) {
                lemma_glue_push(l, c, sp, true, part);
                sp.push(true)
            } else {
                lemma_glue_extend(l, c, sp, " "@ + part);
                assert(c + (" "@ + part) =~= cand);
                assert(before + (" "@ + part) =~= before + " "@ + part);
                sp
            }
        }
    } else {
        let sp1 = lemma_place_parts_glue(l, c, sp, before, parts, k - 1, fonts, m, limit);
        let (l1, c1) = place_parts(l, c, parts, k - 1, fonts, m, limit);
        let target1 = if c.len() == 0 { concat(parts.take(k - 1)) } else { before + " "@ + concat(parts.take(k - 1)) };
        let cand = c1 + part;
        if exceeds(measure_of(fonts, m, cand), limit) {
            lemma_glue_push(l1, c1, sp1, false, part);
            assert(target1 + Seq::<char>::empty() + part =~= (if c.len() == 0 { concat(parts.take(k)) } else { before + " "@ + concat(parts.take(k)) }));
            sp1.push(false)
        } else {
            lemma_glue_extend(l1, c1, sp1, part);
            assert(target1 + part =~= (if c.len() == 0 { concat(parts.take(k)) } else { before + " "@ + concat(parts.take(k)) }));
            sp1
        }
    }
}

/// Placing words keeps the text (see `lemma_place_parts_glue`).
proof fn lemma_place_words_glue(ws: Seq<Seq<char>>, fonts: Seq<Font>, m: TextMeasure, limit: Option<u64>) -> (sp: Seq<bool>)
    requires
        ws.len() > 0,
        forall|i: int| 0 <= i < ws.len() ==> (#[trigger] ws[i]).len() > 0,
    ensures
        place_words(ws, fonts, m, limit).1.len() > 0,
        sp.len() == place_words(ws, fonts, m, limit).0.len(),
        glue(place_words(ws, fonts, m, limit).0.push(place_words(ws, fonts, m, limit).1), sp) == joined(ws),
    decreases ws.len(),
{
    let w = ws.last();
    let parts = word_parts(w, fonts, m, limit);
    lemma_word_parts_nonempty(w, fonts, m, limit);
    word_parts_rejoin(w, fonts, m, limit);
    assert(parts.take(parts.len() as int) =~= parts);
    if ws.len() == 1 {
        assert(ws.drop_last() =~= Seq::<Seq<char>>::empty());
        assert(place_words(ws.drop_last(), fonts, m, limit) == (Seq::<Seq<char>>::empty(), Seq::<char>::empty()));
        lemma_place_parts_glue(Seq::empty(), Seq::empty(), Seq::empty(), Seq::empty(), parts, parts.len() as int, fonts, m, limit)
    } else {
        let prev = ws.drop_last();
        assert forall|i: int| 0 <= i < prev.len() implies (#[trigger] prev[i]).len() > 0 by {
            assert(prev[i] == ws[i]);
        }
        let sp0 = lemma_place_words_glue(prev, fonts, m, limit);
        let (l, c) = place_words(prev, fonts, m, limit);
        lemma_place_parts_glue(l, c, sp0, joined(prev), parts, parts.len() as int, fonts, m, limit)
    }
}

/// Wrapping a line of a cell keeps its text: glued back together, with a space at each break
/// between two words and nothing at a break inside a word, its lines give the line's words
/// joined by single spaces. So pieces of one broken word that share a line stand side by side.
pub proof fn cell_line_keeps_text(line: Seq<char>, fonts: Seq<Font>, m: TextMeasure, limit: Option<u64>)
    ensures
        words_of(line).len() == 0 ==> cell_line_lines(line, fonts, m, limit) == seq![Seq::<char>::empty()],
        words_of(line).len() > 0 ==> exists|sp: Seq<bool>|
            sp.len() + 1 == cell_line_lines(line, fonts, m, limit).len()
                && #[trigger] glue(cell_line_lines(line, fonts, m, limit), sp) == joined(words_of(line)),
{
    let ws = words_of(line);
    if ws.len() > 0 {
        words_are_words(line);
        let sp = lemma_place_words_glue(ws, fonts, m, limit);
        let (l, c) = place_words(ws, fonts, m, limit);
        assert(cell_line_lines(line, fonts, m, limit) == l.push(c));
        assert(glue(cell_line_lines(line, fonts, m, limit), sp) == joined(ws));
    }
}

/// Breaking a word loses nothing: its pieces put back together give the word.
pub proof fn word_parts_rejoin(w: Seq<char>, fonts: Seq<Font>, m: TextMeasure, limit: Option<u64>)
    ensures
        concat(word_parts(w, fonts, m, limit)) == w,
{
    if exceeds(measure_of(fonts, m, w), limit) {
        lemma_break_state(w, fonts, m, limit);
        let (parts, p) = break_state(w, fonts, m, limit);
        if p.len() == 0 {
            assert(concat(parts) + p =~= concat(parts));
            assert(word_parts(w, fonts, m, limit) == parts);
        } else {
            assert(parts.push(p).drop_last() =~= parts);
            assert(concat(parts.push(p)) == concat(parts) + p);
            assert(word_parts(w, fonts, m, limit) == parts.push(p));
        }
    } else {
        assert(seq![w].drop_last() =~= Seq::<Seq<char>>::empty());
        assert(concat(seq![w]) == concat(Seq::<Seq<char>>::empty()) + w);
        assert(Seq::<char>::empty() + w =~= w);
    }
}

} // verus!
