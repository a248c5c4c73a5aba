//! Small building blocks for text: characters of a string, growing a string,
//! and bytes to text.
use vstd::prelude::*;

verus! {

/// Appends one character (`String::push`).
#[verifier::external_body]
pub fn push_char(s: &mut String, c: char)
    ensures
        final(s)@ == old(s)@.push(c),
{
    s.push(c);
}

/// Appends a string slice.
pub fn push_str(s: &mut String, t: &str)
    ensures
        final(s)@ == old(s)@ + t@,
{
    s.append(t);
}

/// The characters of `s`, in order.
pub fn chars_of(s: &str) -> (r: Vec<char>)
    ensures
        r@ == s@,
{
    let mut r: Vec<char> = Vec::new();
    for c in it: s.chars()
        invariant
            r@ == it.seq().take(it.index() as int),
    {
        r.push(c);
    }
    r
}

/// The string made of the characters of `v`.
pub fn string_from_chars(v: &[char]) -> (r: String)
    ensures
        r@ == v@,
{
    let mut r = String::new();
    let mut k: usize = 0;
    while k < v.len()
        invariant
            k <= v@.len(),
            r@ == v@.subrange(0, k as int),
        decreases v@.len() - k,
    {
        push_char(&mut r, v[k]);
        k = k + 1;
    }
    r
}

/// The text whose UTF-8 encoding is `bytes` (`String::from_utf8`): `None` when the bytes are
/// not valid UTF-8.
#[verifier::external_body]
pub fn string_from_utf8(bytes: Vec<u8>) -> (r: Option<String>)
    ensures
        r is Some <==> vstd::utf8::valid_utf8(bytes@),
        r matches Some(s) ==> vstd::utf8::encode_utf8(s@) == bytes@,
{
    String::from_utf8(bytes).ok()
}

/// Whether a string equals a string slice.
pub fn string_eq(a: &String, b: &str) -> (r: bool)
    ensures
        r == (a@ == b@),
{
    let x = chars_of(a.as_str());
    let y = chars_of(b);
    if x.len() != y.len() {
        return false;
    }
    let mut k: usize = 0;
    while k < x.len()
        invariant
            k <= x@.len(),
            x@.len() == y@.len(),
            x@ == a@,
            y@ == b@,
            x@.subrange(0, k as int) == y@.subrange(0, k as int),
        decreases x@.len() - k,
    {
        if x[k] != y[k] {
            assert(x@[k as int] != y@[k as int]);
            return false;
        }
        k = k + 1;
        assert(x@.subrange(0, k as int) =~= y@.subrange(0, k as int));
    }
    assert(x@.subrange(0, x@.len() as int) =~= x@);
    assert(y@.subrange(0, y@.len() as int) =~= y@);
    true
}

/// Whether `c` has the Unicode White_Space property, which `char::is_whitespace` tests: the
/// controls U+0009 to U+000D, the space, U+0085, the no-break space, U+1680, U+2000 to U+200A,
/// the line and paragraph separators, U+202F, U+205F and U+3000.
pub open spec fn white_space(c: char) -> bool {
    let n = c as u32;
    ||| 0x09 <= n <= 0x0D
    ||| n == 0x20
    ||| n == 0x85
    ||| n == 0xA0
    ||| n == 0x1680
    ||| 0x2000 <= n <= 0x200A
    ||| n == 0x2028
    ||| n == 0x2029
    ||| n == 0x202F
    ||| n == 0x205F
    ||| n == 0x3000
}

/// Whether `c` is whitespace, as `char::is_whitespace` decides it (see `white_space`).
pub fn is_whitespace(c: char) -> (r: bool)
    ensures
        r == white_space(c),
{
    let n = c as u32;
    (0x09 <= n && n <= 0x0D) || n == 0x20 || n == 0x85 || n == 0xA0 || n == 0x1680
        || (0x2000 <= n && n <= 0x200A) || n == 0x2028 || n == 0x2029 || n == 0x202F
        || n == 0x205F || n == 0x3000
}

/// Whether every character of `s` is whitespace.
pub open spec fn all_white(s: Seq<char>) -> bool {
    forall|i: int| 0 <= i < s.len() ==> white_space(#[trigger] s[i])
}

/// `s` without its leading and trailing whitespace: the characters from the first
/// non-whitespace one to the last non-whitespace one (empty when there is none).
pub open spec fn is_trim_of(t: Seq<char>, s: Seq<char>) -> bool {
    exists|a: int, b: int|
        0 <= a <= b <= s.len() && t == s.subrange(a, b) && all_white(s.subrange(0, a)) && all_white(s.subrange(b, s.len() as int))
            && (a < b ==> !white_space(s[a]) && !white_space(s[b - 1]))
}

/// The text that trimming `s` gives is unique.
pub proof fn lemma_trim_unique(t: Seq<char>, s: Seq<char>)
    requires
        is_trim_of(t, s),
    ensures
        forall|u: Seq<char>| is_trim_of(u, s) ==> u == t,
{
    assert forall|u: Seq<char>| is_trim_of(u, s) implies u == t by {
        let (a, b) = choose|a: int, b: int|
            0 <= a <= b <= s.len() && t == s.subrange(a, b) && all_white(s.subrange(0, a))
                && all_white(s.subrange(b, s.len() as int))
                && (a < b ==> !white_space(s[a]) && !white_space(s[b - 1]));
        let (c, d) = choose|a: int, b: int|
            0 <= a <= b <= s.len() && u == s.subrange(a, b) && all_white(s.subrange(0, a))
                && all_white(s.subrange(b, s.len() as int))
                && (a < b ==> !white_space(s[a]) && !white_space(s[b - 1]));
        if a < b && c < d {
            if a < c {
                assert(s.subrange(0, c)[a] == s[a]);
            } else if c < a {
                assert(s.subrange(0, a)[c] == s[c]);
            }
            if b < d {
                assert(s.subrange(b, s.len() as int)[d - 1 - b] == s[d - 1]);
            } else if d < b {
                assert(s.subrange(d, s.len() as int)[b - 1 - d] == s[b - 1]);
            }
        } else if a < b {
            if c <= a {
                assert(s.subrange(d, s.len() as int)[a - d] == s[a]) by {
                    assert(d <= a);
                }
            } else {
                assert(s.subrange(0, c)[a] == s[a]);
            }
        } else if c < d {
            if a <= c {
                assert(s.subrange(b, s.len() as int)[c - b] == s[c]);
            } else {
                assert(s.subrange(0, a)[c] == s[c]);
            }
        }
        assert(u =~= t);
    }
}

/// `s` without leading and trailing whitespace.
pub open spec fn trimmed(s: Seq<char>) -> Seq<char> {
    choose|t: Seq<char>| is_trim_of(t, s)
}

/// Removes leading and trailing whitespace (`str::trim`).
pub fn trim(s: &str) -> (r: Vec<char>)
    ensures
        is_trim_of(r@, s@),
        r@ == trimmed(s@),
{
    let v = chars_of(s);
    let mut a: usize = 0;
    while a < v.len() && is_whitespace(v[a])
        invariant
            a <= v@.len(),
            all_white(v@.subrange(0, a as int)),
        decreases v@.len() - a,
    {
        a = a + 1;
        assert(all_white(v@.subrange(0, a as int))) by {
            assert forall|i: int| 0 <= i < a implies white_space(#[trigger] v@.subrange(0, a as int)[i]) by {
                if i < a - 1 {
                    assert(v@.subrange(0, a as int)[i] == v@.subrange(0, a - 1)[i]);
                }
            }
        }
    }
    let mut b: usize = v.len();
    while b > a && is_whitespace(v[b - 1])
        invariant
            a <= b <= v@.len(),
            all_white(v@.subrange(b as int, v@.len() as int)),
        decreases b,
    {
        b = b - 1;
        assert(all_white(v@.subrange(b as int, v@.len() as int))) by {
            assert forall|i: int| 0 <= i < v@.len() - b implies white_space(#[trigger] v@.subrange(b as int, v@.len() as int)[i]) by {
                if i > 0 {
                    assert(v@.subrange(b as int, v@.len() as int)[i] == v@.subrange(b + 1, v@.len() as int)[i - 1]);
                }
            }
        }
    }
    let mut r: Vec<char> = Vec::new();
    let mut k: usize = a;
    while k < b
        invariant
            a <= k <= b <= v@.len(),
            r@ == v@.subrange(a as int, k as int),
        decreases b - k,
    {
        r.push(v[k]);
        k = k + 1;
        assert(r@ =~= v@.subrange(a as int, k as int));
    }
    assert(r@ =~= v@.subrange(a as int, b as int));
    assert(is_trim_of(r@, s@)) by {
        if a == b {
            assert(all_white(v@.subrange(b as int, v@.len() as int)));
        }
    }
    proof {
        lemma_trim_unique(r@, s@);
    }
    r
}

/// The lowercase form of a text (`str::to_lowercase`, by Unicode case mapping).
pub uninterp spec fn lowercase(s: Seq<char>) -> Seq<char>;

/// The lowercase form of `s` (`str::to_lowercase`).
#[verifier::external_body]
pub fn to_lowercase(s: &str) -> (r: String)
    ensures
        r@ == lowercase(s@),
{
    s.to_lowercase()
}

/// Whether `c` has the Unicode Alphabetic property (`char::is_alphabetic`).
pub uninterp spec fn alphabetic(c: char) -> bool;

/// Whether `c` is alphabetic (`char::is_alphabetic`, the Unicode Alphabetic property).
#[verifier::external_body]
pub fn is_alphabetic(c: char) -> (r: bool)
    ensures
        r == alphabetic(c),
{
    c.is_alphabetic()
}

} // verus!
