//! Decimal and hexadecimal rendering of integers as ASCII bytes.
use vstd::prelude::*;
use crate::strings::push_char;

verus! {

/// The ASCII digit for a value below ten.
pub open spec fn digit_byte(d: nat) -> u8 {
    (48 + d) as u8
}

/// Decimal digits of `n`, most significant first, without leading zeros ("0" for zero).
pub open spec fn spec_decimal(n: nat) -> Seq<u8>
    decreases n,
{
    if n < 10 {
        seq![digit_byte(n)]
    } else {
        spec_decimal(n / 10).push(digit_byte(n % 10))
    }
}

/// Renders `n` in decimal.
pub fn decimal(n: u64) -> (r: Vec<u8>)
    ensures
        r@ == spec_decimal(n as nat),
    decreases n,
{
    if n < 10 {
        let mut v: Vec<u8> = Vec::new();
        v.push(48u8 + n as u8);
        v
    } else {
        let mut v = decimal(n / 10);
        v.push(48u8 + (n % 10) as u8);
        v
    }
}

/// Appends every byte of `src` to `dst`.
pub fn push_all(dst: &mut Vec<u8>, src: &[u8])
    ensures
        final(dst)@ == old(dst)@ + src@,
{
    let mut k: usize = 0;
    while k < src.len()
        invariant
            k <= src@.len(),
            dst@ == old(dst)@ + src@.subrange(0, k as int),
        decreases src@.len() - k,
    {
        dst.push(src[k]);
        k = k + 1;
        assert(src@.subrange(0, k as int) == src@.subrange(0, k - 1).push(src@[k - 1]));
    }
    assert(src@.subrange(0, src@.len() as int) == src@);
}


/// The uppercase hexadecimal digit for a value below sixteen.
pub open spec fn hex_digit_upper(d: nat) -> u8 {
    if d < 10 {
        (48 + d) as u8
    } else {
        (55 + d) as u8
    }
}

/// Two uppercase hexadecimal digits of a byte.
pub open spec fn spec_hex_byte(b: u8) -> Seq<u8> {
    seq![hex_digit_upper((b / 16) as nat), hex_digit_upper((b % 16) as nat)]
}

/// Uppercase hexadecimal digits of every byte, two per byte.
pub open spec fn spec_hex_bytes(data: Seq<u8>) -> Seq<u8>
    decreases data.len(),
{
    if data.len() == 0 {
        Seq::empty()
    } else {
        spec_hex_bytes(data.drop_last()) + spec_hex_byte(data.last())
    }
}

fn hex_digit(d: u8) -> (r: u8)
    requires
        d < 16,
    ensures
        r == hex_digit_upper(d as nat),
{
    if d < 10 {
        48 + d
    } else {
        55 + d
    }
}

/// Appends the two uppercase hexadecimal digits of every byte of `data` to `dst`.
pub fn push_hex_bytes(dst: &mut Vec<u8>, data: &[u8])
    ensures
        final(dst)@ == old(dst)@ + spec_hex_bytes(data@),
{
    let mut k: usize = 0;
    while k < data.len()
        invariant
            k <= data@.len(),
            dst@ == old(dst)@ + spec_hex_bytes(data@.subrange(0, k as int)),
        decreases data@.len() - k,
    {
        let b = data[k];
        dst.push(hex_digit(b / 16));
        dst.push(hex_digit(b % 16));
        assert(data@.subrange(0, k + 1).drop_last() == data@.subrange(0, k as int));
        k = k + 1;
    }
    assert(data@.subrange(0, data@.len() as int) == data@);
}

/// `n` copies of the ASCII digit zero.
pub open spec fn zeros(n: nat) -> Seq<u8> {
    Seq::new(n, |k: int| 48u8)
}

/// Decimal digits of `n` left-padded with zeros to at least ten digits.
pub open spec fn spec_decimal10(n: nat) -> Seq<u8> {
    let d = spec_decimal(n);
    if d.len() < 10 {
        zeros((10 - d.len()) as nat) + d
    } else {
        d
    }
}

/// Renders `n` in decimal, zero-padded to at least ten digits.
pub fn decimal10(n: u64) -> (r: Vec<u8>)
    ensures
        r@ == spec_decimal10(n as nat),
{
    let d = decimal(n);
    if d.len() < 10 {
        let mut r: Vec<u8> = Vec::new();
        let pad = 10 - d.len();
        let mut k: usize = 0;
        while k < pad
            invariant
                k <= pad,
                r@ == zeros(k as nat),
            decreases pad - k,
        {
            r.push(48u8);
            k = k + 1;
            assert(r@ == zeros(k as nat));
        }
        push_all(&mut r, d.as_slice());
        r
    } else {
        d
    }
}

/// Decimal rendering of a signed value: a minus sign before the magnitude when negative.
pub open spec fn spec_decimal_i(n: int) -> Seq<u8> {
    if n < 0 {
        seq![45u8] + spec_decimal((-n) as nat)
    } else {
        spec_decimal(n as nat)
    }
}

/// Renders a 32-bit signed value in decimal.
pub fn decimal_i32(n: i32) -> (r: Vec<u8>)
    ensures
        r@ == spec_decimal_i(n as int),
{
    if n < 0 {
        let mag: u64 = (0 - (n as i64)) as u64;
        let mut r: Vec<u8> = Vec::new();
        r.push(45u8);
        let d = decimal(mag);
        push_all(&mut r, d.as_slice());
        r
    } else {
        decimal(n as u64)
    }
}

/// The hexadecimal digit character for a value below sixteen, in lowercase or uppercase.
pub open spec fn hex_char(d: nat, upper: bool) -> char {
    if d < 10 {
        (48 + d) as char
    } else if upper {
        (55 + d) as char
    } else {
        (87 + d) as char
    }
}

/// Hexadecimal digits of `n`, most significant first, without leading zeros ("0" for zero).
pub open spec fn spec_hex(n: nat, upper: bool) -> Seq<char>
    decreases n,
{
    if n < 16 {
        seq![hex_char(n, upper)]
    } else {
        spec_hex(n / 16, upper).push(hex_char(n % 16, upper))
    }
}

/// The hexadecimal digits of `n` left-padded with '0' to at least `width` digits.
pub open spec fn spec_hex_padded(n: nat, upper: bool, width: nat) -> Seq<char> {
    let h = spec_hex(n, upper);
    if h.len() < width {
        Seq::new((width - h.len()) as nat, |k: int| '0') + h
    } else {
        h
    }
}

fn hex_char_of(d: u8, upper: bool) -> (r: char)
    requires
        d < 16,
    ensures
        r == hex_char(d as nat, upper),
{
    if d < 10 {
        (48u8 + d) as char
    } else if upper {
        (55u8 + d) as char
    } else {
        (87u8 + d) as char
    }
}

/// Appends the hexadecimal digits of `n` (no leading zeros) to `s`.
pub fn push_hex(s: &mut String, n: u128, upper: bool)
    ensures
        final(s)@ == old(s)@ + spec_hex(n as nat, upper),
    decreases n,
{
    if n < 16 {
        push_char(s, hex_char_of(n as u8, upper));
    } else {
        push_hex(s, n / 16, upper);
        push_char(s, hex_char_of((n % 16) as u8, upper));
    }
}

/// Appends the hexadecimal digits of `n`, left-padded with '0' to at least `width` digits.
pub fn push_hex_padded(s: &mut String, n: u128, upper: bool, width: usize)
    ensures
        final(s)@ == old(s)@ + spec_hex_padded(n as nat, upper, width as nat),
{
    let mut digits = String::new();
    push_hex(&mut digits, n, upper);
    let len = crate::strings::chars_of(digits.as_str()).len();
    let ghost h = spec_hex(n as nat, upper);
    assert(digits@ == h);
    if len < width {
        let mut k: usize = 0;
        while k < width - len
            invariant
                k <= width - len,
                len == h.len(),
                len < width,
                s@ == old(s)@ + Seq::new(k as nat, |j: int| '0'),
            decreases width - len - k,
        {
            push_char(s, '0');
            k = k + 1;
            assert(s@ =~= old(s)@ + Seq::new(k as nat, |j: int| '0'));
        }
    }
    crate::strings::push_str(s, digits.as_str());
    assert(s@ =~= old(s)@ + spec_hex_padded(n as nat, upper, width as nat));
}

} // verus!
