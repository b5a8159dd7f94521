//! Small text-building helpers: appending characters to a `String` and
//! rendering integers as decimal text.

use vstd::prelude::*;

verus! {

/// Relies on `String::push`: appends exactly one character at the end.
#[verifier::external_body]
pub fn push_char(s: &mut String, c: char)
    ensures
        final(s)@ == old(s)@.push(c),
{
    s.push(c);
}

/// Copies a string, keeping its characters.
pub fn copy_string(s: &String) -> (r: String)
    ensures
        r@ == s@,
{
    let mut r = String::new();
    r.append(s.as_str());
    r
}

/// The decimal digit character for a value below ten.
pub open spec fn digit_char(d: int) -> char
    recommends
        0 <= d < 10,
{
    (0x30 + d) as char
}

/// The usual decimal rendering of a natural number, most significant digit
/// first, with no leading zeros (a lone `'0'` for zero).
pub open spec fn dec_text(n: nat) -> Seq<char>
    decreases n,
{
    if n < 10 {
        seq![digit_char(n as int)]
    } else {
        dec_text(n / 10).push(digit_char((n % 10) as int))
    }
}

/// The decimal rendering of a signed value: a minus sign in front of the
/// rendering of the magnitude.
pub open spec fn dec_text_signed(v: int) -> Seq<char> {
    if v >= 0 {
        dec_text(v as nat)
    } else {
        seq!['-'].add(dec_text((-v) as nat))
    }
}

/// Renders an unsigned 32-bit value in decimal.
pub fn u32_to_text(n: u32) -> (r: String)
    ensures
        r@ == dec_text(n as nat),
    decreases n,
{
    if n < 10 {
        let mut s = String::new();
        push_char(&mut s, digit_of(n as u8));
        s
    } else {
        let mut s = u32_to_text(n / 10);
        push_char(&mut s, digit_of((n % 10) as u8));
        s
    }
}

/// The digit character for one value below ten.
fn digit_of(d: u8) -> (c: char)
    requires
        d < 10,
    ensures
        c == digit_char(d as int),
{
    (0x30 + d) as char
}

/// Renders a signed 32-bit value in decimal.
pub fn i32_to_text(v: i32) -> (r: String)
    ensures
        r@ == dec_text_signed(v as int),
{
    if v >= 0 {
        u32_to_text(v as u32)
    } else {
        let wide: i64 = v as i64;
        let mag: u32 = (-wide) as u32;
        let mut s = String::new();
        push_char(&mut s, '-');
        let tail = u32_to_text(mag);
        s.append(tail.as_str());
        s
    }
}

} // verus!
