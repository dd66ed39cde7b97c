//! Character classes of the srcset grammar.
//!
//! Segments are separated by whitespace and commas; descriptor numbers are
//! built from ASCII digits and the decimal point.

use vstd::prelude::*;

verus! {

/// Whitespace, as the grammar understands it: the Unicode `White_Space`
/// characters, among them the ASCII space, tab, line and page breaks.
pub open spec fn is_space(c: char) -> bool {
    let u = c as u32;
    u == 0x09 || u == 0x0A || u == 0x0B || u == 0x0C || u == 0x0D || u == 0x20
        || u == 0x85 || u == 0xA0 || u == 0x1680
        || (0x2000 <= u && u <= 0x200A)
        || u == 0x2028 || u == 0x2029 || u == 0x202F || u == 0x205F || u == 0x3000
}

/// An ASCII decimal digit.
pub open spec fn is_digit(c: char) -> bool {
    let u = c as u32;
    0x30 <= u && u <= 0x39
}

/// A character that may appear in a numeric descriptor: a digit or a dot.
pub open spec fn is_num_char(c: char) -> bool {
    is_digit(c) || c == '.'
}

/// The numeric value of a digit character.
pub open spec fn digit_val(c: char) -> int {
    c as u32 - 0x30
}

/// Decides `is_space`.
pub fn space_char(c: char) -> (b: bool)
    ensures
        b == is_space(c),
{
    let u = c as u32;
    u == 0x09 || u == 0x0A || u == 0x0B || u == 0x0C || u == 0x0D || u == 0x20
        || u == 0x85 || u == 0xA0 || u == 0x1680
        || (0x2000 <= u && u <= 0x200A)
        || u == 0x2028 || u == 0x2029 || u == 0x202F || u == 0x205F || u == 0x3000
}

/// Decides `is_digit`.
pub fn digit_char(c: char) -> (b: bool)
    ensures
        b == is_digit(c),
{
    let u = c as u32;
    0x30 <= u && u <= 0x39
}

/// Decides `is_num_char`.
pub fn num_char(c: char) -> (b: bool)
    ensures
        b == is_num_char(c),
{
    digit_char(c) || c == '.'
}

/// Digits and the point are not whitespace.
pub proof fn lemma_num_not_space(c: char)
    requires
        is_num_char(c),
    ensures
        !is_space(c),
{
}

/// The descriptor letters are neither numeric nor whitespace.
pub proof fn lemma_kind_not_num(c: char)
    requires
        c == 'x' || c == 'w',
    ensures
        !is_num_char(c),
        !is_space(c),
{
}

} // verus!
