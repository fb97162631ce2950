//! Byte constants and character classes shared by the parsers.

use vstd::prelude::*;

verus! {

pub const TAB: u8 = 0x09;
pub const NEWLINE: u8 = 0x0A;
pub const CARRIAGE_RETURN: u8 = 0x0D;
pub const SPACE: u8 = 0x20;
pub const QUOTE: u8 = 0x22;
pub const COMMA: u8 = 0x2C;
pub const MINUS: u8 = 0x2D;
pub const DOT: u8 = 0x2E;
pub const COLON: u8 = 0x3A;
pub const EQUALS: u8 = 0x3D;
pub const OPEN_BRACKET: u8 = 0x5B;
pub const BACKSLASH: u8 = 0x5C;
pub const CLOSE_BRACKET: u8 = 0x5D;
pub const UNDERSCORE: u8 = 0x5F;
pub const OPEN_BRACE: u8 = 0x7B;
pub const CLOSE_BRACE: u8 = 0x7D;

/// The ASCII lower-case form of a byte; bytes outside `A..=Z` are unchanged.
pub open spec fn lower(b: u8) -> u8 {
    if 0x41 <= b <= 0x5A {
        (b + 0x20) as u8
    } else {
        b
    }
}

/// A byte string with every ASCII upper-case letter folded to lower case.
pub open spec fn lowered(s: Seq<u8>) -> Seq<u8> {
    Seq::new(s.len(), |i: int| lower(s[i]))
}

pub open spec fn is_alpha(b: u8) -> bool {
    (0x41 <= b <= 0x5A) || (0x61 <= b <= 0x7A)
}

pub open spec fn is_digit(b: u8) -> bool {
    0x30 <= b <= 0x39
}

pub open spec fn is_alnum(b: u8) -> bool {
    is_alpha(b) || is_digit(b)
}

/// Space or horizontal tab.
pub open spec fn is_blank(b: u8) -> bool {
    b == SPACE || b == TAB
}

pub fn to_lower(b: u8) -> (r: u8)
    ensures
        r == lower(b),
{
    if 0x41 <= b && b <= 0x5A {
        b + 0x20
    } else {
        b
    }
}

pub fn is_ascii_alphabetic(b: u8) -> (r: bool)
    ensures
        r == is_alpha(b),
{
    (0x41 <= b && b <= 0x5A) || (0x61 <= b && b <= 0x7A)
}

pub fn is_ascii_alphanumeric(b: u8) -> (r: bool)
    ensures
        r == is_alnum(b),
{
    is_ascii_alphabetic(b) || (0x30 <= b && b <= 0x39)
}

/// Byte-wise equality of two slices.
pub fn bytes_eq(a: &[u8], b: &[u8]) -> (r: bool)
    ensures
        r == (a@ == b@),
{
    if a.len() != b.len() {
        return false;
    }
    let mut i: usize = 0;
    while i < a.len()
        invariant
            i <= a.len(),
            a.len() == b.len(),
            forall|j: int| 0 <= j < i ==> a@[j] == b@[j],
        decreases a.len() - i,
    {
        if a[i] != b[i] {
            return false;
        }
        i += 1;
    }
    assert(a@ =~= b@);
    true
}

} // verus!
