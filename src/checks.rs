//! Character classes of XML names and of the bytes of SVG attribute syntax.
use vstd::prelude::*;

verus! {

/// A character that may begin an XML name.
pub open spec fn xml_name_start(c: u32) -> bool {
    if c <= 128 {
        (65 <= c <= 90) || (97 <= c <= 122) || c == 58 || c == 95
    } else {
        (0xC0 <= c <= 0xD6) || (0xD8 <= c <= 0xF6) || (0xF8 <= c <= 0x2FF) || (0x370 <= c <= 0x37D)
            || (0x37F <= c <= 0x1FFF) || (0x200C <= c <= 0x200D) || (0x2070 <= c <= 0x218F) || (
        0x2C00 <= c <= 0x2FEF) || (0x3001 <= c <= 0xD7FF) || (0xF900 <= c <= 0xFDCF) || (0xFDF0
            <= c <= 0xFFFD) || (0x10000 <= c <= 0xEFFFF)
    }
}

/// A byte that may stand in an ASCII XML name: a letter, a digit, `:`, `_`, `-` or `.`.
pub open spec fn xml_name_byte(b: u8) -> bool {
    (65 <= b <= 90) || (97 <= b <= 122) || (48 <= b <= 57) || b == 58 || b == 95 || b == 45 || b
        == 46
}

/// A character that may continue an XML name.
pub open spec fn xml_name_char(c: u32) -> bool {
    if c <= 128 {
        xml_name_byte(c as u8)
    } else {
        c == 0xB7 || (0xC0 <= c <= 0xD6) || (0xD8 <= c <= 0xF6) || (0xF8 <= c <= 0x2FF) || (0x300
            <= c <= 0x36F) || (0x370 <= c <= 0x37D) || (0x37F <= c <= 0x1FFF) || (0x200C <= c
            <= 0x200D) || (0x203F <= c <= 0x2040) || (0x2070 <= c <= 0x218F) || (0x2C00 <= c
            <= 0x2FEF) || (0x3001 <= c <= 0xD7FF) || (0xF900 <= c <= 0xFDCF) || (0xFDF0 <= c
            <= 0xFFFD) || (0x10000 <= c <= 0xEFFFF)
    }
}

/// A character allowed in an XML document.
pub open spec fn xml_char(c: u32) -> bool {
    c == 9 || c == 10 || c == 13 || (0x20 <= c <= 0xD7FF) || (0xE000 <= c <= 0xFFFD) || (0x10000
        <= c <= 0x10FFFF)
}

pub open spec fn sign_byte(b: u8) -> bool {
    b == 43 || b == 45
}

pub open spec fn digit_byte(b: u8) -> bool {
    48 <= b <= 57
}

pub open spec fn hex_digit_byte(b: u8) -> bool {
    (48 <= b <= 57) || (65 <= b <= 70) || (97 <= b <= 102)
}

/// Space, tab, line feed or carriage return.
pub open spec fn space_byte(b: u8) -> bool {
    b == 32 || b == 9 || b == 10 || b == 13
}

pub open spec fn letter_byte(b: u8) -> bool {
    (65 <= b <= 90) || (97 <= b <= 122)
}

/// A letter, a digit, `-` or `_`.
pub open spec fn ident_byte(b: u8) -> bool {
    (48 <= b <= 57) || (65 <= b <= 90) || (97 <= b <= 122) || b == 45 || b == 95
}

/// Whether the code point `c` may begin an XML name.
pub fn is_name_start_code(c: u32) -> (r: bool)
    ensures
        r == xml_name_start(c),
{
    if c <= 128 {
        return (65 <= c && c <= 90) || (97 <= c && c <= 122) || c == 58 || c == 95;
    }
    (0xC0 <= c && c <= 0xD6) || (0xD8 <= c && c <= 0xF6) || (0xF8 <= c && c <= 0x2FF) || (0x370
        <= c && c <= 0x37D) || (0x37F <= c && c <= 0x1FFF) || (0x200C <= c && c <= 0x200D) || (
    0x2070 <= c && c <= 0x218F) || (0x2C00 <= c && c <= 0x2FEF) || (0x3001 <= c && c <= 0xD7FF)
        || (0xF900 <= c && c <= 0xFDCF) || (0xFDF0 <= c && c <= 0xFFFD) || (0x10000 <= c && c
        <= 0xEFFFF)
}

/// Whether the code point `c` may continue an XML name.
pub fn is_name_code(c: u32) -> (r: bool)
    ensures
        r == xml_name_char(c),
{
    if c <= 128 {
        return (c as u8).is_xml_name();
    }
    c == 0xB7 || (0xC0 <= c && c <= 0xD6) || (0xD8 <= c && c <= 0xF6) || (0xF8 <= c && c
        <= 0x2FF) || (0x300 <= c && c <= 0x36F) || (0x370 <= c && c <= 0x37D) || (0x37F <= c
        && c <= 0x1FFF) || (0x200C <= c && c <= 0x200D) || (0x203F <= c && c <= 0x2040) || (
    0x2070 <= c && c <= 0x218F) || (0x2C00 <= c && c <= 0x2FEF) || (0x3001 <= c && c <= 0xD7FF)
        || (0xF900 <= c && c <= 0xFDCF) || (0xFDF0 <= c && c <= 0xFFFD) || (0x10000 <= c && c
        <= 0xEFFFF)
}

/// Classes of characters in XML names.
pub trait XmlCharExt {
    spec fn spec_is_xml_name_start(&self) -> bool;

    spec fn spec_is_xml_name(&self) -> bool;

    spec fn spec_is_xml_char(&self) -> bool;

    fn is_xml_name_start(&self) -> (r: bool)
        ensures
            r == self.spec_is_xml_name_start(),
    ;

    fn is_xml_name(&self) -> (r: bool)
        ensures
            r == self.spec_is_xml_name(),
    ;

    fn is_xml_char(&self) -> (r: bool)
        ensures
            r == self.spec_is_xml_char(),
    ;
}

impl XmlCharExt for char {
    open spec fn spec_is_xml_name_start(&self) -> bool {
        xml_name_start(*self as u32)
    }

    open spec fn spec_is_xml_name(&self) -> bool {
        xml_name_char(*self as u32)
    }

    open spec fn spec_is_xml_char(&self) -> bool {
        xml_char(*self as u32)
    }

    fn is_xml_name_start(&self) -> (r: bool) {
        is_name_start_code(*self as u32)
    }

    fn is_xml_name(&self) -> (r: bool) {
        is_name_code(*self as u32)
    }

    fn is_xml_char(&self) -> (r: bool) {
        let c = *self as u32;
        c == 9 || c == 10 || c == 13 || (0x20 <= c && c <= 0xD7FF) || (0xE000 <= c && c <= 0xFFFD)
            || (0x10000 <= c && c <= 0x10FFFF)
    }
}

/// Classes of bytes in SVG attribute syntax.
pub trait ByteExt {
    spec fn spec_byte(&self) -> u8;

    fn is_sign(&self) -> (r: bool)
        ensures
            r == sign_byte(self.spec_byte()),
    ;

    fn is_digit(&self) -> (r: bool)
        ensures
            r == digit_byte(self.spec_byte()),
    ;

    fn is_hex_digit(&self) -> (r: bool)
        ensures
            r == hex_digit_byte(self.spec_byte()),
    ;

    fn is_whitespace(&self) -> (r: bool)
        ensures
            r == space_byte(self.spec_byte()),
    ;

    fn is_letter(&self) -> (r: bool)
        ensures
            r == letter_byte(self.spec_byte()),
    ;

    fn is_ident(&self) -> (r: bool)
        ensures
            r == ident_byte(self.spec_byte()),
    ;

    fn is_xml_name(&self) -> (r: bool)
        ensures
            r == xml_name_byte(self.spec_byte()),
    ;
}

impl ByteExt for u8 {
    open spec fn spec_byte(&self) -> u8 {
        *self
    }

    fn is_sign(&self) -> (r: bool) {
        *self == 43u8 || *self == 45u8
    }

    fn is_digit(&self) -> (r: bool) {
        48u8 <= *self && *self <= 57u8
    }

    fn is_hex_digit(&self) -> (r: bool) {
        (48u8 <= *self && *self <= 57u8) || (65u8 <= *self && *self <= 70u8) || (97u8 <= *self
            && *self <= 102u8)
    }

    fn is_whitespace(&self) -> (r: bool) {
        *self == 32u8 || *self == 9u8 || *self == 10u8 || *self == 13u8
    }

    fn is_letter(&self) -> (r: bool) {
        (65u8 <= *self && *self <= 90u8) || (97u8 <= *self && *self <= 122u8)
    }

    fn is_ident(&self) -> (r: bool) {
        (48u8 <= *self && *self <= 57u8) || (65u8 <= *self && *self <= 90u8) || (97u8 <= *self
            && *self <= 122u8) || *self == 45u8 || *self == 95u8
    }

    fn is_xml_name(&self) -> (r: bool) {
        (65u8 <= *self && *self <= 90u8) || (97u8 <= *self && *self <= 122u8) || (48u8 <= *self
            && *self <= 57u8) || *self == 58u8 || *self == 95u8 || *self == 45u8 || *self == 46u8
    }
}

} // verus!
