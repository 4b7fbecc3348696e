//! Character classes used by the scanner.
//!
//! Identifier characters follow the Unicode `XID_Start` / `XID_Continue`
//! properties and digits follow the Unicode `Numeric` general categories.
//! Those tables live outside this crate, so each class is an uninterpreted
//! spec function paired with a trusted lookup; on the ASCII range the tables
//! are small enough to state exactly.

use vstd::prelude::*;

verus! {

/// Whether `c` has the Unicode `XID_Start` property.
pub uninterp spec fn xid_start(c: char) -> bool;

/// Whether `c` has the Unicode `XID_Continue` property.
pub uninterp spec fn xid_continue(c: char) -> bool;

/// Whether `c` is in one of the Unicode `Numeric` general categories.
pub uninterp spec fn numeric(c: char) -> bool;

/// Whether `c` may start an identifier. ASCII is decided right here: exactly
/// the letters. Beyond ASCII the `XID_Start` table decides.
pub open spec fn ident_start_char(c: char) -> bool {
    if (c as u32) < 128 {
        ('a' <= c && c <= 'z') || ('A' <= c && c <= 'Z')
    } else {
        xid_start(c)
    }
}

/// Whether `c` may continue an identifier. ASCII is decided right here:
/// exactly the letters, the digits and the underscore. Beyond ASCII the
/// `XID_Continue` table decides.
pub open spec fn ident_continue_char(c: char) -> bool {
    if (c as u32) < 128 {
        ('a' <= c && c <= 'z') || ('A' <= c && c <= 'Z') || ('0' <= c && c <= '9') || c == '_'
    } else {
        xid_continue(c)
    }
}

/// Whether `c` is a digit. ASCII is decided right here: exactly `0` through
/// `9`. Beyond ASCII the `Numeric` categories decide.
pub open spec fn numeric_char(c: char) -> bool {
    if (c as u32) < 128 {
        '0' <= c && c <= '9'
    } else {
        numeric(c)
    }
}

/// Relies on `unicode_xid::UnicodeXID::is_xid_start`: a pure lookup of the
/// `XID_Start` property, which on ASCII holds exactly for the letters.
#[verifier::external_body]
pub fn is_xid_start(c: char) -> (r: bool)
    ensures
        r == xid_start(c),
        (c as u32) < 128 ==> r == (('a' <= c && c <= 'z') || ('A' <= c && c <= 'Z')),
{
    unicode_xid::UnicodeXID::is_xid_start(c)
}

/// Relies on `unicode_xid::UnicodeXID::is_xid_continue`: a pure lookup of the
/// `XID_Continue` property, which on ASCII holds exactly for the letters, the
/// digits and the underscore.
#[verifier::external_body]
pub fn is_xid_continue(c: char) -> (r: bool)
    ensures
        r == xid_continue(c),
        (c as u32) < 128 ==> r == (('a' <= c && c <= 'z') || ('A' <= c && c <= 'Z') || (
        '0' <= c && c <= '9') || c == '_'),
{
    unicode_xid::UnicodeXID::is_xid_continue(c)
}

/// Relies on `char::is_numeric`: true when the character is in a Unicode
/// `Numeric` general category, which on ASCII holds exactly for the digits.
#[verifier::external_body]
pub fn is_numeric(c: char) -> (r: bool)
    ensures
        r == numeric(c),
        (c as u32) < 128 ==> r == ('0' <= c && c <= '9'),
{
    c.is_numeric()
}

} // verus!
