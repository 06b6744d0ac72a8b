use vstd::prelude::*;
use vstd::utf8::{decode_utf8, valid_utf8};

verus! {

/// Bit of the general-purpose flag that marks a name as UTF-8.
pub const UTF8_NAME_FLAG: u16 = 0x0800;

/// The text that stands for a UTF-8-flagged name that is not well-formed.
pub open spec fn invalid_utf8_text() -> Seq<char> {
    "[invalid utf8]"@
}

/// The text that Shift-JIS decoding makes of bytes, with malformed sequences
/// replaced by U+FFFD; a leading UTF-8 or UTF-16 byte order mark is obeyed
/// and removed instead.
pub uninterp spec fn shift_jis_decoded(b: Seq<u8>) -> Seq<char>;

/// The path of an entry whose name bytes are `name` and whose general-purpose
/// flag is `flag`.
pub open spec fn name_text(flag: u16, name: Seq<u8>) -> Seq<char> {
    if flag & UTF8_NAME_FLAG != 0 {
        if valid_utf8(name) {
            decode_utf8(name)
        } else {
            invalid_utf8_text()
        }
    } else {
        shift_jis_decoded(name)
    }
}

/// Relies on `std::str::from_utf8`: it succeeds exactly on well-formed UTF-8,
/// and then gives the text that the bytes encode.
#[verifier::external_body]
fn utf8_text(b: &[u8]) -> (r: Option<String>)
    ensures
        r is Some <==> valid_utf8(b@),
        r matches Some(s) ==> s@ == decode_utf8(b@),
{
    std::str::from_utf8(b).ok().map(|s| s.to_string())
}

/// Relies on `encoding_rs::SHIFT_JIS.decode`: the text (with malformed
/// sequences replaced, and a leading byte order mark obeyed) depends on the
/// bytes alone.
#[verifier::external_body]
fn decode_shift_jis(b: &[u8]) -> (r: String)
    ensures
        r@ == shift_jis_decoded(b@),
{
    encoding_rs::SHIFT_JIS.decode(b).0.into_owned()
}

/// Decodes an entry name: as UTF-8 when the flag says so, with a fixed
/// placeholder for malformed bytes, and as Shift-JIS otherwise.
pub fn decode_name(flag: u16, name: &[u8]) -> (r: String)
    ensures
        r@ == name_text(flag, name@),
{
    if flag & UTF8_NAME_FLAG != 0 {
        match utf8_text(name) {
            Some(s) => s,
            None => String::from_str("[invalid utf8]"),
        }
    } else {
        decode_shift_jis(name)
    }
}

} // verus!
