//! Text taken from bytes on the wire.

use vstd::prelude::*;
use vstd::utf8::{decode_utf8, valid_utf8};

verus! {

/// The text that `String::from_utf8_lossy` makes of some bytes.
pub uninterp spec fn lossy_text(b: Seq<u8>) -> Seq<char>;

/// Relies on `String::from_utf8_lossy`: the text of the bytes, with invalid
/// sequences replaced.
#[verifier::external_body]
fn lossy_string(b: &[u8]) -> (r: String)
    ensures
        r@ == lossy_text(b@),
{
    String::from_utf8_lossy(b).into_owned()
}

/// Relies on `String::from_utf8`: it succeeds exactly on valid UTF-8, with
/// the text that the bytes encode.
#[verifier::external_body]
pub(crate) fn utf8_text(b: Vec<u8>) -> (r: Option<String>)
    ensures
        r is Some <==> valid_utf8(b@),
        r is Some ==> r->Some_0@ == decode_utf8(b@),
{
    String::from_utf8(b).ok()
}

/// The text that bytes stand for: the UTF-8 they encode, or where they are
/// not valid UTF-8, the text with invalid sequences replaced.
pub open spec fn text_of(b: Seq<u8>) -> Seq<char> {
    if valid_utf8(b) {
        decode_utf8(b)
    } else {
        lossy_text(b)
    }
}

/// The text that `b` stands for.
pub fn text_from_bytes(b: &[u8]) -> (r: String)
    ensures
        r@ == text_of(b@),
{
    let mut v: Vec<u8> = Vec::new();
    crate::encode::push_bytes(&mut v, b);
    assert(v@ =~= b@);
    match utf8_text(v) {
        Some(s) => s,
        None => lossy_string(b),
    }
}

} // verus!
