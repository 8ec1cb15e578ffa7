//! Small verified helpers on text.
use vstd::prelude::*;

verus! {

/// Whether two strings hold the same characters, decided on their UTF-8 bytes.
pub fn same_text(a: &str, b: &str) -> (r: bool)
    ensures
        r == (a@ == b@),
{
    let x = a.as_bytes();
    let y = b.as_bytes();
    proof {
        vstd::utf8::encode_utf8_decode_utf8(a@);
        vstd::utf8::encode_utf8_decode_utf8(b@);
    }
    if x.len() != y.len() {
        return false;
    }
    let mut i: usize = 0;
    while i < x.len()
        invariant
            x@ == vstd::utf8::encode_utf8(a@),
            y@ == vstd::utf8::encode_utf8(b@),
            x@.len() == y@.len(),
            0 <= i <= x@.len(),
            forall|j: int| 0 <= j < i ==> x@[j] == y@[j],
        decreases x@.len() - i,
    {
        if x[i] != y[i] {
            return false;
        }
        i = i + 1;
    }
    assert(x@ =~= y@);
    true
}

/// Relies on std's `String::from_utf8`: it accepts exactly the valid UTF-8
/// byte strings, and the string it returns is made of those bytes.
#[verifier::external_body]
pub(crate) fn string_from_utf8(b: Vec<u8>) -> (r: Option<String>)
    ensures
        r is Some <==> vstd::utf8::valid_utf8(b@),
        r matches Some(s) ==> vstd::utf8::encode_utf8(s@) == b@,
{
    String::from_utf8(b).ok()
}

/// Reads a string from its UTF-8 bytes; the bytes of any string read back as
/// that string.
pub fn utf8_to_string(b: Vec<u8>) -> (r: Option<String>)
    ensures
        forall|s: Seq<char>| vstd::utf8::encode_utf8(s) == b@ ==> (r matches Some(t) && t@ == s),
{
    let ghost bytes = b@;
    let r = string_from_utf8(b);
    proof {
        assert forall|s: Seq<char>| vstd::utf8::encode_utf8(s) == bytes implies (r matches Some(
            t,
        ) && t@ == s) by {
            vstd::utf8::encode_utf8_valid_utf8(s);
            let t = r->0;
            vstd::utf8::encode_utf8_decode_utf8(s);
            vstd::utf8::encode_utf8_decode_utf8(t@);
        }
    }
    r
}

} // verus!
