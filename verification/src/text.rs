//! Helpers for comparing and rebuilding text by its UTF-8 bytes.

use vstd::prelude::*;
use vstd::utf8::{encode_utf8, encode_utf8_decode_utf8, valid_utf8};

verus! {

/// Two strings with the same UTF-8 bytes are the same string.
pub proof fn lemma_utf8_injective(a: Seq<char>, b: Seq<char>)
    requires
        encode_utf8(a) == encode_utf8(b),
    ensures
        a == b,
{
    encode_utf8_decode_utf8(a);
    encode_utf8_decode_utf8(b);
}

/// A string is within bounds if the length of its UTF-8 encoding fits in
/// 64 bits, as that of every string in memory does.
pub open spec fn text_wf(s: Seq<char>) -> bool {
    encode_utf8(s).len() <= u64::MAX
}

/// The length in bytes of the UTF-8 encoding of `s`.
pub fn text_len(s: &str) -> (n: u64)
    ensures
        n == encode_utf8(s@).len(),
        text_wf(s@),
{
    s.as_bytes().len() as u64
}

/// Whether two byte strings are equal.
pub fn bytes_eq(a: &[u8], b: &[u8]) -> (r: bool)
    ensures
        r == (a@ == b@),
{
    if a.len() != b.len() {
        return false;
    }
    let mut i: usize = 0;
    while i < a.len()
        invariant
            i <= a.len(),
            a.len() == b.len(),
            forall|j: int| 0 <= j < i ==> a@[j] == b@[j],
        decreases a.len() - i,
    {
        if a[i] != b[i] {
            return false;
        }
        i += 1;
    }
    assert(a@ =~= b@);
    true
}

/// Whether `a` begins with the bytes of `prefix`.
pub fn bytes_start_with(a: &[u8], prefix: &[u8]) -> (r: bool)
    ensures
        r == prefix@.is_prefix_of(a@),
{
    if a.len() < prefix.len() {
        return false;
    }
    let mut i: usize = 0;
    while i < prefix.len()
        invariant
            i <= prefix.len() <= a.len(),
            forall|j: int| 0 <= j < i ==> a@[j] == prefix@[j],
        decreases prefix.len() - i,
    {
        if a[i] != prefix[i] {
            return false;
        }
        i += 1;
    }
    true
}

/// Whether two strings are equal.
pub fn str_eq(a: &str, b: &str) -> (r: bool)
    ensures
        r == (a@ == b@),
{
    let r = bytes_eq(a.as_bytes(), b.as_bytes());
    proof {
        if r {
            lemma_utf8_injective(a@, b@);
        }
    }
    r
}

/// Calls `String::from_utf8` of the standard library. The contract states
/// what its documentation says: the call succeeds exactly on valid UTF-8,
/// and the string it returns has the given bytes as its encoding.
#[verifier::external_body]
pub(crate) fn string_from_utf8(bytes: Vec<u8>) -> (r: Option<String>)
    ensures
        r is Some <==> valid_utf8(bytes@),
        r matches Some(s) ==> encode_utf8(s@) == bytes@,
{
    match String::from_utf8(bytes) {
        Ok(s) => Some(s),
        Err(_) => None,
    }
}

/// Rebuilds a string from UTF-8 bytes: `Some` exactly when the bytes are
/// the encoding of a string, and that string is the one returned.
pub fn text_from_utf8(bytes: Vec<u8>) -> (r: Option<String>)
    ensures
        match r {
            Some(s) => encode_utf8(s@) == bytes@,
            None => forall|t: Seq<char>| encode_utf8(t) != bytes@,
        },
{
    let ghost b = bytes@;
    let r = string_from_utf8(bytes);
    proof {
        if r is None {
            assert forall|t: Seq<char>| encode_utf8(t) != b by {
                vstd::utf8::encode_utf8_valid_utf8(t);
            }
        }
    }
    r
}

} // verus!
