//! Byte-level helpers: searches through `memchr`, byte-slice equality and
//! UTF-8 validation of byte ranges.

use vstd::prelude::*;
use vstd::string::StringSliceAdditionalSpecFns;

verus! {

/// `memchr::memchr`: the index of the first occurrence of `needle` in
/// `haystack`, or `None` when the byte does not occur. The contract claims
/// exactly what the crate documents: a returned index is in bounds, holds the
/// needle, and no earlier byte does; `None` means no byte matches.
#[verifier::external_body]
pub(crate) fn find_byte(needle: u8, haystack: &[u8]) -> (r: Option<usize>)
    ensures
        match r {
            Some(i) => {
                &&& i < haystack@.len()
                &&& haystack@[i as int] == needle
                &&& forall|j: int| 0 <= j < i ==> haystack@[j] != needle
            },
            None => forall|j: int| 0 <= j < haystack@.len() ==> haystack@[j] != needle,
        },
{
    memchr::memchr(needle, haystack)
}

/// `memchr::memchr2`: the index of the first byte of `haystack` that equals
/// `a` or `b`, or `None` when neither occurs. The contract claims exactly the
/// documented behaviour: in-bounds index, matching byte, no earlier match.
#[verifier::external_body]
pub(crate) fn find_either_byte(a: u8, b: u8, haystack: &[u8]) -> (r: Option<usize>)
    ensures
        match r {
            Some(i) => {
                &&& i < haystack@.len()
                &&& (haystack@[i as int] == a || haystack@[i as int] == b)
                &&& forall|j: int| 0 <= j < i ==> haystack@[j] != a && haystack@[j] != b
            },
            None => forall|j: int|
                0 <= j < haystack@.len() ==> haystack@[j] != a && haystack@[j] != b,
        },
{
    memchr::memchr2(a, b, haystack)
}

/// `core::str::from_utf8`: the bytes as a string slice when they are valid
/// UTF-8, `None` otherwise. The contract states what std documents: success
/// exactly on valid UTF-8, and the returned slice has exactly these bytes.
#[verifier::external_body]
pub(crate) fn utf8_str(v: &[u8]) -> (r: Option<&str>)
    ensures
        r is Some <==> vstd::utf8::valid_utf8(v@),
        r matches Some(s) ==> s.spec_bytes() == v@,
{
    core::str::from_utf8(v).ok()
}

/// `str::parse::<T>`: the value `T::from_str` makes of `s`, or `None` when it
/// fails. What comes back depends on `T`'s own `FromStr`, so nothing is
/// promised of it.
#[verifier::external_body]
pub(crate) fn parse_value<T: core::str::FromStr>(s: &str) -> Option<T> {
    s.parse::<T>().ok()
}

/// Byte-wise equality of two slices.
pub(crate) fn bytes_eq(a: &[u8], b: &[u8]) -> (r: bool)
    ensures
        r == (a@ == b@),
{
    if a.len() != b.len() {
        return false;
    }
    let mut i: usize = 0;
    while i < a.len()
        invariant
            a@.len() == b@.len(),
            i <= a@.len(),
            forall|j: int| 0 <= j < i ==> a@[j] == b@[j],
        decreases a@.len() - i,
    {
        if a[i] != b[i] {
            return false;
        }
        i += 1;
    }
    assert(a@ =~= b@);
    true
}

} // verus!
