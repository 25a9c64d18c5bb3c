//! Byte scanning through the `memchr` crate.
//!
//! Line-boundary detection scans for the first or last newline of a slice.
//! The searches are delegated to `memchr`'s vectorized routines; their
//! contracts state exactly which index comes back.

use vstd::prelude::*;

verus! {

/// Relies on memchr::memchr: the index of the first occurrence of `needle`
/// in `haystack`, or `None` when it does not occur.
#[verifier::external_body]
pub(crate) fn memchr_first(needle: u8, haystack: &[u8]) -> (r: Option<usize>)
    ensures
        match r {
            Option::Some(i) => i < haystack@.len() && haystack@[i as int] == needle
                && forall|j: int| 0 <= j < i ==> haystack@[j] != needle,
            Option::None => forall|j: int| 0 <= j < haystack@.len() ==> haystack@[j] != needle,
        },
{
    memchr::memchr(needle, haystack)
}

/// Relies on memchr::memrchr: the index of the last occurrence of `needle`
/// in `haystack`, or `None` when it does not occur.
#[verifier::external_body]
pub(crate) fn memrchr_last(needle: u8, haystack: &[u8]) -> (r: Option<usize>)
    ensures
        match r {
            Option::Some(i) => i < haystack@.len() && haystack@[i as int] == needle
                && forall|j: int| i < j < haystack@.len() ==> haystack@[j] != needle,
            Option::None => forall|j: int| 0 <= j < haystack@.len() ==> haystack@[j] != needle,
        },
{
    memchr::memrchr(needle, haystack)
}

} // verus!
