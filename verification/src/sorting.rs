//! Sorting, from the standard library.
//!
//! Nothing in this module is proved: each function states what the sort it
//! calls promises.

use vstd::prelude::*;
use vstd::relations::sorted_by;
use vstd::utf8::encode_utf8;

verus! {

/// The order of 64-bit integers as a relation.
pub open spec fn u64_le() -> spec_fn(u64, u64) -> bool {
    |a: u64, b: u64| a <= b
}

/// `a` comes no later than `b` in the order of byte strings: at the first
/// position at which they differ `a` has the lower byte, or `a` ends there.
pub open spec fn bytes_le(a: Seq<u8>, b: Seq<u8>) -> bool
    decreases a.len(),
{
    if a.len() == 0 {
        true
    } else if b.len() == 0 {
        false
    } else if a[0] != b[0] {
        a[0] < b[0]
    } else {
        bytes_le(a.drop_first(), b.drop_first())
    }
}

/// The order of strings as a relation: the order of their bytes.
pub open spec fn string_le() -> spec_fn(Seq<char>, Seq<char>) -> bool {
    |a: Seq<char>, b: Seq<char>| bytes_le(encode_utf8(a), encode_utf8(b))
}

/// The strings as sequences of characters.
pub open spec fn views(strings: Seq<String>) -> Seq<Seq<char>> {
    strings.map_values(|s: String| s@)
}

/// `slice::sort` on 64-bit integers: puts the elements into non-decreasing
/// order.
#[verifier::external_body]
pub(crate) fn sort(v: &mut Vec<u64>)
    ensures
        final(v)@.to_multiset() == old(v)@.to_multiset(),
        sorted_by(final(v)@, u64_le()),
{
    v.sort();
}

/// `slice::sort` on strings: puts the strings into the order of their
/// bytes.
#[verifier::external_body]
pub(crate) fn sort_strings(v: &mut Vec<String>)
    ensures
        views(final(v)@).to_multiset() == views(old(v)@).to_multiset(),
        sorted_by(views(final(v)@), string_le()),
{
    v.sort();
}

} // verus!
