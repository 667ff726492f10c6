//! Byte-string building blocks: appending little-endian integers and byte
//! slices to a buffer, and comparing byte strings.

use vstd::prelude::*;

use vstd::bytes::{spec_u32_to_le_bytes, spec_u64_to_le_bytes, u32_to_le_bytes, u64_to_le_bytes};

verus! {

/// Appends `s` to `v`.
pub fn append_bytes(v: &mut Vec<u8>, s: &[u8])
    ensures
        final(v)@ == old(v)@ + s@,
{
    let ghost start = v@;
    let mut i: usize = 0;
    while i < s.len()
        invariant
            i <= s.len(),
            v@ == start + s@.subrange(0, i as int),
        decreases s.len() - i,
    {
        v.push(s[i]);
        proof {
            assert(s@.subrange(0, i + 1) =~= s@.subrange(0, i as int).push(s@[i as int]));
        }
        i = i + 1;
    }
    proof {
        assert(s@.subrange(0, s.len() as int) =~= s@);
    }
}

/// Appends the four little-endian bytes of `x` to `v`.
pub fn append_u32_le(v: &mut Vec<u8>, x: u32)
    ensures
        final(v)@ == old(v)@ + spec_u32_to_le_bytes(x),
{
    let b = u32_to_le_bytes(x);
    append_bytes(v, b.as_slice());
}

/// Appends the eight little-endian bytes of `x` to `v`.
pub fn append_u64_le(v: &mut Vec<u8>, x: u64)
    ensures
        final(v)@ == old(v)@ + spec_u64_to_le_bytes(x),
{
    let b = u64_to_le_bytes(x);
    append_bytes(v, b.as_slice());
}

/// Whether two byte strings are equal.
pub fn bytes_equal(a: &[u8], b: &[u8]) -> (res: bool)
    ensures
        res == (a@ == b@),
{
    if a.len() != b.len() {
        return false;
    }
    let mut i: usize = 0;
    while i < a.len()
        invariant
            a.len() == b.len(),
            i <= a.len(),
            forall|j: int| 0 <= j < i ==> a@[j] == b@[j],
        decreases a.len() - i,
    {
        if a[i] != b[i] {
            return false;
        }
        i = i + 1;
    }
    proof {
        assert(a@ =~= b@);
    }
    true
}

/// Whether two byte arrays are equal.
pub fn arrays_equal<const N: usize>(a: &[u8; N], b: &[u8; N]) -> (res: bool)
    ensures
        res == (*a == *b),
        res == (a@ == b@),
{
    let r = bytes_equal(a.as_slice(), b.as_slice());
    proof {
        broadcast use vstd::array::group_array_axioms;

        if a@ == b@ {
            assert forall|i: int| 0 <= i < N implies a[i] == b[i] by {
                assert(a@[i] == b@[i]);
            }
            assert(*a =~= *b);
        }
    }
    r
}

} // verus!
