//! The stable path hash that seeds a graph layout, so a vault is laid out
//! the same way on every run and platform.

use vstd::prelude::*;
use vstd::string::StringSliceAdditionalSpecFns;

verus! {

/// The 64-bit FNV-1a hash of `bytes`: starting from the offset basis, each
/// byte is xored in and the result multiplied by the FNV prime, wrapping.
pub open spec fn fnv1a(bytes: Seq<u8>) -> u64
    decreases bytes.len(),
{
    if bytes.len() == 0 {
        0xcbf2_9ce4_8422_2325u64
    } else {
        ((fnv1a(bytes.drop_last()) ^ (bytes.last() as u64)) as int * 0x0000_0100_0000_01b3int
            % 0x1_0000_0000_0000_0000int) as u64
    }
}

/// FNV-1a of the path's UTF-8 bytes.
pub fn hash_path(path: &str) -> (r: u64)
    ensures
        r == fnv1a(path.spec_bytes()),
{
    let bytes = path.as_bytes();
    let mut hash: u64 = 0xcbf2_9ce4_8422_2325u64;
    let mut i: usize = 0;
    while i < bytes.len()
        invariant
            bytes@ == path.spec_bytes(),
            i <= bytes@.len(),
            hash == fnv1a(bytes@.take(i as int)),
        decreases bytes@.len() - i,
    {
        assert(bytes@.take(i + 1).drop_last() =~= bytes@.take(i as int));
        hash = hash ^ (bytes[i] as u64);
        hash = hash.wrapping_mul(0x0000_0100_0000_01b3u64);
        i = i + 1;
    }
    assert(bytes@.take(i as int) =~= bytes@);
    hash
}

} // verus!
