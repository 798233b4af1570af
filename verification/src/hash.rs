use vstd::prelude::*;
use vstd::string::*;

verus! {

pub const FNV_OFFSET_BASIS: u64 = 0xcbf2_9ce4_8422_2325;
pub const FNV_PRIME: u64 = 0x0000_0100_0000_01b3;

/// One step of the FNV-1a fold: mix one character into the running hash.
pub open spec fn hash_step(h: u64, c: char) -> u64 {
    (h ^ (c as u64)).wrapping_mul(FNV_PRIME)
}

/// FNV-1a hash of the first `n` characters of `s`.
pub open spec fn hash_prefix(s: Seq<char>, n: int) -> u64
    decreases n,
{
    if n <= 0 {
        FNV_OFFSET_BASIS
    } else {
        hash_step(hash_prefix(s, n - 1), s[n - 1])
    }
}

/// FNV-1a hash of a whole character sequence.
pub open spec fn command_hash_spec(s: Seq<char>) -> u64 {
    hash_prefix(s, s.len() as int)
}

/// Fingerprint of a resolved command line, recorded in the build database
/// and compared on later runs to decide staleness.
pub fn command_hash(s: &str) -> (r: u64)
    ensures
        r == command_hash_spec(s@),
{
    let n: usize = s.unicode_len();
    let mut h: u64 = FNV_OFFSET_BASIS;
    let mut i: usize = 0;
    while i < n
        invariant
            n == s@.len(),
            i <= n,
            h == hash_prefix(s@, i as int),
        decreases n - i,
    {
        let c = s.get_char(i);
        h = (h ^ (c as u64)).wrapping_mul(FNV_PRIME);
        i = i + 1;
    }
    h
}

} // verus!
