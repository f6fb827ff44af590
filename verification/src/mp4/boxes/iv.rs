//! Initialization vectors as 16-byte blocks.
use vstd::prelude::*;

verus! {

/// The 16-byte block of an IV: its first 16 bytes, padded with zeros at the end (an
/// 8-byte IV takes the high half of the counter block).
pub open spec fn padded_iv(s: Seq<u8>) -> Seq<u8> {
    Seq::new(16, |i: int| if i < s.len() { s[i] } else { 0u8 })
}

/// The 16-byte block of an IV.
pub fn pad_iv(v: &[u8]) -> (a: [u8; 16])
    ensures
        a@ == padded_iv(v@),
{
    let mut a = [0u8; 16];
    let n = if v.len() < 16 {
        v.len()
    } else {
        16
    };
    let mut i: usize = 0;
    while i < n
        invariant
            n <= 16,
            n <= v@.len(),
            n == v@.len() || n == 16,
            i <= n,
            a@.len() == 16,
            forall|j: int| 0 <= j < i ==> a@[j] == v@[j],
            forall|j: int| i <= j < 16 ==> a@[j] == 0u8,
        decreases n - i,
    {
        a[i] = v[i];
        i = i + 1;
    }
    proof {
        assert(a@ =~= padded_iv(v@));
    }
    a
}

} // verus!
