//! Compact binary cache database: a bounded string dictionary that assigns
//! stable small indices to repeated byte strings, and a record codec that
//! packs cache entries into a 16-byte header plus a variable payload.

use vstd::prelude::*;

pub mod codec;
pub mod dicts;

verus! {

/// A byte string contains the persisted-form line terminator.
pub open spec fn has_newline(s: Seq<u8>) -> bool {
    exists|i: int| 0 <= i < s.len() && s[i] == 10u8
}

/// Appends all bytes of `b` to `out`.
pub fn push_bytes(out: &mut Vec<u8>, b: &[u8])
    ensures
        final(out)@ == old(out)@ + b@,
{
    let ghost out0 = out@;
    let n = b.len();
    let mut i: usize = 0;
    assert(out@ =~= out0 + b@.subrange(0, 0));
    while i < n
        invariant
            n == b@.len(),
            0 <= i <= n,
            out@ == out0 + b@.subrange(0, i as int),
        decreases n - i,
    {
        out.push(b[i]);
        assert(out@ =~= out0 + b@.subrange(0, i + 1 as int));
        i = i + 1;
    }
    assert(out@ =~= out0 + b@);
}

} // verus!
