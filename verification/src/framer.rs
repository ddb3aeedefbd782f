//! Wire framer: prepends the 4-byte big-endian length header that the
//! packet grammar expects in front of a raw, already-delimited datagram
//! payload.

use vstd::prelude::*;

use crate::packet::be32;

verus! {

/// Prepend the big-endian 4-byte length of `payload` to a copy of it.
///
/// The length must fit the 4-byte header; no further bound is put on the
/// payload, by design: callers handling untrusted input add their own.
pub fn frame(payload: &Vec<u8>) -> (r: Vec<u8>)
    requires
        payload@.len() <= u32::MAX,
    ensures
        r@ == be32(payload@.len() as u32) + payload@,
{
    let n: u32 = payload.len() as u32;
    let mut r: Vec<u8> = Vec::new();
    r.push((n >> 24) as u8);
    r.push((n >> 16) as u8);
    r.push((n >> 8) as u8);
    r.push(n as u8);
    let mut i: usize = 0;
    while i < payload.len()
        invariant
            i <= payload@.len(),
            payload@.len() <= u32::MAX,
            n == payload@.len() as u32,
            r@ =~= be32(n) + payload@.subrange(0, i as int),
        decreases payload@.len() - i,
    {
        r.push(payload[i]);
        i += 1;
    }
    proof {
        assert(r@ =~= be32(payload@.len() as u32) + payload@);
    }
    r
}

} // verus!
