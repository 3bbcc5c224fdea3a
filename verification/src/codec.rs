//! Little-endian encoding of 64-bit integers, the building block of the
//! stored record formats.

use vstd::prelude::*;

verus! {

/// The eight little-endian bytes of a 64-bit value.
pub open spec fn u64_le(v: u64) -> Seq<u8> {
    seq![
        (v & 0xff) as u8,
        ((v >> 8) & 0xff) as u8,
        ((v >> 16) & 0xff) as u8,
        ((v >> 24) & 0xff) as u8,
        ((v >> 32) & 0xff) as u8,
        ((v >> 40) & 0xff) as u8,
        ((v >> 48) & 0xff) as u8,
        ((v >> 56) & 0xff) as u8,
    ]
}

/// The 64-bit value read from eight little-endian bytes.
pub open spec fn le_u64(s: Seq<u8>) -> u64
    recommends
        s.len() == 8,
{
    (s[0] as u64) | ((s[1] as u64) << 8) | ((s[2] as u64) << 16) | ((s[3] as u64) << 24)
        | ((s[4] as u64) << 32) | ((s[5] as u64) << 40) | ((s[6] as u64) << 48)
        | ((s[7] as u64) << 56)
}

/// Reading back the eight little-endian bytes of a value yields the value.
pub proof fn lemma_le_round_trip(v: u64)
    ensures
        le_u64(u64_le(v)) == v,
{
    let s = u64_le(v);
    assert(s[0] == (v & 0xff) as u8 && s[1] == ((v >> 8) & 0xff) as u8 && s[2] == ((v >> 16)
        & 0xff) as u8 && s[3] == ((v >> 24) & 0xff) as u8 && s[4] == ((v >> 32) & 0xff) as u8
        && s[5] == ((v >> 40) & 0xff) as u8 && s[6] == ((v >> 48) & 0xff) as u8 && s[7] == ((v
        >> 56) & 0xff) as u8);
    assert((((v & 0xff) as u8) as u64) | (((((v >> 8) & 0xff) as u8) as u64) << 8)
        | (((((v >> 16) & 0xff) as u8) as u64) << 16) | (((((v >> 24) & 0xff) as u8) as u64) << 24)
        | (((((v >> 32) & 0xff) as u8) as u64) << 32) | (((((v >> 40) & 0xff) as u8) as u64) << 40)
        | (((((v >> 48) & 0xff) as u8) as u64) << 48) | (((((v >> 56) & 0xff) as u8) as u64) << 56)
        == v) by (bit_vector);
}

/// Appends the eight little-endian bytes of `v` to `out`.
pub fn push_u64_le(out: &mut Vec<u8>, v: u64)
    ensures
        final(out)@ == old(out)@ + u64_le(v),
{
    out.push((v & 0xff) as u8);
    out.push(((v >> 8) & 0xff) as u8);
    out.push(((v >> 16) & 0xff) as u8);
    out.push(((v >> 24) & 0xff) as u8);
    out.push(((v >> 32) & 0xff) as u8);
    out.push(((v >> 40) & 0xff) as u8);
    out.push(((v >> 48) & 0xff) as u8);
    out.push(((v >> 56) & 0xff) as u8);
    proof {
        assert(out@ =~= old(out)@ + u64_le(v));
    }
}

/// Appends all of `b` to `out`.
pub fn push_bytes(out: &mut Vec<u8>, b: &Vec<u8>)
    ensures
        final(out)@ == old(out)@ + b@,
{
    let n = b.len();
    let mut i: usize = 0;
    while i < n
        invariant
            n == b@.len(),
            0 <= i <= n,
            out@ == old(out)@ + b@.subrange(0, i as int),
        decreases n - i,
    {
        out.push(b[i]);
        proof {
            assert(out@ =~= old(out)@ + b@.subrange(0, i + 1));
        }
        i = i + 1;
    }
    proof {
        assert(out@ =~= old(out)@ + b@);
    }
}

/// A fresh copy of `b[start .. start + len]`.
pub fn copy_range(b: &Vec<u8>, start: usize, len: usize) -> (r: Vec<u8>)
    requires
        start + len <= b@.len(),
    ensures
        r@ == b@.subrange(start as int, start as int + len as int),
{
    let mut r: Vec<u8> = Vec::new();
    let blen = b.len();
    let mut i: usize = 0;
    while i < len
        invariant
            blen == b@.len(),
            start + len <= b@.len(),
            0 <= i <= len,
            r@ == b@.subrange(start as int, start as int + i as int),
        decreases len - i,
    {
        r.push(b[start + i]);
        proof {
            assert(r@ =~= b@.subrange(start as int, start as int + i + 1));
        }
        i = i + 1;
    }
    r
}

/// Reads the 64-bit value stored little-endian at `b[off .. off + 8]`.
pub fn read_u64_le(b: &Vec<u8>, off: usize) -> (r: u64)
    requires
        off + 8 <= b@.len(),
    ensures
        r == le_u64(b@.subrange(off as int, off as int + 8)),
{
    let n = b.len();
    let r = (b[off] as u64) | ((b[off + 1] as u64) << 8) | ((b[off + 2] as u64) << 16)
        | ((b[off + 3] as u64) << 24) | ((b[off + 4] as u64) << 32)
        | ((b[off + 5] as u64) << 40) | ((b[off + 6] as u64) << 48)
        | ((b[off + 7] as u64) << 56);
    proof {
        let s = b@.subrange(off as int, off as int + 8);
        assert(s[0] == b@[off as int] && s[1] == b@[off as int + 1] && s[2] == b@[off as int + 2]
            && s[3] == b@[off as int + 3] && s[4] == b@[off as int + 4]
            && s[5] == b@[off as int + 5] && s[6] == b@[off as int + 6]
            && s[7] == b@[off as int + 7]);
    }
    r
}

} // verus!
