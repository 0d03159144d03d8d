//! Big-endian integer fields of the index format: reading them out of a byte
//! buffer and appending them to one, with exact contracts.
use vstd::prelude::*;

verus! {

/// The value of the big-endian 32-bit field starting at byte `i` of `d`.
pub open spec fn be32_at(d: Seq<u8>, i: int) -> int
    recommends
        0 <= i,
        i + 4 <= d.len(),
{
    (d[i] as int) * 0x1000000 + (d[i + 1] as int) * 0x10000 + (d[i + 2] as int) * 0x100 + (d[i
        + 3] as int)
}

/// The value of the big-endian 64-bit field starting at byte `i` of `d`.
pub open spec fn be64_at(d: Seq<u8>, i: int) -> int
    recommends
        0 <= i,
        i + 8 <= d.len(),
{
    (d[i] as int) * 0x100000000000000 + (d[i + 1] as int) * 0x1000000000000 + (d[i
        + 2] as int) * 0x10000000000 + (d[i + 3] as int) * 0x100000000 + (d[i
        + 4] as int) * 0x1000000 + (d[i + 5] as int) * 0x10000 + (d[i + 6] as int) * 0x100 + (d[i
        + 7] as int)
}

pub fn read_be32(d: &Vec<u8>, i: usize) -> (r: u32)
    requires
        i + 4 <= d@.len(),
    ensures
        r as int == be32_at(d@, i as int),
{
    let _n: usize = d.len();
    (d[i] as u32) * 0x1000000 + (d[i + 1] as u32) * 0x10000 + (d[i + 2] as u32) * 0x100 + (d[i
        + 3] as u32)
}

pub fn read_be64(d: &Vec<u8>, i: usize) -> (r: u64)
    requires
        i + 8 <= d@.len(),
    ensures
        r as int == be64_at(d@, i as int),
{
    let _n: usize = d.len();
    (d[i] as u64) * 0x100000000000000 + (d[i + 1] as u64) * 0x1000000000000 + (d[i
        + 2] as u64) * 0x10000000000 + (d[i + 3] as u64) * 0x100000000 + (d[i
        + 4] as u64) * 0x1000000 + (d[i + 5] as u64) * 0x10000 + (d[i + 6] as u64) * 0x100 + (d[i
        + 7] as u64)
}

/// The `len` bytes of `d` starting at `start`, as their own sequence.
pub open spec fn bytes_at(d: Seq<u8>, start: int, len: nat) -> Seq<u8> {
    Seq::new(len, |k: int| d[start + k])
}

/// Copies the `len` bytes of `d` starting at `start` into a fresh buffer.
pub fn read_bytes(d: &Vec<u8>, start: usize, len: usize) -> (r: Vec<u8>)
    requires
        start + len <= d@.len(),
    ensures
        r@ == bytes_at(d@, start as int, len as nat),
{
    let _n: usize = d.len();
    let mut r: Vec<u8> = Vec::new();
    let mut i: usize = 0;
    while i < len
        invariant
            0 <= i <= len,
            start + len <= d@.len(),
            d@.len() <= usize::MAX,
            r@.len() == i,
            forall|k: int| 0 <= k < i ==> r@[k] == d@[start + k],
        decreases len - i,
    {
        r.push(d[start + i]);
        i = i + 1;
    }
    proof {
        assert(r@ =~= bytes_at(d@, start as int, len as nat));
    }
    r
}

/// Appends the 4-byte big-endian encoding of `x`, leaving every byte already
/// in `out` unchanged.
pub fn push_be32(out: &mut Vec<u8>, x: u32)
    ensures
        final(out)@.len() == old(out)@.len() + 4,
        forall|j: int| 0 <= j < old(out)@.len() ==> final(out)@[j] == old(out)@[j],
        be32_at(final(out)@, old(out)@.len() as int) == x as int,
{
    let b3: u8 = (x % 0x100) as u8;
    let r1: u32 = x / 0x100;
    let b2: u8 = (r1 % 0x100) as u8;
    let r2: u32 = r1 / 0x100;
    let b1: u8 = (r2 % 0x100) as u8;
    let b0: u8 = (r2 / 0x100) as u8;
    out.push(b0);
    out.push(b1);
    out.push(b2);
    out.push(b3);
    proof {
        assert(x as int == (r1 as int) * 0x100 + b3 as int);
        assert(r1 as int == (r2 as int) * 0x100 + b2 as int);
        assert(r2 as int == (b0 as int) * 0x100 + b1 as int);
    }
}

/// Appends the 8-byte big-endian encoding of `x`, leaving every byte already
/// in `out` unchanged.
pub fn push_be64(out: &mut Vec<u8>, x: u64)
    ensures
        final(out)@.len() == old(out)@.len() + 8,
        forall|j: int| 0 <= j < old(out)@.len() ==> final(out)@[j] == old(out)@[j],
        be64_at(final(out)@, old(out)@.len() as int) == x as int,
{
    let b7: u8 = (x % 0x100) as u8;
    let r1: u64 = x / 0x100;
    let b6: u8 = (r1 % 0x100) as u8;
    let r2: u64 = r1 / 0x100;
    let b5: u8 = (r2 % 0x100) as u8;
    let r3: u64 = r2 / 0x100;
    let b4: u8 = (r3 % 0x100) as u8;
    let r4: u64 = r3 / 0x100;
    let b3: u8 = (r4 % 0x100) as u8;
    let r5: u64 = r4 / 0x100;
    let b2: u8 = (r5 % 0x100) as u8;
    let r6: u64 = r5 / 0x100;
    let b1: u8 = (r6 % 0x100) as u8;
    let b0: u8 = (r6 / 0x100) as u8;
    out.push(b0);
    out.push(b1);
    out.push(b2);
    out.push(b3);
    out.push(b4);
    out.push(b5);
    out.push(b6);
    out.push(b7);
    proof {
        assert(x as int == (r1 as int) * 0x100 + b7 as int);
        assert(r1 as int == (r2 as int) * 0x100 + b6 as int);
        assert(r2 as int == (r3 as int) * 0x100 + b5 as int);
        assert(r3 as int == (r4 as int) * 0x100 + b4 as int);
        assert(r4 as int == (r5 as int) * 0x100 + b3 as int);
        assert(r5 as int == (r6 as int) * 0x100 + b2 as int);
        assert(r6 as int == (b0 as int) * 0x100 + b1 as int);
    }
}

/// Appends every byte of `b`, leaving every byte already in `out` unchanged.
pub fn push_bytes(out: &mut Vec<u8>, b: &Vec<u8>)
    ensures
        final(out)@.len() == old(out)@.len() + b@.len(),
        forall|j: int| 0 <= j < old(out)@.len() ==> final(out)@[j] == old(out)@[j],
        forall|k: int| 0 <= k < b@.len() ==> final(out)@[old(out)@.len() + k] == b@[k],
{
    let mut i: usize = 0;
    while i < b.len()
        invariant
            0 <= i <= b@.len(),
            out@.len() == old(out)@.len() + i,
            forall|j: int| 0 <= j < old(out)@.len() ==> out@[j] == old(out)@[j],
            forall|k: int| 0 <= k < i ==> out@[old(out)@.len() + k] == b@[k],
        decreases b@.len() - i,
    {
        out.push(b[i]);
        i = i + 1;
    }
}

} // verus!
