//! Little-endian field access and hexadecimal rendering over byte buffers.

use vstd::prelude::*;
use vstd::bytes::{spec_u16_from_le_bytes, spec_u32_from_le_bytes, spec_u32_to_le_bytes,
    u16_from_le_bytes, u32_from_le_bytes, u32_to_le_bytes};
use vstd::slice::slice_subrange;

verus! {

/// The 16-bit little-endian value stored at `off` in `data`.
pub open spec fn le16_at(data: Seq<u8>, off: int) -> u16
    recommends 0 <= off, off + 2 <= data.len(),
{
    spec_u16_from_le_bytes(data.subrange(off, off + 2))
}

/// The 32-bit little-endian value stored at `off` in `data`.
pub open spec fn le32_at(data: Seq<u8>, off: int) -> u32
    recommends 0 <= off, off + 4 <= data.len(),
{
    spec_u32_from_le_bytes(data.subrange(off, off + 4))
}

/// The 64-bit little-endian value stored at `off` in `data`.
pub open spec fn le64_at(data: Seq<u8>, off: int) -> u64
    recommends 0 <= off, off + 8 <= data.len(),
{
    vstd::bytes::spec_u64_from_le_bytes(data.subrange(off, off + 8))
}

pub fn read_u16_at(data: &[u8], off: usize) -> (r: u16)
    requires off + 2 <= data@.len(),
    ensures r == le16_at(data@, off as int),
{
    let n = data.len();
    let s = slice_subrange(data, off, off + 2);
    u16_from_le_bytes(s)
}

pub fn read_u32_at(data: &[u8], off: usize) -> (r: u32)
    requires off + 4 <= data@.len(),
    ensures r == le32_at(data@, off as int),
{
    let n = data.len();
    let s = slice_subrange(data, off, off + 4);
    u32_from_le_bytes(s)
}

pub fn read_u64_at(data: &[u8], off: usize) -> (r: u64)
    requires off + 8 <= data@.len(),
    ensures r == le64_at(data@, off as int),
{
    let n = data.len();
    let s = slice_subrange(data, off, off + 8);
    vstd::bytes::u64_from_le_bytes(s)
}

/// Overwrite the 4 bytes of `data` at `off` with the little-endian encoding of `v`.
pub fn write_u32_at(data: &mut Vec<u8>, off: usize, v: u32)
    requires off + 4 <= old(data)@.len(),
    ensures
        final(data)@.len() == old(data)@.len(),
        final(data)@.subrange(off as int, off + 4) == spec_u32_to_le_bytes(v),
        forall|i: int| 0 <= i < final(data)@.len() && !(off <= i < off + 4) ==> final(data)@[i] == old(data)@[i],
{
    let n = data.len();
    let bytes = u32_to_le_bytes(v);
    data.set(off, bytes[0]);
    data.set(off + 1, bytes[1]);
    data.set(off + 2, bytes[2]);
    data.set(off + 3, bytes[3]);
    proof {
        assert(data@.subrange(off as int, off + 4) =~= spec_u32_to_le_bytes(v));
    }
}

/// Append the little-endian encoding of a 16-bit value.
pub fn push_u16_le(out: &mut Vec<u8>, v: u16)
    ensures final(out)@ == old(out)@ + vstd::bytes::spec_u16_to_le_bytes(v),
{
    let bytes = vstd::bytes::u16_to_le_bytes(v);
    out.push(bytes[0]);
    out.push(bytes[1]);
    proof {
        assert(out@ =~= old(out)@ + vstd::bytes::spec_u16_to_le_bytes(v));
    }
}

/// Append the little-endian encoding of a 32-bit value.
pub fn push_u32_le(out: &mut Vec<u8>, v: u32)
    ensures final(out)@ == old(out)@ + spec_u32_to_le_bytes(v),
{
    let bytes = u32_to_le_bytes(v);
    out.push(bytes[0]);
    out.push(bytes[1]);
    out.push(bytes[2]);
    out.push(bytes[3]);
    proof {
        assert(out@ =~= old(out)@ + spec_u32_to_le_bytes(v));
    }
}

/// Append the little-endian encoding of a 64-bit value.
pub fn push_u64_le(out: &mut Vec<u8>, v: u64)
    ensures final(out)@ == old(out)@ + vstd::bytes::spec_u64_to_le_bytes(v),
{
    let bytes = vstd::bytes::u64_to_le_bytes(v);
    let mut i: usize = 0;
    while i < 8
        invariant
            i <= 8,
            bytes@ == vstd::bytes::spec_u64_to_le_bytes(v),
            bytes@.len() == 8,
            out@ == old(out)@ + bytes@.subrange(0, i as int),
        decreases 8 - i,
    {
        out.push(bytes[i]);
        proof {
            assert(out@ =~= old(out)@ + bytes@.subrange(0, i + 1));
        }
        i = i + 1;
    }
    proof {
        assert(out@ =~= old(out)@ + bytes@);
    }
}

/// `x` rounded up to the next multiple of `align`.
pub open spec fn round_up(x: int, align: int) -> int
    recommends align > 0,
{
    if x % align == 0 { x } else { x + align - x % align }
}

pub proof fn lemma_round_up(x: int, align: int)
    requires x >= 0, align > 0,
    ensures
        round_up(x, align) % align == 0,
        round_up(x, align) >= x,
        round_up(x, align) < x + align,
{
    if x % align != 0 {
        assert((x + align - x % align) % align == 0) by {
            let q = x / align;
            let r = x % align;
            vstd::arithmetic::div_mod::lemma_fundamental_div_mod(x, align);
            assert(x == align * q + r);
            assert(x + align - r == (q + 1) * align) by (nonlinear_arith)
                requires x == align * q + r;
            assert(((q + 1) * align) % align == 0) by (nonlinear_arith)
                requires align > 0;
        }
        assert(0 <= x % align < align) by (nonlinear_arith)
            requires align > 0, x >= 0;
    }
}

} // verus!
