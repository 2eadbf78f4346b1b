//! Fixed-width lowercase hexadecimal rendering and parsing.
//!
//! Manifest lines carry every address as exactly eight lowercase hex digits.

use vstd::prelude::*;

verus! {

/// The lowercase hex digit for a value in `0 .. 16`.
pub open spec fn hex_digit(n: u32) -> u8
    recommends n < 16,
{
    if n < 10 { (0x30 + n) as u8 } else { (0x57 + n) as u8 }
}

/// The nibble of `v` rendered at digit position `i` (most significant first).
pub open spec fn nibble(v: u32, i: int) -> u32
    recommends 0 <= i < 8,
{
    (v >> (((7 - i) * 4) as u32)) & 0xf
}

/// The eight-digit lowercase hex rendering of `v`.
pub open spec fn hex8_of(v: u32) -> Seq<u8> {
    Seq::new(8, |i: int| hex_digit(nibble(v, i)))
}

/// Whether `b` is a lowercase hex digit byte.
pub open spec fn is_hex_byte(b: u8) -> bool {
    (0x30 <= b && b <= 0x39) || (0x61 <= b && b <= 0x66)
}

/// The value of a lowercase hex digit byte.
pub open spec fn hex_val(b: u8) -> u32
    recommends is_hex_byte(b),
{
    if b < 0x40 { (b - 0x30) as u32 } else { (b - 0x57) as u32 }
}

/// One accumulation step: shift four bits in from the right.
pub open spec fn acc_step(acc: u32, d: u32) -> u32
    recommends d < 16,
{
    (acc << 4u32) | (d & 0xf)
}

/// The value of the hex digits `s[i..]`, accumulated onto `acc`,
/// truncated to 32 bits.
pub open spec fn parse_hex_from(s: Seq<u8>, i: int, acc: u32) -> u32
    recommends 0 <= i <= s.len(),
    decreases s.len() - i,
        when 0 <= i <= s.len()
{
    if i >= s.len() { acc } else { parse_hex_from(s, i + 1, acc_step(acc, hex_val(s[i]))) }
}

/// The value of a sequence of hex digit bytes, truncated to 32 bits.
pub open spec fn parse_hex(s: Seq<u8>) -> u32 {
    parse_hex_from(s, 0, 0)
}

/// Append the eight lowercase hex digits of `v` to `out`.
pub fn push_hex8(out: &mut Vec<u8>, v: u32)
    ensures final(out)@ == old(out)@ + hex8_of(v),
{
    let mut i: usize = 0;
    while i < 8
        invariant
            i <= 8,
            out@ == old(out)@ + hex8_of(v).subrange(0, i as int),
        decreases 8 - i,
    {
        let sh: u32 = (7 - i as u32) * 4;
        let n: u32 = (v >> sh) & 0xf;
        assert(n < 16) by (bit_vector) requires n == (v >> sh) & 0xf;
        let d: u8 = if n < 10 { (0x30 + n) as u8 } else { (0x57 + n) as u8 };
        assert(d == hex_digit(nibble(v, i as int)));
        out.push(d);
        proof {
            assert(out@ =~= old(out)@ + hex8_of(v).subrange(0, i + 1));
        }
        i = i + 1;
    }
    proof {
        assert(hex8_of(v).subrange(0, 8) =~= hex8_of(v));
    }
}

/// Parse hex digit bytes into a 32-bit value, most significant digit first,
/// truncating to 32 bits as repeated shifting does.
pub fn parse_hex_bytes(s: &[u8], from: usize, to: usize) -> (r: u32)
    requires
        from <= to <= s@.len(),
        forall|i: int| from <= i < to ==> is_hex_byte(s@[i]),
    ensures
        r == parse_hex(s@.subrange(from as int, to as int)),
{
    let ghost sub = s@.subrange(from as int, to as int);
    let mut acc: u32 = 0;
    let mut i: usize = from;
    while i < to
        invariant
            from <= i <= to <= s@.len(),
            sub == s@.subrange(from as int, to as int),
            forall|j: int| from <= j < to ==> is_hex_byte(s@[j]),
            parse_hex_from(sub, i - from, acc) == parse_hex(sub),
        decreases to - i,
    {
        let b = s[i];
        let v: u32 = if b < 0x40 { (b - 0x30) as u32 } else { (b - 0x57) as u32 };
        let next: u32 = (acc << 4) | (v & 0xf);
        proof {
            assert(sub[i - from] == s@[i as int]);
            assert(next == acc_step(acc, hex_val(s@[i as int])));
        }
        acc = next;
        i = i + 1;
    }
    acc
}

/// A rendered hex digit parses back to its value.
pub proof fn lemma_hex_digit_val(n: u32)
    requires n < 16,
    ensures
        is_hex_byte(hex_digit(n)),
        hex_val(hex_digit(n)) == n,
{
}

/// Rendering then parsing an address is the identity.
pub proof fn lemma_hex8_roundtrip(v: u32)
    ensures
        hex8_of(v).len() == 8,
        forall|i: int| 0 <= i < 8 ==> is_hex_byte(#[trigger] hex8_of(v)[i]),
        parse_hex(hex8_of(v)) == v,
{
    let s = hex8_of(v);
    assert forall|i: int| 0 <= i < 8 implies is_hex_byte(#[trigger] s[i]) && hex_val(s[i])
        == nibble(v, i) by {
        let sh = ((7 - i) * 4) as u32;
        let n = nibble(v, i);
        assert((v >> sh) & 0xf < 16) by (bit_vector);
        lemma_hex_digit_val(n);
    }
    let n0 = nibble(v, 0);
    let n1 = nibble(v, 1);
    let n2 = nibble(v, 2);
    let n3 = nibble(v, 3);
    let n4 = nibble(v, 4);
    let n5 = nibble(v, 5);
    let n6 = nibble(v, 6);
    let n7 = nibble(v, 7);
    let a1 = acc_step(0, n0);
    let a2 = acc_step(a1, n1);
    let a3 = acc_step(a2, n2);
    let a4 = acc_step(a3, n3);
    let a5 = acc_step(a4, n4);
    let a6 = acc_step(a5, n5);
    let a7 = acc_step(a6, n6);
    let a8 = acc_step(a7, n7);
    assert(parse_hex(s) == a8) by {
        reveal_with_fuel(parse_hex_from, 9);
    }
    assert(a8 == v) by (bit_vector)
        requires
            n0 == (v >> 28u32) & 0xf,
            n1 == (v >> 24u32) & 0xf,
            n2 == (v >> 20u32) & 0xf,
            n3 == (v >> 16u32) & 0xf,
            n4 == (v >> 12u32) & 0xf,
            n5 == (v >> 8u32) & 0xf,
            n6 == (v >> 4u32) & 0xf,
            n7 == (v >> 0u32) & 0xf,
            a1 == (0u32 << 4u32) | (n0 & 0xf),
            a2 == (a1 << 4u32) | (n1 & 0xf),
            a3 == (a2 << 4u32) | (n2 & 0xf),
            a4 == (a3 << 4u32) | (n3 & 0xf),
            a5 == (a4 << 4u32) | (n4 & 0xf),
            a6 == (a5 << 4u32) | (n5 & 0xf),
            a7 == (a6 << 4u32) | (n6 & 0xf),
            a8 == (a7 << 4u32) | (n7 & 0xf);
}

} // verus!
