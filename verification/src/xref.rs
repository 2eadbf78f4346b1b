//! The cross-reference scanner: walks the code section as a stream of
//! variable-length instructions and records, for every 5-byte instruction
//! that carries an absolute address immediate, the string it references.

use vstd::prelude::*;
use crate::binary::{le32_at, read_u32_at};
use crate::strtable::{StringRef, StringTable, key_index, lemma_key_index_found};

verus! {

/// Length of the instruction that a 32-bit-mode decode assigns to the
/// given byte suffix. The decode depends on the bytes alone.
pub uninterp spec fn spec_instr_len(window: Seq<u8>) -> int;

/// Length of the instruction decoded at `off` in `data`.
pub open spec fn spec_len_at(data: Seq<u8>, off: int) -> int
    recommends 0 <= off < data.len(),
{
    spec_instr_len(data.subrange(off, data.len() as int))
}

/// Relies on iced_x86's `Decoder`: decoding one instruction from the
/// start of a non-empty buffer consumes at least one byte, never more
/// than the buffer holds, and depends on the buffer's bytes alone.
#[verifier::external_body]
fn instr_len_at(window: &[u8]) -> (len: usize)
    requires window@.len() >= 1,
    ensures
        1 <= len <= window@.len(),
        len == spec_instr_len(window@),
{
    let mut decoder = iced_x86::Decoder::with_ip(32, window, 0,
        iced_x86::DecoderOptions::NONE);
    let mut instr = iced_x86::Instruction::default();
    decoder.decode_out(&mut instr);
    instr.len()
}

/// The virtual-address keys of the table's records, in table order.
pub open spec fn keys_of(t: Seq<StringRef>) -> Seq<u32> {
    Seq::new(t.len(), |i: int| t[i].addr_virt)
}

/// The cross-reference lists of the table's records, in table order.
pub open spec fn xrefs_of(t: Seq<StringRef>) -> Seq<Seq<u32>> {
    Seq::new(t.len(), |i: int| t[i].xrefs@)
}

/// Index of the first key equal to `k`, or -1.
pub open spec fn ki_keys(keys: Seq<u32>, k: u32) -> int
    decreases keys.len(),
{
    if keys.len() == 0 {
        -1
    } else if keys[0] == k {
        0
    } else {
        let t = ki_keys(keys.subrange(1, keys.len() as int), k);
        if t == -1 { -1 } else { t + 1 }
    }
}

/// `ki_keys` over the key view agrees with `key_index` over the records.
pub proof fn lemma_ki_keys_agree(t: Seq<StringRef>, k: u32)
    ensures ki_keys(keys_of(t), k) == key_index(t, k),
    decreases t.len(),
{
    if t.len() > 0 {
        let tail = t.subrange(1, t.len() as int);
        lemma_ki_keys_agree(tail, k);
        assert(keys_of(t).subrange(1, keys_of(t).len() as int) =~= keys_of(tail));
    }
}

/// Whether the five bytes at `off` are an absolute-address-immediate
/// instruction image: the load-accumulator or push-immediate opcode
/// followed by a 4-byte little-endian value.
pub open spec fn window_is_ref(data: Seq<u8>, off: int) -> bool {
    &&& 0 <= off
    &&& off + 5 <= data.len()
    &&& (data[off] == 0xb8 || data[off] == 0x68)
}

/// The little-endian value carried by the window at `off`.
pub open spec fn window_target(data: Seq<u8>, off: int) -> u32
    recommends 0 <= off, off + 5 <= data.len(),
{
    le32_at(data, off + 1)
}

/// The effect of examining one 5-byte instruction at `off` whose own
/// address is `addr`: a matching nonzero target appends `addr` to that
/// record's list; anything else changes nothing.
pub open spec fn scan_update(xr: Seq<Seq<u32>>, keys: Seq<u32>, data: Seq<u8>, off: int,
    addr: u32) -> Seq<Seq<u32>>
    recommends xr.len() == keys.len(),
{
    if window_is_ref(data, off) && window_target(data, off) != 0
        && ki_keys(keys, window_target(data, off)) >= 0 {
        let i = ki_keys(keys, window_target(data, off));
        if 0 <= i < xr.len() { xr.update(i, xr[i].push(addr)) } else { xr }
    } else {
        xr
    }
}

/// The scan's effect folded over the decode offsets `offs[k..]`:
/// only instructions of exactly five bytes are inspected.
pub open spec fn scan_fold_xr(xr: Seq<Seq<u32>>, keys: Seq<u32>, data: Seq<u8>, base: u32,
    offs: Seq<int>, k: int) -> Seq<Seq<u32>>
    decreases offs.len() - k,
        when 0 <= k <= offs.len()
{
    if k >= offs.len() {
        xr
    } else {
        let off = offs[k];
        let xr2 = if spec_len_at(data, off) == 5 {
            scan_update(xr, keys, data, off, (base + off) as u32)
        } else {
            xr
        };
        scan_fold_xr(xr2, keys, data, base, offs, k + 1)
    }
}

/// `offs` is the complete chain of decode positions for the first
/// `avail` bytes of `data`: starting at 0, each next position one
/// decoded instruction further, stopping at or past `avail`.
pub open spec fn is_decode_chain(data: Seq<u8>, avail: int, offs: Seq<int>) -> bool {
    &&& (avail > 0 <==> offs.len() > 0)
    &&& (offs.len() > 0 ==> offs[0] == 0)
    &&& forall|i: int| 0 <= i < offs.len() ==> 0 <= #[trigger] offs[i] < avail
    &&& forall|i: int| 0 <= i < offs.len() - 1
        ==> #[trigger] offs[i + 1] == offs[i] + spec_len_at(data, offs[i])
    &&& (offs.len() > 0 ==> offs.last() + spec_len_at(data, offs.last()) >= avail)
}

/// Appending one more decode position folds as one more step.
proof fn lemma_scan_fold_xr_push(xr: Seq<Seq<u32>>, keys: Seq<u32>, data: Seq<u8>,
    base: u32, offs: Seq<int>, o: int, k: int)
    requires 0 <= k <= offs.len(),
    ensures
        scan_fold_xr(xr, keys, data, base, offs.push(o), k)
            == (if spec_len_at(data, o) == 5 {
                scan_update(scan_fold_xr(xr, keys, data, base, offs, k), keys, data, o,
                    (base + o) as u32)
            } else {
                scan_fold_xr(xr, keys, data, base, offs, k)
            }),
    decreases offs.len() - k,
{
    if k >= offs.len() {
        reveal_with_fuel(scan_fold_xr, 3);
        assert(offs.push(o)[k] == o);
    } else {
        assert(offs.push(o)[k] == offs[k]);
        let off = offs[k];
        let xr2 = if spec_len_at(data, off) == 5 {
            scan_update(xr, keys, data, off, (base + off) as u32)
        } else {
            xr
        };
        lemma_scan_fold_xr_push(xr2, keys, data, base, offs, o, k + 1);
    }
}

/// Walk the first `avail` bytes of the code section as an instruction
/// stream and append, to every record whose key a 5-byte instruction's
/// immediate matches, that instruction's own address `base + offset`.
///
/// Strings, keys and physical addresses are untouched; the new
/// cross-reference lists are exactly the fold of the per-instruction
/// effect over the decode chain.
pub fn scan_xrefs(table: &mut StringTable, text: &[u8], avail: usize, base: u32)
    requires
        old(table).wf(),
        avail <= text@.len(),
        base + avail <= u32::MAX,
    ensures
        final(table).wf(),
        final(table).entries@.len() == old(table).entries@.len(),
        keys_of(final(table).entries@) == keys_of(old(table).entries@),
        forall|i: int| 0 <= i < final(table).entries@.len() ==> {
            &&& final(table).entries@[i].str == old(table).entries@[i].str
            &&& final(table).entries@[i].addr_phys == old(table).entries@[i].addr_phys
            &&& final(table).entries@[i].addr_virt == old(table).entries@[i].addr_virt
        },
        exists|offs: Seq<int>| {
            &&& #[trigger] is_decode_chain(text@, avail as int, offs)
            &&& xrefs_of(final(table).entries@) == scan_fold_xr(
                xrefs_of(old(table).entries@), keys_of(old(table).entries@), text@, base,
                offs, 0)
        },
{
    let ghost keys = keys_of(old(table).entries@);
    let ghost xr0 = xrefs_of(old(table).entries@);
    let ghost mut offs: Seq<int> = Seq::empty();
    let text_len = text.len();
    let mut i: usize = 0;
    while i < avail
        invariant
            table.wf(),
            avail <= text_len == text@.len(),
            base + avail <= u32::MAX,
            i <= text@.len(),
            table.entries@.len() == old(table).entries@.len(),
            keys == keys_of(old(table).entries@),
            xr0 == xrefs_of(old(table).entries@),
            keys_of(table.entries@) == keys,
            forall|j: int| 0 <= j < table.entries@.len() ==> {
                &&& table.entries@[j].str == old(table).entries@[j].str
                &&& table.entries@[j].addr_phys == old(table).entries@[j].addr_phys
                &&& table.entries@[j].addr_virt == old(table).entries@[j].addr_virt
            },
            offs.len() > 0 ==> offs[0] == 0,
            i == 0 ==> offs.len() == 0,
            i > 0 ==> offs.len() > 0 && offs.last() < avail
                && i == offs.last() + spec_len_at(text@, offs.last()),
            forall|j: int| 0 <= j < offs.len() ==> 0 <= #[trigger] offs[j] < avail,
            forall|j: int| 0 <= j < offs.len() - 1
                ==> #[trigger] offs[j + 1] == offs[j] + spec_len_at(text@, offs[j]),
            xrefs_of(table.entries@) == scan_fold_xr(xr0, keys, text@, base, offs, 0),
        decreases text_len - i,
    {
        let window: &[u8] = vstd::slice::slice_subrange(text, i, text_len);
        let len = instr_len_at(window);
        proof {
            assert(window@ == text@.subrange(i as int, text@.len() as int));
            assert(len == spec_len_at(text@, i as int));
            lemma_scan_fold_xr_push(xr0, keys, text@, base, offs, i as int, 0);
        }
        let ghost prev_xr = xrefs_of(table.entries@);
        if len == 5 {
            let b0 = text[i];
            let target = read_u32_at(text, i + 1);
            if (b0 == 0xb8 || b0 == 0x68) && target != 0 {
                match table.lookup(target) {
                    Some(idx) => {
                        proof {
                            lemma_key_index_found(table.entries@, target);
                            lemma_ki_keys_agree(table.entries@, target);
                        }
                        table.push_xref(idx, base + i as u32);
                        proof {
                            assert(xrefs_of(table.entries@)
                                =~= prev_xr.update(idx as int, prev_xr[idx as int].push(
                                    (base + i) as u32)));
                            assert(keys_of(table.entries@) =~= keys);
                        }
                    }
                    None => {
                        proof {
                            lemma_ki_keys_agree(table.entries@, target);
                        }
                    }
                }
            }
            proof {
                assert(xrefs_of(table.entries@)
                    == scan_update(prev_xr, keys, text@, i as int, (base + i) as u32));
            }
        }
        proof {
            offs = offs.push(i as int);
        }
        i = i + len;
    }
    proof {
        assert(is_decode_chain(text@, avail as int, offs));
    }
}

/// One inspected 5-byte instruction behaves exactly as the
/// cross-reference rule says: the watched opcodes with a known nonzero
/// target record the instruction's address on that record and nothing
/// else; an unknown target or any other leading opcode records nothing.
pub proof fn lemma_scan_window_cases(xr: Seq<Seq<u32>>, keys: Seq<u32>, data: Seq<u8>,
    off: int, addr: u32)
    requires
        xr.len() == keys.len(),
        0 <= off,
        off + 5 <= data.len(),
    ensures
        (data[off] == 0xb8 || data[off] == 0x68) && window_target(data, off) != 0
            && ki_keys(keys, window_target(data, off)) >= 0
            && ki_keys(keys, window_target(data, off)) < xr.len()
            ==> {
                let i = ki_keys(keys, window_target(data, off));
                &&& scan_update(xr, keys, data, off, addr)[i] == xr[i].push(addr)
                &&& forall|j: int| 0 <= j < xr.len() && j != i
                    ==> scan_update(xr, keys, data, off, addr)[j] == xr[j]
            },
        ki_keys(keys, window_target(data, off)) == -1
            ==> scan_update(xr, keys, data, off, addr) == xr,
        !(data[off] == 0xb8 || data[off] == 0x68)
            ==> scan_update(xr, keys, data, off, addr) == xr,
{
}

} // verus!
